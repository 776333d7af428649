use laplace_rs::document::{count_obfuscation_sites, obfuscate_document, Node, NoiseDraws};
use laplace_rs::ratio::Ratio;
use laplace_rs::ObfCache;

fn obj(entries: Vec<(&str, Node)>) -> Node {
    Node::Object(entries.into_iter().map(|(k, v)| (k.to_string(), v)).collect())
}

fn no_draws() -> NoiseDraws {
    NoiseDraws { patients: vec![], diagnosis: vec![], specimen: vec![] }
}

fn zero_draws(n: usize) -> Vec<Ratio> {
    (0..n).map(|_| Ratio::from_int(0)).collect()
}

fn patients_report(population: u64, strat_a: u64, strat_b: u64) -> Node {
    obj(vec![
        ("label", Node::Text("patients".to_string())),
        ("population", Node::Array(vec![obj(vec![("count", Node::Uint(population))])])),
        (
            "stratifier",
            Node::Array(vec![
                obj(vec![("count", Node::Uint(strat_a))]),
                obj(vec![("count", Node::Uint(strat_b))]),
            ]),
        ),
    ])
}

#[test]
fn test_document_end_to_end() {
    let tree = patients_report(74, 31, 43);
    let mut cache = ObfCache::new();
    let sites = count_obfuscation_sites(&tree, &cache);
    assert_eq!(sites.patients, 3);
    assert_eq!(sites.diagnosis, 0);
    assert_eq!(sites.specimen, 0);

    let mut draws = NoiseDraws {
        patients: zero_draws(sites.patients as usize),
        diagnosis: vec![],
        specimen: vec![],
    };
    let (out, warnings) = obfuscate_document(tree, &mut cache, &mut draws);
    assert!(warnings.is_empty());

    // with zero noise the counts land on the next multiples of ten
    let expected = patients_report(70, 30, 40);
    assert_eq!(out, expected);

    // every replaced value is a multiple of ten, cached under its key
    assert_eq!(cache.get(1, 74, 1), Some(70));
    assert_eq!(cache.get(1, 31, 2), Some(30));
    assert_eq!(cache.get(1, 43, 2), Some(40));

    // against the now-warm cache no site needs a draw any more
    let warm_sites = count_obfuscation_sites(&patients_report(74, 31, 43), &cache);
    assert_eq!((warm_sites.patients, warm_sites.diagnosis, warm_sites.specimen), (0, 0, 0));

    // re-running with the same cache returns identical output and draws no
    // new randomness, whatever supply the second run carries
    let tree_again = patients_report(74, 31, 43);
    let mut draws2 = NoiseDraws {
        patients: vec![Ratio::from_int(1000), Ratio::from_int(1000), Ratio::from_int(1000)],
        diagnosis: vec![],
        specimen: vec![],
    };
    let (out2, _) = obfuscate_document(tree_again, &mut cache, &mut draws2);
    assert_eq!(out2, expected);
    assert_eq!(draws2.patients.len(), 3);
}

#[test]
fn test_document_shape_preserved_and_unknown_label_warned() {
    let tree = obj(vec![
        ("count", Node::Uint(99)),
        (
            "inner",
            obj(vec![
                ("label", Node::Text("mystery".to_string())),
                ("population", Node::Array(vec![obj(vec![("count", Node::Uint(50))])])),
            ]),
        ),
        ("note", Node::Text("untouched".to_string())),
        ("ratio", Node::Number(Ratio::new(-7, 2))),
        ("flag", Node::Boolean(true)),
        ("nothing", Node::Null),
    ]);
    let mut cache = ObfCache::new();
    let mut draws = no_draws();
    let (out, warnings) = obfuscate_document(tree, &mut cache, &mut draws);

    // the unrecognized group is reported and left untouched; the top-level
    // count sits outside any category and is not rewritten either
    assert_eq!(warnings, vec!["mystery".to_string()]);
    let expected = obj(vec![
        ("count", Node::Uint(99)),
        (
            "inner",
            obj(vec![
                ("label", Node::Text("mystery".to_string())),
                ("population", Node::Array(vec![obj(vec![("count", Node::Uint(50))])])),
            ]),
        ),
        ("note", Node::Text("untouched".to_string())),
        ("ratio", Node::Number(Ratio::new(-7, 2))),
        ("flag", Node::Boolean(true)),
        ("nothing", Node::Null),
    ]);
    assert_eq!(out, expected);
}

#[test]
fn test_document_huge_count_saturates_to_multiple_of_ten() {
    let tree = obj(vec![
        ("label", Node::Text("patients".to_string())),
        ("population", Node::Array(vec![obj(vec![("count", Node::Uint(u64::MAX))])])),
    ]);
    let mut cache = ObfCache::new();
    let mut draws = NoiseDraws {
        patients: vec![Ratio::from_int(i64::MAX)],
        diagnosis: vec![],
        specimen: vec![],
    };
    let (out, _) = obfuscate_document(tree, &mut cache, &mut draws);
    // the overflowing replacement saturates to the largest multiple of ten
    let expected = obj(vec![
        ("label", Node::Text("patients".to_string())),
        (
            "population",
            Node::Array(vec![obj(vec![("count", Node::Uint(18_446_744_073_709_551_610))])]),
        ),
    ]);
    assert_eq!(out, expected);
}

#[test]
fn test_document_suppression_rules() {
    let tree = obj(vec![
        ("label", Node::Text("diagnosis".to_string())),
        (
            "population",
            Node::Array(vec![
                obj(vec![("count", Node::Uint(0))]),
                obj(vec![("count", Node::Uint(1))]),
                obj(vec![("count", Node::Uint(10))]),
                obj(vec![("count", Node::Uint(11))]),
            ]),
        ),
    ]);
    let mut cache = ObfCache::new();
    let sites = count_obfuscation_sites(&tree, &cache);
    assert_eq!((sites.patients, sites.diagnosis, sites.specimen), (0, 1, 0));
    let mut draws = NoiseDraws {
        patients: vec![],
        diagnosis: zero_draws(sites.diagnosis as usize),
        specimen: vec![],
    };
    let (out, warnings) = obfuscate_document(tree, &mut cache, &mut draws);
    assert!(warnings.is_empty());
    let expected = obj(vec![
        ("label", Node::Text("diagnosis".to_string())),
        (
            "population",
            Node::Array(vec![
                obj(vec![("count", Node::Uint(0))]),
                obj(vec![("count", Node::Uint(10))]),
                obj(vec![("count", Node::Uint(10))]),
                obj(vec![("count", Node::Uint(10))]),
            ]),
        ),
    ]);
    assert_eq!(out, expected);
    // only the count above ten went through the cache, under the diagnosis
    // sensitivity class 3 and the population bin 1
    assert_eq!(cache.get(3, 11, 1), Some(10));
    assert_eq!(cache.get(3, 0, 1), None);
    assert_eq!(cache.get(3, 1, 1), None);
    assert_eq!(cache.get(3, 10, 1), None);
}

#[test]
fn test_document_bins_keep_population_and_stratifier_apart() {
    let tree = obj(vec![
        ("label", Node::Text("patients".to_string())),
        ("population", Node::Array(vec![obj(vec![("count", Node::Uint(25))])])),
        ("stratifier", Node::Array(vec![obj(vec![("count", Node::Uint(25))])])),
    ]);
    let mut cache = ObfCache::new();
    // draws are taken from the back: the population site draws 0, the
    // stratifier site draws 10
    let mut draws = NoiseDraws {
        patients: vec![Ratio::from_int(10), Ratio::from_int(0)],
        diagnosis: vec![],
        specimen: vec![],
    };
    let (out, _) = obfuscate_document(tree, &mut cache, &mut draws);
    // the numerically equal counts got different noise in their two bins
    assert_eq!(cache.get(1, 25, 1), Some(30));
    assert_eq!(cache.get(1, 25, 2), Some(40));
    let expected = obj(vec![
        ("label", Node::Text("patients".to_string())),
        ("population", Node::Array(vec![obj(vec![("count", Node::Uint(30))])])),
        ("stratifier", Node::Array(vec![obj(vec![("count", Node::Uint(40))])])),
    ]);
    assert_eq!(out, expected);
}

#[test]
fn test_document_specimen_sensitivity_class() {
    let tree = obj(vec![
        ("label", Node::Text("specimen".to_string())),
        ("population", Node::Array(vec![obj(vec![("count", Node::Uint(120))])])),
    ]);
    let mut cache = ObfCache::new();
    let mut draws = NoiseDraws {
        patients: vec![],
        diagnosis: vec![],
        specimen: vec![Ratio::from_int(0)],
    };
    let (out, _) = obfuscate_document(tree, &mut cache, &mut draws);
    assert_eq!(cache.get(20, 120, 1), Some(120));
    let expected = obj(vec![
        ("label", Node::Text("specimen".to_string())),
        ("population", Node::Array(vec![obj(vec![("count", Node::Uint(120))])])),
    ]);
    assert_eq!(out, expected);
}

#[test]
fn test_document_determinism_across_mixed_groups() {
    let make = || {
        Node::Array(vec![
            patients_report(74, 31, 43),
            obj(vec![
                ("label", Node::Text("diagnosis".to_string())),
                ("population", Node::Array(vec![obj(vec![("count", Node::Uint(57))])])),
            ]),
        ])
    };
    let mut cache = ObfCache::new();
    let tree = make();
    let sites = count_obfuscation_sites(&tree, &cache);
    let mut draws = NoiseDraws {
        patients: zero_draws(sites.patients as usize),
        diagnosis: zero_draws(sites.diagnosis as usize),
        specimen: zero_draws(sites.specimen as usize),
    };
    let (out1, _) = obfuscate_document(tree, &mut cache, &mut draws);
    let mut draws2 = NoiseDraws {
        patients: vec![Ratio::from_int(77); 3],
        diagnosis: vec![Ratio::from_int(77); 1],
        specimen: vec![],
    };
    let (out2, _) = obfuscate_document(make(), &mut cache, &mut draws2);
    assert_eq!(out1, out2);
}
