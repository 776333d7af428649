use vstd::prelude::*;

use crate::ratio::{rhaz, Ratio};

verus! {

/// The bin used for counts found inside a `population` subtree.
pub const POPULATION_BIN: usize = 1;

/// The bin used for counts found inside a `stratifier` subtree, so that
/// stratified breakdown counts never share a noise draw with top-level
/// population counts, even when numerically equal.
pub const STRATIFIER_BIN: usize = 2;

/// A node of a schema-flexible document tree: objects of ordered key/value
/// pairs, arrays, and scalars.  Counts live under keys literally named
/// `count` holding a non-negative integer, which converters put in `Uint`;
/// any other number — negative or fractional — rides through untouched as a
/// `Number`, and everything else is opaque to the rewriter too.
#[derive(Debug, PartialEq)]
pub enum Node {
    Object(Vec<(String, Node)>),
    Array(Vec<Node>),
    Uint(u64),
    Number(Ratio),
    Text(String),
    Boolean(bool),
    Null,
}

/// The mathematical shape of a document tree, with sequences for vectors and
/// character sequences for strings; contracts and laws about the rewriter
/// are stated over this form.
pub enum NodeView {
    Object(Seq<(Seq<char>, NodeView)>),
    Array(Seq<NodeView>),
    Uint(u64),
    Number(Ratio),
    Text(Seq<char>),
    Boolean(bool),
    Null,
}

impl Node {
    /// The mathematical shape of this tree.
    pub open spec fn deep_view(self) -> NodeView
        decreases self,
    {
        match self {
            Node::Object(es) => NodeView::Object(entries_deep_view(es@)),
            Node::Array(items) => NodeView::Array(items_deep_view(items@)),
            Node::Uint(n) => NodeView::Uint(n),
            Node::Number(x) => NodeView::Number(x),
            Node::Text(s) => NodeView::Text(s@),
            Node::Boolean(b) => NodeView::Boolean(b),
            Node::Null => NodeView::Null,
        }
    }
}

/// The mathematical shape of an object's entry list.
pub open spec fn entries_deep_view(es: Seq<(String, Node)>) -> Seq<(Seq<char>, NodeView)>
    decreases es,
{
    if es.len() == 0 {
        Seq::empty()
    } else {
        seq![(es[0].0@, es[0].1.deep_view())] + entries_deep_view(es.drop_first())
    }
}

/// The mathematical shape of an array's item list.
pub open spec fn items_deep_view(items: Seq<Node>) -> Seq<NodeView>
    decreases items,
{
    if items.len() == 0 {
        Seq::empty()
    } else {
        seq![items[0].deep_view()] + items_deep_view(items.drop_first())
    }
}

/// The entry list's shape is pointwise the shape of its entries.
pub proof fn lemma_entries_deep_view(es: Seq<(String, Node)>)
    ensures
        entries_deep_view(es).len() == es.len(),
        forall|i: int|
            0 <= i < es.len() ==> entries_deep_view(es)[i] == (es[i].0@, es[i].1.deep_view()),
    decreases es,
{
    if es.len() > 0 {
        lemma_entries_deep_view(es.drop_first());
    }
}

/// The item list's shape is pointwise the shape of its items.
pub proof fn lemma_items_deep_view(items: Seq<Node>)
    ensures
        items_deep_view(items).len() == items.len(),
        forall|i: int| 0 <= i < items.len() ==> items_deep_view(items)[i] == items[i].deep_view(),
    decreases items,
{
    if items.len() > 0 {
        lemma_items_deep_view(items.drop_first());
    }
}

/// The mathematical shape of a list of warning labels.
pub open spec fn strings_deep_view(ws: Seq<String>) -> Seq<Seq<char>> {
    Seq::new(ws.len(), |i: int| ws[i]@)
}

/// The category of a group of counts, recognized from the group's
/// human-readable label.  Each recognized category fixes the sensitivity of
/// its counts; an unrecognized label leaves its whole subtree untouched.
#[derive(Debug, Clone, Copy, PartialEq, Eq, Structural)]
pub enum Category {
    Patients,
    Diagnosis,
    Specimen,
    Unrecognized,
}

impl Category {
    /// Which category a group label names.
    pub open spec fn spec_of_label(label: Seq<char>) -> Category {
        if label == "patients"@ {
            Category::Patients
        } else if label == "diagnosis"@ {
            Category::Diagnosis
        } else if label == "specimen"@ {
            Category::Specimen
        } else {
            Category::Unrecognized
        }
    }

    /// The fixed sensitivity of this category's counts: one patient can
    /// change a patient count by one, but, say, a single patient's specimens
    /// can change a specimen count by up to twenty.
    pub open spec fn spec_sensitivity(self) -> u64 {
        match self {
            Category::Patients => 1u64,
            Category::Diagnosis => 3u64,
            Category::Specimen => 20u64,
            Category::Unrecognized => 0u64,
        }
    }

    /// Recognizes a group label.
    pub fn of_label(label: &String) -> (c: Category)
        ensures
            c == Category::spec_of_label(label@),
    {
        if string_eq_lit(label, "patients") {
            Category::Patients
        } else if string_eq_lit(label, "diagnosis") {
            Category::Diagnosis
        } else if string_eq_lit(label, "specimen") {
            Category::Specimen
        } else {
            Category::Unrecognized
        }
    }

    /// The fixed sensitivity of this category's counts.
    pub fn sensitivity(&self) -> (s: u64)
        ensures
            s == self.spec_sensitivity(),
    {
        match self {
            Category::Patients => 1,
            Category::Diagnosis => 3,
            Category::Specimen => 20,
            Category::Unrecognized => 0,
        }
    }
}

/// Compares a document string against a fixed keyword.
fn string_eq_lit(s: &String, lit: &str) -> (b: bool)
    ensures
        b == (s@ == lit@),
{
    let owned: String = lit.to_owned();
    s.eq(&owned)
}

/// The per-category supplies of Laplace noise draws the rewriter consumes on
/// cache misses.  Each draw was sampled with scale `sensitivity / epsilon`
/// for its category; the rewriter takes them from the back of each list.
pub struct NoiseDraws {
    pub patients: Vec<Ratio>,
    pub diagnosis: Vec<Ratio>,
    pub specimen: Vec<Ratio>,
}

impl NoiseDraws {
    /// Every draw is a well-formed ratio.
    pub open spec fn wf(self) -> bool {
        &&& forall|i: int| 0 <= i < self.patients@.len() ==> self.patients@[i].wf()
        &&& forall|i: int| 0 <= i < self.diagnosis@.len() ==> self.diagnosis@[i].wf()
        &&& forall|i: int| 0 <= i < self.specimen@.len() ==> self.specimen@[i].wf()
    }
}

/// The cache mapping and draw supplies a rewrite consumes and extends.
pub struct ObfState {
    pub cache: Map<(usize, u64, usize), u64>,
    pub patients: Seq<Ratio>,
    pub diagnosis: Seq<Ratio>,
    pub specimen: Seq<Ratio>,
}

/// The whole state a rewrite threads along: the obfuscation state plus the
/// labels of unrecognized groups, collected as diagnostics.
pub struct RewriteState {
    pub obf: ObfState,
    pub warnings: Seq<Seq<char>>,
}

/// The obfuscation state that a cache and a draw supply denote.
pub open spec fn state_of(cache: crate::ObfCache, draws: NoiseDraws) -> ObfState {
    ObfState {
        cache: cache@,
        patients: draws.patients@,
        diagnosis: draws.diagnosis@,
        specimen: draws.specimen@,
    }
}

/// The draw supply of one category.
pub open spec fn spec_draws_of(st: ObfState, cat: Category) -> Seq<Ratio> {
    match cat {
        Category::Patients => st.patients,
        Category::Diagnosis => st.diagnosis,
        Category::Specimen => st.specimen,
        Category::Unrecognized => Seq::empty(),
    }
}

/// The state with one category's draw supply replaced.
pub open spec fn spec_with_draws(st: ObfState, cat: Category, s: Seq<Ratio>) -> ObfState {
    match cat {
        Category::Patients => ObfState { patients: s, ..st },
        Category::Diagnosis => ObfState { diagnosis: s, ..st },
        Category::Specimen => ObfState { specimen: s, ..st },
        Category::Unrecognized => st,
    }
}

/// The count replacement for counts above ten: the count plus the integer
/// perturbation, rounded half-up to the nearest multiple of ten by integer
/// division and clamped into `u64` as a multiple of ten (negatives to `0`,
/// overlarge values to the largest multiple of ten that fits).  This integer
/// path deliberately differs from the floating-style rounding of
/// `round_parametric` at certain boundary values; the two are kept as
/// distinct code paths.
pub open spec fn spec_obfuscated_count(c: u64, p: int) -> u64 {
    if c + p + 5 < 0 {
        0u64
    } else {
        crate::ratio::clamp_u64_multiple(((c + p + 5) / 10) * 10, 10) as u64
    }
}

/// What rewriting one count does to the value and to the obfuscation state:
/// zero stays zero, a count up to ten is floored to ten, and a larger count
/// is replaced through the cache — a hit is returned unchanged, a miss
/// consumes one noise draw of the category, rounds it to the nearest
/// integer, applies the count replacement, and stores the result.
pub open spec fn spec_rewrite_count(c: u64, cat: Category, bin: usize, st: ObfState) -> (
    u64,
    ObfState,
) {
    if c == 0 {
        (0u64, st)
    } else if c <= 10 {
        (10u64, st)
    } else {
        let key = (cat.spec_sensitivity() as usize, c, bin);
        if st.cache.contains_key(key) {
            (st.cache[key], st)
        } else {
            let draws = spec_draws_of(st, cat);
            let d = draws.last();
            let p = rhaz(d.num as int, d.den as int);
            let v = spec_obfuscated_count(c, p);
            let rest = if draws.len() > 0 {
                draws.drop_last()
            } else {
                draws
            };
            let st2 = spec_with_draws(st, cat, rest);
            (v, ObfState { cache: st2.cache.insert(key, v), ..st2 })
        }
    }
}

/// The first `label` entry holding a text value, if any: the group label.
pub open spec fn spec_find_label(es: Seq<(Seq<char>, NodeView)>) -> Option<Seq<char>>
    decreases es.len(),
{
    if es.len() == 0 {
        None
    } else if es[0].0 == "label"@ && es[0].1 is Text {
        Some(es[0].1->Text_0)
    } else {
        spec_find_label(es.drop_first())
    }
}

/// The context a child entry is visited under: inside a recognized group,
/// the `population` and `stratifier` subtrees switch to that group's
/// category with their respective bins; every other child inherits the
/// current context.
pub open spec fn spec_child_ctx(
    k: Seq<char>,
    gcat: Option<Category>,
    ctx: Option<(Category, usize)>,
) -> Option<(Category, usize)> {
    match gcat {
        Some(cat) => if k == "population"@ {
            Some((cat, POPULATION_BIN))
        } else if k == "stratifier"@ {
            Some((cat, STRATIFIER_BIN))
        } else {
            ctx
        },
        None => ctx,
    }
}

/// What rewriting a node returns and does to the state.  An object carrying
/// an unrecognized label is returned untouched and its label is recorded as
/// a diagnostic; an object carrying a recognized label routes its
/// `population` and `stratifier` children into that category; all other
/// children are visited unconditionally, and `count` entries holding a
/// non-negative integer are replaced when a category context is active.
pub open spec fn spec_rewrite_node(
    m: NodeView,
    ctx: Option<(Category, usize)>,
    st: RewriteState,
) -> (NodeView, RewriteState)
    decreases m,
{
    match m {
        NodeView::Object(es) => match spec_find_label(es) {
            Some(lbl) => {
                let cat = Category::spec_of_label(lbl);
                if cat == Category::Unrecognized {
                    (m, RewriteState { warnings: st.warnings.push(lbl), ..st })
                } else {
                    let (es2, st2) = spec_rewrite_entries(es, ctx, Some(cat), st);
                    (NodeView::Object(es2), st2)
                }
            },
            None => {
                let (es2, st2) = spec_rewrite_entries(es, ctx, None, st);
                (NodeView::Object(es2), st2)
            },
        },
        NodeView::Array(items) => {
            let (items2, st2) = spec_rewrite_items(items, ctx, st);
            (NodeView::Array(items2), st2)
        },
        _ => (m, st),
    }
}

/// Rewrites an object's entries in order.
pub open spec fn spec_rewrite_entries(
    es: Seq<(Seq<char>, NodeView)>,
    ctx: Option<(Category, usize)>,
    gcat: Option<Category>,
    st: RewriteState,
) -> (Seq<(Seq<char>, NodeView)>, RewriteState)
    decreases es,
{
    if es.len() == 0 {
        (es, st)
    } else {
        let k = es[0].0;
        let v = es[0].1;
        let (v2, st1) = match ctx {
            Some(cb) => match v {
                NodeView::Uint(c) => if k == "count"@ {
                    let (c2, obf2) = spec_rewrite_count(c, cb.0, cb.1, st.obf);
                    (NodeView::Uint(c2), RewriteState { obf: obf2, ..st })
                } else {
                    spec_rewrite_node(v, spec_child_ctx(k, gcat, ctx), st)
                },
                _ => spec_rewrite_node(v, spec_child_ctx(k, gcat, ctx), st),
            },
            None => spec_rewrite_node(v, spec_child_ctx(k, gcat, ctx), st),
        };
        let (rest, st2) = spec_rewrite_entries(es.drop_first(), ctx, gcat, st1);
        (seq![(k, v2)].add(rest), st2)
    }
}

/// Rewrites an array's items in order.
pub open spec fn spec_rewrite_items(
    items: Seq<NodeView>,
    ctx: Option<(Category, usize)>,
    st: RewriteState,
) -> (Seq<NodeView>, RewriteState)
    decreases items,
{
    if items.len() == 0 {
        (items, st)
    } else {
        let (v2, st1) = spec_rewrite_node(items[0], ctx, st);
        let (rest, st2) = spec_rewrite_items(items.drop_first(), ctx, st1);
        (seq![v2].add(rest), st2)
    }
}

/// An upper bound on how many noise draws of one category rewriting a node
/// can consume: the number of its count sites above ten, in that category's
/// active context, whose composite key the cache mapping `cm` does not hold
/// yet.  Sites the cache already holds are hits — the cache never loses an
/// entry — and hits draw nothing.
pub open spec fn spec_needs_node(
    m: NodeView,
    ctx: Option<(Category, usize)>,
    cat: Category,
    cm: Map<(usize, u64, usize), u64>,
) -> nat
    decreases m,
{
    match m {
        NodeView::Object(es) => match spec_find_label(es) {
            Some(lbl) => {
                let gcat = Category::spec_of_label(lbl);
                if gcat == Category::Unrecognized {
                    0
                } else {
                    spec_needs_entries(es, ctx, Some(gcat), cat, cm)
                }
            },
            None => spec_needs_entries(es, ctx, None, cat, cm),
        },
        NodeView::Array(items) => spec_needs_items(items, ctx, cat, cm),
        _ => 0,
    }
}

/// The draw bound of an entry list.
pub open spec fn spec_needs_entries(
    es: Seq<(Seq<char>, NodeView)>,
    ctx: Option<(Category, usize)>,
    gcat: Option<Category>,
    cat: Category,
    cm: Map<(usize, u64, usize), u64>,
) -> nat
    decreases es,
{
    if es.len() == 0 {
        0
    } else {
        let k = es[0].0;
        let v = es[0].1;
        let first: nat = match ctx {
            Some(cb) => match v {
                NodeView::Uint(c) => if k == "count"@ {
                    if cb.0 == cat && c > 10 && !cm.contains_key(
                        (cb.0.spec_sensitivity() as usize, c, cb.1),
                    ) {
                        1nat
                    } else {
                        0nat
                    }
                } else {
                    spec_needs_node(v, spec_child_ctx(k, gcat, ctx), cat, cm)
                },
                _ => spec_needs_node(v, spec_child_ctx(k, gcat, ctx), cat, cm),
            },
            None => spec_needs_node(v, spec_child_ctx(k, gcat, ctx), cat, cm),
        };
        first + spec_needs_entries(es.drop_first(), ctx, gcat, cat, cm)
    }
}

/// Rewriting one count only grows the cache and consumes at most one draw,
/// of its own category, and only when its key misses the cache.
pub proof fn lemma_rewrite_count_effects(c: u64, cat: Category, bin: usize, st: ObfState)
    ensures
        ({
            let (rv, st2) = spec_rewrite_count(c, cat, bin, st);
            let miss = c > 10 && !st.cache.contains_key((cat.spec_sensitivity() as usize, c, bin));
            &&& st.cache.submap_of(st2.cache)
            &&& st2.patients.len() <= st.patients.len()
            &&& st.patients.len() <= st2.patients.len() + (
            if cat == Category::Patients && miss {
                1nat
            } else {
                0nat
            })
            &&& st2.diagnosis.len() <= st.diagnosis.len()
            &&& st.diagnosis.len() <= st2.diagnosis.len() + (
            if cat == Category::Diagnosis && miss {
                1nat
            } else {
                0nat
            })
            &&& st2.specimen.len() <= st.specimen.len()
            &&& st.specimen.len() <= st2.specimen.len() + (
            if cat == Category::Specimen && miss {
                1nat
            } else {
                0nat
            })
        }),
{
    let (rv, st2) = spec_rewrite_count(c, cat, bin, st);
    let key = (cat.spec_sensitivity() as usize, c, bin);
    if c == 0 || c <= 10 || st.cache.contains_key(key) {
        assert(st.cache.submap_of(st2.cache));
    } else {
        assert(st2.cache == st.cache.insert(key, rv));
        assert forall|k: (usize, u64, usize)| st.cache.dom().contains(k) implies #[trigger] st2.cache.dom().contains(k)
            && st2.cache[k] == st.cache[k] by {
            assert(k != key);
        }
        assert(st.cache.submap_of(st2.cache));
    }
}

/// Rewriting a node only grows the cache, and consumes at most
/// `spec_needs_node` draws of each category.
pub proof fn lemma_rewrite_node_effects(
    m: NodeView,
    ctx: Option<(Category, usize)>,
    st: RewriteState,
)
    ensures
        ({
            let (out, st2) = spec_rewrite_node(m, ctx, st);
            &&& st.obf.cache.submap_of(st2.obf.cache)
            &&& st2.obf.patients.len() <= st.obf.patients.len()
            &&& st.obf.patients.len() <= st2.obf.patients.len() + spec_needs_node(
                m,
                ctx,
                Category::Patients,
                st.obf.cache,
            )
            &&& st2.obf.diagnosis.len() <= st.obf.diagnosis.len()
            &&& st.obf.diagnosis.len() <= st2.obf.diagnosis.len() + spec_needs_node(
                m,
                ctx,
                Category::Diagnosis,
                st.obf.cache,
            )
            &&& st2.obf.specimen.len() <= st.obf.specimen.len()
            &&& st.obf.specimen.len() <= st2.obf.specimen.len() + spec_needs_node(
                m,
                ctx,
                Category::Specimen,
                st.obf.cache,
            )
        }),
    decreases m,
{
    match m {
        NodeView::Object(es) => match spec_find_label(es) {
            Some(lbl) => {
                if Category::spec_of_label(lbl) != Category::Unrecognized {
                    lemma_rewrite_entries_effects(
                        es,
                        ctx,
                        Some(Category::spec_of_label(lbl)),
                        st,
                    );
                }
            },
            None => {
                lemma_rewrite_entries_effects(es, ctx, None, st);
            },
        },
        NodeView::Array(items) => {
            lemma_rewrite_items_effects(items, ctx, st);
        },
        _ => {},
    }
}

/// The entry-list form of `lemma_rewrite_node_effects`.
pub proof fn lemma_rewrite_entries_effects(
    es: Seq<(Seq<char>, NodeView)>,
    ctx: Option<(Category, usize)>,
    gcat: Option<Category>,
    st: RewriteState,
)
    ensures
        ({
            let (out, st2) = spec_rewrite_entries(es, ctx, gcat, st);
            &&& st.obf.cache.submap_of(st2.obf.cache)
            &&& st2.obf.patients.len() <= st.obf.patients.len()
            &&& st.obf.patients.len() <= st2.obf.patients.len() + spec_needs_entries(
                es,
                ctx,
                gcat,
                Category::Patients,
                st.obf.cache,
            )
            &&& st2.obf.diagnosis.len() <= st.obf.diagnosis.len()
            &&& st.obf.diagnosis.len() <= st2.obf.diagnosis.len() + spec_needs_entries(
                es,
                ctx,
                gcat,
                Category::Diagnosis,
                st.obf.cache,
            )
            &&& st2.obf.specimen.len() <= st.obf.specimen.len()
            &&& st.obf.specimen.len() <= st2.obf.specimen.len() + spec_needs_entries(
                es,
                ctx,
                gcat,
                Category::Specimen,
                st.obf.cache,
            )
        }),
    decreases es,
{
    if es.len() > 0 {
        let k = es[0].0;
        let v = es[0].1;
        let (v2, st1) = match ctx {
            Some(cb) => match v {
                NodeView::Uint(c) => if k == "count"@ {
                    let (c2, obf2) = spec_rewrite_count(c, cb.0, cb.1, st.obf);
                    (NodeView::Uint(c2), RewriteState { obf: obf2, ..st })
                } else {
                    spec_rewrite_node(v, spec_child_ctx(k, gcat, ctx), st)
                },
                _ => spec_rewrite_node(v, spec_child_ctx(k, gcat, ctx), st),
            },
            None => spec_rewrite_node(v, spec_child_ctx(k, gcat, ctx), st),
        };
        match ctx {
            Some(cb) => match v {
                NodeView::Uint(c) => if k == "count"@ {
                    lemma_rewrite_count_effects(c, cb.0, cb.1, st.obf);
                } else {
                    lemma_rewrite_node_effects(v, spec_child_ctx(k, gcat, ctx), st);
                },
                _ => {
                    lemma_rewrite_node_effects(v, spec_child_ctx(k, gcat, ctx), st);
                },
            },
            None => {
                lemma_rewrite_node_effects(v, spec_child_ctx(k, gcat, ctx), st);
            },
        }
        lemma_rewrite_entries_effects(es.drop_first(), ctx, gcat, st1);
        let (rest, st2) = spec_rewrite_entries(es.drop_first(), ctx, gcat, st1);
        vstd::map_lib::lemma_submap_of_trans(st.obf.cache, st1.obf.cache, st2.obf.cache);
        lemma_needs_entries_antitone(
            es.drop_first(), ctx, gcat, Category::Patients, st.obf.cache, st1.obf.cache,
        );
        lemma_needs_entries_antitone(
            es.drop_first(), ctx, gcat, Category::Diagnosis, st.obf.cache, st1.obf.cache,
        );
        lemma_needs_entries_antitone(
            es.drop_first(), ctx, gcat, Category::Specimen, st.obf.cache, st1.obf.cache,
        );
    }
}

/// The item-list form of `lemma_rewrite_node_effects`.
pub proof fn lemma_rewrite_items_effects(
    items: Seq<NodeView>,
    ctx: Option<(Category, usize)>,
    st: RewriteState,
)
    ensures
        ({
            let (out, st2) = spec_rewrite_items(items, ctx, st);
            &&& st.obf.cache.submap_of(st2.obf.cache)
            &&& st2.obf.patients.len() <= st.obf.patients.len()
            &&& st.obf.patients.len() <= st2.obf.patients.len() + spec_needs_items(
                items,
                ctx,
                Category::Patients,
                st.obf.cache,
            )
            &&& st2.obf.diagnosis.len() <= st.obf.diagnosis.len()
            &&& st.obf.diagnosis.len() <= st2.obf.diagnosis.len() + spec_needs_items(
                items,
                ctx,
                Category::Diagnosis,
                st.obf.cache,
            )
            &&& st2.obf.specimen.len() <= st.obf.specimen.len()
            &&& st.obf.specimen.len() <= st2.obf.specimen.len() + spec_needs_items(
                items,
                ctx,
                Category::Specimen,
                st.obf.cache,
            )
        }),
    decreases items,
{
    if items.len() > 0 {
        lemma_rewrite_node_effects(items[0], ctx, st);
        let (v2, st1) = spec_rewrite_node(items[0], ctx, st);
        lemma_rewrite_items_effects(items.drop_first(), ctx, st1);
        let (rest, st2) = spec_rewrite_items(items.drop_first(), ctx, st1);
        vstd::map_lib::lemma_submap_of_trans(st.obf.cache, st1.obf.cache, st2.obf.cache);
        lemma_needs_items_antitone(
            items.drop_first(), ctx, Category::Patients, st.obf.cache, st1.obf.cache,
        );
        lemma_needs_items_antitone(
            items.drop_first(), ctx, Category::Diagnosis, st.obf.cache, st1.obf.cache,
        );
        lemma_needs_items_antitone(
            items.drop_first(), ctx, Category::Specimen, st.obf.cache, st1.obf.cache,
        );
    }
}

/// The draw bound of an item list.
pub open spec fn spec_needs_items(
    items: Seq<NodeView>,
    ctx: Option<(Category, usize)>,
    cat: Category,
    cm: Map<(usize, u64, usize), u64>,
) -> nat
    decreases items,
{
    if items.len() == 0 {
        0
    } else {
        spec_needs_node(items[0], ctx, cat, cm) + spec_needs_items(
            items.drop_first(),
            ctx,
            cat,
            cm,
        )
    }
}

/// A warmer cache never needs more draws: whatever a larger cache leaves
/// uncached, the smaller cache left uncached too.
pub proof fn lemma_needs_node_antitone(
    m: NodeView,
    ctx: Option<(Category, usize)>,
    cat: Category,
    cm1: Map<(usize, u64, usize), u64>,
    cm2: Map<(usize, u64, usize), u64>,
)
    requires
        cm1.submap_of(cm2),
    ensures
        spec_needs_node(m, ctx, cat, cm2) <= spec_needs_node(m, ctx, cat, cm1),
    decreases m,
{
    match m {
        NodeView::Object(es) => match spec_find_label(es) {
            Some(lbl) => {
                if Category::spec_of_label(lbl) != Category::Unrecognized {
                    lemma_needs_entries_antitone(
                        es,
                        ctx,
                        Some(Category::spec_of_label(lbl)),
                        cat,
                        cm1,
                        cm2,
                    );
                }
            },
            None => {
                lemma_needs_entries_antitone(es, ctx, None, cat, cm1, cm2);
            },
        },
        NodeView::Array(items) => {
            lemma_needs_items_antitone(items, ctx, cat, cm1, cm2);
        },
        _ => {},
    }
}

proof fn lemma_needs_entries_antitone(
    es: Seq<(Seq<char>, NodeView)>,
    ctx: Option<(Category, usize)>,
    gcat: Option<Category>,
    cat: Category,
    cm1: Map<(usize, u64, usize), u64>,
    cm2: Map<(usize, u64, usize), u64>,
)
    requires
        cm1.submap_of(cm2),
    ensures
        spec_needs_entries(es, ctx, gcat, cat, cm2) <= spec_needs_entries(es, ctx, gcat, cat, cm1),
    decreases es,
{
    if es.len() > 0 {
        let k = es[0].0;
        let v = es[0].1;
        match ctx {
            Some(cb) => match v {
                NodeView::Uint(c) => if k == "count"@ {
                    let key = (cb.0.spec_sensitivity() as usize, c, cb.1);
                    if cm1.contains_key(key) {
                        assert(cm1.dom().contains(key));
                        assert(cm2.dom().contains(key));
                    }
                } else {
                    lemma_needs_node_antitone(v, spec_child_ctx(k, gcat, ctx), cat, cm1, cm2);
                },
                _ => {
                    lemma_needs_node_antitone(v, spec_child_ctx(k, gcat, ctx), cat, cm1, cm2);
                },
            },
            None => {
                lemma_needs_node_antitone(v, spec_child_ctx(k, gcat, ctx), cat, cm1, cm2);
            },
        }
        lemma_needs_entries_antitone(es.drop_first(), ctx, gcat, cat, cm1, cm2);
    }
}

proof fn lemma_needs_items_antitone(
    items: Seq<NodeView>,
    ctx: Option<(Category, usize)>,
    cat: Category,
    cm1: Map<(usize, u64, usize), u64>,
    cm2: Map<(usize, u64, usize), u64>,
)
    requires
        cm1.submap_of(cm2),
    ensures
        spec_needs_items(items, ctx, cat, cm2) <= spec_needs_items(items, ctx, cat, cm1),
    decreases items,
{
    if items.len() > 0 {
        lemma_needs_node_antitone(items[0], ctx, cat, cm1, cm2);
        lemma_needs_items_antitone(items.drop_first(), ctx, cat, cm1, cm2);
    }
}

/// How an entry list's shape decomposes at its head.
proof fn lemma_edv_first(s: Seq<(String, Node)>)
    requires
        s.len() > 0,
    ensures
        entries_deep_view(s).len() == s.len(),
        entries_deep_view(s)[0] == (s[0].0@, s[0].1.deep_view()),
        entries_deep_view(s).drop_first() == entries_deep_view(s.drop_first()),
{
    lemma_entries_deep_view(s);
    lemma_entries_deep_view(s.drop_first());
    assert(entries_deep_view(s).drop_first() =~= entries_deep_view(s.drop_first()));
}

/// How an item list's shape decomposes at its head.
proof fn lemma_idv_first(s: Seq<Node>)
    requires
        s.len() > 0,
    ensures
        items_deep_view(s).len() == s.len(),
        items_deep_view(s)[0] == s[0].deep_view(),
        items_deep_view(s).drop_first() == items_deep_view(s.drop_first()),
{
    lemma_items_deep_view(s);
    lemma_items_deep_view(s.drop_first());
    assert(items_deep_view(s).drop_first() =~= items_deep_view(s.drop_first()));
}

/// Takes the next noise draw of a category from the back of its supply.
fn pop_draw(draws: &mut NoiseDraws, cat: Category) -> (d: Ratio)
    requires
        old(draws).wf(),
        cat != Category::Unrecognized,
        match cat {
            Category::Patients => old(draws).patients@.len() >= 1,
            Category::Diagnosis => old(draws).diagnosis@.len() >= 1,
            Category::Specimen => old(draws).specimen@.len() >= 1,
            Category::Unrecognized => true,
        },
    ensures
        final(draws).wf(),
        d.wf(),
        match cat {
            Category::Patients => final(draws).patients@ == old(draws).patients@.drop_last() && d
                == old(draws).patients@.last() && final(draws).diagnosis@ == old(
                draws,
            ).diagnosis@ && final(draws).specimen@ == old(draws).specimen@,
            Category::Diagnosis => final(draws).diagnosis@ == old(draws).diagnosis@.drop_last() && d
                == old(draws).diagnosis@.last() && final(draws).patients@ == old(
                draws,
            ).patients@ && final(draws).specimen@ == old(draws).specimen@,
            Category::Specimen => final(draws).specimen@ == old(draws).specimen@.drop_last() && d
                == old(draws).specimen@.last() && final(draws).patients@ == old(
                draws,
            ).patients@ && final(draws).diagnosis@ == old(draws).diagnosis@,
            Category::Unrecognized => true,
        },
{
    match cat {
        Category::Patients => {
            let d = draws.patients.pop().unwrap();
            proof {
                assert(old(draws).patients@[old(draws).patients@.len() - 1].wf());
            }
            d
        },
        Category::Diagnosis => {
            let d = draws.diagnosis.pop().unwrap();
            proof {
                assert(old(draws).diagnosis@[old(draws).diagnosis@.len() - 1].wf());
            }
            d
        },
        Category::Specimen => {
            let d = draws.specimen.pop().unwrap();
            proof {
                assert(old(draws).specimen@[old(draws).specimen@.len() - 1].wf());
            }
            d
        },
        Category::Unrecognized => {
            proof {
                assert(false);
            }
            Ratio::from_int(0)
        },
    }
}

/// The integer count replacement for counts above ten, computed in 128-bit
/// arithmetic.
fn obfuscated_count(c: u64, p: i64) -> (r: u64)
    ensures
        r == spec_obfuscated_count(c, p as int),
{
    let s: i128 = c as i128 + p as i128 + 5;
    if s < 0 {
        0
    } else {
        let q: u128 = (s as u128) / 10;
        let m: u128 = q * 10;
        if m > u64::MAX as u128 {
            proof {
                crate::ratio::lemma_largest_multiple_fits(10);
            }
            (u64::MAX / 10) * 10
        } else {
            m as u64
        }
    }
}

/// Replaces one count found in an active category context: zero stays, up to
/// ten is floored to ten, and larger counts go through the cache, drawing
/// noise only on a miss.
fn rewrite_count(c: u64, cat: Category, bin: usize, cache: &mut crate::ObfCache, draws: &mut NoiseDraws) -> (r:
    u64)
    requires
        old(cache).wf(),
        old(draws).wf(),
        cat != Category::Unrecognized,
        (c > 10 && !old(cache)@.contains_key(
            (cat.spec_sensitivity() as usize, c, bin),
        )) ==> spec_draws_of(state_of(*old(cache), *old(draws)), cat).len() >= 1,
    ensures
        ({
            let (rv, st2) = spec_rewrite_count(c, cat, bin, state_of(*old(cache), *old(draws)));
            &&& r == rv
            &&& final(cache)@ == st2.cache
            &&& final(cache).wf()
            &&& final(draws).patients@ == st2.patients
            &&& final(draws).diagnosis@ == st2.diagnosis
            &&& final(draws).specimen@ == st2.specimen
            &&& final(draws).wf()
        }),
{
    if c == 0 {
        return 0;
    }
    if c <= 10 {
        return 10;
    }
    let sens = cat.sensitivity() as usize;
    match cache.get(sens, c, bin) {
        Some(v) => v,
        None => {
            let d = pop_draw(draws, cat);
            let p = crate::ratio::round_to_nearest_int(d);
            let v = obfuscated_count(c, p);
            cache.insert(sens, c, bin, v);
            v
        },
    }
}

/// The context a child entry is visited under.
fn child_ctx(k: &String, gcat: Option<Category>, ctx: Option<(Category, usize)>) -> (r: Option<
    (Category, usize),
>)
    ensures
        r == spec_child_ctx(k@, gcat, ctx),
{
    match gcat {
        Some(cat) => {
            if string_eq_lit(k, "population") {
                Some((cat, POPULATION_BIN))
            } else if string_eq_lit(k, "stratifier") {
                Some((cat, STRATIFIER_BIN))
            } else {
                ctx
            }
        },
        None => ctx,
    }
}

/// Finds the group label of an object: the first `label` entry holding text.
fn find_label(es: &Vec<(String, Node)>) -> (r: Option<String>)
    ensures
        match r {
            Some(s) => spec_find_label(entries_deep_view(es@)) == Some(s@),
            None => spec_find_label(entries_deep_view(es@)) is None,
        },
{
    proof {
        assert(entries_deep_view(es@).skip(0) =~= entries_deep_view(es@));
    }
    find_label_from(es, 0)
}

/// Scans for the group label from position `i` on.
fn find_label_from(es: &Vec<(String, Node)>, i: usize) -> (r: Option<String>)
    requires
        i <= es@.len(),
    ensures
        match r {
            Some(s) => spec_find_label(entries_deep_view(es@).skip(i as int)) == Some(s@),
            None => spec_find_label(entries_deep_view(es@).skip(i as int)) is None,
        },
    decreases es@.len() - i,
{
    proof {
        lemma_entries_deep_view(es@);
    }
    if i == es.len() {
        proof {
            assert(entries_deep_view(es@).skip(i as int) =~= Seq::<(Seq<char>, NodeView)>::empty());
        }
        None
    } else {
        let ghost tail = entries_deep_view(es@).skip(i as int);
        proof {
            assert(tail[0] == entries_deep_view(es@)[i as int]);
            assert(tail.drop_first() =~= entries_deep_view(es@).skip(i as int + 1));
        }
        let entry = &es[i];
        let is_label = string_eq_lit(&entry.0, "label");
        if is_label {
            match &entry.1 {
                Node::Text(t) => {
                    return Some(t.clone());
                },
                _ => {},
            }
        }
        find_label_from(es, i + 1)
    }
}

/// Rewrites one node in the context `ctx`, replacing every count it governs.
fn rewrite_node(
    n: Node,
    ctx: Option<(Category, usize)>,
    cache: &mut crate::ObfCache,
    draws: &mut NoiseDraws,
    warnings: &mut Vec<String>,
) -> (r: Node)
    requires
        old(cache).wf(),
        old(draws).wf(),
        ctx matches Some(cb) ==> cb.0 != Category::Unrecognized,
        old(draws).patients@.len() >= spec_needs_node(
            n.deep_view(),
            ctx,
            Category::Patients,
            old(cache)@,
        ),
        old(draws).diagnosis@.len() >= spec_needs_node(
            n.deep_view(),
            ctx,
            Category::Diagnosis,
            old(cache)@,
        ),
        old(draws).specimen@.len() >= spec_needs_node(
            n.deep_view(),
            ctx,
            Category::Specimen,
            old(cache)@,
        ),
    ensures
        ({
            let st0 = RewriteState {
                obf: state_of(*old(cache), *old(draws)),
                warnings: strings_deep_view(old(warnings)@),
            };
            let (out, st2) = spec_rewrite_node(n.deep_view(), ctx, st0);
            &&& r.deep_view() == out
            &&& final(cache)@ == st2.obf.cache
            &&& final(cache).wf()
            &&& final(draws).patients@ == st2.obf.patients
            &&& final(draws).diagnosis@ == st2.obf.diagnosis
            &&& final(draws).specimen@ == st2.obf.specimen
            &&& final(draws).wf()
            &&& strings_deep_view(final(warnings)@) == st2.warnings
        }),
    decreases n,
{
    let ghost n0 = n;
    match n {
        Node::Object(es) => {
            let label_opt = find_label(&es);
            match label_opt {
                Some(lbl) => {
                    let cat = Category::of_label(&lbl);
                    if cat == Category::Unrecognized {
                        let ghost w0 = warnings@;
                        let ghost lstr = lbl@;
                        warnings.push(lbl);
                        proof {
                            assert(strings_deep_view(warnings@) =~= strings_deep_view(w0).push(
                                lstr,
                            ));
                        }
                        Node::Object(es)
                    } else {
                        proof {
                            assert(decreases_to!(n0 => es));
                            assert(decreases_to!(es => es@));
                        }
                        let es2 = rewrite_entries(es, ctx, Some(cat), cache, draws, warnings);
                        Node::Object(es2)
                    }
                },
                None => {
                    proof {
                        assert(decreases_to!(n0 => es));
                        assert(decreases_to!(es => es@));
                    }
                    let es2 = rewrite_entries(es, ctx, None, cache, draws, warnings);
                    Node::Object(es2)
                },
            }
        },
        Node::Array(items) => {
            proof {
                assert(decreases_to!(n0 => items));
                assert(decreases_to!(items => items@));
            }
            let items2 = rewrite_items(items, ctx, cache, draws, warnings);
            Node::Array(items2)
        },
        other => other,
    }
}

/// Rewrites an object's entries in order; `gcat` is the object's own
/// recognized category, if it is a group.
#[verifier::rlimit(60)]
fn rewrite_entries(
    mut es: Vec<(String, Node)>,
    ctx: Option<(Category, usize)>,
    gcat: Option<Category>,
    cache: &mut crate::ObfCache,
    draws: &mut NoiseDraws,
    warnings: &mut Vec<String>,
) -> (r: Vec<(String, Node)>)
    requires
        old(cache).wf(),
        old(draws).wf(),
        ctx matches Some(cb) ==> cb.0 != Category::Unrecognized,
        gcat matches Some(c) ==> c != Category::Unrecognized,
        old(draws).patients@.len() >= spec_needs_entries(
            entries_deep_view(es@),
            ctx,
            gcat,
            Category::Patients,
            old(cache)@,
        ),
        old(draws).diagnosis@.len() >= spec_needs_entries(
            entries_deep_view(es@),
            ctx,
            gcat,
            Category::Diagnosis,
            old(cache)@,
        ),
        old(draws).specimen@.len() >= spec_needs_entries(
            entries_deep_view(es@),
            ctx,
            gcat,
            Category::Specimen,
            old(cache)@,
        ),
    ensures
        ({
            let st0 = RewriteState {
                obf: state_of(*old(cache), *old(draws)),
                warnings: strings_deep_view(old(warnings)@),
            };
            let (out, st2) = spec_rewrite_entries(entries_deep_view(es@), ctx, gcat, st0);
            &&& entries_deep_view(r@) == out
            &&& final(cache)@ == st2.obf.cache
            &&& final(cache).wf()
            &&& final(draws).patients@ == st2.obf.patients
            &&& final(draws).diagnosis@ == st2.obf.diagnosis
            &&& final(draws).specimen@ == st2.obf.specimen
            &&& final(draws).wf()
            &&& strings_deep_view(final(warnings)@) == st2.warnings
        }),
    decreases es@,
{
    if es.len() == 0 {
        return es;
    }
    let ghost es0 = es@;
    let ghost st0 = RewriteState {
        obf: state_of(*old(cache), *old(draws)),
        warnings: strings_deep_view(old(warnings)@),
    };
    proof {
        lemma_edv_first(es0);
    }
    let pair = es.remove(0);
    let k = pair.0;
    let v = pair.1;
    proof {
        assert(es@ =~= es0.drop_first());
        assert(decreases_to!(es0 => es0[0]));
        assert(decreases_to!(es0[0] => es0[0].1));
    }
    let v2: Node = match ctx {
        Some(cb) => {
            match v {
                Node::Uint(c) => {
                    if string_eq_lit(&k, "count") {
                        let c2 = rewrite_count(c, cb.0, cb.1, cache, draws);
                        Node::Uint(c2)
                    } else {
                        rewrite_node(
                            Node::Uint(c),
                            child_ctx(&k, gcat, ctx),
                            cache,
                            draws,
                            warnings,
                        )
                    }
                },
                vv => rewrite_node(vv, child_ctx(&k, gcat, ctx), cache, draws, warnings),
            }
        },
        None => rewrite_node(v, child_ctx(&k, gcat, ctx), cache, draws, warnings),
    };
    proof {
        let edv0 = entries_deep_view(es0);
        let k0 = edv0[0].0;
        let v0 = edv0[0].1;
        let (v20, st1) = match ctx {
            Some(cb) => match v0 {
                NodeView::Uint(c) => if k0 == "count"@ {
                    let (c2, obf2) = spec_rewrite_count(c, cb.0, cb.1, st0.obf);
                    (NodeView::Uint(c2), RewriteState { obf: obf2, ..st0 })
                } else {
                    spec_rewrite_node(v0, spec_child_ctx(k0, gcat, ctx), st0)
                },
                _ => spec_rewrite_node(v0, spec_child_ctx(k0, gcat, ctx), st0),
            },
            None => spec_rewrite_node(v0, spec_child_ctx(k0, gcat, ctx), st0),
        };
        match ctx {
            Some(cb) => {
                match v0 {
                    NodeView::Uint(c) => {
                        if k0 == "count"@ {
                            lemma_rewrite_count_effects(c, cb.0, cb.1, st0.obf);
                        } else {
                            lemma_rewrite_node_effects(v0, spec_child_ctx(k0, gcat, ctx), st0);
                        }
                    },
                    _ => {
                        lemma_rewrite_node_effects(v0, spec_child_ctx(k0, gcat, ctx), st0);
                    },
                }
            },
            None => {
                lemma_rewrite_node_effects(v0, spec_child_ctx(k0, gcat, ctx), st0);
            },
        }
        lemma_needs_entries_antitone(
            edv0.drop_first(), ctx, gcat, Category::Patients, st0.obf.cache, st1.obf.cache,
        );
        lemma_needs_entries_antitone(
            edv0.drop_first(), ctx, gcat, Category::Diagnosis, st0.obf.cache, st1.obf.cache,
        );
        lemma_needs_entries_antitone(
            edv0.drop_first(), ctx, gcat, Category::Specimen, st0.obf.cache, st1.obf.cache,
        );
    }
    let rest = rewrite_entries(es, ctx, gcat, cache, draws, warnings);
    let ghost rest0 = rest@;
    let mut out = rest;
    out.insert(0, (k, v2));
    proof {
        assert(out@[0] == (k, v2));
        assert(out@.drop_first() =~= rest0);
        lemma_edv_first(out@);
    }
    out
}

/// Rewrites an array's items in order.
fn rewrite_items(
    mut items: Vec<Node>,
    ctx: Option<(Category, usize)>,
    cache: &mut crate::ObfCache,
    draws: &mut NoiseDraws,
    warnings: &mut Vec<String>,
) -> (r: Vec<Node>)
    requires
        old(cache).wf(),
        old(draws).wf(),
        ctx matches Some(cb) ==> cb.0 != Category::Unrecognized,
        old(draws).patients@.len() >= spec_needs_items(
            items_deep_view(items@),
            ctx,
            Category::Patients,
            old(cache)@,
        ),
        old(draws).diagnosis@.len() >= spec_needs_items(
            items_deep_view(items@),
            ctx,
            Category::Diagnosis,
            old(cache)@,
        ),
        old(draws).specimen@.len() >= spec_needs_items(
            items_deep_view(items@),
            ctx,
            Category::Specimen,
            old(cache)@,
        ),
    ensures
        ({
            let st0 = RewriteState {
                obf: state_of(*old(cache), *old(draws)),
                warnings: strings_deep_view(old(warnings)@),
            };
            let (out, st2) = spec_rewrite_items(items_deep_view(items@), ctx, st0);
            &&& items_deep_view(r@) == out
            &&& final(cache)@ == st2.obf.cache
            &&& final(cache).wf()
            &&& final(draws).patients@ == st2.obf.patients
            &&& final(draws).diagnosis@ == st2.obf.diagnosis
            &&& final(draws).specimen@ == st2.obf.specimen
            &&& final(draws).wf()
            &&& strings_deep_view(final(warnings)@) == st2.warnings
        }),
    decreases items@,
{
    if items.len() == 0 {
        return items;
    }
    let ghost items0 = items@;
    let ghost st0 = RewriteState {
        obf: state_of(*old(cache), *old(draws)),
        warnings: strings_deep_view(old(warnings)@),
    };
    proof {
        lemma_idv_first(items0);
    }
    let head = items.remove(0);
    proof {
        assert(items@ =~= items0.drop_first());
        assert(decreases_to!(items0 => items0[0]));
    }
    let v2 = rewrite_node(head, ctx, cache, draws, warnings);
    proof {
        lemma_rewrite_node_effects(items_deep_view(items0)[0], ctx, st0);
        let (v20, st1) = spec_rewrite_node(items_deep_view(items0)[0], ctx, st0);
        lemma_needs_items_antitone(
            items_deep_view(items0).drop_first(), ctx, Category::Patients, st0.obf.cache, st1.obf.cache,
        );
        lemma_needs_items_antitone(
            items_deep_view(items0).drop_first(), ctx, Category::Diagnosis, st0.obf.cache, st1.obf.cache,
        );
        lemma_needs_items_antitone(
            items_deep_view(items0).drop_first(), ctx, Category::Specimen, st0.obf.cache, st1.obf.cache,
        );
    }
    let rest = rewrite_items(items, ctx, cache, draws, warnings);
    let ghost rest0 = rest@;
    let mut out = rest;
    out.insert(0, v2);
    proof {
        assert(out@[0] == v2);
        assert(out@.drop_first() =~= rest0);
        lemma_idv_first(out@);
    }
    out
}

/// Walks a document tree depth-first and replaces every count it can
/// classify: inside each group whose label names a recognized category, the
/// counts of its `population` subtree (bin 1) and of its `stratifier`
/// subtree (bin 2) are suppressed or obfuscated with that category's
/// sensitivity, through the shared cache.  Groups with unrecognized labels
/// are left completely untouched and their labels are returned as
/// diagnostics.  The tree keeps its exact shape; only count values change.
pub fn obfuscate_document(tree: Node, obf_cache: &mut crate::ObfCache, draws: &mut NoiseDraws) -> (r: (
    Node,
    Vec<String>,
))
    requires
        old(obf_cache).wf(),
        old(draws).wf(),
        old(draws).patients@.len() >= spec_needs_node(
            tree.deep_view(),
            None,
            Category::Patients,
            old(obf_cache)@,
        ),
        old(draws).diagnosis@.len() >= spec_needs_node(
            tree.deep_view(),
            None,
            Category::Diagnosis,
            old(obf_cache)@,
        ),
        old(draws).specimen@.len() >= spec_needs_node(
            tree.deep_view(),
            None,
            Category::Specimen,
            old(obf_cache)@,
        ),
    ensures
        ({
            let st0 = RewriteState {
                obf: state_of(*old(obf_cache), *old(draws)),
                warnings: Seq::empty(),
            };
            let (out, st2) = spec_rewrite_node(tree.deep_view(), None, st0);
            &&& r.0.deep_view() == out
            &&& final(obf_cache)@ == st2.obf.cache
            &&& final(obf_cache).wf()
            &&& final(draws).patients@ == st2.obf.patients
            &&& final(draws).diagnosis@ == st2.obf.diagnosis
            &&& final(draws).specimen@ == st2.obf.specimen
            &&& final(draws).wf()
            &&& strings_deep_view(r.1@) == st2.warnings
        }),
{
    let mut warnings: Vec<String> = Vec::new();
    proof {
        assert(strings_deep_view(warnings@) =~= Seq::<Seq<char>>::empty());
    }
    let out = rewrite_node(tree, None, obf_cache, draws, &mut warnings);
    (out, warnings)
}

/// How many noise draws `obfuscate_document` can consume at most, per
/// category, saturated at `u64::MAX`.
pub struct SiteCounts {
    pub patients: u64,
    pub diagnosis: u64,
    pub specimen: u64,
}

/// A draw bound saturated into `u64`.
pub open spec fn sat64(x: nat) -> int {
    if x <= u64::MAX {
        x as int
    } else {
        u64::MAX as int
    }
}

/// Saturating addition.
fn sat_add(a: u64, b: u64) -> (r: u64)
    ensures
        r as int == if a + b <= u64::MAX {
            a + b
        } else {
            u64::MAX as int
        },
{
    match a.checked_add(b) {
        Some(s) => s,
        None => u64::MAX,
    }
}

/// Counts, per category, the count sites of a document that the rewriter
/// could still draw noise for against the given cache: supplies of these
/// sizes are always enough for `obfuscate_document`, and against a cache
/// that already holds every site they are zero.
pub fn count_obfuscation_sites(tree: &Node, cache: &crate::ObfCache) -> (c: SiteCounts)
    requires
        cache.wf(),
    ensures
        c.patients as int == sat64(
            spec_needs_node(tree.deep_view(), None, Category::Patients, cache@),
        ),
        c.diagnosis as int == sat64(
            spec_needs_node(tree.deep_view(), None, Category::Diagnosis, cache@),
        ),
        c.specimen as int == sat64(
            spec_needs_node(tree.deep_view(), None, Category::Specimen, cache@),
        ),
{
    count_sites_node(tree, None, cache)
}

/// The per-node form of `count_obfuscation_sites`.
fn count_sites_node(n: &Node, ctx: Option<(Category, usize)>, cache: &crate::ObfCache) -> (c:
    SiteCounts)
    requires
        cache.wf(),
    ensures
        c.patients as int == sat64(spec_needs_node(n.deep_view(), ctx, Category::Patients, cache@)),
        c.diagnosis as int == sat64(
            spec_needs_node(n.deep_view(), ctx, Category::Diagnosis, cache@),
        ),
        c.specimen as int == sat64(spec_needs_node(n.deep_view(), ctx, Category::Specimen, cache@)),
    decreases *n,
{
    match n {
        Node::Object(es) => {
            let label_opt = find_label(es);
            match label_opt {
                Some(lbl) => {
                    let cat = Category::of_label(&lbl);
                    if cat == Category::Unrecognized {
                        SiteCounts { patients: 0, diagnosis: 0, specimen: 0 }
                    } else {
                        proof {
                            assert(decreases_to!(*n => *es));
                            assert(decreases_to!(*es => es@));
                            assert(es@.skip(0) =~= es@);
                            assert(entries_deep_view(es@).skip(0) =~= entries_deep_view(es@));
                        }
                        count_sites_entries(es, 0, ctx, Some(cat), cache)
                    }
                },
                None => {
                    proof {
                        assert(decreases_to!(*n => *es));
                        assert(decreases_to!(*es => es@));
                        assert(es@.skip(0) =~= es@);
                        assert(entries_deep_view(es@).skip(0) =~= entries_deep_view(es@));
                    }
                    count_sites_entries(es, 0, ctx, None, cache)
                },
            }
        },
        Node::Array(items) => {
            proof {
                assert(decreases_to!(*n => *items));
                assert(decreases_to!(*items => items@));
                assert(items@.skip(0) =~= items@);
                assert(items_deep_view(items@).skip(0) =~= items_deep_view(items@));
            }
            count_sites_items(items, 0, ctx, cache)
        },
        _ => SiteCounts { patients: 0, diagnosis: 0, specimen: 0 },
    }
}

/// Counts the sites of the entries from position `i` on.
fn count_sites_entries(
    es: &Vec<(String, Node)>,
    i: usize,
    ctx: Option<(Category, usize)>,
    gcat: Option<Category>,
    cache: &crate::ObfCache,
) -> (c: SiteCounts)
    requires
        i <= es@.len(),
        cache.wf(),
    ensures
        c.patients as int == sat64(
            spec_needs_entries(
                entries_deep_view(es@).skip(i as int),
                ctx,
                gcat,
                Category::Patients,
                cache@,
            ),
        ),
        c.diagnosis as int == sat64(
            spec_needs_entries(
                entries_deep_view(es@).skip(i as int),
                ctx,
                gcat,
                Category::Diagnosis,
                cache@,
            ),
        ),
        c.specimen as int == sat64(
            spec_needs_entries(
                entries_deep_view(es@).skip(i as int),
                ctx,
                gcat,
                Category::Specimen,
                cache@,
            ),
        ),
    decreases es@.skip(i as int),
{
    proof {
        lemma_entries_deep_view(es@);
    }
    if i == es.len() {
        proof {
            assert(entries_deep_view(es@).skip(i as int) =~= Seq::<(Seq<char>, NodeView)>::empty());
        }
        return SiteCounts { patients: 0, diagnosis: 0, specimen: 0 };
    }
    let ghost tail = entries_deep_view(es@).skip(i as int);
    let ghost mtail = es@.skip(i as int);
    proof {
        assert(tail[0] == entries_deep_view(es@)[i as int]);
        assert(tail.drop_first() =~= entries_deep_view(es@).skip(i as int + 1));
        assert(mtail[0] == es@[i as int]);
        assert(decreases_to!(mtail => mtail[0]));
        assert(decreases_to!(mtail[0] => mtail[0].1));
        assert(decreases_to!(mtail => mtail.subrange(1, mtail.len() as int)));
        assert(mtail.subrange(1, mtail.len() as int) =~= es@.skip(i as int + 1));
    }
    let entry = &es[i];
    let head: SiteCounts = match ctx {
        Some(cb) => {
            match &entry.1 {
                Node::Uint(c_val) => {
                    if string_eq_lit(&entry.0, "count") {
                        if *c_val > 10 && cache.get(
                            cb.0.sensitivity() as usize,
                            *c_val,
                            cb.1,
                        ).is_none() {
                            SiteCounts {
                                patients: if cb.0 == Category::Patients {
                                    1
                                } else {
                                    0
                                },
                                diagnosis: if cb.0 == Category::Diagnosis {
                                    1
                                } else {
                                    0
                                },
                                specimen: if cb.0 == Category::Specimen {
                                    1
                                } else {
                                    0
                                },
                            }
                        } else {
                            SiteCounts { patients: 0, diagnosis: 0, specimen: 0 }
                        }
                    } else {
                        count_sites_node(&entry.1, child_ctx(&entry.0, gcat, ctx), cache)
                    }
                },
                _ => count_sites_node(&entry.1, child_ctx(&entry.0, gcat, ctx), cache),
            }
        },
        None => count_sites_node(&entry.1, child_ctx(&entry.0, gcat, ctx), cache),
    };
    let rest = count_sites_entries(es, i + 1, ctx, gcat, cache);
    SiteCounts {
        patients: sat_add(head.patients, rest.patients),
        diagnosis: sat_add(head.diagnosis, rest.diagnosis),
        specimen: sat_add(head.specimen, rest.specimen),
    }
}

/// Counts the sites of the items from position `i` on.
fn count_sites_items(
    items: &Vec<Node>,
    i: usize,
    ctx: Option<(Category, usize)>,
    cache: &crate::ObfCache,
) -> (c: SiteCounts)
    requires
        i <= items@.len(),
        cache.wf(),
    ensures
        c.patients as int == sat64(
            spec_needs_items(
                items_deep_view(items@).skip(i as int),
                ctx,
                Category::Patients,
                cache@,
            ),
        ),
        c.diagnosis as int == sat64(
            spec_needs_items(
                items_deep_view(items@).skip(i as int),
                ctx,
                Category::Diagnosis,
                cache@,
            ),
        ),
        c.specimen as int == sat64(
            spec_needs_items(
                items_deep_view(items@).skip(i as int),
                ctx,
                Category::Specimen,
                cache@,
            ),
        ),
    decreases items@.skip(i as int),
{
    proof {
        lemma_items_deep_view(items@);
    }
    if i == items.len() {
        proof {
            assert(items_deep_view(items@).skip(i as int) =~= Seq::<NodeView>::empty());
        }
        return SiteCounts { patients: 0, diagnosis: 0, specimen: 0 };
    }
    let ghost tail = items_deep_view(items@).skip(i as int);
    let ghost mtail = items@.skip(i as int);
    proof {
        assert(tail[0] == items_deep_view(items@)[i as int]);
        assert(tail.drop_first() =~= items_deep_view(items@).skip(i as int + 1));
        assert(mtail[0] == items@[i as int]);
        assert(decreases_to!(mtail => mtail[0]));
        assert(decreases_to!(mtail => mtail.subrange(1, mtail.len() as int)));
        assert(mtail.subrange(1, mtail.len() as int) =~= items@.skip(i as int + 1));
    }
    let head = count_sites_node(&items[i], ctx, cache);
    let rest = count_sites_items(items, i + 1, ctx, cache);
    SiteCounts {
        patients: sat_add(head.patients, rest.patients),
        diagnosis: sat_add(head.diagnosis, rest.diagnosis),
        specimen: sat_add(head.specimen, rest.specimen),
    }
}

/// Shape equality up to counts: `b` has exactly the keys, array lengths and
/// scalar values of `a`, except that a `count` entry holding a non-negative
/// integer may hold a different one.
pub open spec fn count_shape_eq(a: NodeView, b: NodeView) -> bool
    decreases a,
{
    match a {
        NodeView::Object(ea) => b matches NodeView::Object(eb) && count_shape_eq_entries(ea, eb),
        NodeView::Array(ia) => b matches NodeView::Array(ib) && count_shape_eq_items(ia, ib),
        _ => b == a,
    }
}

/// The entry-list form of `count_shape_eq`.
pub open spec fn count_shape_eq_entries(
    ea: Seq<(Seq<char>, NodeView)>,
    eb: Seq<(Seq<char>, NodeView)>,
) -> bool
    decreases ea,
{
    &&& ea.len() == eb.len()
    &&& (ea.len() > 0 ==> {
        &&& eb[0].0 == ea[0].0
        &&& (if ea[0].0 == "count"@ && ea[0].1 is Uint {
            eb[0].1 is Uint
        } else {
            count_shape_eq(ea[0].1, eb[0].1)
        })
        &&& count_shape_eq_entries(ea.drop_first(), eb.drop_first())
    })
}

/// The item-list form of `count_shape_eq`.
pub open spec fn count_shape_eq_items(ia: Seq<NodeView>, ib: Seq<NodeView>) -> bool
    decreases ia,
{
    &&& ia.len() == ib.len()
    &&& (ia.len() > 0 ==> count_shape_eq(ia[0], ib[0]) && count_shape_eq_items(
        ia.drop_first(),
        ib.drop_first(),
    ))
}

/// Every tree matches its own shape.
pub proof fn lemma_count_shape_refl(a: NodeView)
    ensures
        count_shape_eq(a, a),
    decreases a,
{
    match a {
        NodeView::Object(ea) => {
            lemma_count_shape_entries_refl(ea);
        },
        NodeView::Array(ia) => {
            lemma_count_shape_items_refl(ia);
        },
        _ => {},
    }
}

proof fn lemma_count_shape_entries_refl(ea: Seq<(Seq<char>, NodeView)>)
    ensures
        count_shape_eq_entries(ea, ea),
    decreases ea,
{
    if ea.len() > 0 {
        lemma_count_shape_refl(ea[0].1);
        lemma_count_shape_entries_refl(ea.drop_first());
    }
}

proof fn lemma_count_shape_items_refl(ia: Seq<NodeView>)
    ensures
        count_shape_eq_items(ia, ia),
    decreases ia,
{
    if ia.len() > 0 {
        lemma_count_shape_refl(ia[0]);
        lemma_count_shape_items_refl(ia.drop_first());
    }
}

/// Document rewriter shape preservation: for any input tree, the rewritten
/// tree has identical key sets, identical array lengths and identical
/// non-count scalar values; only values under keys literally named `count`
/// may change.
pub proof fn lemma_rewrite_shape_preserved(
    m: NodeView,
    ctx: Option<(Category, usize)>,
    st: RewriteState,
)
    ensures
        count_shape_eq(m, spec_rewrite_node(m, ctx, st).0),
    decreases m,
{
    match m {
        NodeView::Object(es) => match spec_find_label(es) {
            Some(lbl) => {
                if Category::spec_of_label(lbl) == Category::Unrecognized {
                    lemma_count_shape_refl(m);
                } else {
                    lemma_rewrite_shape_entries(es, ctx, Some(Category::spec_of_label(lbl)), st);
                }
            },
            None => {
                lemma_rewrite_shape_entries(es, ctx, None, st);
            },
        },
        NodeView::Array(items) => {
            lemma_rewrite_shape_items(items, ctx, st);
        },
        _ => {},
    }
}

proof fn lemma_rewrite_shape_entries(
    es: Seq<(Seq<char>, NodeView)>,
    ctx: Option<(Category, usize)>,
    gcat: Option<Category>,
    st: RewriteState,
)
    ensures
        count_shape_eq_entries(es, spec_rewrite_entries(es, ctx, gcat, st).0),
    decreases es,
{
    if es.len() > 0 {
        let k = es[0].0;
        let v = es[0].1;
        let (v2, st1) = match ctx {
            Some(cb) => match v {
                NodeView::Uint(c) => if k == "count"@ {
                    let (c2, obf2) = spec_rewrite_count(c, cb.0, cb.1, st.obf);
                    (NodeView::Uint(c2), RewriteState { obf: obf2, ..st })
                } else {
                    spec_rewrite_node(v, spec_child_ctx(k, gcat, ctx), st)
                },
                _ => spec_rewrite_node(v, spec_child_ctx(k, gcat, ctx), st),
            },
            None => spec_rewrite_node(v, spec_child_ctx(k, gcat, ctx), st),
        };
        match ctx {
            Some(cb) => match v {
                NodeView::Uint(c) => if k == "count"@ {
                } else {
                    lemma_rewrite_shape_preserved(v, spec_child_ctx(k, gcat, ctx), st);
                },
                _ => {
                    lemma_rewrite_shape_preserved(v, spec_child_ctx(k, gcat, ctx), st);
                },
            },
            None => {
                lemma_rewrite_shape_preserved(v, spec_child_ctx(k, gcat, ctx), st);
            },
        }
        lemma_rewrite_shape_entries(es.drop_first(), ctx, gcat, st1);
        let (rest, st2) = spec_rewrite_entries(es.drop_first(), ctx, gcat, st1);
        let out = seq![(k, v2)] + rest;
        assert(out.drop_first() =~= rest);
        assert(count_shape_eq_entries(es, out));
    }
}

proof fn lemma_rewrite_shape_items(
    ia: Seq<NodeView>,
    ctx: Option<(Category, usize)>,
    st: RewriteState,
)
    ensures
        count_shape_eq_items(ia, spec_rewrite_items(ia, ctx, st).0),
    decreases ia,
{
    if ia.len() > 0 {
        lemma_rewrite_shape_preserved(ia[0], ctx, st);
        let (v2, st1) = spec_rewrite_node(ia[0], ctx, st);
        lemma_rewrite_shape_items(ia.drop_first(), ctx, st1);
        let (rest, st2) = spec_rewrite_items(ia.drop_first(), ctx, st1);
        let out = seq![v2] + rest;
        assert(out.drop_first() =~= rest);
        assert(count_shape_eq_items(ia, out));
    }
}

/// Replaying one count replacement against a cache that already holds
/// everything the first replacement knew returns the first result and
/// changes nothing.
proof fn lemma_count_replay(c: u64, cat: Category, bin: usize, obf_a: ObfState, obf_b: ObfState)
    requires
        spec_rewrite_count(c, cat, bin, obf_a).1.cache.submap_of(obf_b.cache),
    ensures
        ({
            let (va, oa2) = spec_rewrite_count(c, cat, bin, obf_a);
            let (vb, ob2) = spec_rewrite_count(c, cat, bin, obf_b);
            vb == va && ob2 == obf_b
        }),
{
    let (va, oa2) = spec_rewrite_count(c, cat, bin, obf_a);
    let key = (cat.spec_sensitivity() as usize, c, bin);
    if c != 0 && c > 10 {
        assert(oa2.cache.contains_key(key) && oa2.cache[key] == va);
        assert(oa2.cache.dom().contains(key));
        assert(obf_b.cache.dom().contains(key) && obf_b.cache[key] == oa2.cache[key]);
    }
}

/// Replaying a rewrite against a cache that already holds everything the
/// first run stored produces exactly the first run's tree and leaves the
/// cache and the draw supplies untouched: every count site hits the cache.
pub proof fn lemma_rewrite_replay_node(
    m: NodeView,
    ctx: Option<(Category, usize)>,
    st_a: RewriteState,
    st_b: RewriteState,
)
    requires
        spec_rewrite_node(m, ctx, st_a).1.obf.cache.submap_of(st_b.obf.cache),
    ensures
        ({
            let (out_a, st_a2) = spec_rewrite_node(m, ctx, st_a);
            let (out_b, st_b2) = spec_rewrite_node(m, ctx, st_b);
            out_b == out_a && st_b2.obf == st_b.obf
        }),
    decreases m,
{
    match m {
        NodeView::Object(es) => match spec_find_label(es) {
            Some(lbl) => {
                if Category::spec_of_label(lbl) != Category::Unrecognized {
                    lemma_rewrite_replay_entries(es, ctx, Some(Category::spec_of_label(lbl)), st_a, st_b);
                }
            },
            None => {
                lemma_rewrite_replay_entries(es, ctx, None, st_a, st_b);
            },
        },
        NodeView::Array(items) => {
            lemma_rewrite_replay_items(items, ctx, st_a, st_b);
        },
        _ => {},
    }
}

proof fn lemma_rewrite_replay_entries(
    es: Seq<(Seq<char>, NodeView)>,
    ctx: Option<(Category, usize)>,
    gcat: Option<Category>,
    st_a: RewriteState,
    st_b: RewriteState,
)
    requires
        spec_rewrite_entries(es, ctx, gcat, st_a).1.obf.cache.submap_of(st_b.obf.cache),
    ensures
        ({
            let (out_a, st_a2) = spec_rewrite_entries(es, ctx, gcat, st_a);
            let (out_b, st_b2) = spec_rewrite_entries(es, ctx, gcat, st_b);
            out_b == out_a && st_b2.obf == st_b.obf
        }),
    decreases es,
{
    if es.len() > 0 {
        let k = es[0].0;
        let v = es[0].1;
        let (va2, st_a1) = match ctx {
            Some(cb) => match v {
                NodeView::Uint(c) => if k == "count"@ {
                    let (c2, obf2) = spec_rewrite_count(c, cb.0, cb.1, st_a.obf);
                    (NodeView::Uint(c2), RewriteState { obf: obf2, ..st_a })
                } else {
                    spec_rewrite_node(v, spec_child_ctx(k, gcat, ctx), st_a)
                },
                _ => spec_rewrite_node(v, spec_child_ctx(k, gcat, ctx), st_a),
            },
            None => spec_rewrite_node(v, spec_child_ctx(k, gcat, ctx), st_a),
        };
        let (rest_a, st_a2) = spec_rewrite_entries(es.drop_first(), ctx, gcat, st_a1);
        lemma_rewrite_entries_effects(es.drop_first(), ctx, gcat, st_a1);
        // the head's final cache is below the rest's final cache, hence below b's
        vstd::map_lib::lemma_submap_of_trans(
            st_a1.obf.cache,
            st_a2.obf.cache,
            st_b.obf.cache,
        );
        match ctx {
            Some(cb) => match v {
                NodeView::Uint(c) => if k == "count"@ {
                    lemma_count_replay(c, cb.0, cb.1, st_a.obf, st_b.obf);
                } else {
                    lemma_rewrite_replay_node(v, spec_child_ctx(k, gcat, ctx), st_a, st_b);
                },
                _ => {
                    lemma_rewrite_replay_node(v, spec_child_ctx(k, gcat, ctx), st_a, st_b);
                },
            },
            None => {
                lemma_rewrite_replay_node(v, spec_child_ctx(k, gcat, ctx), st_a, st_b);
            },
        }
        let (vb2, st_b1) = match ctx {
            Some(cb) => match v {
                NodeView::Uint(c) => if k == "count"@ {
                    let (c2, obf2) = spec_rewrite_count(c, cb.0, cb.1, st_b.obf);
                    (NodeView::Uint(c2), RewriteState { obf: obf2, ..st_b })
                } else {
                    spec_rewrite_node(v, spec_child_ctx(k, gcat, ctx), st_b)
                },
                _ => spec_rewrite_node(v, spec_child_ctx(k, gcat, ctx), st_b),
            },
            None => spec_rewrite_node(v, spec_child_ctx(k, gcat, ctx), st_b),
        };
        assert(vb2 == va2 && st_b1.obf == st_b.obf);
        lemma_rewrite_replay_entries(es.drop_first(), ctx, gcat, st_a1, st_b1);
    }
}

proof fn lemma_rewrite_replay_items(
    ia: Seq<NodeView>,
    ctx: Option<(Category, usize)>,
    st_a: RewriteState,
    st_b: RewriteState,
)
    requires
        spec_rewrite_items(ia, ctx, st_a).1.obf.cache.submap_of(st_b.obf.cache),
    ensures
        ({
            let (out_a, st_a2) = spec_rewrite_items(ia, ctx, st_a);
            let (out_b, st_b2) = spec_rewrite_items(ia, ctx, st_b);
            out_b == out_a && st_b2.obf == st_b.obf
        }),
    decreases ia,
{
    if ia.len() > 0 {
        let (va2, st_a1) = spec_rewrite_node(ia[0], ctx, st_a);
        let (rest_a, st_a2) = spec_rewrite_items(ia.drop_first(), ctx, st_a1);
        lemma_rewrite_items_effects(ia.drop_first(), ctx, st_a1);
        vstd::map_lib::lemma_submap_of_trans(
            st_a1.obf.cache,
            st_a2.obf.cache,
            st_b.obf.cache,
        );
        lemma_rewrite_replay_node(ia[0], ctx, st_a, st_b);
        let (vb2, st_b1) = spec_rewrite_node(ia[0], ctx, st_b);
        lemma_rewrite_replay_items(ia.drop_first(), ctx, st_a1, st_b1);
    }
}

/// Document rewriter determinism: rewriting the same document a second time
/// with the cache the first rewrite left behind yields exactly the first
/// rewrite's tree and leaves the cache untouched — whatever draw supplies
/// and collected warnings the second run starts from.
pub proof fn lemma_rewrite_deterministic(
    m: NodeView,
    st: RewriteState,
    patients2: Seq<Ratio>,
    diagnosis2: Seq<Ratio>,
    specimen2: Seq<Ratio>,
    warnings2: Seq<Seq<char>>,
)
    ensures
        ({
            let (out1, st1) = spec_rewrite_node(m, None, st);
            let st_second = RewriteState {
                obf: ObfState {
                    cache: st1.obf.cache,
                    patients: patients2,
                    diagnosis: diagnosis2,
                    specimen: specimen2,
                },
                warnings: warnings2,
            };
            let (out2, st2) = spec_rewrite_node(m, None, st_second);
            out2 == out1 && st2.obf == st_second.obf
        }),
{
    let (out1, st1) = spec_rewrite_node(m, None, st);
    let st_second = RewriteState {
        obf: ObfState {
            cache: st1.obf.cache,
            patients: patients2,
            diagnosis: diagnosis2,
            specimen: specimen2,
        },
        warnings: warnings2,
    };
    assert(st1.obf.cache.submap_of(st_second.obf.cache));
    lemma_rewrite_replay_node(m, None, st, st_second);
}

} // verus!
