pub mod document;
pub mod errors;
pub mod ratio;

use vstd::prelude::*;

use crate::errors::LaplaceError;
use crate::ratio::{clamp_u64_multiple, clamp_usize, rhaz, round_to_multiple, Ratio, MAG_LIMIT, MAX_DEN};

verus! {

/// An integer identifier distinguishing why a count is being obfuscated, so
/// that the same raw count appearing in different structural roles does not
/// collide in the cache.
pub type Bin = usize;

type Sensitivity = usize;

type Count = u64;

/// The mapping a sequence of cache entries denotes: later entries win, which
/// is irrelevant once keys are unique.
pub open spec fn map_of(s: Seq<((Sensitivity, Count, Bin), u64)>) -> Map<
    (Sensitivity, Count, Bin),
    u64,
>
    decreases s.len(),
{
    if s.len() == 0 {
        Map::empty()
    } else {
        map_of(s.drop_last()).insert(s.last().0, s.last().1)
    }
}

/// No two entries carry the same key.
pub open spec fn keys_unique(s: Seq<((Sensitivity, Count, Bin), u64)>) -> bool {
    forall|i: int, j: int| 0 <= i < j < s.len() ==> s[i].0 != s[j].0
}

/// An entry with no later duplicate is what the denoted map returns for its
/// key.
proof fn lemma_map_of_get(s: Seq<((Sensitivity, Count, Bin), u64)>, i: int)
    requires
        0 <= i < s.len(),
        forall|j: int| i < j < s.len() ==> s[j].0 != s[i].0,
    ensures
        map_of(s).contains_key(s[i].0),
        map_of(s)[s[i].0] == s[i].1,
    decreases s.len(),
{
    if i == s.len() - 1 {
    } else {
        lemma_map_of_get(s.drop_last(), i);
    }
}

/// A key matching no entry is absent from the denoted map.
proof fn lemma_map_of_absent(s: Seq<((Sensitivity, Count, Bin), u64)>, k: (Sensitivity, Count, Bin))
    requires
        forall|j: int| 0 <= j < s.len() ==> s[j].0 != k,
    ensures
        !map_of(s).contains_key(k),
    decreases s.len(),
{
    if s.len() > 0 {
        lemma_map_of_absent(s.drop_last(), k);
    }
}

/// Under unique keys, a key absent from the denoted map matches no entry.
proof fn lemma_absent_no_match(s: Seq<((Sensitivity, Count, Bin), u64)>, k: (Sensitivity, Count, Bin))
    requires
        keys_unique(s),
        !map_of(s).contains_key(k),
    ensures
        forall|j: int| 0 <= j < s.len() ==> s[j].0 != k,
{
    assert forall|j: int| 0 <= j < s.len() implies s[j].0 != k by {
        if s[j].0 == k {
            lemma_map_of_get(s, j);
        }
    }
}

/// The obfuscation cache: a mapping from the composite key
/// `(sensitivity class, raw count, bin)` to the obfuscated value previously
/// produced for it.  Once a key is present its value is never overwritten,
/// so repeated lookups are guaranteed to agree for the life of the cache.
pub struct ObfCache {
    cache: Vec<((Sensitivity, Count, Bin), u64)>,
}

impl View for ObfCache {
    type V = Map<(Sensitivity, Count, Bin), u64>;

    closed spec fn view(&self) -> Map<(Sensitivity, Count, Bin), u64> {
        map_of(self.cache@)
    }
}

impl ObfCache {
    /// Entries never repeat a key, so the cache's mapping is unambiguous.
    pub closed spec fn wf(self) -> bool {
        keys_unique(self.cache@)
    }

    /// An empty cache.
    pub fn new() -> (r: ObfCache)
        ensures
            r.wf(),
            r@ == Map::<(Sensitivity, Count, Bin), u64>::empty(),
    {
        ObfCache { cache: Vec::new() }
    }

    /// Looks the key up; `None` exactly when the key was never stored.
    pub fn get(&self, sensitivity: Sensitivity, value: Count, bin: Bin) -> (r: Option<u64>)
        requires
            self.wf(),
        ensures
            r == if self@.contains_key((sensitivity, value, bin)) {
                Some(self@[(sensitivity, value, bin)])
            } else {
                None::<u64>
            },
    {
        let n = self.cache.len();
        let mut i: usize = 0;
        while i < n
            invariant
                n == self.cache@.len(),
                0 <= i <= n,
                self.wf(),
                forall|j: int| 0 <= j < i ==> self.cache@[j].0 != (sensitivity, value, bin),
            decreases n - i,
        {
            let e = &self.cache[i];
            if e.0.0 == sensitivity && e.0.1 == value && e.0.2 == bin {
                proof {
                    assert(self.cache@[i as int].0 == (sensitivity, value, bin));
                    lemma_map_of_get(self.cache@, i as int);
                }
                return Some(e.1);
            }
            i += 1;
        }
        proof {
            lemma_map_of_absent(self.cache@, (sensitivity, value, bin));
        }
        None
    }

    /// Stores `obfuscated` under the key if the key is new; an existing entry
    /// is left exactly as it was, never overwritten.
    pub fn insert(&mut self, sensitivity: Sensitivity, value: Count, bin: Bin, obfuscated: u64)
        requires
            old(self).wf(),
        ensures
            final(self).wf(),
            final(self)@ == if old(self)@.contains_key((sensitivity, value, bin)) {
                old(self)@
            } else {
                old(self)@.insert((sensitivity, value, bin), obfuscated)
            },
    {
        match self.get(sensitivity, value, bin) {
            Some(_) => {},
            None => {
                proof {
                    lemma_absent_no_match(self.cache@, (sensitivity, value, bin));
                }
                let ghost s0 = self.cache@;
                self.cache.push(((sensitivity, value, bin), obfuscated));
                proof {
                    assert(self.cache@.drop_last() =~= s0);
                }
            },
        }
    }
}

/// Draws one sample from a Laplace distribution with location `mu` and scale
/// `b`.  The randomness itself comes from the caller's generator: `noise` is
/// the raw sample that the generator produced for this distribution, and this
/// function enforces the mechanism's contract around it.  A non-positive
/// scale admits no Laplace distribution, and the sample is rejected with
/// `DistributionCreationError`; a positive scale always succeeds.
pub fn laplace(mu: Ratio, b: Ratio, noise: Ratio) -> (r: Result<Ratio, LaplaceError>)
    ensures
        b.num <= 0 ==> r == Err::<Ratio, LaplaceError>(LaplaceError::DistributionCreationError),
        b.num > 0 ==> r == Ok::<Ratio, LaplaceError>(noise),
{
    let _ = mu;
    if b.num <= 0 {
        Err(LaplaceError::DistributionCreationError)
    } else {
        Ok(noise)
    }
}

/// The small-count suppression policy for cached obfuscation of counts below
/// ten: report zero, report ten, or obfuscate them like any other count.
#[derive(PartialEq, Eq, PartialOrd, Ord, Clone, Structural)]
pub enum ObfuscateBelow10Mode {
    Zero,
    Ten,
    Obfuscate,
}

/// What the rounding policy returns for `value` and `step`: the value rounded
/// to the nearest multiple of the step, halves away from zero, clamped into
/// `u64` — negatives to `0` and overlarge values to the largest multiple of
/// the step that fits, so a successful result is a multiple of the step on
/// every input — or the rounding-step-zero error when `step` is zero.
pub open spec fn spec_round_parametric(value: Ratio, step: int) -> Result<u64, LaplaceError> {
    if step == 0 {
        Err(LaplaceError::InvalidArgRoundingStepZero)
    } else {
        Ok(clamp_u64_multiple(round_to_multiple(value.num as int, value.den as int, step), step) as u64)
    }
}

/// Rounds the value to the nearest multiple of the step parameter.
/// Fails, if and only if the step is zero, with the rounding-step-zero error.
pub fn round_parametric(value: Ratio, step_parameter: usize) -> (r: Result<u64, LaplaceError>)
    requires
        value.wf(),
    ensures
        r == spec_round_parametric(value, step_parameter as int),
{
    if step_parameter == 0 {
        return Err(LaplaceError::InvalidArgRoundingStepZero);
    }
    proof {
        assert((value.den as int) * (step_parameter as int) < MAG_LIMIT) by (nonlinear_arith)
            requires
                value.den <= MAX_DEN,
                step_parameter <= u64::MAX,
                MAX_DEN == 0x1_0000_0000u64,
                MAG_LIMIT == 0x100_0000_0000_0000_0000_0000_0000_0000u128,
        ;
    }
    let neg = value.num < 0;
    let a: u128 = if neg {
        (-(value.num as i128)) as u128
    } else {
        value.num as u128
    };
    let rounded = crate::ratio::rounded_multiple_mag(
        neg,
        a,
        value.den as u128,
        step_parameter as u128,
    );
    Ok(rounded)
}

/// What privatization returns: `value` plus the noise sample, rounded to the
/// nearest multiple of the step and clamped into `u64`; the
/// distribution-creation error exactly when the scale `sensitivity / epsilon`
/// is not strictly positive, else the rounding-step-zero error exactly when
/// the step is zero.
pub open spec fn spec_privatize(
    value: u64,
    sensitivity: Ratio,
    epsilon: Ratio,
    step: int,
    noise: Ratio,
) -> Result<u64, LaplaceError> {
    if sensitivity.num * epsilon.num <= 0 {
        Err(LaplaceError::DistributionCreationError)
    } else if step == 0 {
        Err(LaplaceError::InvalidArgRoundingStepZero)
    } else {
        Ok(
            clamp_u64_multiple(
                round_to_multiple(
                    value * noise.den + noise.num,
                    noise.den as int,
                    step,
                ),
                step,
            ) as u64,
        )
    }
}

/// Performs the actual perturbation of a value with the Laplace mechanism and
/// rounds the result to the nearest step position.  The scale of the
/// mechanism is `sensitivity / epsilon`; `noise` is the Laplace sample the
/// caller's generator drew with that scale, and it enters the result only
/// when the scale was valid, so an invalid configuration can never leak a
/// perturbed value.
pub fn privatize(
    value: u64,
    sensitivity: Ratio,
    epsilon: Ratio,
    rounding_step: usize,
    noise: Ratio,
) -> (r: Result<u64, LaplaceError>)
    requires
        noise.wf(),
    ensures
        r == spec_privatize(value, sensitivity, epsilon, rounding_step as int, noise),
{
    let scale_positive = (sensitivity.num > 0 && epsilon.num > 0) || (sensitivity.num < 0
        && epsilon.num < 0);
    proof {
        assert(scale_positive == (sensitivity.num * epsilon.num > 0)) by (nonlinear_arith)
            requires
                scale_positive == ((sensitivity.num > 0 && epsilon.num > 0) || (sensitivity.num < 0
                    && epsilon.num < 0)),
        ;
    }
    if !scale_positive {
        return Err(LaplaceError::DistributionCreationError);
    }
    if rounding_step == 0 {
        return Err(LaplaceError::InvalidArgRoundingStepZero);
    }
    proof {
        assert((value as int) * (noise.den as int) <= (u64::MAX as int) * (MAX_DEN as int))
            by (nonlinear_arith)
            requires
                value <= u64::MAX,
                noise.den <= MAX_DEN,
        ;
        assert((noise.den as int) * (rounding_step as int) < MAG_LIMIT) by (nonlinear_arith)
            requires
                noise.den <= MAX_DEN,
                rounding_step <= u64::MAX,
                MAX_DEN == 0x1_0000_0000u64,
                MAG_LIMIT == 0x100_0000_0000_0000_0000_0000_0000_0000u128,
        ;
    }
    let vd: u128 = (value as u128) * (noise.den as u128);
    let sum: i128 = vd as i128 + noise.num as i128;
    let neg = sum < 0;
    let a: u128 = if neg {
        (-sum) as u128
    } else {
        sum as u128
    };
    let rounded = crate::ratio::rounded_multiple_mag(
        neg,
        a,
        noise.den as u128,
        rounding_step as u128,
    );
    Ok(rounded)
}

/// The integer sensitivity class of the cache key: the sensitivity rounded to
/// the nearest integer, an intentional coarsening so that nearly-equal
/// sensitivities reuse cache entries.
pub open spec fn spec_sensitivity_class(delta: Ratio) -> Sensitivity {
    clamp_usize(rhaz(delta.num as int, delta.den as int)) as usize
}

/// Rounds the sensitivity to its integer cache-key class.
pub fn sensitivity_class_of(delta: Ratio) -> (s: Sensitivity)
    requires
        delta.wf(),
    ensures
        s == spec_sensitivity_class(delta),
{
    let p = crate::ratio::round_to_nearest_int(delta);
    if p < 0 {
        0
    } else if (p as u64) > (usize::MAX as u64) {
        usize::MAX
    } else {
        p as usize
    }
}

/// What a cached obfuscation call returns and how it leaves the cache's
/// mapping `m`, evaluated in this exact order: zero counts pass through
/// unperturbed unless zero obfuscation was requested; counts below ten are
/// suppressed according to the mode; then the composite key is consulted, a
/// hit is returned unchanged, and a miss is privatized and stored.
pub open spec fn spec_obfuscate_cached(
    value: u64,
    delta: Ratio,
    epsilon: Ratio,
    bin: Bin,
    m: Map<(Sensitivity, Count, Bin), u64>,
    obfuscate_zero: bool,
    mode: ObfuscateBelow10Mode,
    step: int,
    noise: Ratio,
) -> (Result<u64, LaplaceError>, Map<(Sensitivity, Count, Bin), u64>) {
    if !obfuscate_zero && value == 0 {
        (Ok(0u64), m)
    } else if value < 10 && mode == ObfuscateBelow10Mode::Zero {
        (Ok(0u64), m)
    } else if value < 10 && mode == ObfuscateBelow10Mode::Ten {
        (Ok(10u64), m)
    } else {
        let key = (spec_sensitivity_class(delta), value, bin);
        if m.contains_key(key) {
            (Ok(m[key]), m)
        } else {
            match spec_privatize(value, delta, epsilon, step, noise) {
                Ok(v) => (Ok(v), m.insert(key, v)),
                Err(e) => (Err(e), m),
            }
        }
    }
}

/// Obfuscates the given value using a Laplace noise sample, with the given
/// sensitivity `delta`, privacy budget `epsilon`, and the bin the value
/// belongs to.  With a cache, the suppression policy runs first and the cache
/// guarantees that repeated calls with an identical key return the identical
/// result; without one, the value is always freshly privatized.  Mechanism
/// and rounding errors propagate unchanged.
pub fn get_from_cache_or_privatize(
    value: u64,
    delta: Ratio,
    epsilon: Ratio,
    bin: Bin,
    obf_cache_option: Option<&mut ObfCache>,
    obfuscate_zero: bool,
    obfuscate_below_10_mode: ObfuscateBelow10Mode,
    rounding_step: usize,
    noise: Ratio,
) -> (r: Result<u64, LaplaceError>)
    requires
        delta.wf(),
        noise.wf(),
        obf_cache_option matches Some(c) ==> (*c).wf(),
    ensures
        obf_cache_option is None ==> r == spec_privatize(
            value,
            delta,
            epsilon,
            rounding_step as int,
            noise,
        ),
        obf_cache_option matches Some(c) ==> {
            let (res, m2) = spec_obfuscate_cached(
                value,
                delta,
                epsilon,
                bin,
                (*c)@,
                obfuscate_zero,
                obfuscate_below_10_mode,
                rounding_step as int,
                noise,
            );
            r == res && final(c)@ == m2 && final(c).wf()
        },
{
    match obf_cache_option {
        None => privatize(value, delta, epsilon, rounding_step, noise),
        Some(obf_cache) => {
            if !obfuscate_zero && value == 0 {
                return Ok(0);
            }
            if value < 10 {
                if obfuscate_below_10_mode == ObfuscateBelow10Mode::Zero {
                    return Ok(0);
                }
                if obfuscate_below_10_mode == ObfuscateBelow10Mode::Ten {
                    return Ok(10);
                }
            }
            let sensitivity = sensitivity_class_of(delta);
            match obf_cache.get(sensitivity, value, bin) {
                Some(obfuscated_reference) => Ok(obfuscated_reference),
                None => {
                    match privatize(value, delta, epsilon, rounding_step, noise) {
                        Ok(obfuscated_value) => {
                            obf_cache.insert(sensitivity, value, bin, obfuscated_value);
                            Ok(obfuscated_value)
                        },
                        Err(e) => Err(e),
                    }
                },
            }
        },
    }
}

/// Cache idempotence: for a fixed cache and a fixed
/// `(sensitivity, value, bin)` triple, a second cached obfuscation call with
/// identical arguments returns exactly the first call's result and leaves the
/// cache untouched — whatever noise the second call's generator would have
/// drawn.  After a first call that reached the mechanism, the cache holds
/// exactly that result under the composite key.
pub proof fn lemma_obfuscate_cached_idempotent(
    value: u64,
    delta: Ratio,
    epsilon: Ratio,
    bin: Bin,
    m: Map<(Sensitivity, Count, Bin), u64>,
    obfuscate_zero: bool,
    mode: ObfuscateBelow10Mode,
    step: int,
    noise1: Ratio,
    noise2: Ratio,
)
    ensures
        ({
            let (r1, m1) = spec_obfuscate_cached(
                value, delta, epsilon, bin, m, obfuscate_zero, mode, step, noise1,
            );
            let (r2, m2) = spec_obfuscate_cached(
                value, delta, epsilon, bin, m1, obfuscate_zero, mode, step, noise2,
            );
            r1 is Ok ==> r2 == r1 && m2 == m1
        }),
        ({
            let (r1, m1) = spec_obfuscate_cached(
                value, delta, epsilon, bin, m, obfuscate_zero, mode, step, noise1,
            );
            let key = (spec_sensitivity_class(delta), value, bin);
            (r1 is Ok && (obfuscate_zero || value != 0) && (value >= 10 || mode
                == ObfuscateBelow10Mode::Obfuscate)) ==> m1.contains_key(key) && m1[key]
                == r1->Ok_0
        }),
{
}

/// Suppression boundaries of cached obfuscation: a zero count is passed
/// through as zero whenever zero obfuscation is off, and a count from one to
/// nine is reported as ten under the `Ten` mode and as zero under the `Zero`
/// mode — in each case without touching the cache.  (A count of exactly ten
/// is not suppressed: it takes the ordinary mechanism path.)
pub proof fn lemma_suppression_boundaries(
    value: u64,
    delta: Ratio,
    epsilon: Ratio,
    bin: Bin,
    m: Map<(Sensitivity, Count, Bin), u64>,
    obfuscate_zero: bool,
    step: int,
    noise: Ratio,
)
    ensures
        spec_obfuscate_cached(
            0u64, delta, epsilon, bin, m, false, ObfuscateBelow10Mode::Obfuscate, step, noise,
        ) == (Ok::<u64, LaplaceError>(0u64), m),
        1 <= value < 10 ==> spec_obfuscate_cached(
            value, delta, epsilon, bin, m, obfuscate_zero, ObfuscateBelow10Mode::Ten, step, noise,
        ) == (Ok::<u64, LaplaceError>(10u64), m),
        1 <= value < 10 ==> spec_obfuscate_cached(
            value, delta, epsilon, bin, m, obfuscate_zero, ObfuscateBelow10Mode::Zero, step, noise,
        ) == (Ok::<u64, LaplaceError>(0u64), m),
{
}

} // verus!
