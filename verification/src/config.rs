//! Declarative configuration of the discovery pipeline, with exact rational
//! thresholds in place of floating-point ones.

use crate::ratio::Ratio;
use vstd::prelude::*;

verus! {

/// Which mutation stages the fuzz driver assembles.
#[derive(Debug, Clone, Copy, PartialEq, Eq, Structural)]
pub enum FuzzerPreset {
    Baseline,
    StandardTokens,
    PreservingTokens,
}

/// The external power schedule to use.
#[derive(Debug, Clone, Copy, PartialEq, Eq, Structural)]
pub enum SchedulerPreset {
    Fast,
    Explore,
    Exploit,
    Coe,
    Lin,
    Quad,
}

/// Where raw token material comes from.
#[derive(Debug, Clone, Copy, PartialEq, Eq, Structural)]
pub enum ExtractorConfig {
    Corpus,
    MutationDelta,
}

/// `b ^ e`.
pub open spec fn pow_nat(b: int, e: nat) -> int
    decreases e,
{
    if e == 0 {
        1
    } else {
        b * pow_nat(b, (e - 1) as nat)
    }
}

/// Every partial product of `b ^ e` fits into 128 bits.
pub open spec fn pow_fits(b: int, e: nat) -> bool
    decreases e,
{
    if e == 0 {
        true
    } else {
        pow_fits(b, (e - 1) as nat) && b * pow_nat(b, (e - 1) as nat) <= u128::MAX
    }
}

/// `b ^ e`, or nothing when a partial product leaves 128 bits.
fn pow_checked(b: u128, e: u32) -> (r: Option<u128>)
    ensures
        r matches Some(v) ==> v as int == pow_nat(b as int, e as nat) && pow_fits(
            b as int,
            e as nat,
        ),
        r is None ==> !pow_fits(b as int, e as nat),
{
    let mut acc: u128 = 1;
    let mut i: u32 = 0;
    while i < e
        invariant
            i <= e,
            acc as int == pow_nat(b as int, i as nat),
            pow_fits(b as int, i as nat),
        decreases e - i,
    {
        acc = match acc.checked_mul(b) {
            Some(v) => v,
            None => {
                proof {
                    lemma_pow_fits_mono(b as int, (i + 1) as nat, e as nat);
                }
                return None;
            },
        };
        proof {
            assert(pow_nat(b as int, (i + 1) as nat) == (b as int) * pow_nat(b as int, i as nat));
        }
        i += 1;
    }
    Some(acc)
}

/// A prefix of an overflowing power chain already overflows.
proof fn lemma_pow_fits_mono(b: int, e1: nat, e2: nat)
    requires
        e1 <= e2,
        !pow_fits(b, e1),
    ensures
        !pow_fits(b, e2),
    decreases e2,
{
    if e1 < e2 && e2 > 0 {
        lemma_pow_fits_mono(b, e1, (e2 - 1) as nat);
    }
}

/// How the per-candidate support threshold depends on the candidate length.
#[derive(Debug, Clone, Copy, PartialEq, Eq, Structural)]
pub enum ThresholdFunction {
    Fixed { value: Ratio },
    Interpolated { min_threshold: Ratio, max_threshold: Ratio, curve: u32 },
}

impl ThresholdFunction {
    /// The component ratios denote rationals at most one.
    pub open spec fn wf(self) -> bool {
        match self {
            ThresholdFunction::Fixed { value } => value.wf() && value.is_unit(),
            ThresholdFunction::Interpolated { min_threshold, max_threshold, .. } => {
                &&& min_threshold.wf()
                &&& min_threshold.is_unit()
                &&& max_threshold.wf()
                &&& max_threshold.is_unit()
            },
        }
    }

    /// `token_len` clamped to the configured band.
    pub open spec fn clamped(token_len: int, min_len: int, max_len: int) -> int {
        if token_len < min_len {
            min_len
        } else if token_len > max_len {
            max_len
        } else {
            token_len
        }
    }

    /// Numerator of the threshold value at a given length. For the
    /// interpolated form with band width `dd` and curve `c` this is
    /// `ma·dd^c − (len−min)^c·(ma − mi)` over the common denominator below;
    /// a band of width zero yields the maximal threshold.
    pub open spec fn value_num(self, token_len: int, min_len: int, max_len: int) -> int {
        match self {
            ThresholdFunction::Fixed { value } => value.num as int,
            ThresholdFunction::Interpolated { min_threshold, max_threshold, curve } => {
                let dd = max_len - min_len;
                let dn = Self::clamped(token_len, min_len, max_len) - min_len;
                if dd == 0 {
                    max_threshold.num as int
                } else {
                    max_threshold.num * min_threshold.den * pow_nat(dd, curve as nat) - pow_nat(
                        dn,
                        curve as nat,
                    ) * (max_threshold.num * min_threshold.den - min_threshold.num
                        * max_threshold.den)
                }
            },
        }
    }

    /// Denominator of the threshold value at a given length.
    pub open spec fn value_den(self, token_len: int, min_len: int, max_len: int) -> int {
        match self {
            ThresholdFunction::Fixed { value } => value.den as int,
            ThresholdFunction::Interpolated { min_threshold, max_threshold, curve } => {
                let dd = max_len - min_len;
                if dd == 0 {
                    max_threshold.den as int
                } else {
                    max_threshold.den * min_threshold.den * pow_nat(dd, curve as nat)
                }
            },
        }
    }

    /// Whether the exact 128-bit evaluation of the threshold goes through:
    /// mirrors, bound for bound, the checked arithmetic of `min_inputs`.
    pub open spec fn min_inputs_defined(
        self,
        corpus_size: int,
        token_len: int,
        min_len: int,
        max_len: int,
    ) -> bool {
        match self {
            ThresholdFunction::Fixed { .. } => true,
            ThresholdFunction::Interpolated { min_threshold, max_threshold, curve } => {
                let dd = max_len - min_len;
                let dn = Self::clamped(token_len, min_len, max_len) - min_len;
                if dd == 0 {
                    true
                } else {
                    let pdd = pow_nat(dd, curve as nat);
                    let pdn = pow_nat(dn, curve as nat);
                    let a = max_threshold.num * min_threshold.den;
                    let b = min_threshold.num * max_threshold.den;
                    let den = max_threshold.den * min_threshold.den * pdd;
                    let num = self.value_num(token_len, min_len, max_len);
                    &&& pow_fits(dd, curve as nat)
                    &&& pow_fits(dn, curve as nat)
                    &&& a * pdd <= u128::MAX
                    &&& (a >= b ==> pdn * (a - b) <= u128::MAX && pdn * (a - b) <= a * pdd)
                    &&& (a < b ==> pdn * (b - a) <= u128::MAX && a * pdd + pdn * (b - a)
                        <= u128::MAX)
                    &&& den <= u128::MAX
                    &&& den > 0
                    &&& (num != 0 ==> corpus_size * num <= u128::MAX && corpus_size * num + den - 1
                        <= u128::MAX)
                }
            },
        }
    }

    /// `⌈corpus_size · value(token_len)⌉`: the least support a candidate of
    /// this length needs.
    pub open spec fn min_inputs_spec(
        self,
        corpus_size: int,
        token_len: int,
        min_len: int,
        max_len: int,
    ) -> int {
        let num = self.value_num(token_len, min_len, max_len);
        let den = self.value_den(token_len, min_len, max_len);
        if num <= 0 {
            0
        } else {
            (corpus_size * num + den - 1) / den
        }
    }

    /// Computes the exact support threshold; `None` when a partial product of
    /// the exact evaluation leaves 128 bits.
    pub fn min_inputs(
        &self,
        corpus_size: usize,
        token_len: usize,
        min_len: usize,
        max_len: usize,
    ) -> (r: Option<u128>)
        requires
            self.wf(),
            min_len <= max_len,
        ensures
            r matches Some(m) ==> m as int == self.min_inputs_spec(
                corpus_size as int,
                token_len as int,
                min_len as int,
                max_len as int,
            ),
            (r is Some) <==> self.min_inputs_defined(
                corpus_size as int,
                token_len as int,
                min_len as int,
                max_len as int,
            ),
            self matches ThresholdFunction::Fixed { .. } ==> r is Some,
    {
        match self {
            ThresholdFunction::Fixed { value } => {
                let num: u128 = value.num as u128;
                let den: u128 = value.den as u128;
                let n: u128 = corpus_size as u128;
                proof {
                    assert((corpus_size as int) * (value.num as int) + value.den <= u128::MAX)
                        by (nonlinear_arith)
                        requires
                            corpus_size <= 0xffff_ffff_ffff_ffff,
                            value.num <= 0xffff_ffff_ffff_ffff,
                            1 <= value.den <= 0xffff_ffff_ffff_ffff;
                }
                let m = (n * num + (den - 1)) / den;
                proof {
                    assert(self.value_num(token_len as int, min_len as int, max_len as int)
                        == value.num as int);
                    assert(self.value_den(token_len as int, min_len as int, max_len as int)
                        == value.den as int);
                    assert(m as int == ((corpus_size as int) * (value.num as int) + value.den - 1)
                        / (value.den as int));
                }
                if num == 0 {
                    Some(0)
                } else {
                    Some(m)
                }
            },
            ThresholdFunction::Interpolated { min_threshold, max_threshold, curve } => {
                let dd: u128 = (max_len - min_len) as u128;
                let lenc = if token_len < min_len {
                    min_len
                } else if token_len > max_len {
                    max_len
                } else {
                    token_len
                };
                let dn: u128 = (lenc - min_len) as u128;
                if dd == 0 {
                    let num: u128 = max_threshold.num as u128;
                    let den: u128 = max_threshold.den as u128;
                    proof {
                        assert((corpus_size as int) * (max_threshold.num as int)
                            + max_threshold.den <= u128::MAX)
                            by (nonlinear_arith)
                            requires
                                corpus_size <= 0xffff_ffff_ffff_ffff,
                                max_threshold.num <= 0xffff_ffff_ffff_ffff,
                                1 <= max_threshold.den <= 0xffff_ffff_ffff_ffff;
                    }
                    let n: u128 = corpus_size as u128;
                    let m = (n * num + (den - 1)) / den;
                    proof {
                        assert(self.value_num(token_len as int, min_len as int, max_len as int)
                            == max_threshold.num as int);
                        assert(self.value_den(token_len as int, min_len as int, max_len as int)
                            == max_threshold.den as int);
                    }
                    if num == 0 {
                        return Some(0);
                    }
                    return Some(m);
                }
                let pow_dd = match pow_checked(dd, *curve) {
                    Some(v) => v,
                    None => { return None; },
                };
                let pow_dn = match pow_checked(dn, *curve) {
                    Some(v) => v,
                    None => { return None; },
                };
                let a: u128 = max_threshold.num as u128;
                let b: u128 = max_threshold.den as u128;
                let c2: u128 = min_threshold.num as u128;
                let d2: u128 = min_threshold.den as u128;
                proof {
                    assert((max_threshold.num as int) * (min_threshold.den as int) <= u128::MAX
                        && (min_threshold.num as int) * (max_threshold.den as int) <= u128::MAX
                        && (max_threshold.den as int) * (min_threshold.den as int) <= u128::MAX)
                        by (nonlinear_arith)
                        requires
                            max_threshold.num <= 0xffff_ffff_ffff_ffff,
                            max_threshold.den <= 0xffff_ffff_ffff_ffff,
                            min_threshold.num <= 0xffff_ffff_ffff_ffff,
                            min_threshold.den <= 0xffff_ffff_ffff_ffff;
                }
                let ad2: u128 = a * d2;
                let c2b: u128 = c2 * b;
                let main = match ad2.checked_mul(pow_dd) {
                    Some(v) => v,
                    None => { return None; },
                };
                let ghost av = max_threshold.num as int;
                let ghost bv = max_threshold.den as int;
                let ghost cv = min_threshold.num as int;
                let ghost dv = min_threshold.den as int;
                let ghost pdd = pow_nat(dd as int, *curve as nat);
                let ghost pdn = pow_nat(dn as int, *curve as nat);
                let num: u128 = if ad2 >= c2b {
                    let sub = match pow_dn.checked_mul(ad2 - c2b) {
                        Some(v) => v,
                        None => { return None; },
                    };
                    if sub > main {
                        return None;
                    }
                    main - sub
                } else {
                    let add = match pow_dn.checked_mul(c2b - ad2) {
                        Some(v) => v,
                        None => { return None; },
                    };
                    proof {
                        assert(pdn * ((cv * bv) - (av * dv)) == -(pdn * ((av * dv) - (cv * bv))))
                            by (nonlinear_arith);
                    }
                    match main.checked_add(add) {
                        Some(v) => v,
                        None => { return None; },
                    }
                };
                let den = match (b * d2).checked_mul(pow_dd) {
                    Some(v) => v,
                    None => { return None; },
                };
                proof {
                    assert(self.value_num(token_len as int, min_len as int, max_len as int)
                        == av * dv * pdd - pdn * (av * dv - cv * bv));
                    assert(num as int == av * dv * pdd - pdn * (av * dv - cv * bv));
                    assert(self.value_den(token_len as int, min_len as int, max_len as int)
                        == bv * dv * pdd);
                    assert(den as int == bv * dv * pdd);
                }
                if den == 0 {
                    return None;
                }
                if num == 0 {
                    return Some(0);
                }
                let n: u128 = corpus_size as u128;
                let prod = match n.checked_mul(num) {
                    Some(v) => v,
                    None => { return None; },
                };
                let m = match prod.checked_add(den - 1) {
                    Some(v) => v,
                    None => { return None; },
                };
                Some(m / den)
            },
        }
    }
}

/// One step of the refinement pipeline, as configured.
#[derive(Debug, Clone)]
pub enum ProcessorConfig {
    FilterNullBytes { max_ratio: Ratio },
    RemoveRepetitive { threshold: Ratio },
    RemoveSimilar { threshold: Ratio, keep_longer: bool },
    RemoveSubstrings,
    Sais {
        min_len: Option<usize>,
        max_len: Option<usize>,
        threshold: Option<Ratio>,
        token_count: Option<usize>,
        threshold_fn: Option<ThresholdFunction>,
    },
    SplitAt { delimiters: Vec<Vec<u8>>, min_length: Option<usize> },
    StripBytes { bytes: Vec<u8>, min_length: Option<usize> },
}

/// The full declarative configuration of one fuzzing campaign.
#[derive(Debug, Clone)]
pub struct TokenDiscoveryConfig {
    pub cores: Vec<u8>,
    pub broker_port: u16,
    pub corpus_dir: Vec<u8>,
    pub crashes_dir: Vec<u8>,
    pub fuzzer_preset: FuzzerPreset,
    pub scheduler_preset: SchedulerPreset,
    pub silent_run: bool,
    pub timeout_secs: u64,
    pub min_corpus_size: usize,
    pub search_interval: u32,
    pub max_tokens: usize,
    pub max_token_length: usize,
    pub min_token_length: usize,
    pub search_pool_size: usize,
    pub extractor: ExtractorConfig,
    pub pipeline: Vec<ProcessorConfig>,
}

impl TokenDiscoveryConfig {
    /// An empty pipeline is tolerated only by the baseline preset; the token
    /// presets warn about it.
    pub fn validate(&self) -> (warn: bool)
        ensures
            warn == (self.pipeline@.len() == 0 && self.fuzzer_preset != FuzzerPreset::Baseline),
    {
        self.pipeline.len() == 0 && !matches!(self.fuzzer_preset, FuzzerPreset::Baseline)
    }
}

} // verus!
