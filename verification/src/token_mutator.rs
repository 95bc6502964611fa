//! The token-preserving scheduler: plans one stacked-mutation round so that,
//! whenever the round uses a token operator, that operator runs last and its
//! write cannot be clobbered by later havoc mutations of the same round.

use crate::bytes::contains_subslice;
use crate::bytes::is_substring_of;
use crate::config::pow_nat;
use crate::rands::rand_below;
use crate::rands::rand_below_or_zero;
use libafl_bolts::rands::RomuDuoJrRand;
use vstd::prelude::*;

verus! {

/// The plan of one stacked round: the mutation indices to apply in order, and
/// the token mutation to apply after them, if the round uses one.
pub struct RoundPlan {
    pub use_token: bool,
    pub steps: Vec<usize>,
    pub final_token: Option<usize>,
}

/// The marker that classifies an operator as a token mutation.
pub open spec fn token_marker() -> Seq<u8> {
    seq![84u8, 111u8, 107u8, 101u8, 110u8]
}

/// A left shift of one is the matching power of two.
proof fn lemma_shl_pow2(s: usize)
    requires
        s < 32,
    ensures
        (1usize << s) as int == pow_nat(2, s as nat),
        1usize << s >= 1,
    decreases s,
{
    if s == 0 {
        assert(1usize << 0usize == 1) by (bit_vector);
    } else {
        lemma_shl_pow2((s - 1) as usize);
        assert(1usize << s == (1usize << ((s - 1) as usize)) * 2) by (bit_vector)
            requires
                1 <= s < 32usize;
        assert(pow_nat(2, s as nat) == 2 * pow_nat(2, (s - 1) as nat));
    }
}

/// Plans stacked-mutation rounds over a tuple of named mutation operators,
/// applying one token mutation last in a share of the rounds.
pub struct TokenPreservingScheduledMutator {
    n_mutations: usize,
    max_stack_pow: usize,
    token_indices: Vec<usize>,
    havoc_indices: Vec<usize>,
    last_token_used: Option<usize>,
}

impl TokenPreservingScheduledMutator {
    /// Number of wrapped operators.
    pub closed spec fn n(self) -> int {
        self.n_mutations as int
    }

    /// Indices of the token operators.
    pub closed spec fn token_set(self) -> Seq<usize> {
        self.token_indices@
    }

    /// Indices of the remaining (havoc) operators.
    pub closed spec fn havoc_set(self) -> Seq<usize> {
        self.havoc_indices@
    }

    /// The token operator applied by the last planned round, if any.
    pub closed spec fn last_token(self) -> Option<usize> {
        self.last_token_used
    }

    /// The stack power bounding the drawn iteration exponent.
    pub closed spec fn stack_pow(self) -> usize {
        self.max_stack_pow
    }

    /// The two index sets partition the operators.
    pub closed spec fn wf(self) -> bool {
        &&& self.max_stack_pow <= 30
        &&& forall|k: int|
            0 <= k < self.token_indices@.len() ==> (#[trigger] self.token_indices@[k])
                < self.n_mutations
        &&& forall|k: int|
            0 <= k < self.havoc_indices@.len() ==> (#[trigger] self.havoc_indices@[k])
                < self.n_mutations
    }

    /// Classifies the operators by name: those whose name holds the token
    /// marker form the token set, the rest the havoc set.
    pub fn identify_token_mutations(names: &Vec<Vec<u8>>) -> (r: (Vec<usize>, Vec<usize>))
        ensures
            forall|k: int|
                0 <= k < r.0@.len() ==> (#[trigger] r.0@[k]) < names@.len() && is_substring_of(
                    token_marker(),
                    names@[r.0@[k] as int]@,
                ),
            forall|k: int|
                0 <= k < r.1@.len() ==> (#[trigger] r.1@[k]) < names@.len() && !is_substring_of(
                    token_marker(),
                    names@[r.1@[k] as int]@,
                ),
            r.0@.len() + r.1@.len() == names@.len(),
            forall|x: int, y: int| 0 <= x < y < r.0@.len() ==> r.0@[x] < r.0@[y],
            forall|x: int, y: int| 0 <= x < y < r.1@.len() ==> r.1@[x] < r.1@[y],
            forall|i: int|
                0 <= i < names@.len() && is_substring_of(
                    token_marker(),
                    (#[trigger] names@[i])@,
                ) ==> r.0@.contains(i as usize),
            forall|i: int|
                0 <= i < names@.len() && !is_substring_of(
                    token_marker(),
                    (#[trigger] names@[i])@,
                ) ==> r.1@.contains(i as usize),
    {
        let mut marker: Vec<u8> = Vec::new();
        marker.push(84);
        marker.push(111);
        marker.push(107);
        marker.push(101);
        marker.push(110);
        proof {
            assert(marker@ =~= token_marker());
        }
        let mut tokens: Vec<usize> = Vec::new();
        let mut havoc: Vec<usize> = Vec::new();
        let mut i: usize = 0;
        while i < names.len()
            invariant
                i <= names@.len(),
                marker@ == token_marker(),
                tokens@.len() + havoc@.len() == i,
                forall|k: int|
                    0 <= k < tokens@.len() ==> (#[trigger] tokens@[k]) < names@.len()
                        && is_substring_of(token_marker(), names@[tokens@[k] as int]@),
                forall|k: int|
                    0 <= k < havoc@.len() ==> (#[trigger] havoc@[k]) < names@.len()
                        && !is_substring_of(token_marker(), names@[havoc@[k] as int]@),
                forall|x: int, y: int| 0 <= x < y < tokens@.len() ==> tokens@[x] < tokens@[y],
                forall|x: int, y: int| 0 <= x < y < havoc@.len() ==> havoc@[x] < havoc@[y],
                forall|k: int| 0 <= k < tokens@.len() ==> (#[trigger] tokens@[k]) < i,
                forall|k: int| 0 <= k < havoc@.len() ==> (#[trigger] havoc@[k]) < i,
                forall|i2: int|
                    0 <= i2 < i && is_substring_of(token_marker(), (#[trigger] names@[i2])@)
                        ==> tokens@.contains(i2 as usize),
                forall|i2: int|
                    0 <= i2 < i && !is_substring_of(token_marker(), (#[trigger] names@[i2])@)
                        ==> havoc@.contains(i2 as usize),
            decreases names.len() - i,
        {
            let ghost pre_tokens = tokens@;
            let ghost pre_havoc = havoc@;
            if contains_subslice(&names[i], &marker) {
                tokens.push(i);
            } else {
                havoc.push(i);
            }
            proof {
                assert forall|i2: int|
                    0 <= i2 < i + 1 && is_substring_of(token_marker(), (#[trigger] names@[i2])@)
                        implies tokens@.contains(i2 as usize) by {
                    if i2 < i {
                        let w = choose|w: int|
                            0 <= w < pre_tokens.len() && pre_tokens[w] == i2 as usize;
                        assert(tokens@[w] == i2 as usize);
                    } else {
                        assert(tokens@[tokens@.len() - 1] == i as usize);
                    }
                }
                assert forall|i2: int|
                    0 <= i2 < i + 1 && !is_substring_of(token_marker(), (#[trigger] names@[i2])@)
                        implies havoc@.contains(i2 as usize) by {
                    if i2 < i {
                        let w = choose|w: int|
                            0 <= w < pre_havoc.len() && pre_havoc[w] == i2 as usize;
                        assert(havoc@[w] == i2 as usize);
                    } else {
                        assert(havoc@[havoc@.len() - 1] == i as usize);
                    }
                }
            }
            i += 1;
        }
        (tokens, havoc)
    }

    /// Builds the scheduler from the operators' names, classifying each by
    /// whether its name holds the token marker.
    pub fn new(names: &Vec<Vec<u8>>) -> (r: Self)
        ensures
            r.wf(),
            r.n() == names@.len(),
            r.last_token() is None,
            r.stack_pow() == 7,
            forall|k: int|
                0 <= k < r.token_set().len() ==> (#[trigger] r.token_set()[k]) < names@.len()
                    && is_substring_of(token_marker(), names@[r.token_set()[k] as int]@),
            forall|k: int|
                0 <= k < r.havoc_set().len() ==> (#[trigger] r.havoc_set()[k]) < names@.len()
                    && !is_substring_of(token_marker(), names@[r.havoc_set()[k] as int]@),
            forall|x: int, y: int|
                0 <= x < y < r.token_set().len() ==> r.token_set()[x] < r.token_set()[y],
            forall|i: int|
                0 <= i < names@.len() && is_substring_of(
                    token_marker(),
                    (#[trigger] names@[i])@,
                ) ==> r.token_set().contains(i as usize),
            forall|i: int|
                0 <= i < names@.len() && !is_substring_of(
                    token_marker(),
                    (#[trigger] names@[i])@,
                ) ==> r.havoc_set().contains(i as usize),
            r.token_set().len() + r.havoc_set().len() == names@.len(),
    {
        let (tokens, havoc) = Self::identify_token_mutations(names);
        TokenPreservingScheduledMutator {
            n_mutations: names.len(),
            max_stack_pow: 7,
            token_indices: tokens,
            havoc_indices: havoc,
            last_token_used: None,
        }
    }

    /// Whether operator `idx` belongs to the token set.
    pub fn is_token_mutation(&self, idx: usize) -> (r: bool)
        ensures
            r == self.token_set().contains(idx),
    {
        let mut k: usize = 0;
        while k < self.token_indices.len()
            invariant
                k <= self.token_set().len(),
                forall|x: int| 0 <= x < k ==> self.token_set()[x] != idx,
            decreases self.token_indices.len() - k,
        {
            if self.token_indices[k] == idx {
                proof {
                    assert(self.token_set()[k as int] == idx);
                }
                return true;
            }
            k += 1;
        }
        false
    }

    /// Draws a havoc operator; falls back to the token set when no havoc
    /// operator exists.
    fn schedule_non_token(&self, rand: &mut RomuDuoJrRand) -> (r: usize)
        requires
            self.wf(),
            self.havoc_set().len() > 0 || self.token_set().len() > 0,
        ensures
            r < self.n(),
            self.havoc_set().len() > 0 ==> self.havoc_set().contains(r),
    {
        if self.havoc_indices.len() > 0 {
            let k = rand_below(rand, self.havoc_indices.len());
            let r = self.havoc_indices[k];
            proof {
                assert(self.havoc_set()[k as int] == r);
            }
            r
        } else {
            let k = rand_below(rand, self.token_indices.len());
            self.token_indices[k]
        }
    }

    /// Draws a token operator.
    fn schedule_token(&self, rand: &mut RomuDuoJrRand) -> (r: usize)
        requires
            self.wf(),
            self.token_set().len() > 0,
        ensures
            r < self.n(),
            self.token_set().contains(r),
    {
        let k = rand_below(rand, self.token_indices.len());
        let r = self.token_indices[k];
        proof {
            assert(self.token_set()[k as int] == r);
        }
        r
    }

    /// Plans one stacked round: a base iteration count of `2^(1+u)` with `u`
    /// below the stack power, halved (at least one) when the round is marked
    /// to use a token. A marked round applies only havoc mutations in its
    /// steps (when any exist) and ends with one token mutation; an unmarked
    /// round draws every step from the full set and ends with none.
    pub fn plan_round(&self, rand: &mut RomuDuoJrRand) -> (plan: RoundPlan)
        requires
            self.wf(),
            self.n() > 0,
        ensures
            plan.steps@.len() >= 1,
            exists|u: int|
                {
                    &&& 0 <= u
                    &&& (self.stack_pow() > 0 ==> u < self.stack_pow())
                    &&& (self.stack_pow() == 0 ==> u == 0)
                    &&& (plan.use_token ==> plan.steps@.len() == #[trigger] pow_nat(2, u as nat))
                    &&& (!plan.use_token ==> plan.steps@.len() == pow_nat(2, (u + 1) as nat))
                },
            forall|s: int| 0 <= s < plan.steps@.len() ==> (#[trigger] plan.steps@[s]) < self.n(),
            plan.use_token ==> self.token_set().len() > 0,
            plan.use_token ==> (plan.final_token matches Some(t) && self.token_set().contains(t)
                && (t as int) < self.n()),
            !plan.use_token ==> plan.final_token is None,
            plan.use_token && self.havoc_set().len() > 0 ==> forall|s: int|
                0 <= s < plan.steps@.len() ==> self.havoc_set().contains(
                    #[trigger] plan.steps@[s],
                ),
    {
        let pow = rand_below_or_zero(rand, self.max_stack_pow);
        let shift: usize = 1 + pow;
        let base: usize = 1usize << shift;
        proof {
            lemma_shl_pow2(shift);
            lemma_shl_pow2(pow);
            assert(base as int == pow_nat(2, (pow + 1) as nat));
            assert(pow_nat(2, (pow + 1) as nat) == 2 * pow_nat(2, pow as nat));
            assert(base >= 2);
        }
        let use_token = self.token_indices.len() > 0 && rand_below(rand, 100) < 30;
        let iterations: usize = if use_token {
            let h = base / 2;
            if h == 0 {
                1
            } else {
                h
            }
        } else {
            base
        };
        let mut steps: Vec<usize> = Vec::new();
        let mut it: usize = 0;
        while it < iterations
            invariant
                self.wf(),
                self.n() > 0,
                it <= iterations,
                steps@.len() == it,
                use_token ==> self.token_set().len() > 0,
                forall|s: int|
                    0 <= s < steps@.len() ==> (#[trigger] steps@[s]) < self.n(),
                use_token && self.havoc_set().len() > 0 ==> forall|s: int|
                    0 <= s < steps@.len() ==> self.havoc_set().contains(#[trigger] steps@[s]),
            decreases iterations - it,
        {
            let idx = if use_token {
                self.schedule_non_token(rand)
            } else {
                rand_below(rand, self.n_mutations)
            };
            steps.push(idx);
            it += 1;
        }
        proof {
            if use_token {
                assert(iterations as int == pow_nat(2, pow as nat));
            } else {
                assert(iterations as int == pow_nat(2, (pow + 1) as nat));
            }
        }
        let final_token = if use_token {
            Some(self.schedule_token(rand))
        } else {
            None
        };
        RoundPlan { use_token, steps, final_token }
    }

    /// Records which token operator the applied round ended with, so the
    /// post-execution hook can be forwarded to it alone.
    pub fn record_token_applied(&mut self, idx: Option<usize>)
        ensures
            final(self).last_token() == idx,
            old(self).wf() ==> final(self).wf(),
            final(self).n() == old(self).n(),
            final(self).token_set() == old(self).token_set(),
            final(self).havoc_set() == old(self).havoc_set(),
    {
        self.last_token_used = idx;
    }

    /// The operator to forward the post-execution hook to; clears the record.
    pub fn take_last_token(&mut self) -> (r: Option<usize>)
        ensures
            r == old(self).last_token(),
            final(self).last_token() is None,
            old(self).wf() ==> final(self).wf(),
            final(self).n() == old(self).n(),
            final(self).token_set() == old(self).token_set(),
            final(self).havoc_set() == old(self).havoc_set(),
    {
        let r = self.last_token_used;
        self.last_token_used = None;
        r
    }
}

} // verus!
