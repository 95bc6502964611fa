//! Drops tokens too similar (by normalized edit distance) to a kept token.

use crate::bytes::clone_bytes;
use crate::processors::sort_tokens_by_len;
use crate::processors::sorted_by_len;
use crate::processors::views;
use crate::processors::Processor;
use crate::ratio::Ratio;
use vstd::prelude::*;

verus! {

/// Levenshtein edit distance, with the recurrence the row computation uses.
pub open spec fn lev(a: Seq<u8>, b: Seq<u8>) -> int
    decreases a.len(), b.len(),
{
    if a.len() == 0 {
        b.len() as int
    } else if b.len() == 0 {
        a.len() as int
    } else if a.last() == b.last() {
        lev(a.drop_last(), b.drop_last())
    } else {
        let del = lev(a.drop_last(), b);
        let ins = lev(a, b.drop_last());
        let sub = lev(a.drop_last(), b.drop_last());
        1 + if del <= ins && del <= sub {
            del
        } else if ins <= sub {
            ins
        } else {
            sub
        }
    }
}

/// The edit distance is nonnegative and at most the longer length.
pub proof fn lemma_lev_bounds(a: Seq<u8>, b: Seq<u8>)
    ensures
        0 <= lev(a, b),
        lev(a, b) <= if a.len() >= b.len() {
            a.len() as int
        } else {
            b.len() as int
        },
    decreases a.len(), b.len(),
{
    if a.len() == 0 || b.len() == 0 {
    } else if a.last() == b.last() {
        lemma_lev_bounds(a.drop_last(), b.drop_last());
    } else {
        lemma_lev_bounds(a.drop_last(), b);
        lemma_lev_bounds(a, b.drop_last());
        lemma_lev_bounds(a.drop_last(), b.drop_last());
    }
}

/// Normalized similarity `1 - d / max(|a|, |b|)` reaches the threshold; two
/// empty tokens count as fully similar.
pub open spec fn similar(a: Seq<u8>, b: Seq<u8>, thr: Ratio) -> bool {
    let m: int = if a.len() >= b.len() {
        a.len() as int
    } else {
        b.len() as int
    };
    if m == 0 {
        thr.num <= thr.den
    } else {
        (m - lev(a, b)) * thr.den >= thr.num * m
    }
}

/// Greedy pass over `rest`: a token joins `kept` unless it is similar to an
/// already-kept token.
pub open spec fn similar_greedy(rest: Seq<Seq<u8>>, kept: Seq<Seq<u8>>, thr: Ratio) -> Seq<Seq<u8>>
    decreases rest.len(),
{
    if rest.len() == 0 {
        kept
    } else {
        let t = rest.first();
        let dominated = exists|k: int| 0 <= k < kept.len() && similar(t, #[trigger] kept[k], thr);
        let kept2 = if dominated {
            kept
        } else {
            kept.push(t)
        };
        similar_greedy(rest.drop_first(), kept2, thr)
    }
}

/// A token is within threshold similarity of one of the listed tokens.
pub open spec fn dominated_by(t: Seq<u8>, kept: Seq<Seq<u8>>, thr: Ratio) -> bool {
    exists|k: int| 0 <= k < kept.len() && similar(t, #[trigger] kept[k], thr)
}

/// What the greedy keep guarantees: the kept list only grows, every
/// later-kept token is dissimilar to each earlier-kept one, and every walked
/// token is either kept or similar to some kept token.
pub proof fn lemma_similar_greedy_props(rest: Seq<Seq<u8>>, kept: Seq<Seq<u8>>, thr: Ratio)
    requires
        forall|x: int, y: int|
            0 <= x < y < kept.len() ==> !similar(#[trigger] kept[y], #[trigger] kept[x], thr),
    ensures
        kept.is_prefix_of(similar_greedy(rest, kept, thr)),
        forall|x: int, y: int|
            0 <= x < y < similar_greedy(rest, kept, thr).len() ==> !similar(
                #[trigger] similar_greedy(rest, kept, thr)[y],
                #[trigger] similar_greedy(rest, kept, thr)[x],
                thr,
            ),
        forall|j: int|
            0 <= j < rest.len() ==> similar_greedy(rest, kept, thr).contains(#[trigger] rest[j])
                || dominated_by(rest[j], similar_greedy(rest, kept, thr), thr),
    decreases rest.len(),
{
    let f = similar_greedy(rest, kept, thr);
    if rest.len() == 0 {
        assert(kept.is_prefix_of(f));
    } else {
        let t = rest.first();
        let dominated = exists|k: int| 0 <= k < kept.len() && similar(t, #[trigger] kept[k], thr);
        let kept2 = if dominated {
            kept
        } else {
            kept.push(t)
        };
        assert forall|x: int, y: int|
            0 <= x < y < kept2.len() implies !similar(
            #[trigger] kept2[y],
            #[trigger] kept2[x],
            thr,
        ) by {
            if !dominated && y == kept2.len() - 1 {
                assert(kept2[y] == t);
                assert(kept2[x] == kept[x]);
            }
        }
        lemma_similar_greedy_props(rest.drop_first(), kept2, thr);
        assert(kept2.is_prefix_of(f));
        assert(kept.is_prefix_of(kept2));
        assert(kept.is_prefix_of(f));
        assert forall|j: int| 0 <= j < rest.len() implies f.contains(#[trigger] rest[j])
            || dominated_by(rest[j], f, thr) by {
            if j == 0 {
                assert(kept2.len() <= f.len() && f.subrange(0, kept2.len() as int) == kept2);
                if dominated {
                    let k = choose|k: int| 0 <= k < kept.len() && similar(t, #[trigger] kept[k], thr);
                    assert(f[k] == f.subrange(0, kept2.len() as int)[k]);
                    assert(f[k] == kept[k]);
                    assert(dominated_by(t, f, thr));
                } else {
                    assert(f[kept.len() as int] == f.subrange(0, kept2.len() as int)[kept.len() as int]);
                    assert(f[kept.len() as int] == t);
                    assert(f.contains(rest[j]));
                }
            } else {
                assert(rest.drop_first()[j - 1] == rest[j]);
                if similar_greedy(rest.drop_first(), kept2, thr).contains(rest[j]) {
                    assert(f.contains(rest[j]));
                } else {
                    let k = choose|k: int|
                        0 <= k < similar_greedy(rest.drop_first(), kept2, thr).len() && similar(
                            rest.drop_first()[j - 1],
                            #[trigger] similar_greedy(rest.drop_first(), kept2, thr)[k],
                            thr,
                        );
                    assert(dominated_by(rest[j], f, thr));
                }
            }
        }
    }
}

/// Tokens kept by the greedy pass come from its two argument lists.
pub proof fn lemma_similar_greedy_membership(rest: Seq<Seq<u8>>, kept: Seq<Seq<u8>>, thr: Ratio)
    ensures
        forall|j: int|
            0 <= j < similar_greedy(rest, kept, thr).len() ==> kept.contains(
                #[trigger] similar_greedy(rest, kept, thr)[j],
            ) || rest.contains(similar_greedy(rest, kept, thr)[j]),
        similar_greedy(rest, kept, thr).len() >= kept.len(),
        similar_greedy(rest, kept, thr).len() <= kept.len() + rest.len(),
    decreases rest.len(),
{
    if rest.len() > 0 {
        let t = rest.first();
        let dominated = exists|k: int| 0 <= k < kept.len() && similar(t, #[trigger] kept[k], thr);
        let kept2 = if dominated {
            kept
        } else {
            kept.push(t)
        };
        lemma_similar_greedy_membership(rest.drop_first(), kept2, thr);
        assert forall|j: int| 0 <= j < similar_greedy(rest, kept, thr).len() implies kept.contains(
            #[trigger] similar_greedy(rest, kept, thr)[j],
        ) || rest.contains(similar_greedy(rest, kept, thr)[j]) by {
            let x = similar_greedy(rest, kept, thr)[j];
            if kept2.contains(x) {
                if !kept.contains(x) {
                    assert(x == t);
                    assert(rest[0] == t);
                }
            } else {
                assert(rest.drop_first().contains(x));
                let w = choose|w: int| 0 <= w < rest.drop_first().len() && rest.drop_first()[w] == x;
                assert(rest[w + 1] == x);
            }
        }
    }
}

/// Which end of the length ordering survives.
#[derive(Debug, Clone, Copy, PartialEq, Eq, Structural)]
pub enum KeepStrategy {
    Longer,
    Shorter,
}

/// Whether the strategy walks the tokens longest first.
pub open spec fn keep_desc(k: KeepStrategy) -> bool {
    match k {
        KeepStrategy::Longer => true,
        KeepStrategy::Shorter => false,
    }
}

/// Drops tokens whose similarity to an already-kept token reaches the
/// threshold.
pub struct RemoveSimilar {
    pub threshold: Ratio,
    pub keep: KeepStrategy,
}

impl RemoveSimilar {
    /// Row-based dynamic program for the edit distance.
    fn levenshtein(a: &Vec<u8>, b: &Vec<u8>) -> (r: usize)
        ensures
            r == lev(a@, b@),
    {
        let mut prev: Vec<usize> = Vec::new();
        let mut j: usize = 0;
        while j < b.len()
            invariant
                j <= b.len(),
                prev@.len() == j,
                forall|q: int| 0 <= q < j ==> prev@[q] == q,
            decreases b.len() - j,
        {
            prev.push(j);
            j += 1;
        }
        prev.push(b.len());
        proof {
            assert forall|q: int| 0 <= q <= b@.len() implies prev@[q] == lev(
                a@.subrange(0, 0),
                b@.subrange(0, q),
            ) by {
                assert(a@.subrange(0, 0).len() == 0);
                assert(b@.subrange(0, q).len() == q);
            }
        }
        let mut i: usize = 0;
        while i < a.len()
            invariant
                i <= a.len(),
                prev@.len() == b.len() + 1,
                forall|q: int|
                    0 <= q <= b@.len() ==> prev@[q] == lev(
                        a@.subrange(0, i as int),
                        b@.subrange(0, q),
                    ),
            decreases a.len() - i,
        {
            let mut curr: Vec<usize> = Vec::new();
            curr.push(i + 1);
            proof {
                assert(a@.subrange(0, i + 1).len() == i + 1);
                assert(b@.subrange(0, 0).len() == 0);
                lemma_lev_bounds(a@.subrange(0, i + 1), b@.subrange(0, 0));
            }
            let mut j: usize = 0;
            while j < b.len()
                invariant
                    j <= b.len(),
                    i < a.len(),
                    prev@.len() == b.len() + 1,
                    forall|q: int|
                        0 <= q <= b@.len() ==> prev@[q] == lev(
                            a@.subrange(0, i as int),
                            b@.subrange(0, q),
                        ),
                    curr@.len() == j + 1,
                    forall|q: int|
                        0 <= q <= j ==> curr@[q] == lev(
                            a@.subrange(0, i + 1),
                            b@.subrange(0, q),
                        ),
                decreases b.len() - j,
            {
                proof {
                    assert(a@.subrange(0, i + 1).drop_last() =~= a@.subrange(0, i as int));
                    assert(a@.subrange(0, i + 1).last() == a@[i as int]);
                    assert(b@.subrange(0, j + 1).drop_last() =~= b@.subrange(0, j as int));
                    assert(b@.subrange(0, j + 1).last() == b@[j as int]);
                    lemma_lev_bounds(a@.subrange(0, i as int), b@.subrange(0, j as int));
                    lemma_lev_bounds(a@.subrange(0, i as int), b@.subrange(0, j + 1));
                    lemma_lev_bounds(a@.subrange(0, i + 1), b@.subrange(0, j as int));
                }
                let cell: usize = if a[i] == b[j] {
                    prev[j]
                } else {
                    let del = prev[j + 1];
                    let ins = curr[j];
                    let sub = prev[j];
                    1 + if del <= ins && del <= sub {
                        del
                    } else if ins <= sub {
                        ins
                    } else {
                        sub
                    }
                };
                curr.push(cell);
                j += 1;
            }
            prev = curr;
            i += 1;
        }
        proof {
            assert(a@.subrange(0, a@.len() as int) =~= a@);
            assert(b@.subrange(0, b@.len() as int) =~= b@);
        }
        prev[b.len()]
    }

    /// Whether `a` and `b` reach the similarity threshold.
    fn is_similar(&self, a: &Vec<u8>, b: &Vec<u8>) -> (r: bool)
        ensures
            r == similar(a@, b@, self.threshold),
    {
        let m = if a.len() >= b.len() {
            a.len()
        } else {
            b.len()
        };
        if m == 0 {
            return self.threshold.num <= self.threshold.den;
        }
        let d = Self::levenshtein(a, b);
        proof {
            lemma_lev_bounds(a@, b@);
            assert(((m - d) as int) * (self.threshold.den as int)
                <= 0xffff_ffff_ffff_ffff * 0xffff_ffff_ffff_ffff)
                by (nonlinear_arith)
                requires
                    0 <= (m - d) as int <= 0xffff_ffff_ffff_ffff,
                    self.threshold.den <= 0xffff_ffff_ffff_ffff;
            assert((self.threshold.num as int) * (m as int)
                <= 0xffff_ffff_ffff_ffff * 0xffff_ffff_ffff_ffff)
                by (nonlinear_arith)
                requires
                    self.threshold.num <= 0xffff_ffff_ffff_ffff,
                    m <= 0xffff_ffff_ffff_ffff;
        }
        let lhs: u128 = ((m - d) as u128) * (self.threshold.den as u128);
        let rhs: u128 = (self.threshold.num as u128) * (m as u128);
        lhs >= rhs
    }
}

impl Processor for RemoveSimilar {
    /// Sorts the tokens by length (longest or shortest first, per the keep
    /// strategy), then keeps exactly those not similar to an earlier kept
    /// token. Every output token is one of the inputs, and the list never
    /// grows.
    fn process(&self, inputs: Vec<Vec<u8>>) -> (r: Option<Vec<Vec<u8>>>)
        ensures
            r matches Some(v) ==> v.len() > 0,
            r matches Some(v) ==> exists|sorted: Seq<Seq<u8>>|
                {
                    &&& #[trigger] sorted_by_len(sorted, keep_desc(self.keep))
                    &&& sorted.to_multiset() == views(inputs@).to_multiset()
                    &&& views(v@) == similar_greedy(sorted, Seq::empty(), self.threshold)
                },
            r matches Some(v) ==> v@.len() <= inputs@.len() && forall|j: int|
                0 <= j < v@.len() ==> views(inputs@).contains(#[trigger] views(v@)[j]),
            r is None ==> inputs@.len() == 0,
    {
        broadcast use vstd::seq_lib::group_to_multiset_ensures;

        if inputs.len() == 0 {
            return None;
        }
        let ghost in_views = views(inputs@);
        let desc = match self.keep {
            KeepStrategy::Longer => true,
            KeepStrategy::Shorter => false,
        };
        let sorted = sort_tokens_by_len(inputs, desc);
        let ghost sorted_views = views(sorted@);
        let mut out: Vec<Vec<u8>> = Vec::new();
        proof {
            assert(sorted_views.subrange(0, sorted_views.len() as int) =~= sorted_views);
            assert(views(out@) =~= Seq::<Seq<u8>>::empty());
        }
        let mut i: usize = 0;
        while i < sorted.len()
            invariant
                i <= sorted@.len(),
                sorted_views == views(sorted@),
                similar_greedy(
                    sorted_views.subrange(i as int, sorted_views.len() as int),
                    views(out@),
                    self.threshold,
                ) == similar_greedy(sorted_views, Seq::empty(), self.threshold),
                out@.len() <= i,
                forall|j: int|
                    0 <= j < out@.len() ==> sorted_views.contains(#[trigger] views(out@)[j]),
            decreases sorted.len() - i,
        {
            let ghost rem = sorted_views.subrange(i as int, sorted_views.len() as int);
            let mut dominated = false;
            let mut k: usize = 0;
            while k < out.len()
                invariant
                    k <= out@.len(),
                    i < sorted@.len(),
                    sorted_views == views(sorted@),
                    dominated ==> exists|q: int|
                        0 <= q < out@.len() && similar(
                            sorted_views[i as int],
                            #[trigger] views(out@)[q],
                            self.threshold,
                        ),
                    !dominated ==> forall|q: int|
                        0 <= q < k ==> !similar(
                            sorted_views[i as int],
                            #[trigger] views(out@)[q],
                            self.threshold,
                        ),
                ensures
                    dominated == exists|q: int|
                        0 <= q < views(out@).len() && similar(
                            sorted_views[i as int],
                            #[trigger] views(out@)[q],
                            self.threshold,
                        ),
                decreases out.len() - k,
            {
                if self.is_similar(&sorted[i], &out[k]) {
                    dominated = true;
                    proof {
                        assert(similar(
                            sorted_views[i as int],
                            views(out@)[k as int],
                            self.threshold,
                        ));
                    }
                    break ;
                }
                k += 1;
            }
            let ghost pre = views(out@);
            proof {
                assert(rem.first() == sorted_views[i as int]);
                assert(rem.drop_first() =~= sorted_views.subrange(
                    i + 1,
                    sorted_views.len() as int,
                ));
            }
            if !dominated {
                let t = clone_bytes(&sorted[i]);
                out.push(t);
                proof {
                    assert(views(out@) =~= pre.push(sorted_views[i as int]));
                }
            }
            i += 1;
        }
        proof {
            assert(sorted_views.subrange(sorted_views.len() as int, sorted_views.len() as int)
                =~= Seq::<Seq<u8>>::empty());
            assert(views(out@) == similar_greedy(sorted_views, Seq::empty(), self.threshold));
            assert(similar_greedy(sorted_views, Seq::empty(), self.threshold).len() >= 1) by {
                let t0 = sorted_views.first();
                let kept2 = Seq::<Seq<u8>>::empty().push(t0);
                lemma_similar_greedy_membership(sorted_views.drop_first(), kept2, self.threshold);
            }
            lemma_similar_greedy_membership(sorted_views, Seq::empty(), self.threshold);
            assert forall|j: int| 0 <= j < views(out@).len() implies in_views.contains(
                #[trigger] views(out@)[j],
            ) by {
                assert(sorted_views.contains(views(out@)[j]));
                assert(sorted_views.to_multiset().count(views(out@)[j]) > 0);
                assert(in_views.to_multiset().count(views(out@)[j]) > 0);
            }
            assert(sorted_by_len(sorted_views, keep_desc(self.keep)));
        }
        if out.len() == 0 {
            None
        } else {
            Some(out)
        }
    }

    fn name(&self) -> &'static str {
        "similarity_filter"
    }
}

} // verus!
