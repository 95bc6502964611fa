//! Drops tokens that occur inside an already-kept longer token.

use crate::bytes::contains_subslice;
use crate::bytes::is_substring_of;
use crate::processors::sort_tokens_by_len;
use crate::processors::sorted_by_len;
use crate::processors::views;
use crate::processors::Processor;
use vstd::prelude::*;

verus! {

/// Greedy pass over `rest`: a token joins `kept` unless it occurs inside an
/// already-kept token.
pub open spec fn substring_greedy(rest: Seq<Seq<u8>>, kept: Seq<Seq<u8>>) -> Seq<Seq<u8>>
    decreases rest.len(),
{
    if rest.len() == 0 {
        kept
    } else {
        let t = rest.first();
        let dominated = exists|k: int| 0 <= k < kept.len() && is_substring_of(t, #[trigger] kept[k]);
        let kept2 = if dominated {
            kept
        } else {
            kept.push(t)
        };
        substring_greedy(rest.drop_first(), kept2)
    }
}

/// Tokens kept by the greedy pass come from its two argument lists.
pub proof fn lemma_substring_greedy_membership(rest: Seq<Seq<u8>>, kept: Seq<Seq<u8>>)
    ensures
        forall|j: int|
            0 <= j < substring_greedy(rest, kept).len() ==> kept.contains(
                #[trigger] substring_greedy(rest, kept)[j],
            ) || rest.contains(substring_greedy(rest, kept)[j]),
        substring_greedy(rest, kept).len() >= kept.len(),
        substring_greedy(rest, kept).len() <= kept.len() + rest.len(),
    decreases rest.len(),
{
    if rest.len() > 0 {
        let t = rest.first();
        let dominated = exists|k: int| 0 <= k < kept.len() && is_substring_of(t, #[trigger] kept[k]);
        let kept2 = if dominated {
            kept
        } else {
            kept.push(t)
        };
        lemma_substring_greedy_membership(rest.drop_first(), kept2);
        assert forall|j: int| 0 <= j < substring_greedy(rest, kept).len() implies kept.contains(
            #[trigger] substring_greedy(rest, kept)[j],
        ) || rest.contains(substring_greedy(rest, kept)[j]) by {
            let x = substring_greedy(rest, kept)[j];
            if kept2.contains(x) {
                if !kept.contains(x) {
                    assert(x == t);
                    assert(rest[0] == t);
                }
            } else {
                assert(rest.drop_first().contains(x));
                let w = choose|w: int| 0 <= w < rest.drop_first().len() && rest.drop_first()[w] == x;
                assert(rest[w + 1] == x);
            }
        }
    }
}

/// Keeps each token only if it does not occur inside an already-kept longer
/// token, walking the tokens longest first.
pub struct RemoveSubstrings;

impl Processor for RemoveSubstrings {
    /// Sorts the tokens longest first, then keeps exactly those not contained
    /// in an earlier kept token. Every output token is one of the inputs, and
    /// the list never grows.
    fn process(&self, inputs: Vec<Vec<u8>>) -> (r: Option<Vec<Vec<u8>>>)
        ensures
            r matches Some(v) ==> v.len() > 0,
            r matches Some(v) ==> exists|sorted: Seq<Seq<u8>>|
                {
                    &&& #[trigger] sorted_by_len(sorted, true)
                    &&& sorted.to_multiset() == views(inputs@).to_multiset()
                    &&& views(v@) == substring_greedy(sorted, Seq::empty())
                },
            r matches Some(v) ==> v@.len() <= inputs@.len() && forall|j: int|
                0 <= j < v@.len() ==> views(inputs@).contains(#[trigger] views(v@)[j]),
            r is None ==> inputs@.len() == 0,
    {
        broadcast use vstd::seq_lib::group_to_multiset_ensures;

        if inputs.len() == 0 {
            return None;
        }
        let ghost in_views = views(inputs@);
        let sorted = sort_tokens_by_len(inputs, true);
        let ghost sorted_views = views(sorted@);
        let mut out: Vec<Vec<u8>> = Vec::new();
        proof {
            assert(sorted_views.subrange(0, sorted_views.len() as int) =~= sorted_views);
            assert(views(out@) =~= Seq::<Seq<u8>>::empty());
        }
        let mut i: usize = 0;
        while i < sorted.len()
            invariant
                i <= sorted@.len(),
                sorted_views == views(sorted@),
                substring_greedy(sorted_views.subrange(i as int, sorted_views.len() as int), views(out@))
                    == substring_greedy(sorted_views, Seq::empty()),
                out@.len() <= i,
                forall|j: int|
                    0 <= j < out@.len() ==> sorted_views.contains(#[trigger] views(out@)[j]),
            decreases sorted.len() - i,
        {
            let ghost rem = sorted_views.subrange(i as int, sorted_views.len() as int);
            let mut dominated = false;
            let mut k: usize = 0;
            while k < out.len()
                invariant
                    k <= out@.len(),
                    i < sorted@.len(),
                    sorted_views == views(sorted@),
                    dominated ==> exists|q: int|
                        0 <= q < out@.len() && is_substring_of(
                            sorted_views[i as int],
                            #[trigger] views(out@)[q],
                        ),
                    !dominated ==> forall|q: int|
                        0 <= q < k ==> !is_substring_of(
                            sorted_views[i as int],
                            #[trigger] views(out@)[q],
                        ),
                ensures
                    dominated == exists|q: int|
                        0 <= q < views(out@).len() && is_substring_of(
                            sorted_views[i as int],
                            #[trigger] views(out@)[q],
                        ),
                decreases out.len() - k,
            {
                if contains_subslice(&out[k], &sorted[i]) {
                    dominated = true;
                    proof {
                        assert(is_substring_of(sorted_views[i as int], views(out@)[k as int]));
                    }
                    break ;
                }
                k += 1;
            }
            let ghost pre = views(out@);
            proof {
                assert(rem.first() == sorted_views[i as int]);
                assert(rem.drop_first() =~= sorted_views.subrange(
                    i + 1,
                    sorted_views.len() as int,
                ));
                assert(dominated == exists|q: int|
                    0 <= q < pre.len() && is_substring_of(rem.first(), #[trigger] pre[q]));
            }
            if !dominated {
                let t = crate::bytes::clone_bytes(&sorted[i]);
                out.push(t);
                proof {
                    assert(views(out@) =~= pre.push(sorted_views[i as int]));
                }
            }
            i += 1;
        }
        proof {
            assert(sorted_views.subrange(sorted_views.len() as int, sorted_views.len() as int)
                =~= Seq::<Seq<u8>>::empty());
            assert(views(out@) == substring_greedy(sorted_views, Seq::empty()));
            assert(substring_greedy(sorted_views, Seq::empty()).len() >= 1) by {
                let t0 = sorted_views.first();
                let kept2 = Seq::<Seq<u8>>::empty().push(t0);
                lemma_substring_greedy_membership(sorted_views.drop_first(), kept2);
            }
            lemma_substring_greedy_membership(sorted_views, Seq::empty());
            assert forall|j: int| 0 <= j < views(out@).len() implies in_views.contains(
                #[trigger] views(out@)[j],
            ) by {
                assert(sorted_views.contains(views(out@)[j]));
                assert(sorted_views.to_multiset().count(views(out@)[j]) > 0);
                assert(in_views.to_multiset().count(views(out@)[j]) > 0);
            }
        }
        if out.len() == 0 {
            None
        } else {
            proof {
                assert(sorted_by_len(sorted_views, true));
            }
            Some(out)
        }
    }

    fn name(&self) -> &'static str {
        "remove_substrings"
    }
}

} // verus!
