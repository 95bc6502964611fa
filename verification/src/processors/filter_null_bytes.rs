//! Drops tokens whose share of null bytes exceeds a bound.

use crate::bytes::clone_bytes;
use crate::processors::count_byte;
use crate::processors::count_matching;
use crate::processors::views;
use crate::processors::Processor;
use crate::ratio::Ratio;
use vstd::prelude::*;

verus! {

/// `t` survives the filter: its null-byte share is at most `max_ratio`.
pub open spec fn null_ratio_ok(t: Seq<u8>, max_ratio: Ratio) -> bool {
    max_ratio.frac_le(count_matching(t, 0), t.len() as int)
}

/// The tokens of `s` whose null-byte share is at most `max_ratio`, in order.
pub open spec fn filter_nulls_spec(s: Seq<Seq<u8>>, max_ratio: Ratio) -> Seq<Seq<u8>>
    decreases s.len(),
{
    if s.len() == 0 {
        Seq::empty()
    } else {
        let rest = filter_nulls_spec(s.drop_last(), max_ratio);
        if null_ratio_ok(s.last(), max_ratio) {
            rest.push(s.last())
        } else {
            rest
        }
    }
}

/// Drops any token with more than `max_ratio` null bytes.
pub struct FilterNullBytes {
    pub max_ratio: Ratio,
}

impl Processor for FilterNullBytes {
    /// Keeps exactly the tokens whose null-byte share is at most the bound,
    /// in their original order.
    fn process(&self, inputs: Vec<Vec<u8>>) -> (r: Option<Vec<Vec<u8>>>)
        ensures
            r matches Some(v) ==> v.len() > 0,
            r matches Some(v) ==> views(v@) == filter_nulls_spec(views(inputs@), self.max_ratio),
            r is None ==> filter_nulls_spec(views(inputs@), self.max_ratio).len() == 0,
    {
        let mut out: Vec<Vec<u8>> = Vec::new();
        let mut i: usize = 0;
        while i < inputs.len()
            invariant
                i <= inputs.len(),
                views(out@) == filter_nulls_spec(
                    views(inputs@).subrange(0, i as int),
                    self.max_ratio,
                ),
            decreases inputs.len() - i,
        {
            proof {
                assert(views(inputs@).subrange(0, i + 1).drop_last() =~= views(
                    inputs@,
                ).subrange(0, i as int));
                assert(views(inputs@).subrange(0, i + 1).last() == views(inputs@)[i as int]);
            }
            let nulls = count_byte(&inputs[i], 0);
            let ghost pre = views(out@);
            if self.max_ratio.frac_le_exec(nulls, inputs[i].len()) {
                out.push(clone_bytes(&inputs[i]));
                proof {
                    assert(views(out@) =~= pre.push(views(inputs@)[i as int]));
                }
            }
            i += 1;
        }
        proof {
            assert(views(inputs@).subrange(0, views(inputs@).len() as int) =~= views(inputs@));
        }
        if out.len() == 0 {
            None
        } else {
            Some(out)
        }
    }

    fn name(&self) -> &'static str {
        "filter_null_bytes"
    }
}

} // verus!
