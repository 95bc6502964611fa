//! Drops tokens dominated by a single repeated byte.

use crate::bytes::clone_bytes;
use crate::processors::count_byte;
use crate::processors::count_matching;
use crate::processors::views;
use crate::processors::Processor;
use crate::ratio::Ratio;
use vstd::prelude::*;

verus! {

/// The largest occurrence count among byte values below `b`.
pub open spec fn max_count_upto(t: Seq<u8>, b: int) -> int
    decreases b,
{
    if b <= 0 {
        0
    } else {
        let prev = max_count_upto(t, b - 1);
        let c = count_matching(t, (b - 1) as u8);
        if c > prev {
            c
        } else {
            prev
        }
    }
}

/// The occurrence count of the most frequent byte of `t`.
pub open spec fn max_byte_count(t: Seq<u8>) -> int {
    max_count_upto(t, 256)
}

/// `t` survives: it is nonempty and its most frequent byte stays strictly
/// below the threshold share.
pub open spec fn not_repetitive(t: Seq<u8>, threshold: Ratio) -> bool {
    t.len() > 0 && !threshold.frac_ge(max_byte_count(t), t.len() as int)
}

/// The non-repetitive tokens of `s`, in order.
pub open spec fn filter_repetitive_spec(s: Seq<Seq<u8>>, threshold: Ratio) -> Seq<Seq<u8>>
    decreases s.len(),
{
    if s.len() == 0 {
        Seq::empty()
    } else {
        let rest = filter_repetitive_spec(s.drop_last(), threshold);
        if not_repetitive(s.last(), threshold) {
            rest.push(s.last())
        } else {
            rest
        }
    }
}

/// Drops empty tokens and tokens in which one byte reaches the threshold
/// share.
pub struct RemoveRepetitive {
    pub threshold: Ratio,
}

impl RemoveRepetitive {
    /// The occurrence count of the most frequent byte of `t`.
    fn max_count(t: &Vec<u8>) -> (r: usize)
        ensures
            r == max_byte_count(t@),
            r <= t@.len(),
    {
        let mut best: usize = 0;
        let mut b: usize = 0;
        while b < 256
            invariant
                b <= 256,
                best <= t@.len(),
                best == max_count_upto(t@, b as int),
            decreases 256 - b,
        {
            let c = count_byte(t, b as u8);
            if c > best {
                best = c;
            }
            b += 1;
        }
        best
    }
}

impl Processor for RemoveRepetitive {
    /// Keeps exactly the nonempty tokens whose most frequent byte stays
    /// strictly below the threshold share, in order.
    fn process(&self, inputs: Vec<Vec<u8>>) -> (r: Option<Vec<Vec<u8>>>)
        ensures
            r matches Some(v) ==> v.len() > 0,
            r matches Some(v) ==> views(v@) == filter_repetitive_spec(
                views(inputs@),
                self.threshold,
            ),
            r is None ==> filter_repetitive_spec(views(inputs@), self.threshold).len() == 0,
    {
        let mut out: Vec<Vec<u8>> = Vec::new();
        let mut i: usize = 0;
        while i < inputs.len()
            invariant
                i <= inputs.len(),
                views(out@) == filter_repetitive_spec(
                    views(inputs@).subrange(0, i as int),
                    self.threshold,
                ),
            decreases inputs.len() - i,
        {
            proof {
                assert(views(inputs@).subrange(0, i + 1).drop_last() =~= views(
                    inputs@,
                ).subrange(0, i as int));
                assert(views(inputs@).subrange(0, i + 1).last() == views(inputs@)[i as int]);
            }
            let ghost pre = views(out@);
            if inputs[i].len() > 0 {
                let mc = Self::max_count(&inputs[i]);
                if !self.threshold.frac_ge_exec(mc, inputs[i].len()) {
                    out.push(clone_bytes(&inputs[i]));
                    proof {
                        assert(views(out@) =~= pre.push(views(inputs@)[i as int]));
                    }
                }
            }
            i += 1;
        }
        proof {
            assert(views(inputs@).subrange(0, views(inputs@).len() as int) =~= views(inputs@));
        }
        if out.len() == 0 {
            None
        } else {
            Some(out)
        }
    }

    fn name(&self) -> &'static str {
        "remove_repetitive"
    }
}

} // verus!
