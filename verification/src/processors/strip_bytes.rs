//! Trims configured bytes from both ends of each token.

use crate::bytes::subrange_vec;
use crate::processors::views;
use crate::processors::Processor;
use vstd::prelude::*;

verus! {

/// First index of `t` holding a byte outside `set`; `t.len()` when every byte
/// is in `set`.
pub open spec fn strip_lo(t: Seq<u8>, set: Seq<u8>) -> int
    decreases t.len(),
{
    if t.len() == 0 {
        0
    } else if !set.contains(t.first()) {
        0
    } else {
        1 + strip_lo(t.drop_first(), set)
    }
}

/// One past the last index of `t` holding a byte outside `set`; `0` when
/// every byte is in `set`.
pub open spec fn strip_hi(t: Seq<u8>, set: Seq<u8>) -> int
    decreases t.len(),
{
    if t.len() == 0 {
        0
    } else if !set.contains(t.last()) {
        t.len() as int
    } else {
        strip_hi(t.drop_last(), set)
    }
}

/// The token with leading and trailing `set` bytes removed; meaningful when
/// some byte lies outside `set`.
pub open spec fn stripped(t: Seq<u8>, set: Seq<u8>) -> Seq<u8> {
    t.subrange(strip_lo(t, set), strip_hi(t, set))
}

/// The stripped form of `t` survives: something outside `set` remains and the
/// remainder is long enough.
pub open spec fn strip_keeps(t: Seq<u8>, set: Seq<u8>, min_len: int) -> bool {
    strip_lo(t, set) < strip_hi(t, set) && strip_hi(t, set) - strip_lo(t, set) >= min_len
}

/// The stripped survivors of `s`, in order.
pub open spec fn strip_map_spec(s: Seq<Seq<u8>>, set: Seq<u8>, min_len: int) -> Seq<Seq<u8>>
    decreases s.len(),
{
    if s.len() == 0 {
        Seq::empty()
    } else {
        let rest = strip_map_spec(s.drop_last(), set, min_len);
        if strip_keeps(s.last(), set, min_len) {
            rest.push(stripped(s.last(), set))
        } else {
            rest
        }
    }
}

/// Everything before `strip_lo` is in `set`, and the byte at `strip_lo`, if
/// any, is not.
pub proof fn lemma_strip_lo_char(t: Seq<u8>, set: Seq<u8>)
    ensures
        0 <= strip_lo(t, set) <= t.len(),
        forall|i: int| 0 <= i < strip_lo(t, set) ==> set.contains(#[trigger] t[i]),
        strip_lo(t, set) < t.len() ==> !set.contains(t[strip_lo(t, set)]),
    decreases t.len(),
{
    if t.len() > 0 && set.contains(t.first()) {
        lemma_strip_lo_char(t.drop_first(), set);
        assert forall|i: int| 0 <= i < strip_lo(t, set) implies set.contains(#[trigger] t[i]) by {
            if i > 0 {
                assert(t.drop_first()[i - 1] == t[i]);
            }
        }
        assert(strip_lo(t, set) < t.len() ==> t.drop_first()[strip_lo(t, set) - 1] == t[strip_lo(
            t,
            set,
        )]);
    }
}

/// Everything from `strip_hi` on is in `set`, and the byte before `strip_hi`,
/// if any, is not.
pub proof fn lemma_strip_hi_char(t: Seq<u8>, set: Seq<u8>)
    ensures
        0 <= strip_hi(t, set) <= t.len(),
        forall|i: int| strip_hi(t, set) <= i < t.len() ==> set.contains(#[trigger] t[i]),
        strip_hi(t, set) > 0 ==> !set.contains(t[strip_hi(t, set) - 1]),
    decreases t.len(),
{
    if t.len() > 0 && set.contains(t.last()) {
        lemma_strip_hi_char(t.drop_last(), set);
        assert forall|i: int| strip_hi(t, set) <= i < t.len() implies set.contains(
            #[trigger] t[i],
        ) by {
            if i < t.len() - 1 {
                assert(t.drop_last()[i] == t[i]);
            }
        }
        assert(strip_hi(t, set) > 0 ==> t.drop_last()[strip_hi(t, set) - 1] == t[strip_hi(t, set)
            - 1]);
    }
}

/// Each survivor of the strip is a contiguous piece of some input token, so
/// stripping never lengthens a token nor the list.
pub proof fn lemma_strip_map_monotone(s: Seq<Seq<u8>>, set: Seq<u8>, min_len: int)
    ensures
        strip_map_spec(s, set, min_len).len() <= s.len(),
        forall|j: int|
            0 <= j < strip_map_spec(s, set, min_len).len() ==> exists|i: int|
                0 <= i < s.len() && (#[trigger] strip_map_spec(s, set, min_len)[j]).len() <= (
                #[trigger] s[i]).len(),
    decreases s.len(),
{
    if s.len() > 0 {
        lemma_strip_map_monotone(s.drop_last(), set, min_len);
        let f = strip_map_spec(s, set, min_len);
        let fr = strip_map_spec(s.drop_last(), set, min_len);
        assert forall|j: int| 0 <= j < f.len() implies exists|i: int|
            0 <= i < s.len() && (#[trigger] f[j]).len() <= (#[trigger] s[i]).len() by {
            if j < fr.len() {
                assert(f[j] == fr[j]);
                let i = choose|i: int|
                    0 <= i < s.drop_last().len() && (#[trigger] fr[j]).len() <= (
                    #[trigger] s.drop_last()[i]).len();
                assert(s.drop_last()[i] == s[i]);
                assert(f[j].len() <= s[i].len());
            } else {
                lemma_strip_lo_char(s.last(), set);
                lemma_strip_hi_char(s.last(), set);
                let i = s.len() - 1;
                assert(s[i] == s.last());
                assert(f[j] == stripped(s.last(), set));
                assert(f[j].len() <= s[i].len());
            }
        }
    }
}

/// Trims leading and trailing bytes of a configured set; a token whose
/// remainder is shorter than `min_length` is dropped.
pub struct StripBytes {
    pub bytes_to_strip: Vec<u8>,
    pub min_length: usize,
}

impl StripBytes {
    /// Whether `b` is one of the bytes to strip.
    fn should_strip(&self, b: u8) -> (r: bool)
        ensures
            r == self.bytes_to_strip@.contains(b),
    {
        let mut i: usize = 0;
        while i < self.bytes_to_strip.len()
            invariant
                i <= self.bytes_to_strip@.len(),
                forall|j: int| 0 <= j < i ==> self.bytes_to_strip@[j] != b,
            decreases self.bytes_to_strip.len() - i,
        {
            if self.bytes_to_strip[i] == b {
                return true;
            }
            i += 1;
        }
        false
    }

    /// Strips one token; returns the remainder when it is long enough.
    fn strip_token(&self, t: &Vec<u8>) -> (r: Option<Vec<u8>>)
        ensures
            r is Some <==> strip_keeps(t@, self.bytes_to_strip@, self.min_length as int),
            r matches Some(v) ==> v@ == stripped(t@, self.bytes_to_strip@),
    {
        proof {
            lemma_strip_lo_char(t@, self.bytes_to_strip@);
            lemma_strip_hi_char(t@, self.bytes_to_strip@);
        }
        let mut lo: usize = 0;
        while lo < t.len() && self.should_strip(t[lo])
            invariant
                lo <= t.len(),
                forall|i: int| 0 <= i < lo ==> self.bytes_to_strip@.contains(#[trigger] t@[i]),
            decreases t.len() - lo,
        {
            lo += 1;
        }
        proof {
            assert(lo as int == strip_lo(t@, self.bytes_to_strip@)) by {
                lemma_strip_lo_char(t@, self.bytes_to_strip@);
            }
        }
        let mut hi: usize = t.len();
        while hi > lo && self.should_strip(t[hi - 1])
            invariant
                lo <= hi <= t.len(),
                forall|i: int| hi <= i < t.len() ==> self.bytes_to_strip@.contains(#[trigger] t@[i]),
            decreases hi,
        {
            hi -= 1;
        }
        proof {
            if hi > lo {
                assert(hi as int == strip_hi(t@, self.bytes_to_strip@)) by {
                    lemma_strip_hi_char(t@, self.bytes_to_strip@);
                }
            } else {
                assert(!strip_keeps(t@, self.bytes_to_strip@, self.min_length as int)) by {
                    lemma_strip_lo_char(t@, self.bytes_to_strip@);
                    lemma_strip_hi_char(t@, self.bytes_to_strip@);
                }
            }
        }
        if hi > lo && hi - lo >= self.min_length {
            Some(subrange_vec(t, lo, hi))
        } else {
            None
        }
    }
}

impl Processor for StripBytes {
    /// Keeps exactly the tokens whose stripped remainder is long enough,
    /// replaced by that remainder, in order.
    fn process(&self, inputs: Vec<Vec<u8>>) -> (r: Option<Vec<Vec<u8>>>)
        ensures
            r matches Some(v) ==> v.len() > 0,
            r matches Some(v) ==> views(v@) == strip_map_spec(
                views(inputs@),
                self.bytes_to_strip@,
                self.min_length as int,
            ),
            r is None ==> strip_map_spec(
                views(inputs@),
                self.bytes_to_strip@,
                self.min_length as int,
            ).len() == 0,
    {
        let mut out: Vec<Vec<u8>> = Vec::new();
        let mut i: usize = 0;
        while i < inputs.len()
            invariant
                i <= inputs.len(),
                views(out@) == strip_map_spec(
                    views(inputs@).subrange(0, i as int),
                    self.bytes_to_strip@,
                    self.min_length as int,
                ),
            decreases inputs.len() - i,
        {
            proof {
                assert(views(inputs@).subrange(0, i + 1).drop_last() =~= views(
                    inputs@,
                ).subrange(0, i as int));
                assert(views(inputs@).subrange(0, i + 1).last() == views(inputs@)[i as int]);
            }
            let ghost pre = views(out@);
            match self.strip_token(&inputs[i]) {
                Some(v) => {
                    out.push(v);
                    proof {
                        assert(views(out@) =~= pre.push(
                            stripped(views(inputs@)[i as int], self.bytes_to_strip@),
                        ));
                    }
                },
                None => {},
            }
            i += 1;
        }
        proof {
            assert(views(inputs@).subrange(0, views(inputs@).len() as int) =~= views(inputs@));
        }
        if out.len() == 0 {
            None
        } else {
            Some(out)
        }
    }

    fn name(&self) -> &'static str {
        "strip_bytes"
    }
}

} // verus!
