//! The shared-memory token channel's verified core: the frame layout
//! (`count` records of a 2-byte little-endian length followed by the bytes)
//! and the seqlock discipline that readers follow. The mapping, the atomic
//! sequence word and the volatile copies live with the driver; the library
//! decides, from the two observed sequence values, whether the copied frame
//! may be used.

use crate::bytes::subrange_vec;
use crate::processors::views;
use vstd::prelude::*;

verus! {

/// One record: two length bytes (little endian) followed by the token bytes.
pub open spec fn record_bytes(t: Seq<u8>) -> Seq<u8> {
    seq![(t.len() % 256) as u8, ((t.len() as int / 256) % 256) as u8] + t
}

/// The records of the tokens, in order.
pub open spec fn frame_bytes(tokens: Seq<Seq<u8>>) -> Seq<u8>
    decreases tokens.len(),
{
    if tokens.len() == 0 {
        Seq::empty()
    } else {
        frame_bytes(tokens.drop_last()) + record_bytes(tokens.last())
    }
}

/// The tokens read back from a frame: up to `count` records, stopping at a
/// truncated record.
pub open spec fn decode_tokens(data: Seq<u8>, count: int) -> Seq<Seq<u8>>
    decreases count,
{
    if count <= 0 || data.len() < 2 {
        Seq::empty()
    } else {
        let len = data[0] as int + 256 * (data[1] as int);
        if data.len() < 2 + len {
            Seq::empty()
        } else {
            seq![data.subrange(2, 2 + len)] + decode_tokens(
                data.subrange(2 + len, data.len() as int),
                count - 1,
            )
        }
    }
}

/// A nonempty frame starts with its first record.
pub proof fn lemma_frame_unfold_first(tokens: Seq<Seq<u8>>)
    requires
        tokens.len() > 0,
    ensures
        frame_bytes(tokens) == record_bytes(tokens.first()) + frame_bytes(tokens.drop_first()),
    decreases tokens.len(),
{
    if tokens.len() == 1 {
        assert(tokens.drop_last() =~= Seq::<Seq<u8>>::empty());
        assert(tokens.drop_first() =~= Seq::<Seq<u8>>::empty());
        assert(tokens.last() == tokens.first());
        assert(frame_bytes(tokens) =~= record_bytes(tokens.first()) + frame_bytes(
            tokens.drop_first(),
        ));
    } else {
        lemma_frame_unfold_first(tokens.drop_last());
        assert(tokens.drop_last().first() == tokens.first());
        assert(tokens.drop_last().drop_first() =~= tokens.drop_first().drop_last());
        assert(tokens.drop_first().last() == tokens.last());
        assert(frame_bytes(tokens) =~= record_bytes(tokens.first()) + frame_bytes(
            tokens.drop_first(),
        ));
    }
}

/// Round trip: a frame of `n` encodable tokens reads back as exactly those
/// tokens.
pub proof fn lemma_frame_round_trip(tokens: Seq<Seq<u8>>)
    requires
        forall|i: int| 0 <= i < tokens.len() ==> (#[trigger] tokens[i]).len() <= 0xffff,
    ensures
        decode_tokens(frame_bytes(tokens), tokens.len() as int) == tokens,
    decreases tokens.len(),
{
    if tokens.len() == 0 {
        assert(decode_tokens(frame_bytes(tokens), 0) =~= tokens);
    } else {
        lemma_frame_unfold_first(tokens);
        let t0 = tokens.first();
        let data = frame_bytes(tokens);
        let l = t0.len() as int;
        assert(data.len() >= 2);
        assert(data[0] == (l % 256) as u8);
        assert(data[1] == ((l / 256) % 256) as u8);
        assert(data[0] as int + 256 * (data[1] as int) == l) by {
            assert(l % 256 + 256 * (l / 256) == l);
            assert((l / 256) % 256 == l / 256);
        }
        assert(data.len() == 2 + l + frame_bytes(tokens.drop_first()).len());
        assert(data.subrange(2, 2 + l) =~= t0);
        assert(data.subrange(2 + l, data.len() as int) =~= frame_bytes(tokens.drop_first()));
        assert forall|i: int|
            0 <= i < tokens.drop_first().len() implies (#[trigger] tokens.drop_first()[i]).len()
            <= 0xffff by {
            assert(tokens.drop_first()[i] == tokens[i + 1]);
        }
        lemma_frame_round_trip(tokens.drop_first());
        assert(seq![t0] + tokens.drop_first() =~= tokens);
    }
}

/// Encodes tokens into a frame of at most `capacity` bytes: records are laid
/// out in order and encoding stops before the first token that does not fit
/// (or whose length needs more than two bytes). Returns the buffer and the
/// count of encoded records.
pub fn encode_tokens(tokens: &Vec<Vec<u8>>, capacity: usize) -> (r: (Vec<u8>, usize))
    ensures
        r.1 <= tokens@.len(),
        r.0@ == frame_bytes(views(tokens@).subrange(0, r.1 as int)),
        r.0@.len() <= capacity,
        forall|i: int| 0 <= i < r.1 as int ==> (#[trigger] views(tokens@)[i]).len() <= 0xffff,
        r.1 < tokens@.len() ==> (tokens@[r.1 as int]@.len() > 0xffff || r.0@.len() + 2 + tokens@[
            r.1 as int
        ]@.len() > capacity),
{
    let mut buf: Vec<u8> = Vec::new();
    let mut k: usize = 0;
    proof {
        assert(views(tokens@).subrange(0, 0) =~= Seq::<Seq<u8>>::empty());
    }
    while k < tokens.len()
        invariant
            k <= tokens@.len(),
            buf@ == frame_bytes(views(tokens@).subrange(0, k as int)),
            buf@.len() <= capacity,
            forall|i: int| 0 <= i < k as int ==> (#[trigger] views(tokens@)[i]).len() <= 0xffff,
        decreases tokens.len() - k,
    {
        let tlen = tokens[k].len();
        if tlen > 0xffff {
            return (buf, k);
        }
        if capacity - buf.len() < 2 || capacity - buf.len() - 2 < tlen {
            proof {
                assert(buf@.len() + 2 + tokens@[k as int]@.len() > capacity);
            }
            return (buf, k);
        }
        let ghost pre = buf@;
        buf.push((tlen % 256) as u8);
        buf.push((tlen / 256) as u8);
        let mut b: usize = 0;
        while b < tlen
            invariant
                b <= tlen,
                tlen == tokens@[k as int]@.len(),
                tlen <= 0xffff,
                k < tokens@.len(),
                buf@ == pre + seq![(tlen % 256) as u8, (tlen / 256) as u8] + tokens@[
                    k as int
                ]@.subrange(0, b as int),
            decreases tlen - b,
        {
            buf.push(tokens[k][b]);
            proof {
                assert(buf@ =~= pre + seq![(tlen % 256) as u8, (tlen / 256) as u8] + tokens@[
                    k as int
                ]@.subrange(0, b + 1));
            }
            b += 1;
        }
        proof {
            assert(tokens@[k as int]@.subrange(0, tlen as int) =~= tokens@[k as int]@);
            assert((tlen as int / 256) % 256 == tlen as int / 256);
            assert(buf@ =~= frame_bytes(views(tokens@).subrange(0, k as int)) + record_bytes(
                views(tokens@)[k as int],
            ));
            assert(views(tokens@).subrange(0, k + 1).drop_last() =~= views(tokens@).subrange(
                0,
                k as int,
            ));
            assert(views(tokens@).subrange(0, k + 1).last() == views(tokens@)[k as int]);
        }
        k += 1;
    }
    proof {
        assert(views(tokens@).subrange(0, tokens@.len() as int) =~= views(tokens@));
    }
    (buf, k)
}

/// Reads back up to `count` records from a frame copy, stopping at a
/// truncated record.
pub fn decode_frame(data: &Vec<u8>, count: u32) -> (r: Vec<Vec<u8>>)
    ensures
        views(r@) == decode_tokens(data@, count as int),
{
    let mut out: Vec<Vec<u8>> = Vec::new();
    let mut off: usize = 0;
    let mut i: u32 = 0;
    proof {
        assert(views(out@) =~= Seq::<Seq<u8>>::empty());
        assert(data@.subrange(0, data@.len() as int) =~= data@);
    }
    while i < count
        invariant
            i <= count,
            off <= data@.len(),
            views(out@) + decode_tokens(data@.subrange(off as int, data@.len() as int), count - i)
                == decode_tokens(data@, count as int),
        decreases count - i,
    {
        let ghost rem = data@.subrange(off as int, data@.len() as int);
        if data.len() - off < 2 {
            proof {
                assert(decode_tokens(rem, count - i) =~= Seq::<Seq<u8>>::empty());
                assert(views(out@) + decode_tokens(rem, count - i) =~= views(out@));
            }
            return out;
        }
        let lo = data[off];
        let hi = data[off + 1];
        let len: usize = lo as usize + 256 * (hi as usize);
        proof {
            assert(rem[0] == data@[off as int]);
            assert(rem[1] == data@[off + 1]);
        }
        if data.len() - off - 2 < len {
            proof {
                assert(rem.len() < 2 + len);
                assert(decode_tokens(rem, count - i) =~= Seq::<Seq<u8>>::empty());
                assert(views(out@) + decode_tokens(rem, count - i) =~= views(out@));
            }
            return out;
        }
        let ghost pre = views(out@);
        let tok = subrange_vec(data, off + 2, off + 2 + len);
        out.push(tok);
        proof {
            assert(rem.subrange(2, 2 + len as int) =~= data@.subrange(off + 2, off + 2 + len));
            assert(rem.subrange(2 + len as int, rem.len() as int) =~= data@.subrange(
                off + 2 + len,
                data@.len() as int,
            ));
            assert(decode_tokens(rem, count - i) =~= seq![rem.subrange(2, 2 + len as int)]
                + decode_tokens(data@.subrange(off + 2 + len, data@.len() as int), count - i - 1));
            assert(views(out@) =~= pre.push(data@.subrange(off + 2, off + 2 + len)));
            assert(views(out@) + decode_tokens(
                data@.subrange(off + 2 + len, data@.len() as int),
                count - i - 1,
            ) =~= decode_tokens(data@, count as int));
        }
        off = off + 2 + len;
        i += 1;
    }
    proof {
        assert(decode_tokens(data@.subrange(off as int, data@.len() as int), 0) =~= Seq::<
            Seq<u8>,
        >::empty());
        assert(views(out@) + decode_tokens(data@.subrange(off as int, data@.len() as int), 0)
            =~= views(out@));
    }
    out
}

/// The reader half of the seqlock discipline.
pub struct SeqlockReader {
    last_sequence: u32,
}

impl SeqlockReader {
    /// Sequence value of the last frame this reader accepted.
    pub closed spec fn last_seen(self) -> u32 {
        self.last_sequence
    }

    pub fn new() -> (r: Self)
        ensures
            r.last_seen() == 0,
    {
        SeqlockReader { last_sequence: 0 }
    }

    /// Accepts a copied frame exactly when the sequence word was even, fresh,
    /// and unchanged across the copy: the writer was not mid-write and the
    /// frame is not the one already consumed. An accepted frame decodes to
    /// its records; a rejected one leaves the reader unchanged.
    pub fn try_read(
        &mut self,
        seq_before: u32,
        data: &Vec<u8>,
        count: u32,
        seq_after: u32,
    ) -> (r: Option<Vec<Vec<u8>>>)
        ensures
            (r is Some) <==> (seq_before % 2 == 0 && seq_before != old(self).last_seen()
                && seq_before == seq_after),
            r matches Some(v) ==> views(v@) == decode_tokens(data@, count as int) && final(self).last_seen() == seq_before,
            r is None ==> final(self).last_seen() == old(self).last_seen(),
    {
        if seq_before % 2 == 1 || seq_before == self.last_sequence {
            return None;
        }
        let tokens = decode_frame(data, count);
        if seq_before != seq_after {
            return None;
        }
        self.last_sequence = seq_before;
        Some(tokens)
    }
}

} // verus!
