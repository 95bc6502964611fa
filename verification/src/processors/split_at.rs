//! Splits tokens on configured delimiters, dropping short fragments.

use crate::bytes::clone_bytes;
use crate::bytes::subrange_vec;
use crate::processors::views;
use crate::processors::Processor;
use vstd::prelude::*;

verus! {

/// Least offset of a full occurrence of `delim` in `data`; nothing when there
/// is none or `delim` is empty.
pub open spec fn first_match(data: Seq<u8>, delim: Seq<u8>) -> Option<int>
    decreases data.len(),
{
    if delim.len() == 0 || data.len() < delim.len() {
        None
    } else if data.subrange(0, delim.len() as int) == delim {
        Some(0int)
    } else {
        match first_match(data.drop_first(), delim) {
            Some(j) => Some(j + 1),
            None => None,
        }
    }
}

/// `first_match` is the least offset where `delim` occurs.
pub proof fn lemma_first_match_char(data: Seq<u8>, delim: Seq<u8>)
    requires
        delim.len() > 0,
    ensures
        match first_match(data, delim) {
            Some(i) => 0 <= i && i + delim.len() <= data.len() && data.subrange(
                i,
                i + delim.len(),
            ) == delim && forall|o: int|
                0 <= o < i ==> #[trigger] data.subrange(o, o + delim.len()) != delim,
            None => forall|o: int|
                0 <= o && o + delim.len() <= data.len() ==> #[trigger] data.subrange(
                    o,
                    o + delim.len(),
                ) != delim,
        },
    decreases data.len(),
{
    if data.len() >= delim.len() && data.subrange(0, delim.len() as int) != delim {
        lemma_first_match_char(data.drop_first(), delim);
        assert forall|o: int| 1 <= o && o + delim.len() <= data.len() implies #[trigger] data.subrange(
            o,
            o + delim.len(),
        ) == data.drop_first().subrange(o - 1, o - 1 + delim.len()) by {
            assert(data.subrange(o, o + delim.len()) =~= data.drop_first().subrange(
                o - 1,
                o - 1 + delim.len(),
            ));
        }
    }
}

#[via_fn]
proof fn split_frags_decreases(data: Seq<u8>, delim: Seq<u8>) {
    if delim.len() > 0 {
        lemma_first_match_char(data, delim);
    }
}

/// Greedy left-to-right split of `data` on non-overlapping occurrences of
/// `delim`; empty fragments are dropped.
pub open spec fn split_frags(data: Seq<u8>, delim: Seq<u8>) -> Seq<Seq<u8>>
    decreases data.len(),
        when delim.len() > 0
        via split_frags_decreases
{
    match first_match(data, delim) {
        None => if data.len() > 0 {
            seq![data]
        } else {
            Seq::empty()
        },
        Some(i) => {
            let rest = split_frags(data.subrange(i + delim.len(), data.len() as int), delim);
            if i > 0 {
                seq![data.subrange(0, i)] + rest
            } else {
                rest
            }
        },
    }
}

/// One delimiter applied to one chunk: chunks shorter than the delimiter, and
/// any chunk for an empty delimiter, pass through unchanged.
pub open spec fn split_one(data: Seq<u8>, delim: Seq<u8>) -> Seq<Seq<u8>> {
    if delim.len() == 0 || data.len() < delim.len() {
        seq![data]
    } else {
        split_frags(data, delim)
    }
}

/// One delimiter applied to every chunk, keeping fragment order.
pub open spec fn split_chunks(chunks: Seq<Seq<u8>>, delim: Seq<u8>) -> Seq<Seq<u8>>
    decreases chunks.len(),
{
    if chunks.len() == 0 {
        Seq::empty()
    } else {
        split_chunks(chunks.drop_last(), delim) + split_one(chunks.last(), delim)
    }
}

/// The delimiters applied in order: the output of one is the input of the
/// next.
pub open spec fn split_rounds(chunks: Seq<Seq<u8>>, delims: Seq<Seq<u8>>) -> Seq<Seq<u8>>
    decreases delims.len(),
{
    if delims.len() == 0 {
        chunks
    } else {
        split_rounds(split_chunks(chunks, delims.first()), delims.drop_first())
    }
}

/// All delimiters applied to one token.
pub open spec fn split_token_spec(t: Seq<u8>, delims: Seq<Seq<u8>>) -> Seq<Seq<u8>> {
    split_rounds(seq![t], delims)
}

/// Appending one more delimiter is one more chunk pass.
pub proof fn lemma_split_rounds_snoc(chunks: Seq<Seq<u8>>, delims: Seq<Seq<u8>>, d: Seq<u8>)
    ensures
        split_rounds(chunks, delims.push(d)) == split_chunks(split_rounds(chunks, delims), d),
    decreases delims.len(),
{
    let ds2 = delims.push(d);
    if delims.len() == 0 {
        assert(ds2.first() == d);
        assert(ds2.drop_first() =~= Seq::<Seq<u8>>::empty());
        assert(split_rounds(chunks, ds2) == split_rounds(split_chunks(chunks, d), ds2.drop_first()));
        assert(split_rounds(split_chunks(chunks, d), Seq::<Seq<u8>>::empty()) == split_chunks(
            chunks,
            d,
        ));
    } else {
        assert(ds2.first() == delims.first());
        assert(ds2.drop_first() =~= delims.drop_first().push(d));
        assert(split_rounds(chunks, ds2) == split_rounds(
            split_chunks(chunks, delims.first()),
            delims.drop_first().push(d),
        ));
        lemma_split_rounds_snoc(split_chunks(chunks, delims.first()), delims.drop_first(), d);
        assert(split_rounds(chunks, delims) == split_rounds(
            split_chunks(chunks, delims.first()),
            delims.drop_first(),
        ));
    }
}

/// The fragments of every token of `s`, in order.
pub open spec fn split_all_inputs(s: Seq<Seq<u8>>, delims: Seq<Seq<u8>>) -> Seq<Seq<u8>>
    decreases s.len(),
{
    if s.len() == 0 {
        Seq::empty()
    } else {
        split_all_inputs(s.drop_last(), delims) + split_token_spec(s.last(), delims)
    }
}

/// The tokens of `s` of length at least `min_len`, in order.
pub open spec fn filter_min_len(s: Seq<Seq<u8>>, min_len: int) -> Seq<Seq<u8>>
    decreases s.len(),
{
    if s.len() == 0 {
        Seq::empty()
    } else {
        let rest = filter_min_len(s.drop_last(), min_len);
        if s.last().len() >= min_len {
            rest.push(s.last())
        } else {
            rest
        }
    }
}

/// The length filter distributes over concatenation.
pub proof fn lemma_filter_min_len_add(a: Seq<Seq<u8>>, b: Seq<Seq<u8>>, min_len: int)
    ensures
        filter_min_len(a + b, min_len) == filter_min_len(a, min_len) + filter_min_len(b, min_len),
    decreases b.len(),
{
    if b.len() == 0 {
        assert(a + b =~= a);
        assert(filter_min_len(a, min_len) + filter_min_len(b, min_len) =~= filter_min_len(
            a,
            min_len,
        ));
    } else {
        lemma_filter_min_len_add(a, b.drop_last(), min_len);
        assert((a + b).drop_last() =~= a + b.drop_last());
        assert((a + b).last() == b.last());
        if b.last().len() >= min_len {
            assert(filter_min_len(a, min_len) + filter_min_len(b, min_len) =~= (filter_min_len(
                a,
                min_len,
            ) + filter_min_len(b.drop_last(), min_len)).push(b.last()));
        }
    }
}

/// The filtered tokens all come from `s` and are long enough.
pub proof fn lemma_filter_min_len_sound(s: Seq<Seq<u8>>, min_len: int)
    ensures
        filter_min_len(s, min_len).len() <= s.len(),
        forall|j: int|
            0 <= j < filter_min_len(s, min_len).len() ==> (#[trigger] filter_min_len(s, min_len)[j]).len()
                >= min_len && s.contains(filter_min_len(s, min_len)[j]),
    decreases s.len(),
{
    if s.len() > 0 {
        lemma_filter_min_len_sound(s.drop_last(), min_len);
        let f = filter_min_len(s, min_len);
        let fr = filter_min_len(s.drop_last(), min_len);
        assert forall|j: int| 0 <= j < f.len() implies (#[trigger] f[j]).len() >= min_len
            && s.contains(f[j]) by {
            if j < fr.len() {
                assert(fr[j] == f[j]);
                let w = choose|w: int| 0 <= w < s.drop_last().len() && s.drop_last()[w] == fr[j];
                assert(s[w] == fr[j]);
            } else {
                assert(s[s.len() - 1] == s.last());
            }
        }
    }
}

/// `frag` is a contiguous piece of one of the tokens of `s`.
pub open spec fn is_piece_of(frag: Seq<u8>, s: Seq<Seq<u8>>) -> bool {
    exists|i: int, a: int, b: int|
        #![trigger s[i].subrange(a, b)]
        0 <= i < s.len() && 0 <= a <= b <= s[i].len() && frag == s[i].subrange(a, b)
}

/// Every fragment of a greedy split is a contiguous piece of the data.
#[verifier::rlimit(60)]
pub proof fn lemma_split_frags_pieces(data: Seq<u8>, delim: Seq<u8>)
    requires
        delim.len() > 0,
    ensures
        forall|k: int|
            0 <= k < split_frags(data, delim).len() ==> is_piece_of(
                #[trigger] split_frags(data, delim)[k],
                seq![data],
            ),
    decreases data.len(),
{
    lemma_first_match_char(data, delim);
    let f = split_frags(data, delim);
    match first_match(data, delim) {
        None => {
            assert forall|k: int| 0 <= k < f.len() implies is_piece_of(
                #[trigger] f[k],
                seq![data],
            ) by {
                assert(seq![data][0].subrange(0, data.len() as int) =~= data);
            }
        },
        Some(i) => {
            let tail = data.subrange(i + delim.len(), data.len() as int);
            lemma_split_frags_pieces(tail, delim);
            assert forall|k: int| 0 <= k < f.len() implies is_piece_of(
                #[trigger] f[k],
                seq![data],
            ) by {
                let head_count: int = if i > 0 {
                    1
                } else {
                    0
                };
                if k < head_count {
                    assert(f[k] == data.subrange(0, i));
                    assert(seq![data][0].subrange(0, i) == data.subrange(0, i));
                } else {
                    let fr = split_frags(tail, delim);
                    assert(f[k] == fr[k - head_count]);
                    assert(is_piece_of(fr[k - head_count], seq![tail]));
                    let (q, a, b) = choose|q: int, a: int, b: int|
                        #![trigger seq![tail][q].subrange(a, b)]
                        0 <= q < 1 && 0 <= a <= b <= seq![tail][q].len() && fr[k - head_count]
                            == seq![tail][q].subrange(a, b);
                    assert(tail.subrange(a, b) =~= data.subrange(
                        i + delim.len() + a,
                        i + delim.len() + b,
                    ));
                    assert(seq![data][0].subrange(i + delim.len() + a, i + delim.len() + b)
                        == data.subrange(i + delim.len() + a, i + delim.len() + b));
                }
            }
        },
    }
}

/// Every chunk produced by the rounds is a contiguous piece of an original
/// chunk.
pub proof fn lemma_split_chunks_pieces(chunks: Seq<Seq<u8>>, delim: Seq<u8>)
    ensures
        forall|k: int|
            0 <= k < split_chunks(chunks, delim).len() ==> is_piece_of(
                #[trigger] split_chunks(chunks, delim)[k],
                chunks,
            ),
    decreases chunks.len(),
{
    if chunks.len() > 0 {
        lemma_split_chunks_pieces(chunks.drop_last(), delim);
        let f = split_chunks(chunks, delim);
        let fr = split_chunks(chunks.drop_last(), delim);
        let one = split_one(chunks.last(), delim);
        assert forall|k: int| 0 <= k < f.len() implies is_piece_of(#[trigger] f[k], chunks) by {
            if k < fr.len() {
                assert(f[k] == fr[k]);
                assert(is_piece_of(fr[k], chunks.drop_last()));
                let (q, a, b) = choose|q: int, a: int, b: int|
                    #![trigger chunks.drop_last()[q].subrange(a, b)]
                    0 <= q < chunks.drop_last().len() && 0 <= a <= b <= chunks.drop_last()[q].len()
                        && fr[k] == chunks.drop_last()[q].subrange(a, b);
                assert(chunks[q].subrange(a, b) == fr[k]);
            } else {
                assert(f[k] == one[k - fr.len()]);
                let t = chunks.last();
                if delim.len() == 0 || t.len() < delim.len() {
                    assert(one[k - fr.len()] == t);
                    assert(chunks[chunks.len() - 1].subrange(0, t.len() as int) =~= t);
                } else {
                    lemma_split_frags_pieces(t, delim);
                    assert(is_piece_of(one[k - fr.len()], seq![t]));
                    let (q, a, b) = choose|q: int, a: int, b: int|
                        #![trigger seq![t][q].subrange(a, b)]
                        0 <= q < 1 && 0 <= a <= b <= seq![t][q].len() && one[k - fr.len()]
                            == seq![t][q].subrange(a, b);
                    assert(chunks[chunks.len() - 1].subrange(a, b) == one[k - fr.len()]);
                }
            }
        }
    }
}

/// Composition: pieces of pieces of `s` are pieces of `s`.
pub proof fn lemma_split_rounds_pieces(chunks: Seq<Seq<u8>>, delims: Seq<Seq<u8>>)
    ensures
        forall|k: int|
            0 <= k < split_rounds(chunks, delims).len() ==> is_piece_of(
                #[trigger] split_rounds(chunks, delims)[k],
                chunks,
            ),
    decreases delims.len(),
{
    if delims.len() == 0 {
        assert forall|k: int| 0 <= k < chunks.len() implies is_piece_of(
            #[trigger] chunks[k],
            chunks,
        ) by {
            assert(chunks[k].subrange(0, chunks[k].len() as int) =~= chunks[k]);
        }
    } else {
        let mid = split_chunks(chunks, delims.first());
        lemma_split_chunks_pieces(chunks, delims.first());
        lemma_split_rounds_pieces(mid, delims.drop_first());
        let f = split_rounds(chunks, delims);
        assert(f == split_rounds(mid, delims.drop_first()));
        assert forall|k: int| 0 <= k < f.len() implies is_piece_of(#[trigger] f[k], chunks) by {
            assert(is_piece_of(split_rounds(mid, delims.drop_first())[k], mid));
            assert(is_piece_of(f[k], mid));
            let (q, a, b) = choose|q: int, a: int, b: int|
                #![trigger mid[q].subrange(a, b)]
                0 <= q < mid.len() && 0 <= a <= b <= mid[q].len() && f[k] == mid[q].subrange(a, b);
            assert(is_piece_of(mid[q], chunks));
            let (q2, a2, b2) = choose|q2: int, a2: int, b2: int|
                #![trigger chunks[q2].subrange(a2, b2)]
                0 <= q2 < chunks.len() && 0 <= a2 <= b2 <= chunks[q2].len() && mid[q]
                    == chunks[q2].subrange(a2, b2);
            assert(mid[q].subrange(a, b) =~= chunks[q2].subrange(a2 + a, a2 + b));
        }
    }
}

/// Splits every token on each delimiter in turn and keeps the fragments of
/// length at least `min_length`.
pub struct SplitAt {
    pub delimiters: Vec<Vec<u8>>,
    pub min_length: usize,
}

impl SplitAt {
    /// Least offset of `delim` in `data`, scanning left to right.
    fn find_first(data: &Vec<u8>, delim: &Vec<u8>) -> (r: Option<usize>)
        requires
            delim.len() >= 1,
            delim.len() <= data.len(),
        ensures
            match r {
                Some(i) => first_match(data@, delim@) == Some(i as int),
                None => first_match(data@, delim@) is None,
            },
    {
        proof {
            lemma_first_match_char(data@, delim@);
        }
        let end = data.len() - delim.len();
        let mut off: usize = 0;
        loop
            invariant
                delim.len() >= 1,
                delim.len() <= data.len(),
                end == data.len() - delim.len(),
                off <= end,
                forall|o: int|
                    0 <= o < off ==> #[trigger] data@.subrange(o, o + delim@.len()) != delim@,
            decreases end - off,
        {
            proof {
                lemma_first_match_char(data@, delim@);
            }
            if crate::bytes::matches_at(data, delim, off) {
                proof {
                    lemma_first_match_char(data@, delim@);
                }
                return Some(off);
            }
            if off == end {
                proof {
                    lemma_first_match_char(data@, delim@);
                    assert forall|o: int|
                        0 <= o && o + delim@.len() <= data@.len() implies #[trigger] data@.subrange(
                        o,
                        o + delim@.len(),
                    ) != delim@ by {
                        assert(0 <= o <= end);
                    }
                }
                return None;
            }
            off += 1;
        }
    }

    /// Splits one chunk on one delimiter, exactly as `split_one` describes.
    fn split_by_delimiter(&self, data: &Vec<u8>, delim: &Vec<u8>) -> (r: Vec<Vec<u8>>)
        ensures
            views(r@) == split_one(data@, delim@),
        decreases data@.len(),
    {
        if delim.len() == 0 || data.len() < delim.len() {
            let mut out: Vec<Vec<u8>> = Vec::new();
            out.push(clone_bytes(data));
            proof {
                assert(views(out@) =~= seq![data@]);
            }
            return out;
        }
        match Self::find_first(data, delim) {
            None => {
                let mut out: Vec<Vec<u8>> = Vec::new();
                out.push(clone_bytes(data));
                proof {
                    assert(views(out@) =~= seq![data@]);
                }
                out
            },
            Some(i) => {
                proof {
                    lemma_first_match_char(data@, delim@);
                }
                let tail = subrange_vec(data, i + delim.len(), data.len());
                let rest: Vec<Vec<u8>> = if tail.len() == 0 {
                    Vec::new()
                } else {
                    self.split_by_delimiter(&tail, delim)
                };
                proof {
                    assert(views(rest@) =~= split_frags(tail@, delim@));
                }
                let mut rest = rest;
                if i > 0 {
                    let mut out: Vec<Vec<u8>> = Vec::new();
                    out.push(subrange_vec(data, 0, i));
                    out.append(&mut rest);
                    proof {
                        assert(views(out@) =~= seq![data@.subrange(0, i as int)] + split_frags(
                            tail@,
                            delim@,
                        ));
                    }
                    out
                } else {
                    rest
                }
            },
        }
    }

    /// Applies every delimiter in order to one token.
    fn split_token(&self, token: &Vec<u8>) -> (r: Vec<Vec<u8>>)
        ensures
            views(r@) == split_token_spec(token@, views(self.delimiters@)),
    {
        let mut chunks: Vec<Vec<u8>> = Vec::new();
        chunks.push(clone_bytes(token));
        proof {
            assert(views(chunks@) =~= seq![token@]);
            assert(views(self.delimiters@).subrange(0, 0) =~= Seq::<Seq<u8>>::empty());
        }
        let mut d: usize = 0;
        while d < self.delimiters.len()
            invariant
                d <= self.delimiters@.len(),
                views(chunks@) == split_rounds(
                    seq![token@],
                    views(self.delimiters@).subrange(0, d as int),
                ),
            decreases self.delimiters.len() - d,
        {
            let mut next: Vec<Vec<u8>> = Vec::new();
            proof {
                assert(views(next@) =~= Seq::<Seq<u8>>::empty());
                assert(views(chunks@).subrange(0, 0) =~= Seq::<Seq<u8>>::empty());
            }
            let mut c: usize = 0;
            while c < chunks.len()
                invariant
                    c <= chunks@.len(),
                    d < self.delimiters@.len(),
                    views(next@) == split_chunks(
                        views(chunks@).subrange(0, c as int),
                        views(self.delimiters@)[d as int],
                    ),
                decreases chunks.len() - c,
            {
                let mut frags = self.split_by_delimiter(&chunks[c], &self.delimiters[d]);
                let ghost pre = views(next@);
                next.append(&mut frags);
                proof {
                    assert(views(chunks@).subrange(0, c + 1).drop_last() =~= views(
                        chunks@,
                    ).subrange(0, c as int));
                    assert(views(chunks@).subrange(0, c + 1).last() == views(chunks@)[c as int]);
                    assert(views(next@) =~= pre + split_one(
                        views(chunks@)[c as int],
                        views(self.delimiters@)[d as int],
                    ));
                }
                c += 1;
            }
            proof {
                assert(views(chunks@).subrange(0, views(chunks@).len() as int) =~= views(chunks@));
                assert(views(self.delimiters@).subrange(0, d + 1) =~= views(
                    self.delimiters@,
                ).subrange(0, d as int).push(views(self.delimiters@)[d as int]));
                lemma_split_rounds_snoc(
                    seq![token@],
                    views(self.delimiters@).subrange(0, d as int),
                    views(self.delimiters@)[d as int],
                );
            }
            chunks = next;
            d += 1;
        }
        proof {
            assert(views(self.delimiters@).subrange(0, views(self.delimiters@).len() as int)
                =~= views(self.delimiters@));
        }
        chunks
    }
}

impl Processor for SplitAt {
    /// Splits every token on each delimiter in the listed order and keeps
    /// exactly the fragments of length at least `min_length`; every surviving
    /// fragment is a contiguous piece of some input token.
    fn process(&self, inputs: Vec<Vec<u8>>) -> (r: Option<Vec<Vec<u8>>>)
        ensures
            r matches Some(v) ==> v.len() > 0,
            r matches Some(v) ==> views(v@) == filter_min_len(
                split_all_inputs(views(inputs@), views(self.delimiters@)),
                self.min_length as int,
            ),
            r is None ==> filter_min_len(
                split_all_inputs(views(inputs@), views(self.delimiters@)),
                self.min_length as int,
            ).len() == 0,
            r matches Some(v) ==> forall|j: int|
                0 <= j < views(v@).len() ==> (#[trigger] views(v@)[j]).len()
                    >= self.min_length as int && is_piece_of(views(v@)[j], views(inputs@)),
    {
        let ghost dvs = views(self.delimiters@);
        let ghost min = self.min_length as int;
        let mut out: Vec<Vec<u8>> = Vec::new();
        proof {
            assert(views(out@) =~= Seq::<Seq<u8>>::empty());
            assert(views(inputs@).subrange(0, 0) =~= Seq::<Seq<u8>>::empty());
            assert(filter_min_len(split_all_inputs(views(inputs@).subrange(0, 0), dvs), min)
                =~= Seq::<Seq<u8>>::empty());
        }
        let mut i: usize = 0;
        while i < inputs.len()
            invariant
                i <= inputs@.len(),
                dvs == views(self.delimiters@),
                min == self.min_length as int,
                views(out@) == filter_min_len(
                    split_all_inputs(views(inputs@).subrange(0, i as int), dvs),
                    min,
                ),
            decreases inputs.len() - i,
        {
            let frags = self.split_token(&inputs[i]);
            let ghost base = views(out@);
            let ghost fvs = views(frags@);
            proof {
                assert(fvs.subrange(0, 0) =~= Seq::<Seq<u8>>::empty());
                assert(filter_min_len(fvs.subrange(0, 0), min) =~= Seq::<Seq<u8>>::empty());
            }
            let mut k: usize = 0;
            while k < frags.len()
                invariant
                    k <= frags@.len(),
                    fvs == views(frags@),
                    min == self.min_length as int,
                    views(out@) == base + filter_min_len(fvs.subrange(0, k as int), min),
                decreases frags.len() - k,
            {
                proof {
                    assert(fvs.subrange(0, k + 1).drop_last() =~= fvs.subrange(0, k as int));
                    assert(fvs.subrange(0, k + 1).last() == fvs[k as int]);
                }
                let ghost pre = views(out@);
                if frags[k].len() >= self.min_length {
                    out.push(clone_bytes(&frags[k]));
                    proof {
                        assert(views(out@) =~= pre.push(fvs[k as int]));
                        assert(views(out@) =~= base + filter_min_len(fvs.subrange(0, k + 1), min));
                    }
                } else {
                    proof {
                        assert(views(out@) =~= base + filter_min_len(fvs.subrange(0, k + 1), min));
                    }
                }
                k += 1;
            }
            proof {
                assert(fvs.subrange(0, fvs.len() as int) =~= fvs);
                assert(views(inputs@).subrange(0, i + 1).drop_last() =~= views(inputs@).subrange(
                    0,
                    i as int,
                ));
                assert(views(inputs@).subrange(0, i + 1).last() == views(inputs@)[i as int]);
                lemma_filter_min_len_add(
                    split_all_inputs(views(inputs@).subrange(0, i as int), dvs),
                    split_token_spec(views(inputs@)[i as int], dvs),
                    min,
                );
            }
            i += 1;
        }
        proof {
            assert(views(inputs@).subrange(0, views(inputs@).len() as int) =~= views(inputs@));
        }
        if out.len() == 0 {
            None
        } else {
            proof {
                let all = split_all_inputs(views(inputs@), dvs);
                lemma_filter_min_len_sound(all, min);
                lemma_split_all_inputs_pieces(views(inputs@), dvs);
                assert forall|j: int| 0 <= j < views(out@).len() implies (
                #[trigger] views(out@)[j]).len() >= min && is_piece_of(
                    views(out@)[j],
                    views(inputs@),
                ) by {
                    assert(all.contains(views(out@)[j]));
                    let w = choose|w: int| 0 <= w < all.len() && all[w] == views(out@)[j];
                    assert(is_piece_of(all[w], views(inputs@)));
                }
            }
            Some(out)
        }
    }

    fn name(&self) -> &'static str {
        "split_at"
    }
}

/// Every fragment of every token is a contiguous piece of some input token.
pub proof fn lemma_split_all_inputs_pieces(s: Seq<Seq<u8>>, delims: Seq<Seq<u8>>)
    ensures
        forall|k: int|
            0 <= k < split_all_inputs(s, delims).len() ==> is_piece_of(
                #[trigger] split_all_inputs(s, delims)[k],
                s,
            ),
    decreases s.len(),
{
    if s.len() > 0 {
        lemma_split_all_inputs_pieces(s.drop_last(), delims);
        let f = split_all_inputs(s, delims);
        let fr = split_all_inputs(s.drop_last(), delims);
        let one = split_token_spec(s.last(), delims);
        lemma_split_rounds_pieces(seq![s.last()], delims);
        assert forall|k: int| 0 <= k < f.len() implies is_piece_of(#[trigger] f[k], s) by {
            if k < fr.len() {
                assert(f[k] == fr[k]);
                assert(is_piece_of(fr[k], s.drop_last()));
                let (q, a, b) = choose|q: int, a: int, b: int|
                    #![trigger s.drop_last()[q].subrange(a, b)]
                    0 <= q < s.drop_last().len() && 0 <= a <= b <= s.drop_last()[q].len() && fr[k]
                        == s.drop_last()[q].subrange(a, b);
                assert(s[q].subrange(a, b) == fr[k]);
            } else {
                assert(f[k] == one[k - fr.len()]);
                assert(is_piece_of(one[k - fr.len()], seq![s.last()]));
                let (q, a, b) = choose|q: int, a: int, b: int|
                    #![trigger seq![s.last()][q].subrange(a, b)]
                    0 <= q < 1 && 0 <= a <= b <= seq![s.last()][q].len() && one[k - fr.len()]
                        == seq![s.last()][q].subrange(a, b);
                assert(s[s.len() - 1].subrange(a, b) == one[k - fr.len()]);
            }
        }
    }
}

} // verus!
