//! Common-substring discovery: concatenate the corpus, build a suffix array
//! with its LCP array, and group sorted suffixes by shared prefix length to
//! collect substrings common to several corpus entries.

use crate::bytes::clone_bytes;
use crate::bytes::is_substring_of;
use crate::bytes::subrange_vec;
use crate::processors::views;
use crate::ratio::Ratio;
use crate::suffix::common_prefix_len;
use crate::suffix::sa_lcp_wf;
use crate::suffix::suffix_array_with_lcp;
use vstd::multiset::Multiset;
use vstd::prelude::*;

verus! {

/// Total number of bytes of the corpus entries.
pub open spec fn total_len(s: Seq<Seq<u8>>) -> int
    decreases s.len(),
{
    if s.len() == 0 {
        0
    } else {
        total_len(s.drop_last()) + s.last().len()
    }
}

/// The concatenation of the corpus entries, in order.
pub open spec fn concat_of(s: Seq<Seq<u8>>) -> Seq<u8>
    decreases s.len(),
{
    if s.len() == 0 {
        Seq::empty()
    } else {
        concat_of(s.drop_last()) + s.last()
    }
}

/// Offset of entry `id` inside the concatenation of `s`.
pub open spec fn start_of(s: Seq<Seq<u8>>, id: int) -> int {
    total_len(s.subrange(0, id))
}

pub proof fn lemma_total_len_nonneg(s: Seq<Seq<u8>>)
    ensures
        total_len(s) >= 0,
    decreases s.len(),
{
    if s.len() > 0 {
        lemma_total_len_nonneg(s.drop_last());
    }
}

/// One entry further moves the start by that entry's length.
pub proof fn lemma_start_of_step(s: Seq<Seq<u8>>, id: int)
    requires
        0 <= id < s.len(),
    ensures
        start_of(s, id + 1) == start_of(s, id) + s[id].len(),
{
    assert(s.subrange(0, id + 1).drop_last() =~= s.subrange(0, id));
    assert(s.subrange(0, id + 1).last() == s[id]);
}

/// Entry starts are ordered and stay within the concatenation.
pub proof fn lemma_start_of_bounds(s: Seq<Seq<u8>>, id: int)
    requires
        0 <= id <= s.len(),
    ensures
        0 <= start_of(s, id) <= total_len(s),
    decreases s.len() - id,
{
    if id == s.len() {
        assert(s.subrange(0, id) =~= s);
        lemma_total_len_nonneg(s.subrange(0, id));
    } else {
        lemma_start_of_step(s, id);
        lemma_start_of_bounds(s, id + 1);
        lemma_total_len_nonneg(s.subrange(0, id));
    }
}

/// An earlier entry lies wholly before a later entry's start.
pub proof fn lemma_start_of_mono(s: Seq<Seq<u8>>, a: int, b: int)
    requires
        0 <= a < b <= s.len(),
    ensures
        start_of(s, a) + s[a].len() <= start_of(s, b),
    decreases b - a,
{
    lemma_start_of_step(s, a);
    if a + 1 < b {
        lemma_start_of_mono(s, a + 1, b);
    }
}

/// Position `start_of(corpus, id) + k` of the concatenation holds byte `k`
/// of entry `id` and is labeled `id`.
pub open spec fn entry_byte_ok(
    text: Seq<u8>,
    origin: Seq<usize>,
    corpus: Seq<Seq<u8>>,
    id: int,
    k: int,
) -> bool {
    &&& origin[start_of(corpus, id) + k] == id
    &&& text[start_of(corpus, id) + k] == corpus[id][k]
}

/// The concatenation and origin map describe the corpus: position
/// `start_of(id) + k` holds byte `k` of entry `id` and is labeled `id`.
pub open spec fn concat_wf(text: Seq<u8>, origin: Seq<usize>, corpus: Seq<Seq<u8>>) -> bool {
    &&& text.len() == total_len(corpus)
    &&& origin.len() == text.len()
    &&& forall|p: int|
        0 <= p < origin.len() ==> {
            let id = #[trigger] origin[p] as int;
            &&& 0 <= id < corpus.len()
            &&& start_of(corpus, id) <= p < start_of(corpus, id) + corpus[id].len()
        }
    &&& forall|id: int, k: int|
        0 <= id < corpus.len() && 0 <= k < corpus[id].len() ==> #[trigger] entry_byte_ok(
            text,
            origin,
            corpus,
            id,
            k,
        )
}

/// Builds the corpus concatenation and the per-byte origin labels.
pub fn concat_corpus(corpus: &Vec<Vec<u8>>) -> (r: (Vec<u8>, Vec<usize>))
    ensures
        concat_wf(r.0@, r.1@, views(corpus@)),
        r.0@ == concat_of(views(corpus@)),
{
    let ghost cvs = views(corpus@);
    let mut text: Vec<u8> = Vec::new();
    let mut origin: Vec<usize> = Vec::new();
    proof {
        assert(cvs.subrange(0, 0) =~= Seq::<Seq<u8>>::empty());
    }
    let mut id: usize = 0;
    while id < corpus.len()
        invariant
            id <= corpus@.len(),
            cvs == views(corpus@),
            origin@.len() == text@.len(),
            text@.len() == start_of(cvs, id as int),
            text@ == concat_of(cvs.subrange(0, id as int)),
            forall|p: int|
                0 <= p < origin@.len() ==> {
                    let q = #[trigger] origin@[p] as int;
                    &&& 0 <= q < id as int
                    &&& start_of(cvs, q) <= p < start_of(cvs, q) + cvs[q].len()
                },
            forall|id2: int, k: int|
                0 <= id2 < id as int && 0 <= k < cvs[id2].len() ==> #[trigger] entry_byte_ok(
                    text@,
                    origin@,
                    cvs,
                    id2,
                    k,
                ),
        decreases corpus.len() - id,
    {
        proof {
            lemma_start_of_step(cvs, id as int);
            lemma_start_of_bounds(cvs, id as int);
        }
        let entry_len = corpus[id].len();
        let ghost base = text@.len() as int;
        let mut k: usize = 0;
        while k < entry_len
            invariant
                k <= entry_len,
                id < corpus@.len(),
                cvs == views(corpus@),
                entry_len == cvs[id as int].len(),
                origin@.len() == text@.len(),
                text@.len() == base + k,
                base == start_of(cvs, id as int),
                text@ == concat_of(cvs.subrange(0, id as int)) + cvs[id as int].subrange(
                    0,
                    k as int,
                ),
                forall|p: int|
                    0 <= p < origin@.len() ==> {
                        let q = #[trigger] origin@[p] as int;
                        &&& 0 <= q <= id as int
                        &&& start_of(cvs, q) <= p < start_of(cvs, q) + cvs[q].len()
                    },
                forall|id2: int, k2: int|
                    0 <= id2 < id as int && 0 <= k2 < cvs[id2].len() ==> #[trigger] entry_byte_ok(
                        text@,
                        origin@,
                        cvs,
                        id2,
                        k2,
                    ),
                forall|k2: int|
                    0 <= k2 < k ==> #[trigger] entry_byte_ok(text@, origin@, cvs, id as int, k2),
            decreases entry_len - k,
        {
            let ghost pre_origin = origin@;
            let ghost pre_text = text@;
            text.push(corpus[id][k]);
            origin.push(id);
            proof {
                assert(entry_byte_ok(text@, origin@, cvs, id as int, k as int));
                assert(text@ =~= concat_of(cvs.subrange(0, id as int)) + cvs[id as int].subrange(
                    0,
                    k + 1,
                ));
                assert forall|id2: int, k2: int|
                    0 <= id2 < id as int && 0 <= k2 < cvs[id2].len() implies #[trigger] entry_byte_ok(
                    text@,
                    origin@,
                    cvs,
                    id2,
                    k2,
                ) by {
                    lemma_start_of_mono(cvs, id2, id as int);
                    lemma_total_len_nonneg(cvs.subrange(0, id2));
                    let idx = start_of(cvs, id2) + k2;
                    assert(0 <= idx < base);
                    assert(entry_byte_ok(pre_text, pre_origin, cvs, id2, k2));
                }
                assert forall|k2: int| 0 <= k2 < k + 1 implies #[trigger] entry_byte_ok(
                    text@,
                    origin@,
                    cvs,
                    id as int,
                    k2,
                ) by {
                    if k2 < k {
                        assert(entry_byte_ok(pre_text, pre_origin, cvs, id as int, k2));
                        lemma_total_len_nonneg(cvs.subrange(0, id as int));
                        assert(0 <= base + k2 < base + k);
                    } else {
                        assert(k2 == k as int);
                        assert(entry_byte_ok(text@, origin@, cvs, id as int, k as int));
                    }
                }
            }
            k += 1;
        }
        proof {
            assert(cvs.subrange(0, id + 1).drop_last() =~= cvs.subrange(0, id as int));
            assert(cvs.subrange(0, id + 1).last() == cvs[id as int]);
            assert(cvs[id as int].subrange(0, cvs[id as int].len() as int) =~= cvs[id as int]);
            assert(text@ =~= concat_of(cvs.subrange(0, id + 1)));
        }
        id += 1;
    }
    proof {
        assert(cvs.subrange(0, cvs.len() as int) =~= cvs);
    }
    (text, origin)
}

/// `bytes` occurs as a contiguous substring of `support` distinct corpus
/// entries.
pub open spec fn candidate_sound(corpus: Seq<Seq<u8>>, bytes: Seq<u8>, support: int) -> bool {
    exists|ids: Seq<int>|
        #![trigger ids.no_duplicates()]
        {
            &&& ids.no_duplicates()
            &&& ids.len() == support
            &&& forall|m: int|
                0 <= m < ids.len() ==> 0 <= #[trigger] ids[m] < corpus.len() && is_substring_of(
                    bytes,
                    corpus[ids[m]],
                )
        }
}

/// A well-formed candidate: in the configured length band, supported by at
/// least two distinct entries, and occurring in `support` many of them.
pub open spec fn candidate_ok(
    corpus: Seq<Seq<u8>>,
    bytes: Seq<u8>,
    support: int,
    min_len: int,
    max_len: int,
) -> bool {
    &&& min_len <= bytes.len() <= max_len
    &&& support >= 2
    &&& candidate_sound(corpus, bytes, support)
}

/// Entry `id` owns the whole occurrence `[p, p + l)` of the concatenation.
pub open spec fn covers(corpus: Seq<Seq<u8>>, id: int, p: int, l: int) -> bool {
    &&& 0 <= id < corpus.len()
    &&& start_of(corpus, id) <= p
    &&& p + l <= start_of(corpus, id) + corpus[id].len()
}

/// Two positions covered by the same entry belong to the same entry id.
pub proof fn lemma_cover_unique(corpus: Seq<Seq<u8>>, id1: int, id2: int, p: int)
    requires
        0 <= id1 < corpus.len(),
        0 <= id2 < corpus.len(),
        start_of(corpus, id1) <= p < start_of(corpus, id1) + corpus[id1].len(),
        start_of(corpus, id2) <= p < start_of(corpus, id2) + corpus[id2].len(),
    ensures
        id1 == id2,
{
    if id1 < id2 {
        lemma_start_of_mono(corpus, id1, id2);
    } else if id2 < id1 {
        lemma_start_of_mono(corpus, id2, id1);
    }
}

/// Every origin label of a covered occurrence names the covering entry.
pub proof fn lemma_covers_origin(
    text: Seq<u8>,
    origin: Seq<usize>,
    corpus: Seq<Seq<u8>>,
    id: int,
    p: int,
    l: int,
)
    requires
        concat_wf(text, origin, corpus),
        covers(corpus, id, p, l),
        l >= 1,
    ensures
        forall|k: int| 0 <= k < l ==> (#[trigger] origin[p + k]) as int == id,
{
    lemma_start_of_step(corpus, id);
    lemma_start_of_bounds(corpus, id + 1);
    lemma_total_len_nonneg(corpus.subrange(0, id));
    assert forall|k: int| 0 <= k < l implies (#[trigger] origin[p + k]) as int == id by {
        let q = origin[p + k] as int;
        lemma_cover_unique(corpus, q, id, p + k);
    }
}

/// The adjacent sorted suffixes `sa[i-1]` and `sa[i]` share at least
/// `min_len` bytes, and each one's occurrence of the shared prefix lies
/// wholly inside one entry, the two entries distinct.
pub open spec fn pair_good(
    corpus: Seq<Seq<u8>>,
    sa: Seq<i32>,
    lcp: Seq<i32>,
    min_len: int,
    i: int,
) -> bool {
    &&& 1 <= i < sa.len()
    &&& i < lcp.len()
    &&& lcp[i] >= min_len
    &&& exists|id1: int, id2: int|
        #![trigger covers(corpus, id1, sa[i - 1] as int, lcp[i] as int), covers(corpus, id2, sa[i] as int, lcp[i] as int)]
        id1 != id2 && covers(corpus, id1, sa[i - 1] as int, lcp[i] as int) && covers(
            corpus,
            id2,
            sa[i] as int,
            lcp[i] as int,
        )
}

/// The bytes a good pair is owed: its shared prefix, truncated to `max_len`.
pub open spec fn pair_bytes(text: Seq<u8>, sa: Seq<i32>, lcp: Seq<i32>, max_len: int, i: int) -> Seq<
    u8,
> {
    let l = if lcp[i] <= max_len {
        lcp[i] as int
    } else {
        max_len
    };
    text.subrange(sa[i] as int, sa[i] + l)
}

/// Some collected candidate carries exactly these bytes, supported at least
/// twice.
pub open spec fn delivers(cands: Seq<Candidate>, bytes: Seq<u8>) -> bool {
    exists|c: int|
        0 <= c < cands.len() && (#[trigger] cands[c]).bytes@ == bytes && cands[c].support >= 2
}

/// Completeness of the scan: every good adjacent pair contributed a
/// candidate holding its shared prefix.
pub open spec fn pairs_delivered(
    cands: Seq<Candidate>,
    corpus: Seq<Seq<u8>>,
    text: Seq<u8>,
    sa: Seq<i32>,
    lcp: Seq<i32>,
    min_len: int,
    max_len: int,
) -> bool {
    forall|i: int|
        #[trigger] pair_good(corpus, sa, lcp, min_len, i) ==> delivers(
            cands,
            pair_bytes(text, sa, lcp, max_len, i),
        )
}

/// A raw discovery: a byte string and the number of distinct corpus entries
/// it was seen in.
pub struct Candidate {
    pub bytes: Vec<u8>,
    pub support: usize,
}

/// An open group of the LCP scan: suffixes seen so far that share a prefix of
/// `level` bytes, represented by the distinct entries owning an occurrence
/// that stays within one entry. Each member is an `(entry id, position)`
/// pair.
struct Group {
    level: usize,
    members: Vec<(usize, usize)>,
}

/// No entry id occurs twice.
spec fn distinct_ids(ms: Seq<(usize, usize)>) -> bool {
    forall|x: int, y: int| 0 <= x < y < ms.len() ==> (#[trigger] ms[x]).0 != (#[trigger] ms[y]).0
}

/// The members span at least two distinct entries.
spec fn two_ids(ms: Seq<(usize, usize)>) -> bool {
    exists|x: int, y: int|
        #![trigger ms[x], ms[y]]
        0 <= x < ms.len() && 0 <= y < ms.len() && ms[x].0 != ms[y].0
}

/// The candidate bytes a group emits when it closes: its first member's
/// occurrence, truncated to `max_len`.
spec fn group_bytes(text: Seq<u8>, g: Group, max_len: int) -> Seq<u8> {
    let len = if g.level as int <= max_len {
        g.level as int
    } else {
        max_len
    };
    text.subrange(g.members@[0].1 as int, g.members@[0].1 + len)
}

/// The occurrence at `pos` lies inside entry `id`, shares its first `level`
/// bytes with the suffix at `cur`, and stays inside the text.
spec fn member_ok(
    text: Seq<u8>,
    corpus: Seq<Seq<u8>>,
    level: int,
    cur: int,
    id: int,
    pos: int,
) -> bool {
    &&& 0 <= id < corpus.len()
    &&& 0 <= pos
    &&& start_of(corpus, id) <= pos
    &&& pos + level <= start_of(corpus, id) + corpus[id].len()
    &&& pos + level <= text.len()
    &&& forall|x: int| 0 <= x < level ==> #[trigger] text[pos + x] == text[cur + x]
}

/// A shorter shared prefix at the same reference still holds.
proof fn lemma_member_ok_weaken(
    text: Seq<u8>,
    corpus: Seq<Seq<u8>>,
    level: int,
    level2: int,
    cur: int,
    id: int,
    pos: int,
)
    requires
        member_ok(text, corpus, level, cur, id, pos),
        0 <= level2 <= level,
    ensures
        member_ok(text, corpus, level2, cur, id, pos),
{
}

/// All members of the group are distinct entries with occurrences sharing the
/// group prefix with the suffix at `cur`.
spec fn group_ok(g: Group, text: Seq<u8>, corpus: Seq<Seq<u8>>, cur: int, min_len: int) -> bool {
    &&& min_len <= g.level
    &&& 0 <= cur
    &&& cur + g.level <= text.len()
    &&& distinct_ids(g.members@)
    &&& forall|m: int|
        0 <= m < g.members@.len() ==> member_ok(
            text,
            corpus,
            g.level as int,
            cur,
            (#[trigger] g.members@[m]).0 as int,
            g.members@[m].1 as int,
        )
}

/// Stack groups are ordered by strictly increasing prefix length.
spec fn levels_increasing(st: Seq<Group>) -> bool {
    forall|x: int, y: int| 0 <= x < y < st.len() ==> (#[trigger] st[x]).level < (#[trigger] st[y]).level
}

/// All candidates collected so far are sound.
pub open spec fn cands_ok(
    cs: Seq<Candidate>,
    corpus: Seq<Seq<u8>>,
    min_len: int,
    max_len: int,
) -> bool {
    forall|c: int|
        0 <= c < cs.len() ==> candidate_ok(
            corpus,
            (#[trigger] cs[c]).bytes@,
            cs[c].support as int,
            min_len,
            max_len,
        )
}

/// Adds the member unless its entry id is already represented.
fn insert_member(members: &mut Vec<(usize, usize)>, id: usize, pos: usize)
    ensures
        (exists|m: int|
            0 <= m < old(members)@.len() && (#[trigger] old(members)@[m]).0 == id) ==> final(members)@ == old(members)@,
        !(exists|m: int|
            0 <= m < old(members)@.len() && (#[trigger] old(members)@[m]).0 == id) ==> final(members)@ == old(members)@.push((id, pos)),
        final(members)@.len() >= old(members)@.len(),
        forall|m: int| 0 <= m < old(members)@.len() ==> final(members)@[m] == old(members)@[m],
        exists|m: int| 0 <= m < final(members)@.len() && (#[trigger] final(members)@[m]).0 == id,
{
    let mut m: usize = 0;
    while m < members.len()
        invariant
            m <= members@.len(),
            forall|x: int| 0 <= x < m ==> (#[trigger] members@[x]).0 != id,
        decreases members.len() - m,
    {
        if members[m].0 == id {
            proof {
                assert((members@[m as int]).0 == id);
            }
            return ;
        }
        m += 1;
    }
    members.push((id, pos));
    proof {
        assert((members@[members@.len() - 1]).0 == id);
    }
}

/// Labels the occurrence `[pos, pos + level)` with its entry when it does not
/// cross an entry boundary.
fn check_member(
    origin: &Vec<usize>,
    pos: usize,
    level: usize,
    Ghost(text): Ghost<Seq<u8>>,
    Ghost(corpus): Ghost<Seq<Seq<u8>>>,
) -> (r: Option<usize>)
    requires
        concat_wf(text, origin@, corpus),
        level >= 1,
        pos + level <= origin.len(),
    ensures
        r matches Some(id) ==> {
            &&& 0 <= id < corpus.len()
            &&& start_of(corpus, id as int) <= pos
            &&& pos + level <= start_of(corpus, id as int) + corpus[id as int].len()
        },
        forall|id: int|
            #[trigger] covers(corpus, id, pos as int, level as int) ==> r == Some(id as usize)
                && id <= usize::MAX as int,
{
    let a = origin[pos];
    let b = origin[pos + level - 1];
    proof {
        assert forall|id: int|
            #[trigger] covers(corpus, id, pos as int, level as int) implies a == b && a as int
            == id by {
            lemma_covers_origin(text, origin@, corpus, id, pos as int, level as int);
            assert(origin@[pos as int + 0] as int == id);
            assert(origin@[pos as int + (level - 1)] as int == id);
        }
    }
    if a == b {
        Some(a)
    } else {
        None
    }
}

/// Emits one candidate from a closed group: the first member's occurrence,
/// truncated to `max_len`, supported by the group's distinct entries.
fn emit_candidate(
    cands: &mut Vec<Candidate>,
    text: &Vec<u8>,
    members: &Vec<(usize, usize)>,
    level: usize,
    min_len: usize,
    max_len: usize,
    Ghost(corpus): Ghost<Seq<Seq<u8>>>,
    Ghost(origin): Ghost<Seq<usize>>,
    Ghost(cur): Ghost<int>,
)
    requires
        concat_wf(text@, origin, corpus),
        members@.len() >= 2,
        distinct_ids(members@),
        1 <= min_len <= max_len,
        min_len <= level,
        forall|m: int|
            0 <= m < members@.len() ==> member_ok(
                text@,
                corpus,
                level as int,
                cur,
                (#[trigger] members@[m]).0 as int,
                members@[m].1 as int,
            ),
        cands_ok(old(cands)@, corpus, min_len as int, max_len as int),
    ensures
        cands_ok(final(cands)@, corpus, min_len as int, max_len as int),
        final(cands)@.len() == old(cands)@.len() + 1,
        forall|c: int| 0 <= c < old(cands)@.len() ==> final(cands)@[c] == old(cands)@[c],
        final(cands)@.last().bytes@ == text@.subrange(
            members@[0].1 as int,
            members@[0].1 + (if level as int <= max_len as int {
                level as int
            } else {
                max_len as int
            }),
        ),
        final(cands)@.last().support == members@.len(),
{
    let w = members[0].1;
    let len = if level > max_len {
        max_len
    } else {
        level
    };
    proof {
        assert(member_ok(
            text@,
            corpus,
            level as int,
            cur,
            members@[0].0 as int,
            members@[0].1 as int,
        ));
    }
    proof {
        assert(w + len <= text.len());
    }
    let bytes = subrange_vec(text, w, w + len);
    let ghost bv = bytes@;
    proof {
        let ids = Seq::new(members@.len(), |m: int| members@[m].0 as int);
        assert(ids.no_duplicates()) by {
            assert forall|x: int, y: int|
                0 <= x < ids.len() && 0 <= y < ids.len() && x != y implies ids[x] != ids[y] by {
                if x < y {
                    assert(members@[x].0 != members@[y].0);
                } else {
                    assert(members@[y].0 != members@[x].0);
                }
            }
        }
        assert forall|m: int| 0 <= m < ids.len() implies 0 <= #[trigger] ids[m] < corpus.len()
            && is_substring_of(bv, corpus[ids[m]]) by {
            let idm = members@[m].0 as int;
            let posm = members@[m].1 as int;
            assert(member_ok(text@, corpus, level as int, cur, idm, posm));
            let st = start_of(corpus, idm);
            let a = posm - st;
            assert(corpus[idm].subrange(a, a + len) =~= bv) by {
                assert forall|k: int| 0 <= k < len implies corpus[idm][a + k] == bv[k] by {
                    assert(0 <= a + k < corpus[idm].len());
                    assert(entry_byte_ok(text@, origin, corpus, idm, a + k));
                    assert(text@[posm + k] == corpus[idm][a + k]);
                    assert(text@[posm + k] == text@[cur + k]);
                    assert(text@[w + k] == text@[cur + k]);
                    assert(bv[k] == text@[w + k]);
                }
            }
            assert(is_substring_of(bv, corpus[idm]));
        }
        assert(candidate_sound(corpus, bv, members@.len() as int));
    }
    let c = Candidate { bytes, support: members.len() };
    let ghost pre = cands@;
    cands.push(c);
    proof {
        assert forall|c2: int|
            0 <= c2 < cands@.len() implies candidate_ok(
            corpus,
            (#[trigger] cands@[c2]).bytes@,
            cands@[c2].support as int,
            min_len as int,
            max_len as int,
        ) by {
            if c2 < pre.len() {
                assert(cands@[c2] == pre[c2]);
            }
        }
    }
}

/// An occurrence shared with the suffix at `pc` is also shared with the
/// suffix at `cc` when `pc` and `cc` agree on at least `level` bytes.
proof fn lemma_member_transfer(
    text: Seq<u8>,
    corpus: Seq<Seq<u8>>,
    level: int,
    pc: int,
    cc: int,
    l: int,
    id: int,
    pos: int,
)
    requires
        member_ok(text, corpus, level, pc, id, pos),
        0 <= level <= l,
        common_prefix_len(text, pc, cc, l),
        0 <= cc,
    ensures
        member_ok(text, corpus, level, cc, id, pos),
{
    assert forall|x: int| 0 <= x < level implies #[trigger] text[pos + x] == text[cc + x] by {
        assert(text[pos + x] == text[pc + x]);
        assert(text[pc + x] == text[cc + x]);
    }
}

/// Closes every open group deeper than `l` bytes: each closed group is merged
/// with the members inherited from deeper groups, emitted when at least two
/// entries support it, and handed down. Returns the inherited members and the
/// (ghost) prefix length they are valid at.
fn pop_groups(
    stack: &mut Vec<Group>,
    cands: &mut Vec<Candidate>,
    text: &Vec<u8>,
    l: usize,
    min_len: usize,
    max_len: usize,
    Ghost(corpus): Ghost<Seq<Seq<u8>>>,
    Ghost(origin): Ghost<Seq<usize>>,
    Ghost(pc): Ghost<int>,
) -> (r: (Vec<(usize, usize)>, Ghost<int>))
    requires
        concat_wf(text@, origin, corpus),
        1 <= min_len <= max_len,
        levels_increasing(old(stack)@),
        forall|g: int|
            0 <= g < old(stack)@.len() ==> group_ok(
                #[trigger] old(stack)@[g],
                text@,
                corpus,
                pc,
                min_len as int,
            ),
        cands_ok(old(cands)@, corpus, min_len as int, max_len as int),
    ensures
        final(stack)@.len() <= old(stack)@.len(),
        final(stack)@ == old(stack)@.subrange(0, final(stack)@.len() as int),
        forall|g: int| 0 <= g < final(stack)@.len() ==> (#[trigger] final(stack)@[g]).level <= l,
        levels_increasing(final(stack)@),
        forall|g: int|
            0 <= g < final(stack)@.len() ==> group_ok(
                #[trigger] final(stack)@[g],
                text@,
                corpus,
                pc,
                min_len as int,
            ),
        cands_ok(final(cands)@, corpus, min_len as int, max_len as int),
        final(cands)@.len() >= old(cands)@.len(),
        forall|c: int| 0 <= c < old(cands)@.len() ==> final(cands)@[c] == old(cands)@[c],
        forall|k: int|
            final(stack)@.len() <= k < old(stack)@.len() && two_ids(
                (#[trigger] old(stack)@[k]).members@,
            ) ==> delivers(final(cands)@, group_bytes(text@, old(stack)@[k], max_len as int)),
        distinct_ids(r.0@),
        r.1@ >= l as int,
        forall|m: int|
            0 <= m < r.0@.len() ==> member_ok(
                text@,
                corpus,
                r.1@,
                pc,
                (#[trigger] r.0@[m]).0 as int,
                r.0@[m].1 as int,
            ),
        r.0@.len() > 0 ==> forall|g: int|
            0 <= g < final(stack)@.len() ==> (#[trigger] final(stack)@[g]).level as int <= r.1@,
{
    let mut carry: Vec<(usize, usize)> = Vec::new();
    let ghost mut carry_lvl: int = l as int;
    loop
        invariant
            concat_wf(text@, origin, corpus),
            1 <= min_len <= max_len,
            stack@.len() <= old(stack)@.len(),
            stack@ == old(stack)@.subrange(0, stack@.len() as int),
            levels_increasing(stack@),
            forall|g: int|
                0 <= g < stack@.len() ==> group_ok(
                    #[trigger] stack@[g],
                    text@,
                    corpus,
                    pc,
                    min_len as int,
                ),
            cands_ok(cands@, corpus, min_len as int, max_len as int),
            cands@.len() >= old(cands)@.len(),
            forall|c: int| 0 <= c < old(cands)@.len() ==> cands@[c] == old(cands)@[c],
            forall|k: int|
                stack@.len() <= k < old(stack)@.len() && two_ids(
                    (#[trigger] old(stack)@[k]).members@,
                ) ==> delivers(cands@, group_bytes(text@, old(stack)@[k], max_len as int)),
            distinct_ids(carry@),
            carry_lvl >= l as int,
            forall|m: int|
                0 <= m < carry@.len() ==> member_ok(
                    text@,
                    corpus,
                    carry_lvl,
                    pc,
                    (#[trigger] carry@[m]).0 as int,
                    carry@[m].1 as int,
                ),
            carry@.len() > 0 ==> forall|g: int|
                0 <= g < stack@.len() ==> (#[trigger] stack@[g]).level as int <= carry_lvl,
        ensures
            forall|g: int| 0 <= g < stack@.len() ==> (#[trigger] stack@[g]).level <= l,
        decreases stack@.len(),
    {
        let ghost pre_stack = stack@;
        let g = match stack.pop() {
            Some(g) => g,
            None => { break ; },
        };
        if g.level <= l {
            stack.push(g);
            proof {
                assert(stack@ =~= pre_stack);
            }
            break ;
        }
        let ghost kk = stack@.len() as int;
        let glevel = g.level;
        let ghost popped_members = g.members@;
        let mut merged = g.members;
        proof {
            assert(pre_stack[pre_stack.len() - 1] == Group { level: glevel, members: merged });
            assert(old(stack)@[kk] == Group { level: glevel, members: merged });
            assert(group_ok(pre_stack[pre_stack.len() - 1], text@, corpus, pc, min_len as int));
            if carry@.len() > 0 {
                assert(pre_stack[pre_stack.len() - 1].level as int <= carry_lvl);
            }
        }
        let mut ci: usize = 0;
        while ci < carry.len()
            invariant
                ci <= carry@.len(),
                concat_wf(text@, origin, corpus),
                distinct_ids(carry@),
                distinct_ids(merged@),
                merged@.len() >= popped_members.len(),
                forall|m: int| 0 <= m < popped_members.len() ==> merged@[m] == popped_members[m],
                carry@.len() > 0 ==> glevel as int <= carry_lvl,
                forall|m: int|
                    0 <= m < carry@.len() ==> member_ok(
                        text@,
                        corpus,
                        carry_lvl,
                        pc,
                        (#[trigger] carry@[m]).0 as int,
                        carry@[m].1 as int,
                    ),
                forall|m: int|
                    0 <= m < merged@.len() ==> member_ok(
                        text@,
                        corpus,
                        glevel as int,
                        pc,
                        (#[trigger] merged@[m]).0 as int,
                        merged@[m].1 as int,
                    ),
            decreases carry.len() - ci,
        {
            let (cid, cpos) = carry[ci];
            proof {
                lemma_member_ok_weaken(
                    text@,
                    corpus,
                    carry_lvl,
                    glevel as int,
                    pc,
                    cid as int,
                    cpos as int,
                );
            }
            let ghost pre = merged@;
            insert_member(&mut merged, cid, cpos);
            proof {
                if merged@ != pre {
                    assert(merged@ == pre.push((cid, cpos)));
                    assert forall|x: int, y: int|
                        0 <= x < y < merged@.len() implies (#[trigger] merged@[x]).0 != (
                    #[trigger] merged@[y]).0 by {
                        if y == merged@.len() - 1 {
                            assert(!(exists|m: int|
                                0 <= m < pre.len() && (#[trigger] pre[m]).0 == cid));
                            assert(pre[x].0 != cid);
                        }
                    }
                }
            }
            ci += 1;
        }
        let ghost pre_cands = cands@;
        proof {
            if two_ids(popped_members) {
                let (x, y) = choose|x: int, y: int|
                    #![trigger popped_members[x], popped_members[y]]
                    0 <= x < popped_members.len() && 0 <= y < popped_members.len()
                        && popped_members[x].0 != popped_members[y].0;
                assert(merged@[x] == popped_members[x] && merged@[y] == popped_members[y]);
                assert(merged@.len() >= 2);
            }
        }
        if merged.len() >= 2 {
            emit_candidate(
                cands,
                text,
                &merged,
                glevel,
                min_len,
                max_len,
                Ghost(corpus),
                Ghost(origin),
                Ghost(pc),
            );
        }
        proof {
            assert forall|k: int|
                stack@.len() <= k < old(stack)@.len() && two_ids(
                    (#[trigger] old(stack)@[k]).members@,
                ) implies delivers(cands@, group_bytes(text@, old(stack)@[k], max_len as int)) by {
                if k == kk {
                    assert(merged@[0] == popped_members[0]);
                    assert(cands@.last().bytes@ == group_bytes(
                        text@,
                        old(stack)@[kk],
                        max_len as int,
                    ));
                    assert(cands@.last().support >= 2);
                    assert((cands@[cands@.len() - 1]).bytes@ == group_bytes(
                        text@,
                        old(stack)@[kk],
                        max_len as int,
                    ));
                } else {
                    let c = choose|c: int|
                        0 <= c < pre_cands.len() && (#[trigger] pre_cands[c]).bytes@ == group_bytes(
                            text@,
                            old(stack)@[k],
                            max_len as int,
                        ) && pre_cands[c].support >= 2;
                    assert(cands@[c] == pre_cands[c]);
                }
            }
        }
        carry = merged;
        proof {
            carry_lvl = glevel as int;
            assert(stack@ =~= pre_stack.subrange(0, pre_stack.len() - 1));
            assert(stack@ =~= old(stack)@.subrange(0, stack@.len() as int));
            assert forall|g2: int|
                0 <= g2 < stack@.len() implies (#[trigger] stack@[g2]).level as int <= carry_lvl by {
                assert(pre_stack[g2].level < pre_stack[pre_stack.len() - 1].level);
            }
        }
    }
    (carry, Ghost(carry_lvl))
}

/// Some open group will still emit this pair's candidate: a group at the
/// pair's level, spanning two distinct entries, whose emission bytes are the
/// pair's shared prefix.
spec fn pair_pending(
    stack: Seq<Group>,
    text: Seq<u8>,
    max_len: int,
    bytes: Seq<u8>,
    level: int,
) -> bool {
    exists|g: int|
        0 <= g < stack.len() && (#[trigger] stack[g]).level as int == level && two_ids(
            stack[g].members@,
        ) && group_bytes(text, stack[g], max_len) == bytes
}

/// Scans the LCP array with a stack of open groups and collects every
/// candidate substring common to at least two distinct corpus entries. Every
/// returned candidate is sound: its bytes are between `min_len` and `max_len`
/// long and occur, within a single entry each, in `support` distinct corpus
/// entries.
#[verifier::rlimit(100)]
pub(crate) fn collect_candidates(
    text: &Vec<u8>,
    origin: &Vec<usize>,
    sa: &Vec<i32>,
    lcp: &Vec<i32>,
    min_len: usize,
    max_len: usize,
    Ghost(corpus): Ghost<Seq<Seq<u8>>>,
) -> (r: Vec<Candidate>)
    requires
        concat_wf(text@, origin@, corpus),
        sa_lcp_wf(text@, sa@, lcp@),
        1 <= min_len <= max_len,
        text@.len() >= 1,
    ensures
        cands_ok(r@, corpus, min_len as int, max_len as int),
        pairs_delivered(r@, corpus, text@, sa@, lcp@, min_len as int, max_len as int),
{
    let n = sa.len();
    let mut stack: Vec<Group> = Vec::new();
    let mut cands: Vec<Candidate> = Vec::new();
    let mut i: usize = 1;
    while i < n
        invariant
            1 <= i <= n,
            n == sa@.len(),
            concat_wf(text@, origin@, corpus),
            sa_lcp_wf(text@, sa@, lcp@),
            1 <= min_len <= max_len,
            levels_increasing(stack@),
            forall|g: int|
                0 <= g < stack@.len() ==> group_ok(
                    #[trigger] stack@[g],
                    text@,
                    corpus,
                    sa@[i - 1] as int,
                    min_len as int,
                ),
            cands_ok(cands@, corpus, min_len as int, max_len as int),
            forall|i2: int|
                #[trigger] pair_good(corpus, sa@, lcp@, min_len as int, i2) && i2 < i ==> delivers(
                    cands@,
                    pair_bytes(text@, sa@, lcp@, max_len as int, i2),
                ) || pair_pending(
                    stack@,
                    text@,
                    max_len as int,
                    pair_bytes(text@, sa@, lcp@, max_len as int, i2),
                    lcp@[i2] as int,
                ),
        decreases n - i,
    {
        let ghost stack0 = stack@;
        let ghost cands0 = cands@;
        let l = lcp[i] as usize;
        let prev_pos = sa[i - 1] as usize;
        let cur_pos = sa[i] as usize;
        let ghost pc = prev_pos as int;
        let ghost cc = cur_pos as int;
        proof {
            assert(0 <= lcp@[i as int] && crate::suffix::maximal_common_prefix(
                text@,
                sa@[i - 1] as int,
                sa@[i as int] as int,
                lcp@[i as int] as int,
            ));
            assert(common_prefix_len(text@, pc, cc, l as int));
        }
        let (carry, lvl) = pop_groups(
            &mut stack,
            &mut cands,
            text,
            l,
            min_len,
            max_len,
            Ghost(corpus),
            Ghost(origin@),
            Ghost(pc),
        );
        let ghost carry_lvl = lvl@;
        let ghost stack1 = stack@;
        let ghost pbytes = |i2: int| pair_bytes(text@, sa@, lcp@, max_len as int, i2);
        proof {
            assert forall|i2: int|
                #[trigger] pair_good(corpus, sa@, lcp@, min_len as int, i2) && i2 < i implies
                delivers(cands@, pbytes(i2)) || pair_pending(
                stack1,
                text@,
                max_len as int,
                pbytes(i2),
                lcp@[i2] as int,
            ) by {
                if delivers(cands0, pbytes(i2)) {
                    let c = choose|c: int|
                        0 <= c < cands0.len() && (#[trigger] cands0[c]).bytes@ == pbytes(i2)
                            && cands0[c].support >= 2;
                    assert(cands@[c] == cands0[c]);
                } else {
                    let g = choose|g: int|
                        0 <= g < stack0.len() && (#[trigger] stack0[g]).level as int == lcp@[i2]
                            && two_ids(stack0[g].members@) && group_bytes(
                            text@,
                            stack0[g],
                            max_len as int,
                        ) == pbytes(i2);
                    if g < stack1.len() {
                        assert(stack1[g] == stack0[g]);
                    } else {
                        assert(delivers(cands@, group_bytes(text@, stack0[g], max_len as int)));
                    }
                }
            }
        }
        if l >= min_len {
            proof {
                assert(cur_pos + l <= origin.len());
                assert(prev_pos + l <= origin.len());
            }
            let ghost pre_stack = stack@;
            match stack.pop() {
                Some(g) => {
                    if g.level == l {
                        let mut g = g;
                        let ghost g0_members = g.members@;
                        proof {
                            assert(pre_stack[pre_stack.len() - 1] == g);
                            assert(group_ok(g, text@, corpus, pc, min_len as int));
                        }
                        merge_into(
                            &mut g.members,
                            &carry,
                            l,
                            Ghost(text@),
                            Ghost(corpus),
                            Ghost(pc),
                            Ghost(carry_lvl),
                        );
                        let rp = check_member(origin, prev_pos, l, Ghost(text@), Ghost(corpus));
                        match rp {
                            Some(mid) => {
                                let ghost pre = g.members@;
                                insert_member(&mut g.members, mid, prev_pos);
                                proof {
                                    assert(member_ok(
                                        text@,
                                        corpus,
                                        l as int,
                                        pc,
                                        mid as int,
                                        prev_pos as int,
                                    ));
                                    lemma_insert_ok(
                                        pre,
                                        g.members@,
                                        text@,
                                        corpus,
                                        l as int,
                                        pc,
                                        mid as int,
                                        prev_pos as int,
                                    );
                                }
                            },
                            None => {},
                        }
                        let ghost after_prev = g.members@;
                        let rc = check_member(origin, cur_pos, l, Ghost(text@), Ghost(corpus));
                        match rc {
                            Some(mid) => {
                                let ghost pre = g.members@;
                                insert_member(&mut g.members, mid, cur_pos);
                                proof {
                                    lemma_insert_ok(
                                        pre,
                                        g.members@,
                                        text@,
                                        corpus,
                                        l as int,
                                        pc,
                                        mid as int,
                                        cur_pos as int,
                                    );
                                }
                            },
                            None => {},
                        }
                        proof {
                            assert forall|m: int|
                                0 <= m < after_prev.len() implies g.members@[m] == after_prev[m]
                                by {}
                            assert forall|m: int|
                                0 <= m < g0_members.len() implies g.members@[m] == g0_members[m]
                                by {}
                            if pair_good(corpus, sa@, lcp@, min_len as int, i as int) {
                                let (id1, id2) = choose|id1: int, id2: int|
                                    #![trigger covers(corpus, id1, sa@[i - 1] as int, lcp@[i as int] as int), covers(corpus, id2, sa@[i as int] as int, lcp@[i as int] as int)]
                                    id1 != id2 && covers(
                                        corpus,
                                        id1,
                                        sa@[i - 1] as int,
                                        lcp@[i as int] as int,
                                    ) && covers(corpus, id2, sa@[i as int] as int, lcp@[i as int] as int);
                                assert(rp == Some(id1 as usize));
                                assert(rc == Some(id2 as usize));
                                let m1 = choose|m: int|
                                    0 <= m < after_prev.len() && (#[trigger] after_prev[m]).0
                                        == id1 as usize;
                                let m2 = choose|m: int|
                                    0 <= m < g.members@.len() && (#[trigger] g.members@[m]).0
                                        == id2 as usize;
                                assert(g.members@[m1] == after_prev[m1]);
                                assert(g.members@[m1].0 != g.members@[m2].0);
                                assert(two_ids(g.members@));
                            }
                        }
                        stack.push(g);
                    } else {
                        stack.push(g);
                        let members = new_group_members(
                            carry,
                            origin,
                            prev_pos,
                            cur_pos,
                            l,
                            Ghost(text@),
                            Ghost(corpus),
                            Ghost(pc),
                            Ghost(carry_lvl),
                        );
                        proof {
                            assert(stack@ =~= pre_stack);
                            if pair_good(corpus, sa@, lcp@, min_len as int, i as int) {
                                let (id1, id2) = choose|id1: int, id2: int|
                                    #![trigger covers(corpus, id1, sa@[i - 1] as int, lcp@[i as int] as int), covers(corpus, id2, sa@[i as int] as int, lcp@[i as int] as int)]
                                    id1 != id2 && covers(
                                        corpus,
                                        id1,
                                        sa@[i - 1] as int,
                                        lcp@[i as int] as int,
                                    ) && covers(corpus, id2, sa@[i as int] as int, lcp@[i as int] as int);
                                let m1 = choose|m: int|
                                    0 <= m < members@.len() && (#[trigger] members@[m]).0 as int
                                        == id1;
                                let m2 = choose|m: int|
                                    0 <= m < members@.len() && (#[trigger] members@[m]).0 as int
                                        == id2;
                                assert(members@[m1].0 != members@[m2].0);
                                assert(two_ids(members@));
                            }
                        }
                        stack.push(Group { level: l, members });
                    }
                },
                None => {
                    let members = new_group_members(
                        carry,
                        origin,
                        prev_pos,
                        cur_pos,
                        l,
                        Ghost(text@),
                        Ghost(corpus),
                        Ghost(pc),
                        Ghost(carry_lvl),
                    );
                    proof {
                        if pair_good(corpus, sa@, lcp@, min_len as int, i as int) {
                            let (id1, id2) = choose|id1: int, id2: int|
                                #![trigger covers(corpus, id1, sa@[i - 1] as int, lcp@[i as int] as int), covers(corpus, id2, sa@[i as int] as int, lcp@[i as int] as int)]
                                id1 != id2 && covers(
                                    corpus,
                                    id1,
                                    sa@[i - 1] as int,
                                    lcp@[i as int] as int,
                                ) && covers(corpus, id2, sa@[i as int] as int, lcp@[i as int] as int);
                            let m1 = choose|m: int|
                                0 <= m < members@.len() && (#[trigger] members@[m]).0 as int
                                    == id1;
                            let m2 = choose|m: int|
                                0 <= m < members@.len() && (#[trigger] members@[m]).0 as int
                                    == id2;
                            assert(members@[m1].0 != members@[m2].0);
                            assert(two_ids(members@));
                        }
                    }
                    stack.push(Group { level: l, members });
                },
            }
        }
        proof {
            assert forall|g: int| 0 <= g < stack@.len() implies group_ok(
                #[trigger] stack@[g],
                text@,
                corpus,
                cc,
                min_len as int,
            ) by {
                let gr = stack@[g];
                assert(group_ok(gr, text@, corpus, pc, min_len as int));
                assert(gr.level <= l);
                assert forall|m: int|
                    0 <= m < gr.members@.len() implies member_ok(
                    text@,
                    corpus,
                    gr.level as int,
                    cc,
                    (#[trigger] gr.members@[m]).0 as int,
                    gr.members@[m].1 as int,
                ) by {
                    lemma_member_transfer(
                        text@,
                        corpus,
                        gr.level as int,
                        pc,
                        cc,
                        l as int,
                        gr.members@[m].0 as int,
                        gr.members@[m].1 as int,
                    );
                }
            }
            // Old pending pairs survive the stack update: untouched groups
            // keep their index, and the possibly extended top keeps its
            // level, its first member and its distinct entries.
            assert forall|i2: int|
                #[trigger] pair_good(corpus, sa@, lcp@, min_len as int, i2) && i2 < i implies
                delivers(cands@, pbytes(i2)) || pair_pending(
                stack@,
                text@,
                max_len as int,
                pbytes(i2),
                lcp@[i2] as int,
            ) by {
                if !delivers(cands@, pbytes(i2)) {
                    let g = choose|g: int|
                        0 <= g < stack1.len() && (#[trigger] stack1[g]).level as int == lcp@[i2]
                            && two_ids(stack1[g].members@) && group_bytes(
                            text@,
                            stack1[g],
                            max_len as int,
                        ) == pbytes(i2);
                    assert(stack@[g].level == stack1[g].level);
                    let (x, y) = choose|x: int, y: int|
                        #![trigger stack1[g].members@[x], stack1[g].members@[y]]
                        0 <= x < stack1[g].members@.len() && 0 <= y < stack1[g].members@.len()
                            && stack1[g].members@[x].0 != stack1[g].members@[y].0;
                    assert(stack@[g].members@[x] == stack1[g].members@[x]);
                    assert(stack@[g].members@[y] == stack1[g].members@[y]);
                    assert(two_ids(stack@[g].members@));
                    assert(stack@[g].members@[0] == stack1[g].members@[0]);
                    assert(group_bytes(text@, stack@[g], max_len as int) == pbytes(i2));
                }
            }
            // The fresh pair, when good, is pending in the level-l group.
            if pair_good(corpus, sa@, lcp@, min_len as int, i as int) {
                let gi = stack@.len() - 1;
                let gr = stack@[gi];
                assert(gr.level == l);
                assert(two_ids(gr.members@));
                assert(group_ok(gr, text@, corpus, cc, min_len as int));
                let len = if l as int <= max_len as int {
                    l as int
                } else {
                    max_len as int
                };
                let ghost m0 = gr.members@[0].1 as int;
                assert(gr.members@.len() > 0);
                assert(member_ok(text@, corpus, gr.level as int, cc, gr.members@[0].0 as int, m0));
                assert(lcp@[i as int] as int == l as int);
                assert(cc == sa@[i as int] as int);
                assert(pbytes(i as int) == text@.subrange(cc, cc + len));
                assert(group_bytes(text@, gr, max_len as int) == text@.subrange(m0, m0 + len));
                assert(m0 + len <= text@.len());
                assert(cc + len <= text@.len());
                assert forall|x: int| 0 <= x < len implies #[trigger] text@[m0 + x] == text@[cc
                    + x] by {}
                assert(text@.subrange(m0, m0 + len) =~= text@.subrange(cc, cc + len)) by {
                    assert forall|k: int|
                        0 <= k < len implies #[trigger] text@.subrange(m0, m0 + len)[k]
                        == text@.subrange(cc, cc + len)[k] by {
                        assert(text@.subrange(m0, m0 + len)[k] == text@[m0 + k]);
                        assert(text@.subrange(cc, cc + len)[k] == text@[cc + k]);
                        assert(text@[m0 + k] == text@[cc + k]);
                    }
                }
                assert(group_bytes(text@, gr, max_len as int) == pbytes(i as int));
                assert(pair_pending(
                    stack@,
                    text@,
                    max_len as int,
                    pbytes(i as int),
                    lcp@[i as int] as int,
                ));
            }
        }
        i += 1;
    }
    let ghost stack_end = stack@;
    let ghost cands_end = cands@;
    let (_carry, _lvl) = pop_groups(
        &mut stack,
        &mut cands,
        text,
        0,
        min_len,
        max_len,
        Ghost(corpus),
        Ghost(origin@),
        Ghost(sa@[n - 1] as int),
    );
    proof {
        assert forall|i2: int|
            #[trigger] pair_good(corpus, sa@, lcp@, min_len as int, i2) implies delivers(
            cands@,
            pair_bytes(text@, sa@, lcp@, max_len as int, i2),
        ) by {
            let bytes = pair_bytes(text@, sa@, lcp@, max_len as int, i2);
            if delivers(cands_end, bytes) {
                let c = choose|c: int|
                    0 <= c < cands_end.len() && (#[trigger] cands_end[c]).bytes@ == bytes
                        && cands_end[c].support >= 2;
                assert(cands@[c] == cands_end[c]);
            } else {
                let g = choose|g: int|
                    0 <= g < stack_end.len() && (#[trigger] stack_end[g]).level as int
                        == lcp@[i2] && two_ids(stack_end[g].members@) && group_bytes(
                        text@,
                        stack_end[g],
                        max_len as int,
                    ) == bytes;
                if g < stack@.len() {
                    assert(stack@[g].level <= 0);
                    assert(group_ok(stack@[g], text@, corpus, sa@[n - 1] as int, min_len as int));
                    assert(false);
                } else {
                    assert(delivers(cands@, group_bytes(text@, stack_end[g], max_len as int)));
                }
            }
        }
    }
    cands
}

/// The members stay valid at the group's level when one more is added.
proof fn lemma_insert_ok(
    pre: Seq<(usize, usize)>,
    post: Seq<(usize, usize)>,
    text: Seq<u8>,
    corpus: Seq<Seq<u8>>,
    level: int,
    cur: int,
    id: int,
    pos: int,
)
    requires
        post == pre || post == pre.push((id as usize, pos as usize)),
        post == pre.push((id as usize, pos as usize)) ==> !(exists|m: int|
            0 <= m < pre.len() && (#[trigger] pre[m]).0 == id),
        distinct_ids(pre),
        member_ok(text, corpus, level, cur, id, pos),
        forall|m: int|
            0 <= m < pre.len() ==> member_ok(
                text,
                corpus,
                level,
                cur,
                (#[trigger] pre[m]).0 as int,
                pre[m].1 as int,
            ),
        0 <= id <= usize::MAX,
        0 <= pos <= usize::MAX,
    ensures
        distinct_ids(post),
        forall|m: int|
            0 <= m < post.len() ==> member_ok(
                text,
                corpus,
                level,
                cur,
                (#[trigger] post[m]).0 as int,
                post[m].1 as int,
            ),
{
    if post != pre {
        assert forall|x: int, y: int|
            0 <= x < y < post.len() implies (#[trigger] post[x]).0 != (#[trigger] post[y]).0 by {
            if y == post.len() - 1 {
                assert(pre[x].0 != id);
            }
        }
    }
}

/// Folds the inherited members into a same-level group.
fn merge_into(
    members: &mut Vec<(usize, usize)>,
    carry: &Vec<(usize, usize)>,
    level: usize,
    Ghost(text): Ghost<Seq<u8>>,
    Ghost(corpus): Ghost<Seq<Seq<u8>>>,
    Ghost(pc): Ghost<int>,
    Ghost(carry_lvl): Ghost<int>,
)
    requires
        distinct_ids(old(members)@),
        distinct_ids(carry@),
        carry_lvl >= level as int,
        forall|m: int|
            0 <= m < old(members)@.len() ==> member_ok(
                text,
                corpus,
                level as int,
                pc,
                (#[trigger] old(members)@[m]).0 as int,
                old(members)@[m].1 as int,
            ),
        forall|m: int|
            0 <= m < carry@.len() ==> member_ok(
                text,
                corpus,
                carry_lvl,
                pc,
                (#[trigger] carry@[m]).0 as int,
                carry@[m].1 as int,
            ),
    ensures
        distinct_ids(final(members)@),
        final(members)@.len() >= old(members)@.len(),
        forall|m: int| 0 <= m < old(members)@.len() ==> final(members)@[m] == old(members)@[m],
        forall|m: int|
            0 <= m < final(members)@.len() ==> member_ok(
                text,
                corpus,
                level as int,
                pc,
                (#[trigger] final(members)@[m]).0 as int,
                final(members)@[m].1 as int,
            ),
{
    let mut ci: usize = 0;
    while ci < carry.len()
        invariant
            ci <= carry@.len(),
            distinct_ids(carry@),
            distinct_ids(members@),
            members@.len() >= old(members)@.len(),
            forall|m: int| 0 <= m < old(members)@.len() ==> members@[m] == old(members)@[m],
            carry_lvl >= level as int,
            forall|m: int|
                0 <= m < carry@.len() ==> member_ok(
                    text,
                    corpus,
                    carry_lvl,
                    pc,
                    (#[trigger] carry@[m]).0 as int,
                    carry@[m].1 as int,
                ),
            forall|m: int|
                0 <= m < members@.len() ==> member_ok(
                    text,
                    corpus,
                    level as int,
                    pc,
                    (#[trigger] members@[m]).0 as int,
                    members@[m].1 as int,
                ),
        decreases carry.len() - ci,
    {
        let (cid, cpos) = carry[ci];
        proof {
            lemma_member_ok_weaken(
                text,
                corpus,
                carry_lvl,
                level as int,
                pc,
                cid as int,
                cpos as int,
            );
        }
        let ghost pre = members@;
        insert_member(members, cid, cpos);
        proof {
            lemma_insert_ok(
                pre,
                members@,
                text,
                corpus,
                level as int,
                pc,
                cid as int,
                cpos as int,
            );
        }
        ci += 1;
    }
}

/// How candidates are turned into the final token set.
#[derive(Debug, Clone, Copy, PartialEq, Eq, Structural)]
pub enum TokenSelectionMode {
    /// Keep candidates occurring in at least this fraction of the corpus.
    Threshold(Ratio),
    /// Keep the best-supported candidates, at least this many (ties expand).
    MinTokenCount(usize),
}

/// The selection mode's parameters denote valid rationals.
pub open spec fn mode_wf(mode: TokenSelectionMode) -> bool {
    match mode {
        TokenSelectionMode::Threshold(t) => t.wf() && t.is_unit(),
        TokenSelectionMode::MinTokenCount(_) => true,
    }
}

/// The outcome of one discovery pass.
pub struct TokenDiscoveryResult {
    pub tokens: Vec<Vec<u8>>,
    pub threshold_absolute: usize,
    pub corpus_size: usize,
}

/// `bytes` is a sound selected token: it lies in the length band and occurs
/// in at least `cutoff` (and at least two) distinct corpus entries.
pub open spec fn token_selected(
    corpus: Seq<Seq<u8>>,
    bytes: Seq<u8>,
    min_len: int,
    max_len: int,
    cutoff: int,
) -> bool {
    exists|s: int|
        #![trigger candidate_sound(corpus, bytes, s)]
        s >= 2 && s >= cutoff && candidate_sound(corpus, bytes, s) && min_len <= bytes.len()
            <= max_len
}

/// Some candidate holds exactly these bytes with at least `cutoff` support.
pub open spec fn supported_by(cands: Seq<Candidate>, bytes: Seq<u8>, cutoff: int) -> bool {
    exists|c: int|
        0 <= c < cands.len() && (#[trigger] cands[c]).bytes@ == bytes && cands[c].support as int
            >= cutoff
}

/// Candidates ordered by weakly decreasing support.
pub open spec fn sorted_by_support_desc(s: Seq<Candidate>) -> bool {
    forall|x: int, y: int|
        0 <= x < y < s.len() ==> (#[trigger] s[x]).support >= (#[trigger] s[y]).support
}

/// No two candidates hold the same bytes.
pub open spec fn distinct_token_bytes(s: Seq<Candidate>) -> bool {
    forall|x: int, y: int| 0 <= x < y < s.len() ==> (#[trigger] s[x]).bytes@ != (#[trigger] s[y]).bytes@
}

/// The `(bytes, support)` pairs of a candidate list.
pub open spec fn cand_pairs(s: Seq<Candidate>) -> Seq<(Seq<u8>, int)> {
    s.map_values(|c: Candidate| (c.bytes@, c.support as int))
}

/// The bytes of the candidates supported at least `cutoff` times, in order.
pub open spec fn tokens_at_least(ds: Seq<Candidate>, cutoff: int) -> Seq<Seq<u8>>
    decreases ds.len(),
{
    if ds.len() == 0 {
        Seq::empty()
    } else {
        let rest = tokens_at_least(ds.drop_last(), cutoff);
        if ds.last().support as int >= cutoff {
            rest.push(ds.last().bytes@)
        } else {
            rest
        }
    }
}

/// Over a support-sorted candidate list, the kept tokens form a prefix: each
/// kept position meets the cut, and the first unkept position falls below it.
pub proof fn lemma_tokens_at_least_prefix(ds: Seq<Candidate>, c: int)
    requires
        sorted_by_support_desc(ds),
    ensures
        tokens_at_least(ds, c).len() <= ds.len(),
        forall|i: int|
            0 <= i < tokens_at_least(ds, c).len() ==> (#[trigger] ds[i]).support >= c
                && tokens_at_least(ds, c)[i] == ds[i].bytes@,
        ({
            let m = tokens_at_least(ds, c).len() as int;
            m < ds.len() ==> ds[m].support < c
        }),
    decreases ds.len(),
{
    if ds.len() > 0 {
        assert forall|x: int, y: int|
            0 <= x < y < ds.drop_last().len() implies (#[trigger] ds.drop_last()[x]).support >= (
        #[trigger] ds.drop_last()[y]).support by {
            assert(ds.drop_last()[x] == ds[x] && ds.drop_last()[y] == ds[y]);
        }
        lemma_tokens_at_least_prefix(ds.drop_last(), c);
        let rest = tokens_at_least(ds.drop_last(), c);
        if ds.last().support as int >= c {
            if rest.len() < ds.drop_last().len() {
                let m = rest.len() as int;
                assert(ds.drop_last()[m] == ds[m]);
                assert(ds[m].support >= ds[ds.len() - 1].support);
                assert(false);
            }
            assert(rest.len() == ds.len() - 1);
            assert forall|i: int|
                0 <= i < tokens_at_least(ds, c).len() implies (#[trigger] ds[i]).support >= c
                && tokens_at_least(ds, c)[i] == ds[i].bytes@ by {
                if i < ds.len() - 1 {
                    assert(ds.drop_last()[i] == ds[i]);
                    assert(rest[i] == ds.drop_last()[i].bytes@);
                } else {
                    assert(ds[i] == ds.last());
                }
            }
        } else {
            assert forall|i: int|
                0 <= i < tokens_at_least(ds, c).len() implies (#[trigger] ds[i]).support >= c
                && tokens_at_least(ds, c)[i] == ds[i].bytes@ by {
                assert(ds.drop_last()[i] == ds[i]);
            }
            let m = rest.len() as int;
            if m < ds.len() {
                if m == ds.len() - 1 {
                    assert(ds[m] == ds.last());
                } else {
                    assert(ds.drop_last()[m] == ds[m]);
                }
            }
        }
    }
}

/// Every candidate meeting the cut has its bytes among the kept tokens.
pub proof fn lemma_tokens_at_least_complete(ds: Seq<Candidate>, c: int)
    ensures
        forall|x: int|
            0 <= x < ds.len() && (#[trigger] ds[x]).support as int >= c ==> tokens_at_least(
                ds,
                c,
            ).contains(ds[x].bytes@),
    decreases ds.len(),
{
    if ds.len() > 0 {
        lemma_tokens_at_least_complete(ds.drop_last(), c);
        let f = tokens_at_least(ds, c);
        let fr = tokens_at_least(ds.drop_last(), c);
        assert forall|x: int|
            0 <= x < ds.len() && (#[trigger] ds[x]).support as int >= c implies f.contains(
            ds[x].bytes@,
        ) by {
            if x < ds.len() - 1 {
                assert(ds.drop_last()[x] == ds[x]);
                assert(fr.contains(ds[x].bytes@));
                let w = choose|w: int| 0 <= w < fr.len() && fr[w] == ds[x].bytes@;
                assert(f[w] == ds[x].bytes@);
            } else {
                assert(ds[x] == ds.last());
                assert(f.last() == ds.last().bytes@);
            }
        }
    }
}

/// The tie-expansion bound of the count-based selection: with the cut at the
/// `k`-th best distinct candidate, every token kept beyond the first `k`
/// carries exactly the cut's support — the result exceeds `k` only through
/// ties — and the kept tokens never outnumber the candidates.
pub proof fn lemma_min_token_count_ties(ds: Seq<Candidate>, k: int)
    requires
        sorted_by_support_desc(ds),
        1 <= k <= ds.len(),
    ensures
        tokens_at_least(ds, ds[k - 1].support as int).len() <= ds.len(),
        forall|j: int|
            k <= j < tokens_at_least(ds, ds[k - 1].support as int).len() ==> (#[trigger] ds[j]).support
                == ds[k - 1].support,
{
    let c = ds[k - 1].support as int;
    lemma_tokens_at_least_prefix(ds, c);
    assert forall|j: int|
        k <= j < tokens_at_least(ds, c).len() implies (#[trigger] ds[j]).support == ds[k
        - 1].support by {
        assert(ds[j].support as int >= c);
        assert(ds[k - 1].support >= ds[j].support);
    }
}

/// Keeps the distinct candidate byte strings supported by at least
/// `⌈threshold · corpus_size⌉` entries.
pub fn select_threshold(cands: &Vec<Candidate>, threshold: Ratio, corpus_size: usize) -> (r: (
    Vec<Vec<u8>>,
    usize,
))
    requires
        threshold.wf(),
        threshold.is_unit(),
    ensures
        r.1 as int == threshold.ceil_mul_spec(corpus_size as int),
        forall|x: int, y: int|
            0 <= x < y < r.0@.len() ==> views(r.0@)[x] != views(r.0@)[y],
        forall|j: int|
            0 <= j < r.0@.len() ==> supported_by(cands@, #[trigger] views(r.0@)[j], r.1 as int),
        forall|c: int|
            0 <= c < cands@.len() && (#[trigger] cands@[c]).support >= r.1 ==> views(
                r.0@,
            ).contains(cands@[c].bytes@),
{
    let min_inputs = threshold.ceil_mul(corpus_size);
    let mut out: Vec<Vec<u8>> = Vec::new();
    let mut i: usize = 0;
    while i < cands.len()
        invariant
            i <= cands@.len(),
            forall|x: int, y: int|
                0 <= x < y < out@.len() ==> views(out@)[x] != views(out@)[y],
            forall|j: int|
                0 <= j < out@.len() ==> supported_by(
                    cands@,
                    #[trigger] views(out@)[j],
                    min_inputs as int,
                ),
            forall|c: int|
                0 <= c < i && (#[trigger] cands@[c]).support >= min_inputs ==> views(
                    out@,
                ).contains(cands@[c].bytes@),
        decreases cands.len() - i,
    {
        let ghost pre = views(out@);
        if cands[i].support >= min_inputs && !crate::bytes::list_contains(&out, &cands[i].bytes) {
            out.push(clone_bytes(&cands[i].bytes));
            proof {
                assert(views(out@) =~= pre.push(cands@[i as int].bytes@));
                assert(views(out@)[out@.len() - 1] == cands@[i as int].bytes@);
                assert(supported_by(cands@, views(out@)[out@.len() - 1], min_inputs as int));
                assert forall|c: int|
                    0 <= c < i + 1 && (#[trigger] cands@[c]).support >= min_inputs implies views(
                    out@,
                ).contains(cands@[c].bytes@) by {
                    if c < i {
                        let w = choose|w: int| 0 <= w < pre.len() && pre[w] == cands@[c].bytes@;
                        assert(views(out@)[w] == cands@[c].bytes@);
                    }
                }
            }
        } else {
            proof {
                if cands@[i as int].support >= min_inputs {
                    assert(views(out@).contains(cands@[i as int].bytes@));
                }
            }
        }
        i += 1;
    }
    (out, min_inputs)
}

/// Selection sort of candidates by weakly decreasing support: the result
/// holds exactly the input's `(bytes, support)` pairs.
fn sort_cands_by_support(v: Vec<Candidate>) -> (r: Vec<Candidate>)
    ensures
        r@.len() == v@.len(),
        sorted_by_support_desc(r@),
        cand_pairs(r@).to_multiset() == cand_pairs(v@).to_multiset(),
        forall|x: int|
            0 <= x < r@.len() ==> cand_pairs(v@).contains(
                ((#[trigger] r@[x]).bytes@, r@[x].support as int),
            ),
{
    broadcast use vstd::seq_lib::group_to_multiset_ensures;
    broadcast use vstd::multiset::group_multiset_axioms;

    let ghost orig = v@;
    let mut rest = v;
    let mut out: Vec<Candidate> = Vec::new();
    proof {
        assert forall|m: int| 0 <= m < rest@.len() implies cand_pairs(orig).contains(
            ((#[trigger] rest@[m]).bytes@, rest@[m].support as int),
        ) by {
            assert(cand_pairs(orig)[m] == (rest@[m].bytes@, rest@[m].support as int));
        }
        assert(cand_pairs(out@).to_multiset().add(cand_pairs(rest@).to_multiset())
            =~= cand_pairs(orig).to_multiset());
    }
    while rest.len() > 0
        invariant
            out@.len() + rest@.len() == orig.len(),
            sorted_by_support_desc(out@),
            cand_pairs(out@).to_multiset().add(cand_pairs(rest@).to_multiset()) == cand_pairs(
                orig,
            ).to_multiset(),
            forall|k: int, m: int|
                0 <= k < out@.len() && 0 <= m < rest@.len() ==> (#[trigger] out@[k]).support >= (
                #[trigger] rest@[m]).support,
            forall|m: int|
                0 <= m < rest@.len() ==> cand_pairs(orig).contains(
                    ((#[trigger] rest@[m]).bytes@, rest@[m].support as int),
                ),
            forall|k: int|
                0 <= k < out@.len() ==> cand_pairs(orig).contains(
                    ((#[trigger] out@[k]).bytes@, out@[k].support as int),
                ),
        decreases rest.len(),
    {
        let mut pick: usize = 0;
        let mut m: usize = 1;
        while m < rest.len()
            invariant
                pick < m <= rest@.len(),
                rest@.len() > 0,
                forall|q: int|
                    0 <= q < m ==> (#[trigger] rest@[q]).support <= rest@[pick as int].support,
            decreases rest.len() - m,
        {
            if rest[m].support > rest[pick].support {
                pick = m;
            }
            m += 1;
        }
        let ghost pre_rest = rest@;
        let ghost pre_out = out@;
        let x = rest.remove(pick);
        out.push(x);
        proof {
            broadcast use vstd::seq_lib::group_to_multiset_ensures;
            broadcast use vstd::multiset::group_multiset_axioms;

            assert(cand_pairs(rest@) =~= cand_pairs(pre_rest).remove(pick as int));
            assert(cand_pairs(out@) =~= cand_pairs(pre_out).push(
                (pre_rest[pick as int].bytes@, pre_rest[pick as int].support as int),
            ));
            assert(cand_pairs(pre_rest).contains(cand_pairs(pre_rest)[pick as int]));
            assert(cand_pairs(pre_rest).to_multiset().count(cand_pairs(pre_rest)[pick as int])
                > 0);
            assert(cand_pairs(out@).to_multiset().add(cand_pairs(rest@).to_multiset())
                =~= cand_pairs(orig).to_multiset());
            assert forall|m2: int| 0 <= m2 < rest@.len() implies cand_pairs(orig).contains(
                ((#[trigger] rest@[m2]).bytes@, rest@[m2].support as int),
            ) by {
                if m2 < pick as int {
                    assert(rest@[m2] == pre_rest[m2]);
                } else {
                    assert(rest@[m2] == pre_rest[m2 + 1]);
                }
            }
            assert forall|k: int, m2: int|
                0 <= k < out@.len() && 0 <= m2 < rest@.len() implies (#[trigger] out@[k]).support
                >= (#[trigger] rest@[m2]).support by {
                if k < out@.len() - 1 {
                    if m2 < pick as int {
                        assert(rest@[m2] == pre_rest[m2]);
                    } else {
                        assert(rest@[m2] == pre_rest[m2 + 1]);
                    }
                } else {
                    assert(out@[k] == pre_rest[pick as int]);
                    if m2 < pick as int {
                        assert(rest@[m2] == pre_rest[m2]);
                    } else {
                        assert(rest@[m2] == pre_rest[m2 + 1]);
                    }
                }
            }
        }
    }
    proof {
        broadcast use vstd::seq_lib::group_to_multiset_ensures;
        broadcast use vstd::multiset::group_multiset_axioms;

        assert(cand_pairs(rest@).to_multiset() =~= Multiset::<(Seq<u8>, int)>::empty());
        assert(cand_pairs(out@).to_multiset() =~= cand_pairs(orig).to_multiset());
    }
    out
}

/// Whether some candidate already holds these bytes.
fn cands_contain_bytes(ds: &Vec<Candidate>, t: &Vec<u8>) -> (r: bool)
    ensures
        r == exists|x: int| 0 <= x < ds@.len() && (#[trigger] ds@[x]).bytes@ == t@,
{
    let mut i: usize = 0;
    while i < ds.len()
        invariant
            i <= ds@.len(),
            forall|x: int| 0 <= x < i ==> (#[trigger] ds@[x]).bytes@ != t@,
        decreases ds.len() - i,
    {
        if crate::bytes::bytes_eq(&ds[i].bytes, t) {
            return true;
        }
        i += 1;
    }
    false
}

/// Some deduplicated candidate carries these bytes with at least this
/// support.
pub open spec fn covered_by(ds: Seq<Candidate>, bytes: Seq<u8>, support: int) -> bool {
    exists|x: int|
        0 <= x < ds.len() && (#[trigger] ds[x]).bytes@ == bytes && ds[x].support as int >= support
}

/// The full behavior of the count-based selection over its input candidates:
/// some support-sorted list of the input's distinct byte strings, each with
/// its best support, determines the cut at the `target`-th entry (or the last
/// when fewer exist) and the kept tokens are exactly those meeting the cut.
pub open spec fn min_count_selection(
    cands: Seq<Candidate>,
    target: int,
    tokens: Seq<Seq<u8>>,
    cutoff: int,
) -> bool {
    exists|ds: Seq<Candidate>|
        {
            &&& #[trigger] sorted_by_support_desc(ds)
            &&& distinct_token_bytes(ds)
            &&& ds.len() <= cands.len()
            &&& forall|x: int|
                0 <= x < ds.len() ==> cand_pairs(cands).contains(
                    ((#[trigger] ds[x]).bytes@, ds[x].support as int),
                )
            &&& forall|c: int|
                0 <= c < cands.len() ==> covered_by(
                    ds,
                    (#[trigger] cands[c]).bytes@,
                    cands[c].support as int,
                )
            &&& (ds.len() > target ==> cutoff == ds[
                if target <= 0 {
                    0int
                } else {
                    target - 1
                }
            ].support as int)
            &&& (0 < ds.len() <= target ==> cutoff == ds[ds.len() - 1].support as int)
            &&& (ds.len() == 0 ==> cutoff == 0)
            &&& tokens == tokens_at_least(ds, cutoff)
            &&& forall|x: int|
                0 <= x < ds.len() && (#[trigger] ds[x]).support as int >= cutoff ==> tokens.contains(
                    ds[x].bytes@,
                )
        }
}

/// Transfers the per-element coverage of the sorted copy to the original
/// candidate list, matching their `(bytes, support)` multisets.
proof fn lemma_coverage_via_multiset(orig: Seq<Candidate>, sorted: Seq<Candidate>, ds: Seq<Candidate>)
    requires
        cand_pairs(sorted).to_multiset() == cand_pairs(orig).to_multiset(),
        forall|j: int|
            0 <= j < sorted.len() ==> covered_by(
                ds,
                (#[trigger] sorted[j]).bytes@,
                sorted[j].support as int,
            ),
    ensures
        forall|c: int|
            0 <= c < orig.len() ==> covered_by(
                ds,
                (#[trigger] orig[c]).bytes@,
                orig[c].support as int,
            ),
{
    broadcast use vstd::seq_lib::group_to_multiset_ensures;
    broadcast use vstd::multiset::group_multiset_axioms;

    assert forall|c: int| 0 <= c < orig.len() implies covered_by(
        ds,
        (#[trigger] orig[c]).bytes@,
        orig[c].support as int,
    ) by {
        let pr = (orig[c].bytes@, orig[c].support as int);
        assert(cand_pairs(orig)[c] == pr);
        assert(cand_pairs(orig).contains(pr));
        assert(cand_pairs(orig).to_multiset().count(pr) > 0);
        assert(cand_pairs(sorted).to_multiset().count(pr) > 0);
        assert(cand_pairs(sorted).contains(pr));
        let j = choose|j: int| 0 <= j < cand_pairs(sorted).len() && cand_pairs(sorted)[j] == pr;
        assert(sorted[j].bytes@ == orig[c].bytes@ && sorted[j].support == orig[c].support);
        assert(covered_by(ds, sorted[j].bytes@, sorted[j].support as int));
        let x = choose|x: int|
            0 <= x < ds.len() && (#[trigger] ds[x]).bytes@ == sorted[j].bytes@ && ds[x].support
                as int >= sorted[j].support as int;
        assert(ds[x].bytes@ == orig[c].bytes@ && ds[x].support as int >= orig[c].support as int);
    }
}

/// Assembles the full selection description from the deduplicated list.
proof fn lemma_assemble_min_count(
    orig: Seq<Candidate>,
    ds: Seq<Candidate>,
    tokens: Seq<Seq<u8>>,
    target: int,
    cutoff: int,
)
    requires
        sorted_by_support_desc(ds),
        distinct_token_bytes(ds),
        ds.len() <= orig.len(),
        forall|x: int|
            0 <= x < ds.len() ==> cand_pairs(orig).contains(
                ((#[trigger] ds[x]).bytes@, ds[x].support as int),
            ),
        forall|c: int|
            0 <= c < orig.len() ==> covered_by(
                ds,
                (#[trigger] orig[c]).bytes@,
                orig[c].support as int,
            ),
        ds.len() > target ==> cutoff == ds[
            if target <= 0 {
                0int
            } else {
                target - 1
            }
        ].support as int,
        0 < ds.len() <= target ==> cutoff == ds[ds.len() - 1].support as int,
        ds.len() == 0 ==> cutoff == 0,
        tokens == tokens_at_least(ds, cutoff),
    ensures
        min_count_selection(orig, target, tokens, cutoff),
{
    lemma_tokens_at_least_complete(ds, cutoff);
    assert(min_count_selection(orig, target, tokens, cutoff));
}

/// Keeps the `target` best-supported distinct candidates, expanded by ties at
/// the cut: sort by support, drop repeated byte strings, and keep everything
/// supported at least as well as the `target`-th distinct candidate. Never
/// returns more tokens than there were candidates.
#[verifier::rlimit(100)]
pub fn select_min_token_count(cands: Vec<Candidate>, target: usize) -> (r: (Vec<Vec<u8>>, usize))
    ensures
        r.0@.len() <= cands@.len(),
        forall|x: int, y: int|
            0 <= x < y < r.0@.len() ==> views(r.0@)[x] != views(r.0@)[y],
        forall|j: int|
            0 <= j < r.0@.len() ==> supported_by(cands@, #[trigger] views(r.0@)[j], r.1 as int),
        exists|ds: Seq<Candidate>|
            {
                &&& #[trigger] sorted_by_support_desc(ds)
                &&& distinct_token_bytes(ds)
                &&& ds.len() <= cands@.len()
                &&& (ds.len() > target as int ==> r.1 == ds[
                    if target == 0 {
                        0int
                    } else {
                        target - 1
                    }
                ].support)
                &&& (0 < ds.len() <= target as int ==> r.1 == ds[ds.len() - 1].support)
                &&& (ds.len() == 0 ==> r.1 == 0)
                &&& views(r.0@) == tokens_at_least(ds, r.1 as int)
            },
        min_count_selection(cands@, target as int, views(r.0@), r.1 as int),
{
    let ghost orig = cands@;
    let sorted = sort_cands_by_support(cands);
    let mut ds: Vec<Candidate> = Vec::new();
    let mut i: usize = 0;
    while i < sorted.len()
        invariant
            i <= sorted@.len(),
            ds@.len() <= i,
            sorted_by_support_desc(sorted@),
            distinct_token_bytes(ds@),
            sorted_by_support_desc(ds@),
            forall|x: int|
                0 <= x < ds@.len() ==> cand_pairs(orig).contains(
                    ((#[trigger] ds@[x]).bytes@, ds@[x].support as int),
                ),
            forall|x: int|
                0 <= x < sorted@.len() ==> cand_pairs(orig).contains(
                    ((#[trigger] sorted@[x]).bytes@, sorted@[x].support as int),
                ),
            sorted@.len() == orig.len(),
            forall|x: int|
                0 <= x < ds@.len() && i < sorted@.len() ==> (#[trigger] ds@[x]).support
                    >= sorted@[i as int].support,
            forall|j: int|
                0 <= j < i ==> covered_by(
                    ds@,
                    (#[trigger] sorted@[j]).bytes@,
                    sorted@[j].support as int,
                ),
        decreases sorted.len() - i,
    {
        let ghost pre = ds@;
        if !cands_contain_bytes(&ds, &sorted[i].bytes) {
            let c = Candidate {
                bytes: clone_bytes(&sorted[i].bytes),
                support: sorted[i].support,
            };
            ds.push(c);
            proof {
                assert(ds@[ds@.len() - 1].bytes@ == sorted@[i as int].bytes@);
                assert(cand_pairs(orig).contains(
                    (ds@[ds@.len() - 1].bytes@, ds@[ds@.len() - 1].support as int),
                ));
            }
        }
        proof {
            assert forall|x: int|
                0 <= x < ds@.len() && i + 1 < sorted@.len() implies (#[trigger] ds@[x]).support
                >= sorted@[i + 1].support by {
                if x < pre.len() {
                    assert(ds@[x] == pre[x]);
                }
                assert(sorted@[i as int].support >= sorted@[i + 1].support);
            }
            assert forall|j: int| 0 <= j < i + 1 implies covered_by(
                ds@,
                (#[trigger] sorted@[j]).bytes@,
                sorted@[j].support as int,
            ) by {
                if j < i {
                    assert(covered_by(pre, sorted@[j].bytes@, sorted@[j].support as int));
                    let x = choose|x: int|
                        0 <= x < pre.len() && (#[trigger] pre[x]).bytes@ == sorted@[j].bytes@
                            && pre[x].support as int >= sorted@[j].support as int;
                    assert(ds@[x] == pre[x]);
                    assert(ds@[x].bytes@ == sorted@[j].bytes@ && ds@[x].support as int
                        >= sorted@[j].support as int);
                } else {
                    if pre.len() < ds@.len() {
                        assert(ds@[ds@.len() - 1].bytes@ == sorted@[i as int].bytes@);
                        assert(ds@[ds@.len() - 1].support >= sorted@[i as int].support);
                    } else {
                        let x = choose|x: int|
                            0 <= x < pre.len() && (#[trigger] pre[x]).bytes@ == sorted@[
                                i as int
                            ].bytes@;
                        assert(ds@[x] == pre[x]);
                        assert(ds@[x].support >= sorted@[i as int].support);
                    }
                }
            }
        }
        i += 1;
    }
    let cutoff: usize = if ds.len() == 0 {
        0
    } else if ds.len() <= target {
        ds[ds.len() - 1].support
    } else if target == 0 {
        ds[0].support
    } else {
        ds[target - 1].support
    };
    let mut out: Vec<Vec<u8>> = Vec::new();
    proof {
        assert(ds@.subrange(0, 0) =~= Seq::<Candidate>::empty());
        assert(views(out@) =~= tokens_at_least(ds@.subrange(0, 0), cutoff as int));
    }
    let mut k: usize = 0;
    while k < ds.len()
        invariant
            k <= ds@.len(),
            distinct_token_bytes(ds@),
            views(out@) == tokens_at_least(ds@.subrange(0, k as int), cutoff as int),
            forall|x: int|
                0 <= x < ds@.len() ==> cand_pairs(orig).contains(
                    ((#[trigger] ds@[x]).bytes@, ds@[x].support as int),
                ),
            forall|j: int|
                #![trigger views(out@)[j]]
                0 <= j < out@.len() ==> exists|x: int|
                    0 <= x < k && views(out@)[j] == (#[trigger] ds@[x]).bytes@ && ds@[x].support
                        >= cutoff,
            forall|x: int, y: int|
                0 <= x < y < out@.len() ==> views(out@)[x] != views(out@)[y],
            out@.len() <= k,
        decreases ds.len() - k,
    {
        proof {
            assert(ds@.subrange(0, k + 1).drop_last() =~= ds@.subrange(0, k as int));
            assert(ds@.subrange(0, k + 1).last() == ds@[k as int]);
        }
        let ghost pre = views(out@);
        if ds[k].support >= cutoff {
            out.push(clone_bytes(&ds[k].bytes));
            proof {
                assert(views(out@) =~= pre.push(ds@[k as int].bytes@));
                assert forall|x: int, y: int|
                    0 <= x < y < views(out@).len() implies views(out@)[x] != views(out@)[y] by {
                    if y == views(out@).len() - 1 {
                        let w = choose|w: int|
                            0 <= w < k && pre[x] == (#[trigger] ds@[w]).bytes@ && ds@[w].support
                                >= cutoff;
                        assert(ds@[w].bytes@ != ds@[k as int].bytes@);
                    }
                }
            }
        }
        k += 1;
    }
    proof {
        assert(ds@.subrange(0, ds@.len() as int) =~= ds@);
        assert forall|j: int| 0 <= j < out@.len() implies supported_by(
            orig,
            #[trigger] views(out@)[j],
            cutoff as int,
        ) by {
            let w = choose|w: int|
                0 <= w < ds@.len() && views(out@)[j] == (#[trigger] ds@[w]).bytes@ && ds@[w].support
                    >= cutoff;
            assert(cand_pairs(orig).contains((ds@[w].bytes@, ds@[w].support as int)));
            let c = choose|c: int|
                0 <= c < cand_pairs(orig).len() && cand_pairs(orig)[c] == (
                    ds@[w].bytes@,
                    ds@[w].support as int,
                );
            assert(orig[c].bytes@ == ds@[w].bytes@ && orig[c].support == ds@[w].support);
        }
        lemma_coverage_via_multiset(orig, sorted@, ds@);
        lemma_assemble_min_count(orig, ds@, views(out@), target as int, cutoff as int);
    }
    (out, cutoff)
}

/// Soundness survives taking a substring: what occurs in an entry also hosts
/// every substring of it.
pub proof fn lemma_candidate_sound_substring(
    corpus: Seq<Seq<u8>>,
    bytes: Seq<u8>,
    sub: Seq<u8>,
    support: int,
)
    requires
        candidate_sound(corpus, bytes, support),
        is_substring_of(sub, bytes),
    ensures
        candidate_sound(corpus, sub, support),
{
    let ids = choose|ids: Seq<int>|
        #![trigger ids.no_duplicates()]
        {
            &&& ids.no_duplicates()
            &&& ids.len() == support
            &&& forall|m: int|
                0 <= m < ids.len() ==> 0 <= #[trigger] ids[m] < corpus.len() && is_substring_of(
                    bytes,
                    corpus[ids[m]],
                )
        };
    assert forall|m: int| 0 <= m < ids.len() implies 0 <= #[trigger] ids[m] < corpus.len()
        && is_substring_of(sub, corpus[ids[m]]) by {
        crate::bytes::lemma_substring_trans(sub, bytes, corpus[ids[m]]);
    }
}

/// Trims the configured bytes from both ends of a token; nothing is left when
/// every byte is in the set.
pub fn clean_token(token: &Vec<u8>, strip_set: &Vec<u8>) -> (r: Option<Vec<u8>>)
    ensures
        r is Some <==> crate::processors::strip_bytes::strip_lo(token@, strip_set@)
            < crate::processors::strip_bytes::strip_hi(token@, strip_set@),
        r matches Some(v) ==> v@ == crate::processors::strip_bytes::stripped(token@, strip_set@)
            && is_substring_of(v@, token@) && v@.len() <= token@.len(),
{
    let mut lo: usize = 0;
    while lo < token.len() && strip_set_has(strip_set, token[lo])
        invariant
            lo <= token.len(),
            forall|i: int| 0 <= i < lo ==> strip_set@.contains(#[trigger] token@[i]),
        decreases token.len() - lo,
    {
        lo += 1;
    }
    let mut hi: usize = token.len();
    while hi > lo && strip_set_has(strip_set, token[hi - 1])
        invariant
            lo <= hi <= token.len(),
            forall|i: int| hi <= i < token@.len() ==> strip_set@.contains(#[trigger] token@[i]),
        decreases hi,
    {
        hi -= 1;
    }
    proof {
        crate::processors::strip_bytes::lemma_strip_lo_char(token@, strip_set@);
        crate::processors::strip_bytes::lemma_strip_hi_char(token@, strip_set@);
        assert(lo as int == crate::processors::strip_bytes::strip_lo(token@, strip_set@));
        if hi > lo {
            assert(hi as int == crate::processors::strip_bytes::strip_hi(token@, strip_set@));
        }
    }
    if hi > lo {
        let v = subrange_vec(token, lo, hi);
        proof {
            assert(token@.subrange(lo as int, lo + v@.len()) =~= v@);
        }
        Some(v)
    } else {
        None
    }
}

/// Whether `b` is in the strip set.
fn strip_set_has(strip_set: &Vec<u8>, b: u8) -> (r: bool)
    ensures
        r == strip_set@.contains(b),
{
    let mut i: usize = 0;
    while i < strip_set.len()
        invariant
            i <= strip_set@.len(),
            forall|j: int| 0 <= j < i ==> strip_set@[j] != b,
        decreases strip_set.len() - i,
    {
        if strip_set[i] == b {
            return true;
        }
        i += 1;
    }
    false
}

/// What cleaning leaves of a candidate's bytes: the token itself when no
/// strip set is configured, its stripped core otherwise.
pub open spec fn clean_spec(bytes: Seq<u8>, strip: Seq<u8>) -> Seq<u8> {
    if strip.len() == 0 {
        bytes
    } else {
        crate::processors::strip_bytes::stripped(bytes, strip)
    }
}

/// The candidate survives cleaning: something is left after stripping, the
/// remainder is long enough, and its null-byte share passes the filter.
pub open spec fn clean_keeps(
    bytes: Seq<u8>,
    strip: Seq<u8>,
    min_len: int,
    nullr: Option<Ratio>,
) -> bool {
    &&& (strip.len() > 0 ==> crate::processors::strip_bytes::strip_lo(bytes, strip)
        < crate::processors::strip_bytes::strip_hi(bytes, strip))
    &&& clean_spec(bytes, strip).len() >= min_len
    &&& (nullr matches Some(mr) ==> mr.frac_le(
        crate::processors::count_matching(clean_spec(bytes, strip), 0),
        clean_spec(bytes, strip).len() as int,
    ))
}

/// The full account of one discovery run: the (unique) suffix and LCP arrays
/// of the concatenated corpus, the collected candidates with the scan's
/// soundness and pair completeness, the cleaned candidates, and the selected
/// tokens with the mode's completeness.
pub open spec fn discovery_chain(
    corpus: Seq<Seq<u8>>,
    min_len: int,
    max_len: int,
    mode: TokenSelectionMode,
    strip: Seq<u8>,
    nullr: Option<Ratio>,
    remove_subs: bool,
    tokens: Seq<Seq<u8>>,
    cutoff: int,
    sa: Seq<i32>,
    lcp: Seq<i32>,
    cands: Seq<Candidate>,
    cleaned: Seq<Candidate>,
) -> bool {
    &&& sa_lcp_wf(concat_of(corpus), sa, lcp)
    &&& cands_ok(cands, corpus, min_len, max_len)
    &&& pairs_delivered(cands, corpus, concat_of(corpus), sa, lcp, min_len, max_len)
    &&& (!remove_subs ==> forall|c: int|
        0 <= c < cands.len() && clean_keeps((#[trigger] cands[c]).bytes@, strip, min_len, nullr)
            ==> covered_by(cleaned, clean_spec(cands[c].bytes@, strip), cands[c].support as int))
    &&& match mode {
        TokenSelectionMode::Threshold(_) => forall|x: int|
            0 <= x < cleaned.len() && (#[trigger] cleaned[x]).support as int >= cutoff
                ==> tokens.contains(cleaned[x].bytes@),
        TokenSelectionMode::MinTokenCount(k) => min_count_selection(
            cleaned,
            k as int,
            tokens,
            cutoff,
        ),
    }
}

/// Some run of the scan, cleaning and selection accounts for the returned
/// tokens. The suffix and LCP arrays are pinned uniquely by `sa_lcp_wf`, so
/// the account is exact up to the candidate order.
pub open spec fn discovery_complete(
    corpus: Seq<Seq<u8>>,
    min_len: int,
    max_len: int,
    mode: TokenSelectionMode,
    strip: Seq<u8>,
    nullr: Option<Ratio>,
    remove_subs: bool,
    tokens: Seq<Seq<u8>>,
    cutoff: int,
) -> bool {
    exists|sa: Seq<i32>, lcp: Seq<i32>, cands: Seq<Candidate>, cleaned: Seq<Candidate>|
        #[trigger] discovery_chain(
            corpus,
            min_len,
            max_len,
            mode,
            strip,
            nullr,
            remove_subs,
            tokens,
            cutoff,
            sa,
            lcp,
            cands,
            cleaned,
        )
}

/// A cleaned candidate: within the length band, supported at least twice, and
/// sound with respect to the corpus.
pub open spec fn cleaned_ok(
    corpus: Seq<Seq<u8>>,
    c: Candidate,
    min_len: int,
    max_len: int,
) -> bool {
    &&& min_len <= c.bytes@.len() <= max_len
    &&& c.support >= 2
    &&& candidate_sound(corpus, c.bytes@, c.support as int)
}

/// Discovers the substrings common to at least two corpus entries: build the
/// suffix and LCP arrays over the concatenated corpus, group the sorted
/// suffixes, optionally strip and filter the raw candidates, and select the
/// final token set. Every returned token lies in the configured length band
/// and occurs in at least `threshold_absolute` (and at least two) distinct
/// corpus entries.
pub fn find_common_substrings(
    corpus: &Vec<Vec<u8>>,
    min_len: usize,
    max_len: usize,
    mode: TokenSelectionMode,
    strip_set: &Vec<u8>,
    max_null_ratio: Option<Ratio>,
    remove_subs: bool,
) -> (r: Option<TokenDiscoveryResult>)
    requires
        1 <= min_len <= max_len,
        mode_wf(mode),
    ensures
        corpus@.len() == 0 ==> r is None,
        concat_of(views(corpus@)).len() == 0 ==> r is None,
        r is None ==> corpus@.len() == 0 || concat_of(views(corpus@)).len() == 0 || concat_of(
            views(corpus@),
        ).len() > 0x7fff_ffff || !crate::suffix::sais_ok(concat_of(views(corpus@))),
        r matches Some(res) ==> discovery_complete(
            views(corpus@),
            min_len as int,
            max_len as int,
            mode,
            strip_set@,
            max_null_ratio,
            remove_subs,
            views(res.tokens@),
            res.threshold_absolute as int,
        ),
        r matches Some(res) ==> {
            &&& res.corpus_size == corpus@.len()
            &&& (mode matches TokenSelectionMode::Threshold(t) ==> res.threshold_absolute as int
                == t.ceil_mul_spec(corpus@.len() as int))
            &&& forall|j: int|
                0 <= j < res.tokens@.len() ==> token_selected(
                    views(corpus@),
                    #[trigger] views(res.tokens@)[j],
                    min_len as int,
                    max_len as int,
                    res.threshold_absolute as int,
                )
            &&& forall|x: int, y: int|
                0 <= x < y < res.tokens@.len() ==> views(res.tokens@)[x] != views(res.tokens@)[y]
        },
{
    let ghost cvs = views(corpus@);
    if corpus.len() == 0 {
        return None;
    }
    let (text, origin) = concat_corpus(corpus);
    if text.len() == 0 || text.len() > 0x7fff_ffff {
        return None;
    }
    let (sa, lcp) = match suffix_array_with_lcp(&text) {
        Some(p) => p,
        None => { return None; },
    };
    let cands = collect_candidates(&text, &origin, &sa, &lcp, min_len, max_len, Ghost(cvs));
    let mut cleaned: Vec<Candidate> = Vec::new();
    let mut c: usize = 0;
    while c < cands.len()
        invariant
            c <= cands@.len(),
            cvs == views(corpus@),
            cands_ok(cands@, cvs, min_len as int, max_len as int),
            forall|x: int|
                0 <= x < cleaned@.len() ==> cleaned_ok(
                    cvs,
                    #[trigger] cleaned@[x],
                    min_len as int,
                    max_len as int,
                ),
            forall|c2: int|
                0 <= c2 < c && clean_keeps(
                    (#[trigger] cands@[c2]).bytes@,
                    strip_set@,
                    min_len as int,
                    max_null_ratio,
                ) ==> covered_by(
                    cleaned@,
                    clean_spec(cands@[c2].bytes@, strip_set@),
                    cands@[c2].support as int,
                ),
        decreases cands.len() - c,
    {
        proof {
            assert(candidate_ok(
                cvs,
                cands@[c as int].bytes@,
                cands@[c as int].support as int,
                min_len as int,
                max_len as int,
            ));
        }
        let kept: Option<Vec<u8>> = if strip_set.len() == 0 {
            Some(clone_bytes(&cands[c].bytes))
        } else {
            clean_token(&cands[c].bytes, strip_set)
        };
        let ghost pre_cleaned = cleaned@;
        let mut pushed = false;
        match kept {
            Some(v) => {
                proof {
                    assert(v@ == clean_spec(cands@[c as int].bytes@, strip_set@));
                }
                if v.len() >= min_len {
                    let keep = match max_null_ratio {
                        Some(mr) => {
                            let nulls = crate::processors::count_byte(&v, 0);
                            mr.frac_le_exec(nulls, v.len())
                        },
                        None => true,
                    };
                    if keep {
                        proof {
                            if strip_set@.len() > 0 {
                                lemma_candidate_sound_substring(
                                    cvs,
                                    cands@[c as int].bytes@,
                                    v@,
                                    cands@[c as int].support as int,
                                );
                            }
                        }
                        let nc = Candidate { bytes: v, support: cands[c].support };
                        cleaned.push(nc);
                        pushed = true;
                    }
                }
            },
            None => {},
        }
        proof {
            assert forall|c2: int|
                0 <= c2 < c + 1 && clean_keeps(
                    (#[trigger] cands@[c2]).bytes@,
                    strip_set@,
                    min_len as int,
                    max_null_ratio,
                ) implies covered_by(
                cleaned@,
                clean_spec(cands@[c2].bytes@, strip_set@),
                cands@[c2].support as int,
            ) by {
                if c2 < c {
                    assert(covered_by(
                        pre_cleaned,
                        clean_spec(cands@[c2].bytes@, strip_set@),
                        cands@[c2].support as int,
                    ));
                    let x = choose|x: int|
                        0 <= x < pre_cleaned.len() && (#[trigger] pre_cleaned[x]).bytes@
                            == clean_spec(cands@[c2].bytes@, strip_set@) && pre_cleaned[x].support
                            as int >= cands@[c2].support as int;
                    assert(cleaned@[x] == pre_cleaned[x]);
                } else {
                    assert(pushed);
                    assert(cleaned@.last().bytes@ == clean_spec(cands@[c2].bytes@, strip_set@));
                    assert(cleaned@.last().support == cands@[c2].support);
                }
            }
        }
        c += 1;
    }
    if remove_subs && cleaned.len() > 0 {
        let mut tokens_only: Vec<Vec<u8>> = Vec::new();
        let mut x: usize = 0;
        while x < cleaned.len()
            invariant
                x <= cleaned@.len(),
            decreases cleaned.len() - x,
        {
            tokens_only.push(clone_bytes(&cleaned[x].bytes));
            x += 1;
        }
        let rs = crate::processors::RemoveSubstrings;
        match crate::processors::Processor::process(&rs, tokens_only) {
            Some(dedup) => {
                let mut retained: Vec<Candidate> = Vec::new();
                let mut y: usize = 0;
                while y < cleaned.len()
                    invariant
                        y <= cleaned@.len(),
                        cvs == views(corpus@),
                        forall|x2: int|
                            0 <= x2 < cleaned@.len() ==> cleaned_ok(
                                cvs,
                                #[trigger] cleaned@[x2],
                                min_len as int,
                                max_len as int,
                            ),
                        forall|x2: int|
                            0 <= x2 < retained@.len() ==> cleaned_ok(
                                cvs,
                                #[trigger] retained@[x2],
                                min_len as int,
                                max_len as int,
                            ),
                    decreases cleaned.len() - y,
                {
                    if crate::bytes::list_contains(&dedup, &cleaned[y].bytes) {
                        let nc = Candidate {
                            bytes: clone_bytes(&cleaned[y].bytes),
                            support: cleaned[y].support,
                        };
                        retained.push(nc);
                    }
                    y += 1;
                }
                cleaned = retained;
            },
            None => {},
        }
    }
    let ghost cleaned_view = cleaned@;
    let ghost cands_view = cands@;
    let (tokens, absolute) = match mode {
        TokenSelectionMode::Threshold(t) => select_threshold(&cleaned, t, corpus.len()),
        TokenSelectionMode::MinTokenCount(k) => select_min_token_count(cleaned, k),
    };
    proof {
        assert(discovery_chain(
            cvs,
            min_len as int,
            max_len as int,
            mode,
            strip_set@,
            max_null_ratio,
            remove_subs,
            views(tokens@),
            absolute as int,
            sa@,
            lcp@,
            cands_view,
            cleaned_view,
        ));
        assert(discovery_complete(
            cvs,
            min_len as int,
            max_len as int,
            mode,
            strip_set@,
            max_null_ratio,
            remove_subs,
            views(tokens@),
            absolute as int,
        ));
        assert forall|j: int| 0 <= j < tokens@.len() implies token_selected(
            cvs,
            #[trigger] views(tokens@)[j],
            min_len as int,
            max_len as int,
            absolute as int,
        ) by {
            assert(supported_by(cleaned_view, views(tokens@)[j], absolute as int));
            let w = choose|w: int|
                0 <= w < cleaned_view.len() && (#[trigger] cleaned_view[w]).bytes@ == views(
                    tokens@,
                )[j] && cleaned_view[w].support as int >= absolute as int;
            assert(cleaned_ok(cvs, cleaned_view[w], min_len as int, max_len as int));
            assert(candidate_sound(cvs, views(tokens@)[j], cleaned_view[w].support as int));
        }
    }
    Some(TokenDiscoveryResult { tokens, threshold_absolute: absolute, corpus_size: corpus.len() })
}

/// Builds the member list of a freshly opened group: the inherited members
/// plus the two adjacent suffixes, each counted only when its occurrence
/// stays within one corpus entry.
fn new_group_members(
    carry: Vec<(usize, usize)>,
    origin: &Vec<usize>,
    prev_pos: usize,
    cur_pos: usize,
    level: usize,
    Ghost(text): Ghost<Seq<u8>>,
    Ghost(corpus): Ghost<Seq<Seq<u8>>>,
    Ghost(pc): Ghost<int>,
    Ghost(carry_lvl): Ghost<int>,
) -> (r: Vec<(usize, usize)>)
    requires
        concat_wf(text, origin@, corpus),
        distinct_ids(carry@),
        carry_lvl >= level as int,
        level >= 1,
        prev_pos + level <= origin.len(),
        cur_pos + level <= origin.len(),
        prev_pos as int == pc,
        common_prefix_len(text, pc, cur_pos as int, level as int),
        forall|m: int|
            0 <= m < carry@.len() ==> member_ok(
                text,
                corpus,
                carry_lvl,
                pc,
                (#[trigger] carry@[m]).0 as int,
                carry@[m].1 as int,
            ),
    ensures
        distinct_ids(r@),
        forall|m: int|
            0 <= m < r@.len() ==> member_ok(
                text,
                corpus,
                level as int,
                pc,
                (#[trigger] r@[m]).0 as int,
                r@[m].1 as int,
            ),
        forall|id: int|
            #[trigger] covers(corpus, id, prev_pos as int, level as int) ==> exists|m: int|
                0 <= m < r@.len() && (#[trigger] r@[m]).0 as int == id,
        forall|id: int|
            #[trigger] covers(corpus, id, cur_pos as int, level as int) ==> exists|m: int|
                0 <= m < r@.len() && (#[trigger] r@[m]).0 as int == id,
{
    let mut members = carry;
    proof {
        assert forall|m: int|
            0 <= m < members@.len() implies member_ok(
            text,
            corpus,
            level as int,
            pc,
            (#[trigger] members@[m]).0 as int,
            members@[m].1 as int,
        ) by {
            lemma_member_ok_weaken(
                text,
                corpus,
                carry_lvl,
                level as int,
                pc,
                members@[m].0 as int,
                members@[m].1 as int,
            );
        }
    }
    let rp = check_member(origin, prev_pos, level, Ghost(text), Ghost(corpus));
    match rp {
        Some(mid) => {
            let ghost pre = members@;
            insert_member(&mut members, mid, prev_pos);
            proof {
                assert(member_ok(text, corpus, level as int, pc, mid as int, prev_pos as int));
                lemma_insert_ok(
                    pre,
                    members@,
                    text,
                    corpus,
                    level as int,
                    pc,
                    mid as int,
                    prev_pos as int,
                );
            }
        },
        None => {},
    }
    let ghost after_prev = members@;
    let rc = check_member(origin, cur_pos, level, Ghost(text), Ghost(corpus));
    match rc {
        Some(mid) => {
            let ghost pre = members@;
            insert_member(&mut members, mid, cur_pos);
            proof {
                assert(member_ok(text, corpus, level as int, pc, mid as int, cur_pos as int));
                lemma_insert_ok(
                    pre,
                    members@,
                    text,
                    corpus,
                    level as int,
                    pc,
                    mid as int,
                    cur_pos as int,
                );
            }
        },
        None => {},
    }
    proof {
        assert forall|m: int| 0 <= m < after_prev.len() implies members@[m] == after_prev[m] by {}
        assert forall|id: int|
            #[trigger] covers(corpus, id, prev_pos as int, level as int) implies exists|m: int|
            0 <= m < members@.len() && (#[trigger] members@[m]).0 as int == id by {
            assert(rp == Some(id as usize));
            let m = choose|m: int|
                0 <= m < after_prev.len() && (#[trigger] after_prev[m]).0 == id as usize;
            assert(members@[m].0 as int == id);
        }
        assert forall|id: int|
            #[trigger] covers(corpus, id, cur_pos as int, level as int) implies exists|m: int|
            0 <= m < members@.len() && (#[trigger] members@[m]).0 as int == id by {
            assert(rc == Some(id as usize));
            let m = choose|m: int|
                0 <= m < members@.len() && (#[trigger] members@[m]).0 == id as usize;
            assert(members@[m].0 as int == id);
        }
    }
    members
}

} // verus!
