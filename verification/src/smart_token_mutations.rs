//! The token dictionary and the two token-aware mutation operators.
//!
//! `SmartTokens` is a bounded, deduplicated store of byte tokens with
//! per-token usage statistics. When full, an insertion evicts the
//! non-protected entry with the lowest success rate; the entry referenced by
//! an in-flight mutation is protected and is never overwritten.

use crate::bytes::clone_bytes;
use crate::bytes::bytes_eq;
use crate::rands::rand_below;
use crate::ratio::frac_lt_frac;
use crate::ratio::frac_lt_frac_exec;
use libafl_bolts::rands::RomuDuoJrRand;
use vstd::prelude::*;

verus! {

/// Usage statistics of one dictionary entry.
#[derive(Debug, Clone, Copy, PartialEq, Eq, Structural)]
pub struct TokenStat {
    pub uses: u64,
    pub successes: u64,
}

impl Default for TokenStat {
    /// A fresh entry starts at one use and one success, so its rate is
    /// defined (and maximal) on first observation.
    fn default() -> (r: Self)
        ensures
            r.uses == 1,
            r.successes == 1,
    {
        TokenStat { uses: 1, successes: 1 }
    }
}

/// `x + 1`, capped at the integer's maximum.
pub open spec fn sat_inc(x: u64) -> u64 {
    if x == u64::MAX {
        x
    } else {
        (x + 1) as u64
    }
}

/// Outcome of one mutation attempt.
#[derive(Debug, Clone, Copy, PartialEq, Eq, Structural)]
pub enum MutationResult {
    Mutated,
    Skipped,
}

/// The two dictionaries agree on every observable part.
pub open spec fn dict_eq(a: SmartTokens, b: SmartTokens) -> bool {
    &&& a.tokens_seq() == b.tokens_seq()
    &&& a.stats_seq() == b.stats_seq()
    &&& a.capacity_spec() == b.capacity_spec()
    &&& a.protected() == b.protected()
}

/// Entry `idx` of `pre` — the first non-protected used entry with the lowest
/// success rate — was overwritten in place by `t`, its stats reset.
pub open spec fn evicted_to(pre: SmartTokens, post: SmartTokens, t: Seq<u8>, idx: int) -> bool {
    &&& pre.evictable(idx)
    &&& forall|j: int| pre.evictable(j) ==> !pre.rate_lt(j, idx)
    &&& forall|j: int| pre.evictable(j) && j < idx ==> pre.rate_lt(idx, j)
    &&& post.tokens_seq() == pre.tokens_seq().update(idx, t)
    &&& post.stats_seq() == pre.stats_seq().update(idx, TokenStat { uses: 1, successes: 1 })
}

/// `post` is the outcome of offering `t` to `pre` once: a duplicate changes
/// nothing, under capacity the token is appended, at capacity the worst entry
/// is evicted or, when nothing is evictable, the token is rejected.
pub open spec fn add_token_rel(pre: SmartTokens, post: SmartTokens, t: Seq<u8>) -> bool {
    &&& post.capacity_spec() == pre.capacity_spec()
    &&& post.protected() == pre.protected()
    &&& (pre.tokens_seq().contains(t) ==> dict_eq(pre, post))
    &&& (!pre.tokens_seq().contains(t) && pre.tokens_seq().len() < pre.capacity_spec()
        ==> post.tokens_seq() == pre.tokens_seq().push(t) && post.stats_seq()
        == pre.stats_seq().push(TokenStat { uses: 1, successes: 1 }))
    &&& (!pre.tokens_seq().contains(t) && pre.tokens_seq().len() >= pre.capacity_spec() ==> (
    dict_eq(pre, post) && (forall|j: int| !pre.evictable(j))) || (exists|idx: int|
        #[trigger] evicted_to(pre, post, t, idx)))
}

/// The listed chain of dictionary states starts at `pre`, ends at `post`,
/// and advances by offering one listed token per step.
pub open spec fn adds_chain(
    pre: SmartTokens,
    post: SmartTokens,
    toks: Seq<Seq<u8>>,
    chain: Seq<SmartTokens>,
) -> bool {
    &&& chain.len() == toks.len() + 1
    &&& dict_eq(pre, chain[0])
    &&& dict_eq(chain[chain.len() - 1], post)
    &&& forall|k: int|
        0 <= k < toks.len() ==> add_token_rel(chain[k], chain[k + 1], #[trigger] toks[k])
}

/// The dictionary after offering every listed token, in order, one
/// `add_token` each.
pub open spec fn adds_all_rel(pre: SmartTokens, post: SmartTokens, toks: Seq<Seq<u8>>) -> bool {
    exists|chain: Seq<SmartTokens>| #[trigger] adds_chain(pre, post, toks, chain)
}

/// The capacity used by `SmartTokens::new`.
pub const DEFAULT_MAX_TOKENS: usize = 100;

/// Bounded, deduplicated token dictionary with success statistics.
#[derive(Debug, Clone)]
pub struct SmartTokens {
    tokens_vec: Vec<Vec<u8>>,
    stats: Vec<TokenStat>,
    max_tokens: usize,
    protected_idx: Option<usize>,
}

impl SmartTokens {
    /// The stored tokens, in storage order.
    pub closed spec fn tokens_seq(self) -> Seq<Seq<u8>> {
        self.tokens_vec@.map_values(|t: Vec<u8>| t@)
    }

    /// The statistics, index-aligned with the tokens.
    pub closed spec fn stats_seq(self) -> Seq<TokenStat> {
        self.stats@
    }

    /// The capacity bound.
    pub closed spec fn capacity_spec(self) -> int {
        self.max_tokens as int
    }

    /// The currently protected index, if any.
    pub closed spec fn protected(self) -> Option<usize> {
        self.protected_idx
    }

    /// Dictionary invariant: stats are index-aligned, the capacity bound
    /// holds, and no token is stored twice.
    pub open spec fn wf(self) -> bool {
        &&& self.stats_seq().len() == self.tokens_seq().len()
        &&& self.tokens_seq().len() <= self.capacity_spec()
        &&& forall|i: int, j: int|
            0 <= i < j < self.tokens_seq().len() ==> self.tokens_seq()[i] != self.tokens_seq()[j]
    }

    /// Entry `j` may be evicted: it exists, is not protected, and has been
    /// used.
    pub open spec fn evictable(self, j: int) -> bool {
        &&& 0 <= j < self.stats_seq().len()
        &&& self.protected() != Some(j as usize)
        &&& self.stats_seq()[j].uses > 0
    }

    /// The success rate of entry `i` is below that of entry `j`.
    pub open spec fn rate_lt(self, i: int, j: int) -> bool {
        frac_lt_frac(
            self.stats_seq()[i].successes as int,
            self.stats_seq()[i].uses as int,
            self.stats_seq()[j].successes as int,
            self.stats_seq()[j].uses as int,
        )
    }

    /// Creates a dictionary with the default capacity.
    pub fn new() -> (r: Self)
        ensures
            r.wf(),
            r.tokens_seq().len() == 0,
            r.capacity_spec() == DEFAULT_MAX_TOKENS,
            r.protected() is None,
    {
        Self::with_capacity(DEFAULT_MAX_TOKENS)
    }

    /// Creates a dictionary bounded by `max_tokens` entries.
    pub fn with_capacity(max_tokens: usize) -> (r: Self)
        ensures
            r.wf(),
            r.tokens_seq().len() == 0,
            r.capacity_spec() == max_tokens,
            r.protected() is None,
    {
        let r = SmartTokens {
            tokens_vec: Vec::new(),
            stats: Vec::new(),
            max_tokens,
            protected_idx: None,
        };
        proof {
            assert(r.tokens_seq() =~= Seq::<Seq<u8>>::empty());
        }
        r
    }

    /// Marks `idx` as in use, shielding it from eviction.
    pub fn protect_index(&mut self, idx: usize)
        ensures
            final(self).protected() == Some(idx),
            final(self).tokens_seq() == old(self).tokens_seq(),
            final(self).stats_seq() == old(self).stats_seq(),
            final(self).capacity_spec() == old(self).capacity_spec(),
            old(self).wf() ==> final(self).wf(),
    {
        self.protected_idx = Some(idx);
    }

    /// Clears the protected index.
    pub fn unprotect(&mut self)
        ensures
            final(self).protected() is None,
            final(self).tokens_seq() == old(self).tokens_seq(),
            final(self).stats_seq() == old(self).stats_seq(),
            final(self).capacity_spec() == old(self).capacity_spec(),
            old(self).wf() ==> final(self).wf(),
    {
        self.protected_idx = None;
    }

    /// Number of stored tokens.
    pub fn len(&self) -> (r: usize)
        ensures
            r == self.tokens_seq().len(),
    {
        self.tokens_vec.len()
    }

    /// The stored tokens, in storage order.
    pub fn tokens(&self) -> (r: &Vec<Vec<u8>>)
        ensures
            r@.map_values(|t: Vec<u8>| t@) == self.tokens_seq(),
    {
        &self.tokens_vec
    }

    /// Storage-order access to the tokens; the counterpart of `tokens` for
    /// callers that walk the dictionary.
    pub fn iter(&self) -> (r: &Vec<Vec<u8>>)
        ensures
            r@.map_values(|t: Vec<u8>| t@) == self.tokens_seq(),
    {
        &self.tokens_vec
    }

    /// The token stored at `idx`.
    pub fn token_at(&self, idx: usize) -> (r: &Vec<u8>)
        requires
            idx < self.tokens_seq().len(),
        ensures
            r@ == self.tokens_seq()[idx as int],
    {
        &self.tokens_vec[idx]
    }

    /// Whether `token` is already stored.
    fn contains_token(&self, token: &Vec<u8>) -> (r: bool)
        ensures
            r == self.tokens_seq().contains(token@),
    {
        let mut i: usize = 0;
        while i < self.tokens_vec.len()
            invariant
                i <= self.tokens_seq().len(),
                forall|j: int| 0 <= j < i ==> self.tokens_seq()[j] != token@,
            decreases self.tokens_vec.len() - i,
        {
            if bytes_eq(&self.tokens_vec[i], token) {
                proof {
                    assert(self.tokens_seq().contains(token@)) by {
                        assert(self.tokens_seq()[i as int] == token@);
                    }
                }
                return true;
            }
            i += 1;
        }
        false
    }

    /// The first non-protected used entry with the lowest success rate, or
    /// nothing when no entry can be evicted.
    fn find_eviction_index(&self) -> (r: Option<usize>)
        ensures
            r is None ==> forall|j: int| !self.evictable(j),
            r matches Some(b) ==> {
                &&& self.evictable(b as int)
                &&& forall|j: int| self.evictable(j) ==> !self.rate_lt(j, b as int)
                &&& forall|j: int| self.evictable(j) && j < b as int ==> self.rate_lt(b as int, j)
            },
    {
        let mut best: Option<usize> = None;
        let mut i: usize = 0;
        while i < self.stats.len()
            invariant
                i <= self.stats_seq().len(),
                best is None ==> forall|j: int| j < i ==> !self.evictable(j),
                best matches Some(b) ==> {
                    &&& self.evictable(b as int)
                    &&& (b as int) < i
                    &&& forall|j: int| self.evictable(j) && j < i ==> !self.rate_lt(j, b as int)
                    &&& forall|j: int| self.evictable(j) && j < b as int ==> self.rate_lt(b as int, j)
                },
            decreases self.stats.len() - i,
        {
            let is_protected = match self.protected_idx {
                Some(p) => p == i,
                None => false,
            };
            if !is_protected && self.stats[i].uses > 0 {
                match best {
                    None => {
                        best = Some(i);
                    },
                    Some(b) => {
                        if frac_lt_frac_exec(
                            self.stats[i].successes,
                            self.stats[i].uses,
                            self.stats[b].successes,
                            self.stats[b].uses,
                        ) {
                            proof {
                                let bi = b as int;
                                let ii = i as int;
                                let s = self.stats_seq();
                                assert forall|j: int|
                                    self.evictable(j) && j < ii implies !self.rate_lt(
                                    j,
                                    ii,
                                ) by {
                                    if self.rate_lt(j, ii) {
                                        crate::ratio::lemma_frac_lt_lt_trans(
                                            s[j].successes as int,
                                            s[j].uses as int,
                                            s[ii].successes as int,
                                            s[ii].uses as int,
                                            s[bi].successes as int,
                                            s[bi].uses as int,
                                        );
                                    }
                                };
                                assert forall|j: int|
                                    self.evictable(j) && j < ii implies self.rate_lt(ii, j) by {
                                    if j < bi {
                                        crate::ratio::lemma_frac_lt_lt_trans(
                                            s[ii].successes as int,
                                            s[ii].uses as int,
                                            s[bi].successes as int,
                                            s[bi].uses as int,
                                            s[j].successes as int,
                                            s[j].uses as int,
                                        );
                                    } else {
                                        crate::ratio::lemma_frac_lt_le_trans(
                                            s[ii].successes as int,
                                            s[ii].uses as int,
                                            s[bi].successes as int,
                                            s[bi].uses as int,
                                            s[j].successes as int,
                                            s[j].uses as int,
                                        );
                                    }
                                };
                            }
                            best = Some(i);
                        }
                    },
                }
            }
            i += 1;
        }
        best
    }

    /// Adds `token` unless it is already present. Under capacity the token is
    /// appended; at capacity the worst non-protected used entry is replaced in
    /// place; when nothing can be evicted the token is rejected. The protected
    /// entry is never overwritten.
    pub fn add_token(&mut self, token: &Vec<u8>) -> (r: Option<usize>)
        requires
            old(self).wf(),
        ensures
            final(self).wf(),
            final(self).capacity_spec() == old(self).capacity_spec(),
            final(self).protected() == old(self).protected(),
            final(self).tokens_seq().len() <= final(self).capacity_spec(),
            old(self).tokens_seq().contains(token@) ==> r is None && *final(self) == *old(self),
            r is None ==> *final(self) == *old(self),
            r is None ==> old(self).tokens_seq().contains(token@) || (
            old(self).tokens_seq().len() == old(self).capacity_spec() && forall|j: int|
                !old(self).evictable(j)),
            r matches Some(idx) ==> {
                &&& !old(self).tokens_seq().contains(token@)
                &&& idx < final(self).tokens_seq().len()
                &&& final(self).tokens_seq()[idx as int] == token@
                &&& final(self).stats_seq()[idx as int] == (TokenStat { uses: 1, successes: 1 })
            },
            r matches Some(idx) ==> (old(self).tokens_seq().len() < old(self).capacity_spec() ==> {
                &&& idx == old(self).tokens_seq().len()
                &&& final(self).tokens_seq() == old(self).tokens_seq().push(token@)
                &&& final(self).stats_seq() == old(self).stats_seq().push(
                    TokenStat { uses: 1, successes: 1 },
                )
            }),
            r matches Some(idx) ==> (old(self).tokens_seq().len() >= old(self).capacity_spec() ==> {
                &&& old(self).evictable(idx as int)
                &&& forall|j: int| old(self).evictable(j) ==> !old(self).rate_lt(j, idx as int)
                &&& forall|j: int|
                    old(self).evictable(j) && j < idx as int ==> old(self).rate_lt(idx as int, j)
                &&& final(self).tokens_seq() == old(self).tokens_seq().update(idx as int, token@)
                &&& final(self).stats_seq() == old(self).stats_seq().update(
                    idx as int,
                    TokenStat { uses: 1, successes: 1 },
                )
            }),
            old(self).protected() matches Some(p) ==> (p < old(self).tokens_seq().len()
                ==> final(self).tokens_seq()[p as int] == old(self).tokens_seq()[p as int]),
            add_token_rel(*old(self), *final(self), token@),
    {
        if self.contains_token(token) {
            return None;
        }
        if self.tokens_vec.len() < self.max_tokens {
            let ghost old_tokens = self.tokens_seq();
            self.tokens_vec.push(clone_bytes(token));
            self.stats.push(TokenStat { uses: 1, successes: 1 });
            proof {
                assert(self.tokens_seq() =~= old_tokens.push(token@));
            }
            Some(self.tokens_vec.len() - 1)
        } else {
            match self.find_eviction_index() {
                Some(idx) => {
                    let ghost old_tokens = self.tokens_seq();
                    self.tokens_vec.set(idx, clone_bytes(token));
                    self.stats.set(idx, TokenStat { uses: 1, successes: 1 });
                    proof {
                        assert(self.tokens_seq() =~= old_tokens.update(idx as int, token@));
                        assert(evicted_to(*old(self), *self, token@, idx as int));
                    }
                    Some(idx)
                },
                None => None,
            }
        }
    }

    /// Bulk add: each token is offered once, in order; duplicates are no-ops.
    pub fn add_tokens(&mut self, tokens: &Vec<Vec<u8>>)
        requires
            old(self).wf(),
        ensures
            final(self).wf(),
            final(self).capacity_spec() == old(self).capacity_spec(),
            final(self).protected() == old(self).protected(),
            final(self).tokens_seq().len() <= final(self).capacity_spec(),
            old(self).protected() matches Some(p) ==> (p < old(self).tokens_seq().len()
                ==> final(self).tokens_seq()[p as int] == old(self).tokens_seq()[p as int]),
            adds_all_rel(*old(self), *final(self), crate::processors::views(tokens@)),
    {
        let ghost prot = self.protected();
        let ghost tvs = crate::processors::views(tokens@);
        let ghost mut chain: Seq<SmartTokens> = seq![*self];
        let mut i: usize = 0;
        while i < tokens.len()
            invariant
                self.wf(),
                self.capacity_spec() == old(self).capacity_spec(),
                self.protected() == old(self).protected(),
                prot == old(self).protected(),
                tvs == crate::processors::views(tokens@),
                i <= tokens.len(),
                chain.len() == i + 1,
                chain[0] == *old(self),
                chain[i as int] == *self,
                forall|k: int|
                    0 <= k < i ==> add_token_rel(chain[k], chain[k + 1], #[trigger] tvs[k]),
                old(self).protected() matches Some(p) ==> (p < old(self).tokens_seq().len()
                    ==> p < self.tokens_seq().len() && self.tokens_seq()[p as int] == old(self).tokens_seq()[p as int]),
                old(self).tokens_seq().len() <= self.tokens_seq().len(),
            decreases tokens.len() - i,
        {
            let _ = self.add_token(&tokens[i]);
            proof {
                chain = chain.push(*self);
                assert(chain[i as int] == chain.drop_last()[i as int]);
                assert(add_token_rel(chain[i as int], chain[i + 1], tvs[i as int]));
            }
            i += 1;
        }
        proof {
            assert(tvs.subrange(0, tvs.len() as int) =~= tvs);
            assert(chain.len() == tvs.len() + 1);
            assert(adds_chain(*old(self), *self, tvs, chain));
            assert(adds_all_rel(*old(self), *self, tvs));
        }
    }

    /// Records one use of entry `idx` (a no-op out of range); `success` also
    /// bumps the success count.
    pub fn update_stats(&mut self, idx: usize, success: bool)
        ensures
            final(self).tokens_seq() == old(self).tokens_seq(),
            final(self).capacity_spec() == old(self).capacity_spec(),
            final(self).protected() == old(self).protected(),
            old(self).wf() ==> final(self).wf(),
            idx >= old(self).stats_seq().len() ==> final(self).stats_seq() == old(self).stats_seq(),
            idx < old(self).stats_seq().len() ==> final(self).stats_seq() == old(self).stats_seq().update(
                idx as int,
                TokenStat {
                    uses: sat_inc(old(self).stats_seq()[idx as int].uses),
                    successes: if success {
                        sat_inc(old(self).stats_seq()[idx as int].successes)
                    } else {
                        old(self).stats_seq()[idx as int].successes
                    },
                },
            ),
    {
        if idx < self.stats.len() {
            let st = self.stats[idx];
            let new_uses = if st.uses < u64::MAX {
                st.uses + 1
            } else {
                st.uses
            };
            let new_successes = if success {
                if st.successes < u64::MAX {
                    st.successes + 1
                } else {
                    st.successes
                }
            } else {
                st.successes
            };
            self.stats.set(idx, TokenStat { uses: new_uses, successes: new_successes });
        }
    }
}

impl Default for SmartTokens {
    /// A dictionary with the default capacity.
    fn default() -> (r: Self)
        ensures
            r.wf(),
            r.tokens_seq().len() == 0,
            r.capacity_spec() == DEFAULT_MAX_TOKENS,
            r.protected() is None,
    {
        SmartTokens::new()
    }
}

/// Tracks which dictionary entry an in-flight mutation used, so that its
/// statistics can be settled after the execution.
#[derive(Debug)]
pub struct SmartToken {
    last_token_idx: Option<usize>,
}

impl SmartToken {
    /// The index recorded by the last mutation, if its post-execution hook has
    /// not run yet.
    pub closed spec fn last_idx(self) -> Option<usize> {
        self.last_token_idx
    }

    pub fn new() -> (r: Self)
        ensures
            r.last_idx() is None,
    {
        SmartToken { last_token_idx: None }
    }

    /// Remembers that entry `idx` was just written into the input and shields
    /// it from eviction until the execution result is known.
    pub fn record_token_use(&mut self, idx: usize, tokens: &mut SmartTokens)
        ensures
            final(self).last_idx() == Some(idx),
            final(tokens).protected() == Some(idx),
            final(tokens).tokens_seq() == old(tokens).tokens_seq(),
            final(tokens).stats_seq() == old(tokens).stats_seq(),
            final(tokens).capacity_spec() == old(tokens).capacity_spec(),
            old(tokens).wf() ==> final(tokens).wf(),
    {
        tokens.protect_index(idx);
        self.last_token_idx = Some(idx);
    }

    /// Settles the last recorded use: lifts the protection and records one
    /// use of the entry, successful iff the execution produced a new corpus
    /// entry.
    pub fn post_exec(&mut self, tokens: &mut SmartTokens, success: bool)
        ensures
            final(self).last_idx() is None,
            final(tokens).tokens_seq() == old(tokens).tokens_seq(),
            final(tokens).capacity_spec() == old(tokens).capacity_spec(),
            old(tokens).wf() ==> final(tokens).wf(),
            old(self).last_idx() is None ==> *final(tokens) == *old(tokens) && *final(self)
                == *old(self),
            old(self).last_idx() matches Some(idx) ==> {
                &&& final(tokens).protected() is None
                &&& (idx < old(tokens).stats_seq().len() ==> final(tokens).stats_seq() == old(tokens).stats_seq().update(
                    idx as int,
                    TokenStat {
                        uses: sat_inc(old(tokens).stats_seq()[idx as int].uses),
                        successes: if success {
                            sat_inc(old(tokens).stats_seq()[idx as int].successes)
                        } else {
                            old(tokens).stats_seq()[idx as int].successes
                        },
                    },
                ))
                &&& (idx >= old(tokens).stats_seq().len() ==> final(tokens).stats_seq() == old(tokens).stats_seq())
            },
    {
        match self.last_token_idx {
            Some(idx) => {
                tokens.unprotect();
                tokens.update_stats(idx, success);
                self.last_token_idx = None;
            },
            None => {},
        }
    }
}

/// The input after inserting the first `len` bytes of `token` at `off`.
pub open spec fn insert_spliced(input: Seq<u8>, token: Seq<u8>, off: int, len: int) -> Seq<u8> {
    input.subrange(0, off) + token.subrange(0, len) + input.subrange(off, input.len() as int)
}

/// The input after overwriting `len` bytes at `off` with the start of `token`.
pub open spec fn replace_spliced(input: Seq<u8>, token: Seq<u8>, off: int, len: int) -> Seq<u8> {
    input.subrange(0, off) + token.subrange(0, len) + input.subrange(
        off + len,
        input.len() as int,
    )
}

/// The number of token bytes an insertion may add: the whole token, truncated
/// to what fits below `max_size`.
pub open spec fn insert_len_spec(token_len: int, size: int, max_size: int) -> int {
    if size + token_len <= max_size {
        token_len
    } else {
        max_size - size
    }
}

/// `new_input` is `old_input` with `token` inserted at `off`, truncated to
/// respect `max_size`.
pub open spec fn insert_applies(
    old_input: Seq<u8>,
    token: Seq<u8>,
    new_input: Seq<u8>,
    off: int,
    max_size: int,
) -> bool {
    &&& 0 <= off <= old_input.len()
    &&& new_input == insert_spliced(
        old_input,
        token,
        off,
        insert_len_spec(token.len() as int, old_input.len() as int, max_size),
    )
}

/// `new_input` is `old_input` with its bytes from `off` overwritten by
/// `token`, truncated at the end of the input.
pub open spec fn replace_applies(
    old_input: Seq<u8>,
    token: Seq<u8>,
    new_input: Seq<u8>,
    off: int,
) -> bool {
    &&& 0 <= off < old_input.len()
    &&& new_input == replace_spliced(
        old_input,
        token,
        off,
        if token.len() as int <= old_input.len() - off {
            token.len() as int
        } else {
            old_input.len() - off
        },
    )
}

/// Shifts `input[off..]` right and copies the first `len` bytes of `token`
/// into the gap.
fn splice_insert(input: &mut Vec<u8>, token: &Vec<u8>, off: usize, len: usize)
    requires
        off <= old(input).len(),
        len <= token.len(),
        old(input).len() + len <= usize::MAX,
    ensures
        final(input)@ == insert_spliced(old(input)@, token@, off as int, len as int),
{
    let mut out: Vec<u8> = Vec::new();
    let mut i: usize = 0;
    while i < off
        invariant
            i <= off,
            off <= input.len(),
            out@ == input@.subrange(0, i as int),
        decreases off - i,
    {
        out.push(input[i]);
        i += 1;
    }
    let mut j: usize = 0;
    while j < len
        invariant
            j <= len,
            len <= token.len(),
            off <= input.len(),
            out@ == input@.subrange(0, off as int) + token@.subrange(0, j as int),
        decreases len - j,
    {
        out.push(token[j]);
        proof {
            assert(out@ =~= input@.subrange(0, off as int) + token@.subrange(0, j + 1));
        }
        j += 1;
    }
    let mut k: usize = off;
    while k < input.len()
        invariant
            off <= k <= input.len(),
            len <= token.len(),
            out@ == input@.subrange(0, off as int) + token@.subrange(0, len as int)
                + input@.subrange(off as int, k as int),
        decreases input.len() - k,
    {
        out.push(input[k]);
        proof {
            assert(out@ =~= input@.subrange(0, off as int) + token@.subrange(0, len as int)
                + input@.subrange(off as int, k + 1));
        }
        k += 1;
    }
    *input = out;
}

/// Overwrites `input[off..off + len]` with the first `len` bytes of `token`.
fn splice_replace(input: &mut Vec<u8>, token: &Vec<u8>, off: usize, len: usize)
    requires
        off + len <= old(input).len(),
        len <= token.len(),
    ensures
        final(input)@ == replace_spliced(old(input)@, token@, off as int, len as int),
        final(input).len() == old(input).len(),
{
    let mut j: usize = 0;
    while j < len
        invariant
            j <= len,
            len <= token.len(),
            off + len <= input.len(),
            input.len() == old(input).len(),
            input@ == old(input)@.map(
                |p: int, b: u8|
                    if off <= p < off + j {
                        token@[p - off]
                    } else {
                        b
                    },
            ),
        decreases len - j,
    {
        let ghost prev = input@;
        input.set(off + j, token[j]);
        proof {
            assert(input@ =~= old(input)@.map(
                |p: int, b: u8|
                    if off <= p < off + j + 1 {
                        token@[p - off]
                    } else {
                        b
                    },
            ));
        }
        j += 1;
    }
    proof {
        assert(input@ =~= replace_spliced(old(input)@, token@, off as int, len as int));
    }
}

/// Inserts a random token at a random position of the input, shifting the
/// tail right; the token is truncated to respect `max_size`.
#[derive(Debug)]
pub struct SmartTokenInsert {
    smart_token: SmartToken,
}

impl SmartTokenInsert {
    pub fn new() -> (r: Self)
        ensures
            r.smart_token_state().last_idx() is None,
    {
        SmartTokenInsert { smart_token: SmartToken::new() }
    }

    /// The embedded per-mutation bookkeeping.
    pub closed spec fn smart_token_state(self) -> SmartToken {
        self.smart_token
    }

    /// One insertion round. Skips when the dictionary is empty or the input
    /// has no room left; otherwise splices a random token at a random offset
    /// and protects its dictionary entry until `post_exec`.
    pub fn mutate(
        &mut self,
        rand: &mut libafl_bolts::rands::RomuDuoJrRand,
        tokens: &mut SmartTokens,
        input: &mut Vec<u8>,
        max_size: usize,
    ) -> (r: MutationResult)
        requires
            old(tokens).wf(),
            old(input).len() < usize::MAX,
        ensures
            final(tokens).wf(),
            final(tokens).tokens_seq() == old(tokens).tokens_seq(),
            final(tokens).stats_seq() == old(tokens).stats_seq(),
            final(tokens).capacity_spec() == old(tokens).capacity_spec(),
            r == MutationResult::Skipped ==> final(input)@ == old(input)@ && final(tokens).protected() == old(tokens).protected(),
            r == MutationResult::Skipped ==> old(tokens).tokens_seq().len() == 0 || old(input).len() >= max_size || (exists|idx: int|
                0 <= idx < old(tokens).tokens_seq().len() && (#[trigger] old(
                    tokens,
                ).tokens_seq()[idx]).len() == 0),
            old(tokens).tokens_seq().len() > 0 && old(input).len() < max_size && (forall|idx: int|
                0 <= idx < old(tokens).tokens_seq().len() ==> (#[trigger] old(
                    tokens,
                ).tokens_seq()[idx]).len() > 0) ==> r == MutationResult::Mutated,
            r == MutationResult::Mutated ==> exists|idx: int, off: int|
                {
                    &&& 0 <= idx < old(tokens).tokens_seq().len()
                    &&& old(tokens).tokens_seq()[idx].len() > 0
                    &&& #[trigger] insert_applies(
                        old(input)@,
                        old(tokens).tokens_seq()[idx],
                        final(input)@,
                        off,
                        max_size as int,
                    )
                    &&& final(tokens).protected() == Some(idx as usize)
                    &&& final(self).smart_token_state().last_idx() == Some(idx as usize)
                },
    {
        let size = input.len();
        let tokens_len = tokens.len();
        if tokens_len == 0 {
            return MutationResult::Skipped;
        }
        let token_idx = rand_below(rand, tokens_len);
        let off = rand_below(rand, size + 1);
        let token = clone_bytes(tokens.token_at(token_idx));
        let tlen = token.len();
        if tlen == 0 {
            proof {
                assert((old(tokens).tokens_seq()[token_idx as int]).len() == 0);
            }
            return MutationResult::Skipped;
        }
        if size >= max_size {
            return MutationResult::Skipped;
        }
        let len: usize = if tlen > max_size - size {
            max_size - size
        } else {
            tlen
        };
        splice_insert(input, &token, off, len);
        self.smart_token.record_token_use(token_idx, tokens);
        proof {
            assert(len as int == insert_len_spec(
                old(tokens).tokens_seq()[token_idx as int].len() as int,
                old(input)@.len() as int,
                max_size as int,
            ));
            assert(insert_applies(
                old(input)@,
                old(tokens).tokens_seq()[token_idx as int],
                input@,
                off as int,
                max_size as int,
            ));
        }
        MutationResult::Mutated
    }

    /// Settles the statistics of the last inserted token.
    pub fn post_exec(&mut self, tokens: &mut SmartTokens, success: bool)
        ensures
            final(self).smart_token_state().last_idx() is None,
            final(tokens).tokens_seq() == old(tokens).tokens_seq(),
            final(tokens).capacity_spec() == old(tokens).capacity_spec(),
            old(tokens).wf() ==> final(tokens).wf(),
            old(self).smart_token_state().last_idx() is Some ==> final(tokens).protected() is None,
    {
        self.smart_token.post_exec(tokens, success);
    }
}

/// Overwrites a random part of the input with a random token.
#[derive(Debug)]
pub struct SmartTokenReplace {
    smart_token: SmartToken,
}

impl SmartTokenReplace {
    pub fn new() -> (r: Self)
        ensures
            r.smart_token_state().last_idx() is None,
    {
        SmartTokenReplace { smart_token: SmartToken::new() }
    }

    /// The embedded per-mutation bookkeeping.
    pub closed spec fn smart_token_state(self) -> SmartToken {
        self.smart_token
    }

    /// One replacement round. Skips exactly when the input or the dictionary
    /// is empty; otherwise overwrites a random range with a random token,
    /// truncated at the end of the input, and protects the entry.
    pub fn mutate(
        &mut self,
        rand: &mut libafl_bolts::rands::RomuDuoJrRand,
        tokens: &mut SmartTokens,
        input: &mut Vec<u8>,
    ) -> (r: MutationResult)
        requires
            old(tokens).wf(),
        ensures
            final(tokens).wf(),
            final(tokens).tokens_seq() == old(tokens).tokens_seq(),
            final(tokens).stats_seq() == old(tokens).stats_seq(),
            final(tokens).capacity_spec() == old(tokens).capacity_spec(),
            final(input).len() == old(input).len(),
            (r == MutationResult::Skipped) <==> (old(input).len() == 0 || old(tokens).tokens_seq().len() == 0),
            r == MutationResult::Skipped ==> final(input)@ == old(input)@ && final(tokens).protected() == old(tokens).protected(),
            r == MutationResult::Mutated ==> exists|idx: int, off: int|
                {
                    &&& 0 <= idx < old(tokens).tokens_seq().len()
                    &&& #[trigger] replace_applies(
                        old(input)@,
                        old(tokens).tokens_seq()[idx],
                        final(input)@,
                        off,
                    )
                    &&& final(tokens).protected() == Some(idx as usize)
                    &&& final(self).smart_token_state().last_idx() == Some(idx as usize)
                },
    {
        let size = input.len();
        if size == 0 {
            return MutationResult::Skipped;
        }
        let tokens_len = tokens.len();
        if tokens_len == 0 {
            return MutationResult::Skipped;
        }
        let off = rand_below(rand, size);
        let token_idx = rand_below(rand, tokens_len);
        let token = clone_bytes(tokens.token_at(token_idx));
        let tlen = token.len();
        let len: usize = if tlen <= size - off {
            tlen
        } else {
            size - off
        };
        splice_replace(input, &token, off, len);
        self.smart_token.record_token_use(token_idx, tokens);
        proof {
            assert(replace_applies(
                old(input)@,
                old(tokens).tokens_seq()[token_idx as int],
                input@,
                off as int,
            ));
        }
        MutationResult::Mutated
    }

    /// Settles the statistics of the last written token.
    pub fn post_exec(&mut self, tokens: &mut SmartTokens, success: bool)
        ensures
            final(self).smart_token_state().last_idx() is None,
            final(tokens).tokens_seq() == old(tokens).tokens_seq(),
            final(tokens).capacity_spec() == old(tokens).capacity_spec(),
            old(tokens).wf() ==> final(tokens).wf(),
            old(self).smart_token_state().last_idx() is Some ==> final(tokens).protected() is None,
    {
        self.smart_token.post_exec(tokens, success);
    }
}

/// Tokens discovered in one cycle, as handed across workers.
#[derive(Debug, Clone)]
pub struct DiscoveredTokens {
    pub tokens: Vec<Vec<u8>>,
}

} // verus!
