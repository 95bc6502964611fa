//! Snapshots the most recent corpus entries as the discovery corpus.

use crate::bytes::clone_bytes;
use crate::processors::views;
use vstd::prelude::*;

verus! {

/// Hands the last `search_pool_size` corpus entries, newest first, to the
/// pipeline.
pub struct CorpusExtractor;

impl CorpusExtractor {
    /// Selects the last `search_pool_size` of the given entries (ordered
    /// oldest first) in newest-first order; nothing when the corpus is empty
    /// or the pool size is zero.
    pub fn extract(&self, entries: &Vec<Vec<u8>>, search_pool_size: usize) -> (r: Option<
        Vec<Vec<u8>>,
    >)
        ensures
            (r is None) <==> (entries@.len() == 0 || search_pool_size == 0),
            r matches Some(v) ==> {
                let n = entries@.len() as int;
                let take = if search_pool_size as int <= n {
                    search_pool_size as int
                } else {
                    n
                };
                &&& v@.len() == take
                &&& forall|j: int|
                    0 <= j < take ==> #[trigger] views(v@)[j] == views(entries@)[n - 1 - j]
            },
    {
        if entries.len() == 0 || search_pool_size == 0 {
            return None;
        }
        let n = entries.len();
        let take = if search_pool_size <= n {
            search_pool_size
        } else {
            n
        };
        let mut out: Vec<Vec<u8>> = Vec::new();
        let mut j: usize = 0;
        while j < take
            invariant
                j <= take,
                take <= n,
                n == entries@.len(),
                out@.len() == j,
                forall|k: int|
                    0 <= k < j ==> #[trigger] views(out@)[k] == views(entries@)[n - 1 - k],
            decreases take - j,
        {
            let ghost pre = views(out@);
            out.push(clone_bytes(&entries[n - 1 - j]));
            proof {
                assert(views(out@) =~= pre.push(views(entries@)[n - 1 - j]));
            }
            j += 1;
        }
        Some(out)
    }

    pub fn name(&self) -> (r: &'static str) {
        "corpus"
    }
}

} // verus!
