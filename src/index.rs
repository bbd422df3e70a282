use vstd::prelude::*;

use crate::window::{window_key, window_key_at};

verus! {

/// Map from window keys to byte offsets, hashed with ahash.
#[verifier::external_body]
pub struct WindowIndex {
    map: std::collections::HashMap<u64, usize, ahash::RandomState>,
}

/// The entries that a `WindowIndex` holds.
pub uninterp spec fn index_entries(idx: WindowIndex) -> Map<u64, usize>;

impl WindowIndex {
    /// Relies on `HashMap::with_capacity_and_hasher` with `ahash::RandomState::default()`:
    /// the new map is empty.
    #[verifier::external_body]
    fn with_capacity(capacity: usize) -> (r: WindowIndex)
        ensures
            index_entries(r).dom().is_empty(),
    {
        WindowIndex {
            map: std::collections::HashMap::with_capacity_and_hasher(
                capacity,
                ahash::RandomState::default(),
            ),
        }
    }

    /// Relies on `HashMap::insert`: the key now maps to the value, replacing any earlier one.
    #[verifier::external_body]
    fn insert(&mut self, key: u64, value: usize)
        ensures
            index_entries(*final(self)) == index_entries(*old(self)).insert(key, value),
    {
        self.map.insert(key, value);
    }

    /// Relies on `HashMap::get`: the value stored under the key, if any.
    #[verifier::external_body]
    pub(crate) fn get(&self, key: u64) -> (r: Option<usize>)
        ensures
            r == (if index_entries(*self).contains_key(key) {
                Some(index_entries(*self)[key])
            } else {
                None
            }),
    {
        self.map.get(&key).copied()
    }

    /// Relies on `HashMap::contains_key`: whether the key is stored.
    #[verifier::external_body]
    pub(crate) fn contains_key(&self, key: u64) -> (r: bool)
        ensures
            r == index_entries(*self).contains_key(key),
    {
        self.map.contains_key(&key)
    }
}

/// The windows starting before `n`, inserted in order of position: each key maps to the
/// last position that has it.
pub open spec fn index_upto(old: Seq<u8>, n: int) -> Map<u64, usize>
    decreases n,
{
    if n <= 0 {
        Map::empty()
    } else {
        index_upto(old, n - 1).insert(window_key(old, n - 1), (n - 1) as usize)
    }
}

/// The index of every window of `old`; empty when `old` is shorter than a window.
pub open spec fn window_index(old: Seq<u8>) -> Map<u64, usize> {
    index_upto(old, old.len() - 7)
}

/// What the index holds: every window start is found, and a key leads to the last window
/// start that has it.
pub proof fn lemma_index_upto(old: Seq<u8>, n: int)
    requires
        n <= old.len() - 7,
        old.len() <= usize::MAX,
    ensures
        forall|p: int| 0 <= p < n ==> index_upto(old, n).contains_key(#[trigger] window_key(old, p)),
        forall|k: u64|
            #![trigger index_upto(old, n).contains_key(k)]
            index_upto(old, n).contains_key(k) ==> {
                let p = index_upto(old, n)[k] as int;
                &&& 0 <= p < n
                &&& window_key(old, p) == k
                &&& forall|q: int| p < q < n ==> window_key(old, q) != k
            },
    decreases n,
{
    if n > 0 {
        lemma_index_upto(old, n - 1);
        let last = window_key(old, n - 1);
        assert forall|k: u64| #[trigger] index_upto(old, n).contains_key(k) implies {
            let p = index_upto(old, n)[k] as int;
            &&& 0 <= p < n
            &&& window_key(old, p) == k
            &&& forall|q: int| p < q < n ==> window_key(old, q) != k
        } by {
            let prev = index_upto(old, n - 1);
            assert(index_upto(old, n) == prev.insert(last, (n - 1) as usize));
            if k != last {
                assert(prev.contains_key(k));
                assert(index_upto(old, n)[k] == prev[k]);
                let p = prev[k] as int;
                assert forall|q: int| p < q < n implies window_key(old, q) != k by {
                    if q < n - 1 {
                        assert(window_key(old, q) != k);
                    }
                }
            }
        }
    }
}

/// Builds the index of every window of `old`; a later window start replaces an earlier one
/// with the same bytes.
pub fn build_hash_map(old: &[u8]) -> (r: WindowIndex)
    ensures
        index_entries(r) == window_index(old@),
{
    let mut map = WindowIndex::with_capacity(old.len() / 8);
    assert(index_entries(map) =~= index_upto(old@, 0));
    let mut i: usize = 0;
    while old.len() >= 8 && i <= old.len() - 8
        invariant
            i <= old@.len(),
            old@.len() >= 8 ==> i <= old@.len() - 7,
            old@.len() < 8 ==> i == 0,
            index_entries(map) == index_upto(old@, i as int),
        decreases old@.len() - i,
    {
        let key = window_key_at(old, i);
        map.insert(key, i);
        i += 1;
    }
    if old.len() < 8 {
        assert(index_upto(old@, old@.len() - 7) =~= index_upto(old@, 0));
    }
    map
}

} // verus!
