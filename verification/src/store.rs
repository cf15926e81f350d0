use vstd::prelude::*;
use vstd::slice::slice_to_vec;
use crate::value::bytes_eq;

verus! {

/// An entry's expiry: created at `start_ms`, it stays live for
/// `window_ms` milliseconds. Both are absolute-clock milliseconds, as the
/// connection driver measures them.
#[derive(Debug, Clone, Copy, PartialEq, Eq, Structural)]
pub struct Expiry {
    pub start_ms: u64,
    pub window_ms: u64,
}

/// Whether an entry carrying expiry `e` is still live at `now_ms`: an
/// entry is logically absent from the moment `now - start >= window`; one
/// without an expiry lives until overwritten.
pub open spec fn live_at(e: Option<Expiry>, now_ms: u64) -> bool {
    match e {
        None => true,
        Some(x) => (now_ms as int) < x.start_ms + x.window_ms,
    }
}

/// One stored binding.
struct Entry {
    key: Vec<u8>,
    value: Vec<u8>,
    expiry: Option<Expiry>,
}

/// The mapping an entry run denotes, later bindings shadowing earlier
/// ones (the well-formed store has no duplicate keys, so nothing is in
/// fact shadowed).
spec fn entries_map(s: Seq<Entry>) -> Map<Seq<u8>, (Seq<u8>, Option<Expiry>)>
    decreases s,
{
    if s.len() == 0 {
        Map::empty()
    } else {
        entries_map(s.drop_last()).insert(
            s.last().key@,
            (s.last().value@, s.last().expiry),
        )
    }
}

/// The in-memory key-value store: a mapping from key to value and
/// optional expiry. Expiry is lazy: a dead entry is merely skipped on
/// read, never swept in the background, and vanishes when overwritten.
pub struct KVStore {
    entries: Vec<Entry>,
}

impl View for KVStore {
    type V = Map<Seq<u8>, (Seq<u8>, Option<Expiry>)>;

    closed spec fn view(&self) -> Map<Seq<u8>, (Seq<u8>, Option<Expiry>)> {
        entries_map(self.entries@)
    }
}

/// An entry run with pairwise distinct keys.
spec fn distinct_keys(s: Seq<Entry>) -> bool {
    forall|i: int, j: int| 0 <= i < j < s.len() ==> s[i].key@ != s[j].key@
}

/// The entry at `i` is what the map holds for its key.
proof fn lemma_entries_map_index(s: Seq<Entry>, i: int)
    requires
        distinct_keys(s),
        0 <= i < s.len(),
    ensures
        entries_map(s).contains_key(s[i].key@),
        entries_map(s)[s[i].key@] == (s[i].value@, s[i].expiry),
    decreases s.len(),
{
    if i < s.len() - 1 {
        assert(s.drop_last()[i] == s[i]);
        lemma_entries_map_index(s.drop_last(), i);
    }
}

/// A key no entry holds is not in the map.
proof fn lemma_entries_map_absent(s: Seq<Entry>, k: Seq<u8>)
    requires
        forall|i: int| 0 <= i < s.len() ==> (#[trigger] s[i]).key@ != k,
    ensures
        !entries_map(s).contains_key(k),
    decreases s.len(),
{
    if s.len() > 0 {
        assert(forall|i: int|
            0 <= i < s.drop_last().len() ==> (#[trigger] s.drop_last()[i]).key@ != k);
        lemma_entries_map_absent(s.drop_last(), k);
    }
}

/// Removing the one entry that holds `k` removes exactly `k` from the
/// map.
proof fn lemma_entries_map_remove(s: Seq<Entry>, i: int)
    requires
        distinct_keys(s),
        0 <= i < s.len(),
    ensures
        entries_map(s.remove(i)) == entries_map(s).remove(s[i].key@),
    decreases s.len(),
{
    let k = s[i].key@;
    if i == s.len() - 1 {
        assert(s.remove(i) =~= s.drop_last());
        assert(forall|j: int|
            0 <= j < s.drop_last().len() ==> (#[trigger] s.drop_last()[j]).key@ != k);
        lemma_entries_map_absent(s.drop_last(), k);
        assert(entries_map(s.drop_last()) =~= entries_map(s).remove(k));
    } else {
        assert(s.remove(i).drop_last() =~= s.drop_last().remove(i));
        assert(s.remove(i).last() == s.last());
        assert(s.drop_last()[i] == s[i]);
        lemma_entries_map_remove(s.drop_last(), i);
        assert(entries_map(s.remove(i)) =~= entries_map(s).remove(k));
    }
}

impl KVStore {
    /// Pairwise distinct keys: the internal invariant every constructor
    /// establishes and every method preserves.
    pub closed spec fn wf(&self) -> bool {
        distinct_keys(self.entries@)
    }

    /// An empty store.
    pub fn new() -> (r: KVStore)
        ensures
            r.wf(),
            r@ == Map::<Seq<u8>, (Seq<u8>, Option<Expiry>)>::empty(),
    {
        KVStore { entries: Vec::new() }
    }

    /// Looks `key` up at time `now_ms`: the stored value when the key is
    /// bound and its entry is live, nothing otherwise. Expiry is decided
    /// here, at read time; a dead entry is not returned, merely left in
    /// place.
    pub fn get(&self, key: &[u8], now_ms: u64) -> (r: Option<Vec<u8>>)
        requires
            self.wf(),
        ensures
            match r {
                Some(v) => self@.contains_key(key@) && live_at(self@[key@].1, now_ms) && v@
                    == self@[key@].0,
                None => !(self@.contains_key(key@) && live_at(self@[key@].1, now_ms)),
            },
    {
        let n = self.entries.len();
        let mut i: usize = 0;
        while i < n
            invariant
                i <= n,
                n == self.entries@.len(),
                self.wf(),
                forall|j: int| 0 <= j < i ==> (#[trigger] self.entries@[j]).key@ != key@,
            decreases n - i,
        {
            let e = &self.entries[i];
            if bytes_eq(e.key.as_slice(), key) {
                proof {
                    lemma_entries_map_index(self.entries@, i as int);
                }
                let live = match &e.expiry {
                    None => true,
                    Some(x) => {
                        // live exactly while now < start + window, the
                        // comparison phrased to avoid overflow
                        if now_ms < x.start_ms {
                            true
                        } else {
                            now_ms - x.start_ms < x.window_ms
                        }
                    },
                };
                if live {
                    return Some(slice_to_vec(e.value.as_slice()));
                } else {
                    return None;
                }
            }
            i = i + 1;
        }
        proof {
            lemma_entries_map_absent(self.entries@, key@);
        }
        None
    }

    /// Binds `key` to `value` with the given expiry, replacing any prior
    /// binding and its expiry wholesale.
    pub fn set(&mut self, key: Vec<u8>, value: Vec<u8>, expiry: Option<Expiry>)
        requires
            old(self).wf(),
        ensures
            final(self).wf(),
            final(self)@ == old(self)@.insert(key@, (value@, expiry)),
    {
        let n = self.entries.len();
        let mut i: usize = 0;
        while i < n
            invariant
                i <= n,
                n == self.entries@.len(),
                self == old(self),
                self.wf(),
                forall|j: int| 0 <= j < i ==> (#[trigger] self.entries@[j]).key@ != key@,
            decreases n - i,
        {
            if bytes_eq(self.entries[i].key.as_slice(), key.as_slice()) {
                let ghost before = self.entries@;
                proof {
                    lemma_entries_map_index(before, i as int);
                    lemma_entries_map_remove(before, i as int);
                    // every other entry's key differs from the one found
                    assert(forall|j: int|
                        0 <= j < before.len() && j != i ==> (#[trigger] before[j]).key@ != key@);
                }
                self.entries.remove(i);
                proof {
                    let mid = self.entries@;
                    assert forall|a: int, b: int|
                        0 <= a < b < mid.len() implies (#[trigger] mid[a]).key@
                        != (#[trigger] mid[b]).key@ by {
                        assert(mid[a] == if a < i {
                            before[a]
                        } else {
                            before[a + 1]
                        });
                        assert(mid[b] == if b < i {
                            before[b]
                        } else {
                            before[b + 1]
                        });
                    }
                    assert(forall|j: int|
                        0 <= j < mid.len() ==> (#[trigger] mid[j]).key@ != key@);
                }
                let ghost mid = self.entries@;
                self.entries.push(Entry { key, value, expiry });
                proof {
                    assert(self.entries@.drop_last() =~= mid);
                    assert(self.entries@.last().key@ == key@);
                    assert(entries_map(self.entries@) =~= entries_map(before).insert(
                        key@,
                        (value@, expiry),
                    ));
                    assert forall|a: int, b: int|
                        0 <= a < b < self.entries@.len() implies (#[trigger] self.entries@[a]).key@
                        != (#[trigger] self.entries@[b]).key@ by {
                        assert(self.entries@[a] == mid[a]);
                        if b < self.entries@.len() - 1 {
                            assert(self.entries@[b] == mid[b]);
                        }
                    }
                }
                return ;
            }
            i = i + 1;
        }
        let ghost before = self.entries@;
        self.entries.push(Entry { key, value, expiry });
        proof {
            assert(self.entries@.drop_last() =~= before);
            assert forall|a: int, b: int|
                0 <= a < b < self.entries@.len() implies (#[trigger] self.entries@[a]).key@
                != (#[trigger] self.entries@[b]).key@ by {
                assert(self.entries@[a] == before[a]);
                if b < self.entries@.len() - 1 {
                    assert(self.entries@[b] == before[b]);
                }
            }
        }
    }
}

} // verus!
