//! The shared key-value store: a mapping from byte-string keys to
//! byte-string values, kept as a write log whose later entries win. Its
//! abstract value is a `Map`, `set` inserts, `get` looks up.

use vstd::prelude::*;

verus! {

use crate::resp::{bytes_eq, copy_bytes};

/// The map denoted by a write log: each entry overrides earlier ones.
pub open spec fn log_map(s: Seq<(Vec<u8>, Vec<u8>)>) -> Map<Seq<u8>, Seq<u8>>
    decreases s.len(),
{
    if s.len() == 0 {
        Map::<Seq<u8>, Seq<u8>>::empty()
    } else {
        log_map(s.drop_last()).insert(s.last().0@, s.last().1@)
    }
}

/// The latest entry for a key gives the map's value at that key.
proof fn lemma_log_map_last(s: Seq<(Vec<u8>, Vec<u8>)>, i: int)
    requires
        0 <= i < s.len(),
        forall|j: int| i < j < s.len() ==> (#[trigger] s[j]).0@ != s[i].0@,
    ensures
        log_map(s).contains_key(s[i].0@),
        log_map(s)[s[i].0@] == s[i].1@,
    decreases s.len(),
{
    if i == s.len() - 1 {
    } else {
        lemma_log_map_last(s.drop_last(), i);
    }
}

/// A key on no entry is absent from the map.
proof fn lemma_log_map_absent(s: Seq<(Vec<u8>, Vec<u8>)>, k: Seq<u8>)
    requires
        forall|j: int| 0 <= j < s.len() ==> (#[trigger] s[j]).0@ != k,
    ensures
        !log_map(s).contains_key(k),
    decreases s.len(),
{
    if s.len() > 0 {
        lemma_log_map_absent(s.drop_last(), k);
    }
}

/// The key-value store.
pub struct Store {
    data: Vec<(Vec<u8>, Vec<u8>)>,
}

impl Store {
    /// The mapping this store holds.
    pub closed spec fn smap(self) -> Map<Seq<u8>, Seq<u8>> {
        log_map(self.data@)
    }

    /// A fresh store holds nothing.
    pub fn new() -> (r: Store)
        ensures
            r.smap() == Map::<Seq<u8>, Seq<u8>>::empty(),
    {
        Store { data: Vec::new() }
    }

    /// Looks a key up: the stored value, or nothing if the key was never
    /// set.
    pub fn get(&self, key: &Vec<u8>) -> (r: Option<Vec<u8>>)
        ensures
            match r {
                Some(v) => self.smap().contains_key(key@) && v@ == self.smap()[key@],
                None => !self.smap().contains_key(key@),
            },
    {
        let mut i: usize = self.data.len();
        while i > 0
            invariant
                i <= self.data.len(),
                forall|j: int| i <= j < self.data@.len() ==> (#[trigger] self.data@[j]).0@
                    != key@,
            decreases i,
        {
            i = i - 1;
            if bytes_eq(&self.data[i].0, key) {
                proof {
                    lemma_log_map_last(self.data@, i as int);
                }
                return Some(copy_bytes(&self.data[i].1));
            }
        }
        proof {
            lemma_log_map_absent(self.data@, key@);
        }
        None
    }

    /// Inserts or replaces: afterwards the store maps `key` to `value` and
    /// every other key to what it mapped before.
    pub fn set(&mut self, key: Vec<u8>, value: Vec<u8>)
        ensures
            final(self).smap() == old(self).smap().insert(key@, value@),
    {
        let ghost k = key@;
        let ghost v = value@;
        self.data.push((key, value));
        proof {
            assert(self.data@.drop_last() =~= old(self).data@);
            assert(self.data@.last().0@ == k && self.data@.last().1@ == v);
        }
    }
}

/// Before any set, a get of any key finds nothing.
pub proof fn lemma_get_before_set(k: Seq<u8>)
    ensures
        !Map::<Seq<u8>, Seq<u8>>::empty().contains_key(k),
{
}

/// Last write wins: setting a key twice leaves the second value.
pub proof fn lemma_last_write_wins(m: Map<Seq<u8>, Seq<u8>>, k: Seq<u8>, v1: Seq<u8>, v2: Seq<u8>)
    ensures
        m.insert(k, v1).insert(k, v2)[k] == v2,
{
}

/// Writes to distinct keys never lose each other: they commute and each key
/// reads its own value back.
pub proof fn lemma_distinct_keys_commute(
    m: Map<Seq<u8>, Seq<u8>>,
    k1: Seq<u8>,
    v1: Seq<u8>,
    k2: Seq<u8>,
    v2: Seq<u8>,
)
    requires
        k1 != k2,
    ensures
        m.insert(k1, v1).insert(k2, v2) == m.insert(k2, v2).insert(k1, v1),
        m.insert(k1, v1).insert(k2, v2)[k1] == v1,
        m.insert(k1, v1).insert(k2, v2)[k2] == v2,
{
    assert(m.insert(k1, v1).insert(k2, v2) =~= m.insert(k2, v2).insert(k1, v1));
}

} // verus!
