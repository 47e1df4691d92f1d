//! An index from a number to the positions at which it stands in a
//! sequence, so that the catalog finds the entries of one size, or of one
//! inode number, without going through all of them.

use std::collections::HashMap;
use vstd::prelude::*;

verus! {

broadcast use vstd::std_specs::hash::group_hash_axioms;

/// The positions below `k` at which `key` stands in `keys`, in rising order.
pub open spec fn bucket_of(keys: Seq<u64>, key: u64, k: int) -> Seq<int>
    decreases k,
{
    if k <= 0 {
        Seq::empty()
    } else if keys[k - 1] == key {
        bucket_of(keys, key, k - 1).push(k - 1)
    } else {
        bucket_of(keys, key, k - 1)
    }
}

/// All the positions at which `key` stands in `keys`, in rising order.
pub open spec fn bucket(keys: Seq<u64>, key: u64) -> Seq<int> {
    bucket_of(keys, key, keys.len() as int)
}

/// The positions that a vector of indices holds.
pub open spec fn positions(v: Seq<usize>) -> Seq<int> {
    v.map_values(|x: usize| x as int)
}

/// A bucket holds the positions at which the key stands, each once and in
/// rising order, and no other.
pub proof fn lemma_bucket(keys: Seq<u64>, key: u64, k: int)
    requires
        k <= keys.len(),
    ensures
        forall|m: int|
            0 <= m < bucket_of(keys, key, k).len() ==> 0 <= (#[trigger] bucket_of(keys, key, k)[m])
                < k && keys[bucket_of(keys, key, k)[m]] == key,
        forall|a: int, b: int|
            0 <= a < b < bucket_of(keys, key, k).len() ==> bucket_of(keys, key, k)[a] < bucket_of(
                keys,
                key,
                k,
            )[b],
        forall|i: int|
            0 <= i < k && #[trigger] keys[i] == key ==> exists|m: int|
                0 <= m < bucket_of(keys, key, k).len() && #[trigger] bucket_of(keys, key, k)[m]
                    == i,
    decreases k,
{
    if k > 0 {
        lemma_bucket(keys, key, k - 1);
        let front = bucket_of(keys, key, k - 1);
        let all = bucket_of(keys, key, k);
        assert forall|i: int| 0 <= i < k && #[trigger] keys[i] == key implies exists|m: int|
            0 <= m < all.len() && #[trigger] all[m] == i by {
            if i < k - 1 {
                let m = choose|m: int| 0 <= m < front.len() && #[trigger] front[m] == i;
                assert(all[m] == i);
            } else {
                assert(all[all.len() - 1] == i);
            }
        }
    }
}

/// One more key behind the others changes no bucket below it.
pub proof fn lemma_bucket_push(keys: Seq<u64>, more: u64, key: u64, k: int)
    requires
        0 <= k <= keys.len(),
    ensures
        bucket_of(keys.push(more), key, k) == bucket_of(keys, key, k),
    decreases k,
{
    if k > 0 {
        lemma_bucket_push(keys, more, key, k - 1);
        assert(keys.push(more)[k - 1] == keys[k - 1]);
    }
}

/// Whether the map holds, for every key, the bucket of that key: under the
/// key where the bucket is not empty, and nothing where it is.
pub open spec fn index_of(keys: Seq<u64>, map: Map<u64, Vec<usize>>) -> bool {
    forall|key: u64|
        #![trigger map.contains_key(key)]
        #![trigger bucket(keys, key)]
        if map.contains_key(key) {
            positions(map[key]@) == bucket(keys, key)
        } else {
            bucket(keys, key).len() == 0
        }
}

/// The index of a sequence of keys. Its view is that sequence.
pub struct PositionIndex {
    /// The bucket of each key that stands in the sequence.
    map: HashMap<u64, Vec<usize>>,
    /// The sequence of keys.
    keys: Ghost<Seq<u64>>,
    /// The bucket of every key that does not: it is empty.
    none: Vec<usize>,
}

impl View for PositionIndex {
    type V = Seq<u64>;

    closed spec fn view(&self) -> Seq<u64> {
        self.keys@
    }
}

impl PositionIndex {
    /// Whether the index is that of its keys.
    pub closed spec fn wf(&self) -> bool {
        &&& index_of(self.keys@, self.map@)
        &&& self.none@.len() == 0
    }

    /// The index of no keys.
    pub fn new() -> (index: PositionIndex)
        ensures
            index.wf(),
            index@ == Seq::<u64>::empty(),
    {
        PositionIndex { map: HashMap::new(), keys: Ghost(Seq::empty()), none: Vec::new() }
    }

    /// Puts one more key behind the others; `at` is its position.
    pub fn add(&mut self, key: u64, at: usize)
        requires
            old(self).wf(),
            at == old(self)@.len(),
        ensures
            final(self).wf(),
            final(self)@ == old(self)@.push(key),
    {
        let ghost before = self.keys@;
        let ghost old_map = self.map@;
        let mut list = match self.map.remove(&key) {
            Some(list) => list,
            None => Vec::new(),
        };
        assert(positions(list@) == bucket(before, key));
        let ghost old_list = list@;
        list.push(at);
        assert(positions(list@) == positions(old_list).push(at as int));
        self.map.insert(key, list);
        self.keys = Ghost(before.push(key));
        proof {
            let after = before.push(key);
            assert forall|k: u64|
                #![trigger self.map@.contains_key(k)]
                #![trigger bucket(after, k)]
                if self.map@.contains_key(k) {
                    positions(self.map@[k]@) == bucket(after, k)
                } else {
                    bucket(after, k).len() == 0
                } by {
                lemma_bucket_push(before, key, k, before.len() as int);
                if k != key {
                    assert(self.map@.contains_key(k) == old_map.contains_key(k));
                    assert(bucket(before, k) == bucket_of(before, k, before.len() as int));
                }
            }
        }
    }

    /// The positions at which `key` stands, in rising order.
    pub fn lookup(&self, key: u64) -> (list: &Vec<usize>)
        requires
            self.wf(),
        ensures
            positions(list@) == bucket(self@, key),
    {
        match self.map.get(&key) {
            Some(list) => list,
            None => {
                assert(positions(self.none@) == bucket(self@, key));
                &self.none
            },
        }
    }
}

} // verus!
