//! A table that finds keys fast: the places of a list of keys, sorted into
//! buckets by a number that is computed from each key's characters.
use vstd::prelude::*;
use std::collections::HashMap;
use crate::text::chars_of;

verus! {

broadcast use vstd::std_specs::hash::group_hash_axioms;

/// The numbers of the buckets stay below this prime.
pub const BUCKET_MODULUS: u64 = 4294967291;

/// The number of the bucket that a key belongs to.
pub open spec fn bucket_of(key: Seq<char>) -> u64
    decreases key.len(),
{
    if key.len() == 0 {
        7
    } else {
        ((bucket_of(key.drop_last()) * 31 + key.last() as u32) % (BUCKET_MODULUS as int)) as u64
    }
}

/// Computes the number of the bucket that a key belongs to.
pub fn bucket(key: &str) -> (b: u64)
    ensures
        b == bucket_of(key@),
{
    let chars = chars_of(key);
    let mut b: u64 = 7;
    let mut i: usize = 0;
    proof {
        assert(chars@.take(0) =~= Seq::empty());
    }
    while i < chars.len()
        invariant
            i <= chars@.len(),
            chars@ == key@,
            b < BUCKET_MODULUS,
            b == bucket_of(chars@.take(i as int)),
        decreases chars@.len() - i,
    {
        proof {
            assert(chars@.take(i + 1).drop_last() =~= chars@.take(i as int));
        }
        b = (b * 31 + chars[i] as u32 as u64) % BUCKET_MODULUS;
        i = i + 1;
    }
    proof {
        assert(chars@.take(i as int) =~= chars@);
    }
    b
}

/// Whether `place` is among the places.
pub open spec fn has_place(places: Seq<usize>, place: int) -> bool {
    exists|j: int| 0 <= j < places.len() && (#[trigger] places[j]) == place
}

/// The places of a list of keys, by bucket.
pub struct KeyTable {
    buckets: HashMap<u64, Vec<usize>>,
    keys: Ghost<Seq<Seq<char>>>,
}

impl KeyTable {
    /// The keys that the table knows, by place.
    pub closed spec fn keys(&self) -> Seq<Seq<char>> {
        self.keys@
    }

    /// Whether the place `i` stands in the bucket of its key.
    pub closed spec fn holds(&self, i: int) -> bool {
        &&& self.buckets@.contains_key(bucket_of(self.keys@[i]))
        &&& has_place(self.buckets@[bucket_of(self.keys@[i])]@, i)
    }

    /// The table is sound: every place stands in the bucket of its key, and
    /// the buckets hold nothing but places.
    pub closed spec fn wf(&self) -> bool {
        &&& forall|i: int| 0 <= i < self.keys@.len() ==> #[trigger] self.holds(i)
        &&& forall|b: u64, j: int|
            self.buckets@.contains_key(b) && 0 <= j < self.buckets@[b]@.len() ==> (
            #[trigger] self.buckets@[b]@[j]) < self.keys@.len()
    }

    /// A table without keys.
    pub fn new() -> (table: KeyTable)
        ensures
            table.wf(),
            table.keys() == Seq::<Seq<char>>::empty(),
    {
        KeyTable { buckets: HashMap::new(), keys: Ghost(Seq::empty()) }
    }

    /// The places at which `key` may stand: every place at which it does
    /// stand is among them. `None` where the key stands nowhere.
    pub fn candidates(&self, key: &str) -> (r: Option<&Vec<usize>>)
        requires
            self.wf(),
        ensures
            match r {
                Some(places) => {
                    &&& forall|j: int|
                        0 <= j < places@.len() ==> (#[trigger] places@[j]) < self.keys().len()
                    &&& forall|i: int|
                        0 <= i < self.keys().len() && (#[trigger] self.keys()[i]) == key@
                            ==> has_place(places@, i)
                },
                None => forall|i: int|
                    0 <= i < self.keys().len() ==> (#[trigger] self.keys()[i]) != key@,
            },
    {
        let b = bucket(key);
        let found = self.buckets.get(&b);
        proof {
            assert forall|i: int| 0 <= i < self.keys().len() && (#[trigger] self.keys()[i])
                == key@ implies self.buckets@.contains_key(b) && has_place(self.buckets@[b]@, i) by {
                assert(self.holds(i));
            }
            if let Some(places) = found {
                assert forall|j: int| 0 <= j < places@.len() implies (#[trigger] places@[j])
                    < self.keys().len() by {
                    assert(self.buckets@[b]@[j] < self.keys@.len());
                }
            }
        }
        found
    }

    /// Takes `key` in at the next place.
    pub fn push(&mut self, key: &str, place: usize)
        requires
            old(self).wf(),
            place == old(self).keys().len(),
        ensures
            final(self).wf(),
            final(self).keys() == old(self).keys().push(key@),
    {
        let b = bucket(key);
        let mut places: Vec<usize> = match self.buckets.remove(&b) {
            Some(places) => places,
            None => Vec::new(),
        };
        let ghost before = places@;
        places.push(place);
        self.buckets.insert(b, places);
        self.keys = Ghost(self.keys@.push(key@));
        proof {
            assert(places@[before.len() as int] == place);
            assert forall|i: int| 0 <= i < self.keys@.len() implies #[trigger] self.holds(i) by {
                if i < place {
                    assert(old(self).holds(i));
                    let bi = bucket_of(self.keys@[i]);
                    if bi == b {
                        let w = choose|w: int| 0 <= w < before.len() && (#[trigger] before[w]) == i;
                        assert(places@[w] == i);
                    }
                }
            }
            assert forall|c: u64, j: int|
                self.buckets@.contains_key(c) && 0 <= j < self.buckets@[c]@.len() implies (
            #[trigger] self.buckets@[c]@[j]) < self.keys@.len() by {
                if c == b {
                    if j < before.len() {
                        assert(old(self).buckets@[b]@[j] < old(self).keys@.len());
                    }
                } else {
                    assert(old(self).buckets@[c]@[j] < old(self).keys@.len());
                }
            }
        }
    }
}

} // verus!
