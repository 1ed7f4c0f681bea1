use super::board::same_tiles;
use super::cell::Tile;
use std::collections::HashMap;
use vstd::prelude::*;
use vstd::std_specs::hash::{
    axiom_contains_deref_key, axiom_deref_key_removed, axiom_maps_deref_key_to_value,
};

verus! {

/// The number under which a row of cells is filed.
pub open spec fn tile_hash(tiles: Seq<Tile>) -> u64
    decreases tiles.len(),
{
    if tiles.len() == 0 {
        0
    } else {
        ((tile_hash(tiles.drop_last()) * 257 + tiles.last().value() + 1) % 1_000_000_007) as u64
    }
}

/// `tile_hash`, computed.
pub fn hash_tiles(tiles: &[Tile]) -> (hash: u64)
    ensures
        hash == tile_hash(tiles@),
{
    let mut hash: u64 = 0;
    let mut i: usize = 0;
    while i < tiles.len()
        invariant
            i <= tiles.len(),
            hash == tile_hash(tiles@.take(i as int)),
            hash < 1_000_000_007,
        decreases tiles.len() - i,
    {
        proof {
            assert(tiles@.take(i + 1).drop_last() == tiles@.take(i as int));
        }
        hash = (hash * 257 + (tiles[i].get_value() as u64) + 1) % 1_000_000_007;
        i = i + 1;
    }
    proof {
        assert(tiles@.take(tiles.len() as int) == tiles@);
    }
    hash
}

/// One entry of a `TileMap`.
pub struct Slot<T> {
    key: Vec<Tile>,
    value: T,
}

/// A map from rows of cells to values. The entries are filed under
/// `tile_hash` of their key; entries with the same number share a bucket, in
/// which no key occurs twice.
pub struct TileMap<T> {
    buckets: HashMap<u64, Vec<Slot<T>>>,
}

/// The bucket holds an entry for `key`.
spec fn holds<T>(bucket: Seq<Slot<T>>, key: Seq<Tile>) -> bool {
    exists|i: int| 0 <= i < bucket.len() && (#[trigger] bucket[i]).key@ == key
}

/// Where the bucket holds the entry for `key`.
spec fn slot_of<T>(bucket: Seq<Slot<T>>, key: Seq<Tile>) -> int {
    choose|i: int| 0 <= i < bucket.len() && (#[trigger] bucket[i]).key@ == key
}

/// The entries of the bucket are filed under `hash`, and no key occurs
/// twice.
spec fn bucket_ok<T>(hash: u64, bucket: Seq<Slot<T>>) -> bool {
    &&& forall|i: int| 0 <= i < bucket.len() ==> tile_hash((#[trigger] bucket[i]).key@) == hash
    &&& forall|i: int, j: int|
        #![trigger bucket[i], bucket[j]]
        0 <= i < j < bucket.len() ==> bucket[i].key@ != bucket[j].key@
}

/// The entry of a key is found where it lies.
proof fn lemma_slot_found<T>(hash: u64, bucket: Seq<Slot<T>>, i: int)
    requires
        bucket_ok(hash, bucket),
        0 <= i < bucket.len(),
    ensures
        holds(bucket, bucket[i].key@),
        slot_of(bucket, bucket[i].key@) == i,
{
    let c = slot_of(bucket, bucket[i].key@);
    assert(0 <= c < bucket.len() && bucket[c].key@ == bucket[i].key@);
    if c < i {
        assert(bucket[c].key@ != bucket[i].key@);
    } else if i < c {
        assert(bucket[i].key@ != bucket[c].key@);
    }
}

/// Where the bucket holds the entry for `key`, if it holds one.
fn find_slot<T>(bucket: &Vec<Slot<T>>, key: &[Tile]) -> (found: Option<usize>)
    ensures
        match found {
            Some(i) => i < bucket.len() && bucket[i as int].key@ == key@,
            None => !holds(bucket@, key@),
        },
{
    let mut i: usize = 0;
    while i < bucket.len()
        invariant
            i <= bucket.len(),
            forall|k: int| 0 <= k < i ==> (#[trigger] bucket[k]).key@ != key@,
        decreases bucket.len() - i,
    {
        if same_tiles(bucket[i].key.as_slice(), key) {
            return Some(i);
        }
        i = i + 1;
    }
    None
}

impl<T> View for TileMap<T> {
    type V = Map<Seq<Tile>, T>;

    closed spec fn view(&self) -> Map<Seq<Tile>, T> {
        Map::new(
            |key: Seq<Tile>|
                self.buckets@.contains_key(tile_hash(key)) && holds(
                    self.buckets@[tile_hash(key)]@,
                    key,
                ),
            |key: Seq<Tile>|
                {
                    let bucket = self.buckets@[tile_hash(key)]@;
                    bucket[slot_of(bucket, key)].value
                },
        )
    }
}

impl<T> TileMap<T> {
    /// Every entry lies in the bucket of its key's number, and no bucket
    /// holds a key twice.
    pub closed spec fn wf(&self) -> bool {
        forall|hash: u64| #[trigger]
            self.buckets@.contains_key(hash) ==> bucket_ok(hash, self.buckets@[hash]@)
    }

    /// A map without entries.
    pub fn new() -> (map: Self)
        ensures
            map.wf(),
            map@ == Map::<Seq<Tile>, T>::empty(),
    {
        let map = TileMap { buckets: HashMap::new() };
        assert(map@ =~= Map::<Seq<Tile>, T>::empty());
        map
    }

    /// The value filed under `key`.
    pub fn get(&self, key: &[Tile]) -> (value: Option<&T>)
        requires
            self.wf(),
        ensures
            match value {
                Some(v) => self@.contains_key(key@) && self@[key@] == *v,
                None => !self@.contains_key(key@),
            },
    {
        broadcast use {axiom_contains_deref_key, axiom_maps_deref_key_to_value};

        let hash = hash_tiles(key);
        match self.buckets.get(&hash) {
            Some(bucket) => match find_slot(bucket, key) {
                Some(i) => {
                    proof {
                        lemma_slot_found(hash, bucket@, i as int);
                    }
                    Some(&bucket[i].value)
                },
                None => None,
            },
            None => None,
        }
    }

    /// Whether a value is filed under `key`.
    pub fn contains(&self, key: &[Tile]) -> (found: bool)
        requires
            self.wf(),
        ensures
            found == self@.contains_key(key@),
    {
        self.get(key).is_some()
    }

    /// Files `value` under `key`, in place of what was filed there.
    pub fn insert(&mut self, key: Vec<Tile>, value: T)
        requires
            old(self).wf(),
        ensures
            final(self).wf(),
            final(self)@ == old(self)@.insert(key@, value),
    {
        broadcast use {
            axiom_contains_deref_key,
            axiom_maps_deref_key_to_value,
            axiom_deref_key_removed,
        };

        let hash = hash_tiles(key.as_slice());
        let ghost before = self.buckets@;
        let ghost filed = key@;
        let mut bucket = match self.buckets.remove(&hash) {
            Some(bucket) => bucket,
            None => Vec::new(),
        };
        let ghost shelf = bucket@;
        assert(bucket_ok(hash, shelf));
        assert(before.contains_key(hash) ==> before[hash]@ == shelf);
        assert(!before.contains_key(hash) ==> shelf.len() == 0);
        let found = find_slot(&bucket, key.as_slice());
        match found {
            Some(i) => {
                bucket.set(i, Slot { key, value });
            },
            None => {
                bucket.push(Slot { key, value });
            },
        }
        let ghost place = match found {
            Some(i) => i as int,
            None => shelf.len() as int,
        };
        assert(bucket@[place].key@ == filed && bucket@[place].value == value);
        assert(forall|i: int|
            0 <= i < shelf.len() ==> (#[trigger] bucket@[i]).key@ == shelf[i].key@);
        assert(forall|i: int|
            0 <= i < shelf.len() && i != place ==> (#[trigger] bucket@[i]).value == shelf[i].value);
        assert(bucket_ok(hash, bucket@)) by {
            assert forall|i: int, j: int|
                #![trigger bucket@[i], bucket@[j]]
                0 <= i < j < bucket@.len() implies bucket@[i].key@ != bucket@[j].key@ by {
                if j < shelf.len() {
                    assert(shelf[i].key@ != shelf[j].key@);
                } else {
                    assert(shelf[i].key@ == bucket@[i].key@);
                    if shelf[i].key@ == filed {
                        assert(holds(shelf, filed));
                    }
                }
            }
        }
        let ghost fresh = bucket@;
        self.buckets.insert(hash, bucket);
        assert(self.buckets@ == before.insert(hash, self.buckets@[hash]));
        assert(self.buckets@[hash]@ == fresh);
        assert(self.wf()) by {
            assert forall|h: u64| #[trigger] self.buckets@.contains_key(h) implies bucket_ok(
                h,
                self.buckets@[h]@,
            ) by {
                if h != hash {
                    assert(before.contains_key(h));
                }
            }
        }
        assert(self@ =~= old(self)@.insert(filed, value)) by {
            assert forall|k: Seq<Tile>| self@.contains_key(k) <==> old(self)@.insert(
                filed,
                value,
            ).contains_key(k) by {
                if tile_hash(k) == hash {
                    if k == filed {
                        assert(fresh[place].key@ == k);
                    } else {
                        if holds(fresh, k) {
                            let c = slot_of(fresh, k);
                            assert(fresh[c].key@ == k);
                            assert(c < shelf.len());
                            assert(shelf[c].key@ == k);
                            assert(holds(shelf, k));
                        }
                        if before.contains_key(hash) && holds(shelf, k) {
                            let c = slot_of(shelf, k);
                            assert(shelf[c].key@ == k);
                            assert(fresh[c].key@ == k);
                        }
                    }
                }
            }
            assert forall|k: Seq<Tile>| self@.contains_key(k) implies self@[k] == old(
                self,
            )@.insert(filed, value)[k] by {
                if tile_hash(k) == hash {
                    let c = slot_of(fresh, k);
                    assert(fresh[c].key@ == k);
                    if k == filed {
                        lemma_slot_found(hash, fresh, place);
                    } else {
                        assert(c < shelf.len());
                        lemma_slot_found(hash, shelf, c);
                    }
                }
            }
        }
    }

    /// Forgets every entry.
    pub fn clear(&mut self)
        ensures
            final(self).wf(),
            final(self)@ == Map::<Seq<Tile>, T>::empty(),
    {
        self.buckets.clear();
        assert(self@ =~= Map::<Seq<Tile>, T>::empty());
    }
}

} // verus!
