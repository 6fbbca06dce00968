//! The bucketed circular index underlying the ring: a sparse map from
//! positions in `[0, capacity)` to sets of occupants, with a clockwise
//! successor search that wraps around.

use crate::maat_ring::Serializable;
use std::collections::hash_map::DefaultHasher;
use std::hash::Hasher;
use vstd::prelude::*;
use vstd::std_specs::hash::DefaultHasherAdditionalSpecFns;

verus! {

/// The 64-bit hash of a string, as produced by feeding the string's UTF-8
/// bytes followed by a single `0xff` byte into `DefaultHasher`. This is
/// exactly the byte stream that `std` feeds to a hasher when hashing a
/// string value, so the result agrees with hashing the string directly.
pub open spec fn string_hash(s: Seq<char>) -> u64 {
    DefaultHasher::spec_finish(seq![vstd::utf8::encode_utf8(s), seq![255u8]])
}

/// The ring position of an occupant whose serialized form is `s`, on a ring
/// of the given capacity: the 64-bit string hash reduced modulo the capacity.
pub open spec fn position_of(s: Seq<char>, capacity: nat) -> nat
    recommends
        capacity >= 1,
{
    string_hash(s) as nat % capacity
}

/// Computes the ring position of a serialized form at the given capacity.
pub fn hash_position(s: &str, capacity: usize) -> (h: usize)
    requires
        capacity >= 1,
    ensures
        h as nat == position_of(s@, capacity as nat),
        h < capacity,
{
    let mut hasher = DefaultHasher::new();
    hasher.write(s.as_bytes());
    let tail: Vec<u8> = vec![255u8];
    hasher.write(tail.as_slice());
    let h64: u64 = hasher.finish();
    proof {
        assert(tail@ =~= seq![255u8]);
        assert(hasher@ =~= seq![vstd::utf8::encode_utf8(s@), seq![255u8]]);
    }
    let r: usize = (h64 % (capacity as u64)) as usize;
    r
}

/// The ring position of a serializable value is a function of its
/// serialized form alone: two values with the same serialized form hash to
/// the same position, and every position lands inside the capacity.
pub proof fn lemma_position_from_serialization_only<A: Serializable, B: Serializable>(
    a: &A,
    b: &B,
    capacity: nat,
)
    requires
        capacity >= 1,
        a.spec_serialize() == b.spec_serialize(),
    ensures
        position_of(a.spec_serialize(), capacity) == position_of(b.spec_serialize(), capacity),
        position_of(a.spec_serialize(), capacity) < capacity,
{
}

/// Whether some element of the set serializes to `f`.
pub open spec fn set_has_ser<T: Serializable>(s: Set<T>, f: Seq<char>) -> bool {
    exists|x: T| s.contains(x) && x.spec_serialize() == f
}

/// A bucketed modular successor index: occupants are stored under the
/// position their serialized form hashes to, and a clockwise successor
/// search with wrap-around finds the nearest occupied bucket. Exposed as a
/// trait so that the node-level ring depends only on this behaviour.
pub trait RingBuffer<T: Serializable>: Sized {
    /// The number of positions in the index space.
    spec fn spec_capacity(&self) -> nat;

    /// The occupants stored at position `p`.
    spec fn spec_bucket(&self, p: nat) -> Set<T>;

    /// The structural invariant that every operation preserves.
    spec fn spec_wf(&self) -> bool;

    /// Inserts an occupant; idempotent per serialized form.
    fn add(&mut self, data: T)
        requires
            old(self).spec_wf(),
        ensures
            final(self).spec_wf(),
            final(self).spec_capacity() == old(self).spec_capacity(),
            forall|q: nat|
                q != position_of(data.spec_serialize(), old(self).spec_capacity())
                    ==> final(self).spec_bucket(q) == old(self).spec_bucket(q),
            !set_has_ser(
                old(self).spec_bucket(
                    position_of(data.spec_serialize(), old(self).spec_capacity()),
                ),
                data.spec_serialize(),
            ) ==> final(self).spec_bucket(
                position_of(data.spec_serialize(), old(self).spec_capacity()),
            ) == old(self).spec_bucket(
                position_of(data.spec_serialize(), old(self).spec_capacity()),
            ).insert(data),
    ;

    /// Erases the occupant with the same serialized form, if present.
    fn remove(&mut self, data: &T)
        requires
            old(self).spec_wf(),
        ensures
            final(self).spec_wf(),
            final(self).spec_capacity() == old(self).spec_capacity(),
            forall|q: nat|
                q != position_of(data.spec_serialize(), old(self).spec_capacity())
                    ==> final(self).spec_bucket(q) == old(self).spec_bucket(q),
            forall|x: T|
                #![all_triggers]
                final(self).spec_bucket(
                    position_of(data.spec_serialize(), old(self).spec_capacity()),
                ).contains(x) <==> (old(self).spec_bucket(
                    position_of(data.spec_serialize(), old(self).spec_capacity()),
                ).contains(x) && x.spec_serialize() != data.spec_serialize()),
    ;

    /// Returns the occupants of the nearest occupied bucket clockwise
    /// from `hash`, or nothing when the ring is empty.
    fn find_nearest(&self, hash: usize) -> (r: Option<&Vec<T>>)
        requires
            self.spec_wf(),
            (hash as nat) < self.spec_capacity(),
        ensures
            r.is_some() <==> exists|p: nat, x: T| #[trigger] self.spec_bucket(p).contains(x),
            r matches Some(b) ==> exists|p: nat|
                b@.to_set() == #[trigger] self.spec_bucket(p) && b@.len() >= 1,
            r matches Some(b) ==> forall|j1: int, j2: int|
                0 <= j1 < j2 < b@.len() ==> (#[trigger] b@[j1]).spec_serialize() != (
                #[trigger] b@[j2]).spec_serialize(),
    ;

    /// The ring's hash function, bound to its own capacity.
    fn hash_of<S: Serializable>(&self, data: &S) -> (h: usize)
        requires
            self.spec_wf(),
        ensures
            h as nat == position_of(data.spec_serialize(), self.spec_capacity()),
            h < self.spec_capacity(),
    ;
}

/// One non-empty bucket of the ring: the occupants stored at one position.
struct Bucket<T> {
    pos: usize,
    items: Vec<T>,
}

/// A bucketed circular index of fixed capacity. Occupants are mapped to the
/// position given by the hash of their serialized form; buckets are
/// materialized lazily, kept sorted by position, and dropped when they
/// become empty. Two occupants with the same serialized form are treated as
/// the same occupant.
pub struct InMemoryRingBuffer<T> {
    storage: Vec<Bucket<T>>,
    size: usize,
}

impl<T: Serializable> InMemoryRingBuffer<T> {
    /// The ring's capacity: the number of positions in its index space.
    pub closed spec fn capacity(&self) -> nat {
        self.size as nat
    }

    spec fn has_pos(&self, p: nat) -> bool {
        exists|i: int| 0 <= i < self.storage@.len() && self.storage@[i].pos as nat == p
    }

    spec fn idx_of(&self, p: nat) -> int {
        choose|i: int| 0 <= i < self.storage@.len() && self.storage@[i].pos as nat == p
    }

    /// The set of occupants stored at position `p`; empty when the position
    /// has no bucket.
    pub closed spec fn bucket(&self, p: nat) -> Set<T> {
        if self.has_pos(p) {
            self.storage@[self.idx_of(p)].items@.to_set()
        } else {
            Set::<T>::empty()
        }
    }

    /// Whether position `p` holds at least one occupant.
    pub open spec fn occupied(&self, p: nat) -> bool {
        exists|x: T| self.bucket(p).contains(x)
    }

    /// Whether the ring holds any occupant at all.
    pub open spec fn has_occupants(&self) -> bool {
        exists|p: nat| self.occupied(p)
    }

    /// Whether the ring holds an occupant whose serialized form is `s`.
    /// Such an occupant can only sit at the position that `s` hashes to.
    pub open spec fn contains_ser(&self, s: Seq<char>) -> bool {
        set_has_ser(self.bucket(position_of(s, self.capacity())), s)
    }

    /// Well-formedness: the capacity is positive; buckets are sorted by
    /// strictly increasing position below the capacity; every bucket is
    /// non-empty; every occupant sits in the bucket its serialized form
    /// hashes to; within a bucket the serialized forms are distinct.
    pub closed spec fn wf(&self) -> bool {
        &&& self.size >= 1
        &&& forall|i: int, j: int|
            0 <= i < j < self.storage@.len() ==> (#[trigger] self.storage@[i].pos) < (
            #[trigger] self.storage@[j].pos)
        &&& forall|i: int|
            0 <= i < self.storage@.len() ==> (#[trigger] self.storage@[i].pos) < self.size
        &&& forall|i: int|
            0 <= i < self.storage@.len() ==> (#[trigger] self.storage@[i].items@.len()) >= 1
        &&& forall|i: int, j: int|
            0 <= i < self.storage@.len() && 0 <= j < self.storage@[i].items@.len()
                ==> position_of(
                (#[trigger] self.storage@[i].items@[j]).spec_serialize(),
                self.size as nat,
            ) == self.storage@[i].pos as nat
        &&& forall|i: int, j1: int, j2: int|
            0 <= i < self.storage@.len() && 0 <= j1 < j2 < self.storage@[i].items@.len()
                ==> (#[trigger] self.storage@[i].items@[j1]).spec_serialize() != (
                #[trigger] self.storage@[i].items@[j2]).spec_serialize()
    }

    /// The bucket holding position `p` is the one at index `i`, when index
    /// `i` carries position `p` and positions are strictly sorted.
    proof fn lemma_bucket_at_index(&self, i: int)
        requires
            self.wf(),
            0 <= i < self.storage@.len(),
        ensures
            self.has_pos(self.storage@[i].pos as nat),
            self.idx_of(self.storage@[i].pos as nat) == i,
            self.bucket(self.storage@[i].pos as nat) == self.storage@[i].items@.to_set(),
    {
        let p = self.storage@[i].pos as nat;
        assert(self.has_pos(p));
        let j = self.idx_of(p);
        assert(0 <= j < self.storage@.len() && self.storage@[j].pos as nat == p);
        if i < j {
            assert(self.storage@[i].pos < self.storage@[j].pos);
        } else if j < i {
            assert(self.storage@[j].pos < self.storage@[i].pos);
        }
    }

    /// A position carried by no bucket holds no occupants.
    proof fn lemma_bucket_absent(&self, p: nat)
        requires
            forall|i: int|
                0 <= i < self.storage@.len() ==> (#[trigger] self.storage@[i].pos) as nat != p,
        ensures
            self.bucket(p) == Set::<T>::empty(),
            !self.occupied(p),
    {
        assert(!self.has_pos(p));
        assert(forall|x: T| !self.bucket(p).contains(x));
    }

    /// Creates an empty ring of the given capacity.
    pub fn new(capacity: usize) -> (r: Self)
        requires
            capacity >= 1,
        ensures
            r.wf(),
            r.capacity() == capacity as nat,
            forall|p: nat| r.bucket(p) == Set::<T>::empty(),
            !r.has_occupants(),
    {
        let r = InMemoryRingBuffer { storage: Vec::<Bucket<T>>::new(), size: capacity };
        proof {
            assert forall|p: nat| r.bucket(p) == Set::<T>::empty() by {
                r.lemma_bucket_absent(p);
            }
            assert forall|p: nat| !r.occupied(p) by {
                r.lemma_bucket_absent(p);
            }
        }
        r
    }

    /// The ring's hash function, bound to its own capacity: maps any
    /// serializable value to the position its serialized form hashes to.
    pub fn hash_of<S: Serializable>(&self, data: &S) -> (h: usize)
        requires
            self.wf(),
        ensures
            h as nat == position_of(data.spec_serialize(), self.capacity()),
            h < self.capacity(),
    {
        let s = data.serialize();
        hash_position(s.as_str(), self.size)
    }

    /// A bucket returned by the successor search is one of the ring's
    /// buckets, and the search answers exactly when some occupant exists.
    proof fn lemma_occupants_exist(&self)
        ensures
            self.has_occupants() <==> exists|p: nat, x: T| #[trigger] self.bucket(p).contains(x),
    {
        if self.has_occupants() {
            let p = choose|p: nat| self.occupied(p);
            let x = choose|x: T| self.bucket(p).contains(x);
            assert(self.bucket(p).contains(x));
        }
        if exists|p: nat, x: T| #[trigger] self.bucket(p).contains(x) {
            let (p, x) = choose|p: nat, x: T| self.bucket(p).contains(x);
            assert(self.occupied(p));
        }
    }

    /// Finds the index of the bucket at position `p`, if one exists.
    fn find_bucket(&self, p: usize) -> (r: Option<usize>)
        ensures
            match r {
                Some(i) => 0 <= i < self.storage@.len() && self.storage@[i as int].pos == p,
                None => forall|i: int|
                    0 <= i < self.storage@.len() ==> (#[trigger] self.storage@[i].pos) != p,
            },
    {
        let mut i: usize = 0;
        while i < self.storage.len()
            invariant
                0 <= i <= self.storage@.len(),
                forall|k: int| 0 <= k < i ==> (#[trigger] self.storage@[k].pos) != p,
            decreases self.storage@.len() - i,
        {
            if self.storage[i].pos == p {
                return Some(i);
            }
            i = i + 1;
        }
        None
    }

    /// Whether some item of the vector serializes to the same form as `s`.
    fn items_have_ser(items: &Vec<T>, s: &String) -> (b: bool)
        ensures
            b == exists|j: int|
                0 <= j < items@.len() && (#[trigger] items@[j]).spec_serialize() == s@,
    {
        let mut j: usize = 0;
        while j < items.len()
            invariant
                0 <= j <= items@.len(),
                forall|k: int|
                    0 <= k < j ==> (#[trigger] items@[k]).spec_serialize() != s@,
            decreases items@.len() - j,
        {
            let it = items[j].serialize();
            if it == *s {
                return true;
            }
            j = j + 1;
        }
        false
    }

    /// The index at which a bucket for position `p` should be inserted to
    /// keep the storage sorted, assuming no bucket carries `p` yet.
    fn insertion_point(&self, p: usize) -> (r: usize)
        requires
            self.wf(),
            forall|i: int|
                0 <= i < self.storage@.len() ==> (#[trigger] self.storage@[i].pos) != p,
        ensures
            0 <= r <= self.storage@.len(),
            forall|k: int| 0 <= k < r ==> (#[trigger] self.storage@[k].pos) < p,
            forall|k: int|
                r <= k < self.storage@.len() ==> (#[trigger] self.storage@[k].pos) > p,
    {
        let mut i: usize = 0;
        while i < self.storage.len()
            invariant
                0 <= i <= self.storage@.len(),
                forall|k: int| 0 <= k < i ==> (#[trigger] self.storage@[k].pos) < p,
                forall|k: int|
                    0 <= k < self.storage@.len() ==> (#[trigger] self.storage@[k].pos) != p,
                self.wf(),
            decreases self.storage@.len() - i,
        {
            if self.storage[i].pos > p {
                return i;
            }
            i = i + 1;
        }
        i
    }

    /// Two rings with equal capacity whose storages agree everywhere except
    /// possibly at index `i` hold the same bucket at any position other
    /// than the one index `i` carries.
    proof fn lemma_frame_pointwise(a: &Self, b: &Self, i: int, q: nat)
        requires
            a.wf(),
            b.wf(),
            a.storage@.len() == b.storage@.len(),
            forall|k: int|
                0 <= k < a.storage@.len() && k != i ==> a.storage@[k] == b.storage@[k],
            forall|k: int|
                0 <= k < a.storage@.len() ==> (#[trigger] a.storage@[k].pos) == b.storage@[k].pos,
            0 <= i < a.storage@.len(),
            q != a.storage@[i].pos as nat,
        ensures
            a.bucket(q) == b.bucket(q),
    {
        if a.has_pos(q) {
            let k = a.idx_of(q);
            a.lemma_bucket_at_index(k);
            assert(b.storage@[k].pos as nat == q);
            b.lemma_bucket_at_index(k);
            assert(k != i);
            assert(a.storage@[k] == b.storage@[k]);
        } else {
            if b.has_pos(q) {
                let k = b.idx_of(q);
                assert(a.storage@[k].pos as nat == q);
            }
            assert(!b.has_pos(q));
        }
    }

    /// A ring whose storage is another's with one bucket inserted at index
    /// `j` holds the same bucket at any position other than the inserted
    /// bucket's.
    proof fn lemma_frame_insert(a: &Self, b: &Self, j: int, q: nat)
        requires
            a.wf(),
            b.wf(),
            0 <= j <= a.storage@.len(),
            b.storage@.len() == a.storage@.len() + 1,
            forall|k: int| 0 <= k < j ==> b.storage@[k] == a.storage@[k],
            forall|k: int|
                j < k < b.storage@.len() ==> b.storage@[k] == a.storage@[k - 1],
            q != b.storage@[j].pos as nat,
        ensures
            a.bucket(q) == b.bucket(q),
    {
        if a.has_pos(q) {
            let k = a.idx_of(q);
            a.lemma_bucket_at_index(k);
            let k2: int = if k < j {
                k
            } else {
                k + 1
            };
            assert(b.storage@[k2] == a.storage@[k]);
            b.lemma_bucket_at_index(k2);
        } else {
            if b.has_pos(q) {
                let k2 = b.idx_of(q);
                assert(k2 != j);
                let k: int = if k2 < j {
                    k2
                } else {
                    k2 - 1
                };
                assert(a.storage@[k] == b.storage@[k2]);
                assert(a.has_pos(q));
            }
            assert(!b.has_pos(q));
        }
    }

    /// Pushing one element onto a sequence inserts it into the element set.
    proof fn lemma_push_to_set(s: Seq<T>, v: T)
        ensures
            s.push(v).to_set() == s.to_set().insert(v),
    {
        assert forall|x: T|
            #[trigger] s.push(v).to_set().contains(x) == s.to_set().insert(v).contains(x) by {
            if s.push(v).to_set().contains(x) {
                assert(s.push(v).contains(x));
                let k = choose|k: int| 0 <= k < s.push(v).len() && s.push(v)[k] == x;
                if k < s.len() {
                    assert(s[k] == x);
                    assert(s.contains(x));
                    assert(s.to_set().contains(x));
                } else {
                    assert(x == v);
                }
            }
            if s.to_set().insert(v).contains(x) {
                if s.to_set().contains(x) {
                    assert(s.contains(x));
                    let k = choose|k: int| 0 <= k < s.len() && s[k] == x;
                    assert(s.push(v)[k] == x);
                } else {
                    assert(x == v);
                    assert(s.push(v)[s.len() as int] == v);
                }
                assert(s.push(v).contains(x));
            }
        }
        assert(s.push(v).to_set() =~= s.to_set().insert(v));
    }

    /// An occupant only ever sits at the position its serialized form
    /// hashes to.
    pub proof fn lemma_occupant_position(&self, p: nat, x: T)
        requires
            self.wf(),
            self.bucket(p).contains(x),
        ensures
            p == position_of(x.spec_serialize(), self.capacity()),
            p < self.capacity(),
    {
        assert(self.has_pos(p));
        let k = self.idx_of(p);
        assert(self.storage@[k].items@.contains(x));
        let j = choose|j: int|
            0 <= j < self.storage@[k].items@.len() && self.storage@[k].items@[j] == x;
    }

    /// Whether `p` is the position that a clockwise successor search
    /// starting at `h` stops at: the first occupied position at or after
    /// `h`, or, when no position at or after `h` is occupied, the first
    /// occupied position from the start of the index space (wrap-around).
    pub open spec fn is_nearest(&self, h: nat, p: nat) -> bool {
        &&& self.occupied(p)
        &&& if exists|q: nat| h <= q && self.occupied(q) {
            h <= p && (forall|q: nat| h <= q < p ==> !self.occupied(q))
        } else {
            forall|q: nat| q < p ==> !self.occupied(q)
        }
    }

    /// A successor search has at most one answer.
    pub proof fn lemma_nearest_unique(&self, h: nat, p1: nat, p2: nat)
        requires
            self.is_nearest(h, p1),
            self.is_nearest(h, p2),
        ensures
            p1 == p2,
    {
    }

    /// Wrap-around law: when exactly one position of the ring is occupied,
    /// the successor search finds it from every starting point.
    pub proof fn lemma_single_position_nearest(&self, i: nat, h: nat)
        requires
            self.occupied(i),
            forall|q: nat| q != i ==> !self.occupied(q),
        ensures
            self.is_nearest(h, i),
    {
        if exists|q: nat| h <= q && self.occupied(q) {
            let q = choose|q: nat| h <= q && self.occupied(q);
            assert(q == i);
        }
    }

    /// Consistent-hashing movement: when one more position becomes
    /// occupied and nothing else changes, a successor search that used to
    /// stop at `p` now stops either still at `p` or at the newly occupied
    /// position — never at a third one. So a joining node only ever takes
    /// requests for itself; it never moves a request between the others.
    pub proof fn lemma_nearest_after_occupying(a: &Self, b: &Self, pnew: nat, h: nat, p: nat)
        requires
            forall|q: nat| q != pnew ==> (a.occupied(q) <==> b.occupied(q)),
            b.occupied(pnew),
            a.is_nearest(h, p),
        ensures
            b.is_nearest(h, p) || b.is_nearest(h, pnew),
    {
        if exists|q: nat| h <= q && a.occupied(q) {
            assert(h <= p);
            if h <= pnew < p {
                assert(b.is_nearest(h, pnew)) by {
                    assert forall|q: nat| h <= q < pnew implies !b.occupied(q) by {
                        assert(!a.occupied(q));
                    }
                }
            } else {
                assert(b.is_nearest(h, p)) by {
                    assert(b.occupied(p));
                    assert forall|q: nat| h <= q < p implies !b.occupied(q) by {
                        assert(!a.occupied(q));
                    }
                }
            }
        } else {
            if h <= pnew {
                assert(b.is_nearest(h, pnew)) by {
                    assert forall|q: nat| h <= q < pnew implies !b.occupied(q) by {
                        if q != pnew {
                            assert(!a.occupied(q));
                        }
                    }
                }
            } else {
                if pnew < p {
                    assert(b.is_nearest(h, pnew)) by {
                        assert(!(exists|q: nat| h <= q && b.occupied(q))) by {
                            if exists|q: nat| h <= q && b.occupied(q) {
                                let q = choose|q: nat| h <= q && b.occupied(q);
                                assert(a.occupied(q));
                            }
                        }
                        assert forall|q: nat| q < pnew implies !b.occupied(q) by {
                            assert(!a.occupied(q));
                        }
                    }
                } else {
                    assert(b.is_nearest(h, p)) by {
                        assert(!(exists|q: nat| h <= q && b.occupied(q))) by {
                            if exists|q: nat| h <= q && b.occupied(q) {
                                let q = choose|q: nat| h <= q && b.occupied(q);
                                assert(a.occupied(q));
                            }
                        }
                        assert(b.occupied(p));
                        assert forall|q: nat| q < p implies !b.occupied(q) by {
                            if q != pnew {
                                assert(!a.occupied(q));
                            }
                        }
                    }
                }
            }
        }
    }

    /// Returns the occupants of the bucket that the clockwise successor
    /// search from `hash` stops at, or nothing when the ring is empty.
    pub fn find_nearest(&self, hash: usize) -> (r: Option<&Vec<T>>)
        requires
            self.wf(),
            (hash as nat) < self.capacity(),
        ensures
            r.is_some() <==> self.has_occupants(),
            match r {
                Some(b) => exists|p: nat|
                    #[trigger] self.is_nearest(hash as nat, p) && b@.to_set() == self.bucket(p)
                        && b@.len() >= 1,
                None => true,
            },
            r matches Some(b) ==> forall|j1: int, j2: int|
                0 <= j1 < j2 < b@.len() ==> (#[trigger] b@[j1]).spec_serialize() != (
                #[trigger] b@[j2]).spec_serialize(),
    {
        let mut i: usize = 0;
        while i < self.storage.len()
            invariant
                self.wf(),
                0 <= i <= self.storage@.len(),
                forall|k: int| 0 <= k < i ==> (#[trigger] self.storage@[k].pos) < hash,
            decreases self.storage@.len() - i,
        {
            if self.storage[i].pos >= hash {
                proof {
                    self.lemma_bucket_at_index(i as int);
                    let p = self.storage@[i as int].pos as nat;
                    assert(self.bucket(p).contains(self.storage@[i as int].items@[0]));
                    assert(self.occupied(p));
                    assert(self.is_nearest(hash as nat, p)) by {
                        assert forall|q: nat| hash as nat <= q < p implies !self.occupied(q) by {
                            if self.occupied(q) {
                                let x = choose|x: T| self.bucket(q).contains(x);
                                assert(self.has_pos(q));
                                let k = self.idx_of(q);
                                if k < i {
                                    assert(self.storage@[k].pos < hash);
                                } else if k > i {
                                    assert(self.storage@[i as int].pos < self.storage@[k].pos);
                                }
                            }
                        }
                    }
                }
                return Some(&self.storage[i].items);
            }
            i = i + 1;
        }
        proof {
            assert forall|q: nat| hash as nat <= q implies !self.occupied(q) by {
                if self.occupied(q) {
                    let x = choose|x: T| self.bucket(q).contains(x);
                    assert(self.has_pos(q));
                    let k = self.idx_of(q);
                    assert(self.storage@[k].pos < hash);
                }
            }
        }
        if self.storage.len() > 0 {
            proof {
                self.lemma_bucket_at_index(0);
                let p = self.storage@[0].pos as nat;
                assert(self.bucket(p).contains(self.storage@[0].items@[0]));
                assert(self.occupied(p));
                assert(self.is_nearest(hash as nat, p)) by {
                    assert forall|q: nat| q < p implies !self.occupied(q) by {
                        if self.occupied(q) {
                            let x = choose|x: T| self.bucket(q).contains(x);
                            assert(self.has_pos(q));
                            let k = self.idx_of(q);
                            if k > 0 {
                                assert(self.storage@[0].pos < self.storage@[k].pos);
                            }
                        }
                    }
                }
            }
            return Some(&self.storage[0].items);
        }
        proof {
            assert forall|p: nat| !self.occupied(p) by {
                self.lemma_bucket_absent(p);
            }
        }
        None
    }

    /// Finds the index of an item whose serialized form equals `s`, if any.
    fn find_item(items: &Vec<T>, s: &String) -> (r: Option<usize>)
        ensures
            match r {
                Some(j) => 0 <= j < items@.len() && items@[j as int].spec_serialize() == s@,
                None => forall|k: int|
                    0 <= k < items@.len() ==> (#[trigger] items@[k]).spec_serialize() != s@,
            },
    {
        let mut j: usize = 0;
        while j < items.len()
            invariant
                0 <= j <= items@.len(),
                forall|k: int| 0 <= k < j ==> (#[trigger] items@[k]).spec_serialize() != s@,
            decreases items@.len() - j,
        {
            let it = items[j].serialize();
            if it == *s {
                return Some(j);
            }
            j = j + 1;
        }
        None
    }

    /// Erases the occupant with the given serialized form from its bucket,
    /// if present; a bucket left empty is dropped from the storage. When no
    /// occupant has that serialized form, nothing changes.
    pub fn remove(&mut self, data: &T)
        requires
            old(self).wf(),
        ensures
            final(self).wf(),
            final(self).capacity() == old(self).capacity(),
            !old(self).contains_ser(data.spec_serialize()) ==> *final(self) == *old(self),
            forall|q: nat|
                q != position_of(data.spec_serialize(), old(self).capacity())
                    ==> final(self).bucket(q) == old(self).bucket(q),
            forall|x: T|
                #![all_triggers]
                final(self).bucket(
                    position_of(data.spec_serialize(), old(self).capacity()),
                ).contains(x) <==> (old(self).bucket(
                    position_of(data.spec_serialize(), old(self).capacity()),
                ).contains(x) && x.spec_serialize() != data.spec_serialize()),
    {
        let ghost prior = *self;
        let s = data.serialize();
        let idx = hash_position(s.as_str(), self.size);
        let found = self.find_bucket(idx);
        match found {
            Some(i) => {
                let here = &self.storage[i];
                let hit = Self::find_item(&here.items, &s);
                proof {
                    self.lemma_bucket_at_index(i as int);
                }
                match hit {
                    Some(j) => {
                        let mut bucket = self.storage.remove(i);
                        let ghost items0 = bucket.items@;
                        bucket.items.remove(j);
                        if bucket.items.len() > 0 {
                            self.storage.insert(i, bucket);
                            proof {
                                assert(self.storage@.len() == prior.storage@.len());
                                assert forall|k: int|
                                    0 <= k < self.storage@.len() && k != i implies self.storage@[k]
                                    == prior.storage@[k] by {
                                    if k < i {
                                        assert(self.storage@[k] == prior.storage@.remove(
                                            i as int,
                                        )[k]);
                                    } else {
                                        assert(self.storage@[k] == prior.storage@.remove(
                                            i as int,
                                        )[k - 1]);
                                    }
                                }
                                assert(self.storage@[i as int].pos == prior.storage@[i as int].pos);
                                assert(self.storage@[i as int].items@ == items0.remove(j as int));
                                assert(items0 == prior.storage@[i as int].items@);
                                assert forall|k: int|
                                    0 <= k < self.storage@[i as int].items@.len() implies exists|
                                    k0: int,
                                |
                                    0 <= k0 < items0.len() && k0 != j && items0[k0] == (
                                    #[trigger] self.storage@[i as int].items@[k]) by {
                                    if k < j {
                                        assert(items0[k] == self.storage@[i as int].items@[k]);
                                    } else {
                                        assert(items0[k + 1] == self.storage@[i as int].items@[k]);
                                    }
                                }
                                assert(self.wf()) by {
                                    assert forall|k: int|
                                        0 <= k < self.storage@.len() implies (
                                        #[trigger] self.storage@[k].pos) == prior.storage@[k].pos
                                        by {}
                                    assert forall|k: int, j1: int, j2: int|
                                        0 <= k < self.storage@.len() && 0 <= j1 < j2
                                            < self.storage@[k].items@.len() implies (
                                        #[trigger] self.storage@[k].items@[j1]).spec_serialize()
                                            != (#[trigger] self.storage@[k].items@[j2]).spec_serialize()
                                        by {
                                        if k == i {
                                            let a1: int = if j1 < j {
                                                j1
                                            } else {
                                                j1 + 1
                                            };
                                            let a2: int = if j2 < j {
                                                j2
                                            } else {
                                                j2 + 1
                                            };
                                            assert(self.storage@[k].items@[j1] == items0[a1]);
                                            assert(self.storage@[k].items@[j2] == items0[a2]);
                                        }
                                    }
                                    assert forall|k: int, l: int|
                                        0 <= k < self.storage@.len() && 0 <= l
                                            < self.storage@[k].items@.len() implies position_of(
                                        (#[trigger] self.storage@[k].items@[l]).spec_serialize(),
                                        self.size as nat,
                                    ) == self.storage@[k].pos as nat by {
                                        if k == i {
                                            let a: int = if l < j {
                                                l
                                            } else {
                                                l + 1
                                            };
                                            assert(self.storage@[k].items@[l] == items0[a]);
                                        }
                                    }
                                }
                                prior.lemma_bucket_at_index(i as int);
                                self.lemma_bucket_at_index(i as int);
                                assert forall|q: nat| q != idx as nat implies self.bucket(q)
                                    == prior.bucket(q) by {
                                    Self::lemma_frame_pointwise(&prior, self, i as int, q);
                                }
                                assert forall|x: T| self.bucket(idx as nat).contains(x) implies (
                                prior.bucket(idx as nat).contains(x) && x.spec_serialize()
                                    != data.spec_serialize()) by {
                                    let k = choose|k: int|
                                        0 <= k < self.storage@[i as int].items@.len()
                                            && self.storage@[i as int].items@[k] == x;
                                    let k0 = choose|k0: int|
                                        0 <= k0 < items0.len() && k0 != j && items0[k0]
                                            == self.storage@[i as int].items@[k];
                                    assert(items0.contains(x));
                                    assert(items0[k0].spec_serialize() != items0[
                                        j as int].spec_serialize());
                                }
                                assert forall|x: T|
                                    prior.bucket(idx as nat).contains(x) && x.spec_serialize()
                                        != data.spec_serialize() implies self.bucket(
                                    idx as nat,
                                ).contains(x) by {
                                    let k0 = choose|k0: int|
                                        0 <= k0 < items0.len() && items0[k0] == x;
                                    assert(k0 != j);
                                    let k: int = if k0 < j {
                                        k0
                                    } else {
                                        k0 - 1
                                    };
                                    assert(self.storage@[i as int].items@[k] == x);
                                    assert(self.storage@[i as int].items@.contains(x));
                                }
                            }
                        } else {
                            proof {
                                assert(self.storage@ == prior.storage@.remove(i as int));
                                assert forall|k: int|
                                    0 <= k < i implies self.storage@[k] == prior.storage@[k] by {}
                                assert forall|k: int|
                                    i <= k < self.storage@.len() implies self.storage@[k]
                                    == prior.storage@[k + 1] by {}
                                assert(self.wf());
                                assert(items0.len() == 1 && j == 0) by {
                                    assert(items0.remove(j as int).len() == 0);
                                }
                                assert forall|q: nat| q != idx as nat implies self.bucket(q)
                                    == prior.bucket(q) by {
                                    assert(prior.storage@[i as int].pos as nat == idx as nat);
                                    Self::lemma_frame_insert(self, &prior, i as int, q);
                                }
                                assert forall|k: int|
                                    0 <= k < self.storage@.len() implies (
                                    #[trigger] self.storage@[k].pos) as nat != idx as nat by {
                                    if k < i {
                                        assert(prior.storage@[k].pos < prior.storage@[i as int].pos);
                                    } else {
                                        assert(self.storage@[k] == prior.storage@[k + 1]);
                                        assert(prior.storage@[k + 1].pos > prior.storage@[i as int].pos);
                                    }
                                }
                                self.lemma_bucket_absent(idx as nat);
                                prior.lemma_bucket_at_index(i as int);
                                assert forall|x: T|
                                    prior.bucket(idx as nat).contains(x) implies x.spec_serialize()
                                    == data.spec_serialize() by {
                                    let k0 = choose|k0: int|
                                        0 <= k0 < items0.len() && items0[k0] == x;
                                    assert(k0 == 0);
                                }
                            }
                        }
                    },
                    None => {
                        proof {
                            assert forall|x: T|
                                self.bucket(idx as nat).contains(x) implies x.spec_serialize()
                                != data.spec_serialize() by {
                                let k = choose|k: int|
                                    0 <= k < self.storage@[i as int].items@.len()
                                        && self.storage@[i as int].items@[k] == x;
                            }
                            assert(!self.contains_ser(data.spec_serialize()));
                        }
                    },
                }
            },
            None => {
                proof {
                    self.lemma_bucket_absent(idx as nat);
                    assert(!self.contains_ser(data.spec_serialize()));
                }
            },
        }
    }

    /// Inserts an occupant into the bucket at the position its serialized
    /// form hashes to. Idempotent per serialized form: when an occupant
    /// with the same serialized form is already stored, nothing changes.
    pub fn add(&mut self, data: T)
        requires
            old(self).wf(),
        ensures
            final(self).wf(),
            final(self).capacity() == old(self).capacity(),
            old(self).contains_ser(data.spec_serialize()) ==> *final(self) == *old(self),
            !old(self).contains_ser(data.spec_serialize()) ==> final(self).bucket(
                position_of(data.spec_serialize(), old(self).capacity()),
            ) == old(self).bucket(position_of(data.spec_serialize(), old(self).capacity())).insert(
                data,
            ),
            forall|q: nat|
                q != position_of(data.spec_serialize(), old(self).capacity())
                    ==> final(self).bucket(q) == old(self).bucket(q),
    {
        let ghost prior = *self;
        let s = data.serialize();
        let idx = hash_position(s.as_str(), self.size);
        let found = self.find_bucket(idx);
        match found {
            Some(i) => {
                let here = &self.storage[i];
                let present = Self::items_have_ser(&here.items, &s);
                proof {
                    self.lemma_bucket_at_index(i as int);
                    if present {
                        let j = choose|j: int|
                            0 <= j < self.storage@[i as int].items@.len() && (
                            #[trigger] self.storage@[i as int].items@[j]).spec_serialize() == s@;
                        assert(self.storage@[i as int].items@.to_set().contains(
                            self.storage@[i as int].items@[j],
                        ));
                        assert(self.contains_ser(data.spec_serialize()));
                    } else {
                        if set_has_ser(self.bucket(idx as nat), s@) {
                            let x = choose|x: T|
                                self.bucket(idx as nat).contains(x) && x.spec_serialize() == s@;
                            assert(self.storage@[i as int].items@.contains(x));
                        }
                        assert(!self.contains_ser(data.spec_serialize()));
                    }
                }
                if present {
                    return ;
                }
                let mut bucket = self.storage.remove(i);
                let ghost items0 = bucket.items@;
                bucket.items.push(data);
                self.storage.insert(i, bucket);
                proof {
                    assert(self.storage@.len() == prior.storage@.len());
                    assert forall|k: int|
                        0 <= k < self.storage@.len() && k != i implies self.storage@[k]
                        == prior.storage@[k] by {
                        if k < i {
                            assert(self.storage@[k] == prior.storage@.remove(i as int)[k]);
                        } else {
                            assert(self.storage@[k] == prior.storage@.remove(i as int)[k - 1]);
                        }
                    }
                    assert(self.storage@[i as int].pos == prior.storage@[i as int].pos);
                    assert(self.storage@[i as int].items@ == items0.push(data));
                    assert(items0 == prior.storage@[i as int].items@);
                    assert(self.wf()) by {
                        assert forall|k: int|
                            0 <= k < self.storage@.len() implies (#[trigger] self.storage@[k].pos)
                            == prior.storage@[k].pos by {}
                        assert forall|k: int, j1: int, j2: int|
                            0 <= k < self.storage@.len() && 0 <= j1 < j2
                                < self.storage@[k].items@.len() implies (
                            #[trigger] self.storage@[k].items@[j1]).spec_serialize() != (
                            #[trigger] self.storage@[k].items@[j2]).spec_serialize() by {
                            if k == i && j2 == items0.len() {
                                assert(self.storage@[k].items@[j1] == items0[j1]);
                            }
                        }
                        assert forall|k: int, j: int|
                            0 <= k < self.storage@.len() && 0 <= j
                                < self.storage@[k].items@.len() implies position_of(
                            (#[trigger] self.storage@[k].items@[j]).spec_serialize(),
                            self.size as nat,
                        ) == self.storage@[k].pos as nat by {
                            if k == i && j < items0.len() {
                                assert(self.storage@[k].items@[j] == items0[j]);
                            }
                        }
                    }
                    prior.lemma_bucket_at_index(i as int);
                    self.lemma_bucket_at_index(i as int);
                    Self::lemma_push_to_set(items0, data);
                    assert(self.bucket(idx as nat) == prior.bucket(idx as nat).insert(data));
                    assert forall|q: nat| q != idx as nat implies self.bucket(q) == prior.bucket(
                        q,
                    ) by {
                        Self::lemma_frame_pointwise(&prior, self, i as int, q);
                    }
                }
            },
            None => {
                proof {
                    prior.lemma_bucket_absent(idx as nat);
                    assert(!prior.contains_ser(data.spec_serialize()));
                }
                let j = self.insertion_point(idx);
                let mut items: Vec<T> = Vec::new();
                items.push(data);
                let bucket = Bucket { pos: idx, items };
                self.storage.insert(j, bucket);
                proof {
                    assert(self.storage@.len() == prior.storage@.len() + 1);
                    assert forall|k: int| 0 <= k < j implies self.storage@[k] == prior.storage@[k]
                        by {}
                    assert forall|k: int|
                        j < k < self.storage@.len() implies self.storage@[k] == prior.storage@[k
                        - 1] by {}
                    assert(self.storage@[j as int].pos == idx);
                    assert(self.storage@[j as int].items@ =~= seq![data]);
                    assert(self.wf()) by {
                        assert forall|k1: int, k2: int|
                            0 <= k1 < k2 < self.storage@.len() implies (
                            #[trigger] self.storage@[k1].pos) < (
                            #[trigger] self.storage@[k2].pos) by {
                            if k1 == j {
                                assert(self.storage@[k2] == prior.storage@[k2 - 1]);
                            } else if k2 == j {
                                assert(self.storage@[k1] == prior.storage@[k1]);
                            } else if k1 < j && k2 > j {
                                assert(prior.storage@[k1].pos < idx);
                                assert(prior.storage@[k2 - 1].pos > idx);
                            }
                        }
                    }
                    self.lemma_bucket_at_index(j as int);
                    assert(self.bucket(idx as nat) =~= prior.bucket(idx as nat).insert(data)) by {
                        assert(self.storage@[j as int].items@.to_set() =~= Set::<T>::empty().insert(
                            data,
                        )) by {
                            assert forall|x: T|
                                self.storage@[j as int].items@.to_set().contains(x) implies x
                                == data by {
                                let k = choose|k: int|
                                    0 <= k < self.storage@[j as int].items@.len()
                                        && self.storage@[j as int].items@[k] == x;
                            }
                            assert(self.storage@[j as int].items@[0] == data);
                        }
                    }
                    assert forall|q: nat| q != idx as nat implies self.bucket(q) == prior.bucket(
                        q,
                    ) by {
                        Self::lemma_frame_insert(&prior, self, j as int, q);
                    }
                }
            },
        }
    }
}

impl<T: Serializable> RingBuffer<T> for InMemoryRingBuffer<T> {
    open spec fn spec_capacity(&self) -> nat {
        self.capacity()
    }

    open spec fn spec_bucket(&self, p: nat) -> Set<T> {
        self.bucket(p)
    }

    open spec fn spec_wf(&self) -> bool {
        self.wf()
    }

    fn add(&mut self, data: T) {
        InMemoryRingBuffer::add(self, data)
    }

    fn remove(&mut self, data: &T) {
        InMemoryRingBuffer::remove(self, data)
    }

    fn find_nearest(&self, hash: usize) -> (r: Option<&Vec<T>>) {
        let r = InMemoryRingBuffer::find_nearest(self, hash);
        proof {
            self.lemma_occupants_exist();
            match r {
                Some(b) => {
                    let p = choose|p: nat|
                        #[trigger] self.is_nearest(hash as nat, p) && b@.to_set() == self.bucket(
                            p,
                        ) && b@.len() >= 1;
                    assert(b@.to_set() == self.spec_bucket(p) && b@.len() >= 1);
                },
                None => {},
            }
        }
        r
    }

    fn hash_of<S: Serializable>(&self, data: &S) -> (h: usize) {
        InMemoryRingBuffer::hash_of(self, data)
    }
}

} // verus!
