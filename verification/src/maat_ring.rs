//! The node-level view of the ring: membership of physical nodes with
//! their virtual replicas, and routing of serializable requests.

use crate::maat_node::MaatNode;
use crate::maat_node::Server;
use crate::ring_buffer::position_of;
use crate::ring_buffer::InMemoryRingBuffer;
use vstd::prelude::*;
use vstd::string::StringExecFns;

verus! {

broadcast use vstd::seq_lib::group_to_multiset_ensures;

/// A value with a stable serialized text form. Two values that serialize
/// identically are treated as equal by the ring; the serialized form is the
/// only thing the ring's hash function consumes.
pub trait Serializable {
    /// The serialized form of the value. Types whose impl leaves this
    /// default in place say nothing about what they serialize to.
    open spec fn spec_serialize(&self) -> Seq<char> {
        vstd::pervasive::arbitrary()
    }

    /// Produces the serialized form.
    fn serialize(&self) -> (s: String)
        ensures
            s@ == self.spec_serialize(),
    ;
}

/// A serializable envelope built from a payload.
pub trait Wrapper<T>: Serializable + Sized {
    /// The wrapped payload.
    spec fn spec_data(&self) -> T;

    /// Wraps a payload.
    fn of(data: T) -> (r: Self)
        ensures
            r.spec_data() == data,
    ;
}

/// A request around a serializable payload. Its serialized form encloses
/// the payload's serialized form in a fixed pair of delimiters, so that raw
/// payloads and wrapped requests cannot collide in the hash input space.
pub struct Request<T> {
    data: T,
}

impl<T: Serializable> Serializable for Request<T> {
    closed spec fn spec_serialize(&self) -> Seq<char> {
        seq!['['] + self.data.spec_serialize() + seq![']']
    }

    fn serialize(&self) -> (s: String) {
        let mut s = String::from_str("[");
        let inner = self.data.serialize();
        s.append(inner.as_str());
        s.append("]");
        proof {
            reveal_strlit("[");
            reveal_strlit("]");
            assert("["@ =~= seq!['[']);
            assert("]"@ =~= seq![']']);
            assert(s@ =~= self.spec_serialize());
        }
        s
    }
}

impl<T: Serializable> Wrapper<T> for Request<T> {
    closed spec fn spec_data(&self) -> T {
        self.data
    }

    fn of(data: T) -> (r: Self) {
        Request { data }
    }
}

/// The error returned by `route` when the ring holds no node at all.
#[derive(Debug)]
pub struct NotFound;

/// The error kinds of membership operations: an unknown node, a malformed
/// or conflicting input, and an invariant breach detected before any state
/// was changed.
#[derive(Debug, Clone, Copy, PartialEq, Eq, Structural)]
pub enum MaatError {
    NotFound,
    InvalidArgument,
    Internal,
}

/// The node-level view of a consistent-hash ring: membership of physical
/// nodes and routing of requests. Exposed as a trait so that callers
/// depend only on this behaviour.
pub trait MaatRing: Sized {
    /// The membership invariant that every operation preserves.
    spec fn wf_spec(&self) -> bool;

    /// The accepted physical nodes, in order of acceptance.
    spec fn members_spec(&self) -> Seq<Server>;

    /// The configured number of virtual replicas per physical node.
    spec fn replicas_spec(&self) -> nat;

    /// The ring's capacity.
    spec fn capacity_spec(&self) -> nat;

    /// Whether the identity is recorded, as a member's or a replica's.
    spec fn holds_id_spec(&self, id: Seq<char>) -> bool;

    /// Whether some recorded node serializes to `s`.
    spec fn holds_ser_spec(&self, s: Seq<char>) -> bool;

    /// The identities associated with a member: its own and its replicas'.
    spec fn assoc_ids_spec(&self, member_id: Seq<char>) -> Set<Seq<char>>;

    /// Whether some accepted physical node carries the identity.
    open spec fn is_member_id_spec(&self, id: Seq<char>) -> bool {
        exists|i: int|
            0 <= i < self.members_spec().len() && (#[trigger] self.members_spec()[i]).spec_id()
                == id
    }

    /// Joins a physical node. A non-physical node is rejected; joining an
    /// accepted identity again is a no-op; on success the membership grows
    /// by exactly this node; on any error nothing changes.
    fn accept(&mut self, node: &Server) -> (r: Result<(), MaatError>)
        requires
            old(self).wf_spec(),
        ensures
            final(self).wf_spec(),
            final(self).replicas_spec() == old(self).replicas_spec(),
            final(self).capacity_spec() == old(self).capacity_spec(),
            !node.spec_is_physical() ==> r == Err::<(), MaatError>(MaatError::InvalidArgument)
                && *final(self) == *old(self),
            node.spec_is_physical() && old(self).is_member_id_spec(node.spec_id()) ==> r == Ok::<
                (),
                MaatError,
            >(()) && *final(self) == *old(self),
            node.spec_is_physical() && !old(self).is_member_id_spec(node.spec_id()) ==> (r == Ok::<
                (),
                MaatError,
            >(()) && final(self).members_spec() == old(self).members_spec().push(*node)) || ((
            r matches Err(_)) && *final(self) == *old(self)),
            node.spec_is_physical() && !old(self).is_member_id_spec(node.spec_id()) && !old(
                self,
            ).holds_id_spec(node.spec_id()) && !old(self).holds_ser_spec(node.spec_serialize())
                && old(self).replicas_spec() == 0 ==> r == Ok::<(), MaatError>(())
                && final(self).members_spec() == old(self).members_spec().push(*node),
            r matches Ok(_) ==> final(self).is_member_id_spec(node.spec_id()),
            r matches Ok(_) ==> forall|id: Seq<char>|
                #[trigger] old(self).holds_id_spec(id) ==> final(self).holds_id_spec(id),
            r matches Ok(_) ==> final(self).holds_id_spec(node.spec_id()),
            r matches Ok(_) ==> forall|id: Seq<char>|
                #[trigger] final(self).holds_id_spec(id) ==> (old(self).holds_id_spec(id)
                    || final(self).assoc_ids_spec(node.spec_id()).contains(id)),
    ;

    /// Removes a previously accepted physical node together with all of
    /// its replicas; an unknown identity is rejected with `NotFound`.
    fn remove(&mut self, node: &Server) -> (r: Result<(), MaatError>)
        requires
            old(self).wf_spec(),
        ensures
            final(self).wf_spec(),
            final(self).replicas_spec() == old(self).replicas_spec(),
            final(self).capacity_spec() == old(self).capacity_spec(),
            (r matches Ok(_)) <==> old(self).is_member_id_spec(node.spec_id()),
            r matches Err(e) ==> e == MaatError::NotFound && *final(self) == *old(self),
            r matches Ok(_) ==> exists|i: int|
                0 <= i < old(self).members_spec().len() && (#[trigger] old(
                    self,
                ).members_spec()[i]).spec_id() == node.spec_id() && final(self).members_spec()
                    == old(self).members_spec().remove(i),
            r matches Ok(_) ==> !final(self).holds_id_spec(node.spec_id()),
            r matches Ok(_) ==> forall|id: Seq<char>|
                #[trigger] final(self).holds_id_spec(id) <==> (old(self).holds_id_spec(id) && !old(
                    self,
                ).assoc_ids_spec(node.spec_id()).contains(id)),
    ;

    /// Routes a request to a single accepted physical node; fails exactly
    /// when no node is accepted; with one accepted node every request
    /// routes to it.
    fn route<T: Serializable>(&self, request: &Request<T>) -> (r: Result<Server, NotFound>)
        requires
            self.wf_spec(),
        ensures
            r matches Ok(s) ==> self.members_spec().contains(s) && s.spec_is_physical(),
            r.is_ok() <==> self.members_spec().len() > 0,
            self.members_spec().len() == 1 ==> r == Ok::<Server, NotFound>(self.members_spec()[0]),
    ;

    /// The position a serializable value hashes to on this ring.
    fn hash<T: Serializable>(&self, data: &T) -> (h: usize)
        requires
            self.wf_spec(),
        ensures
            h as nat == position_of(data.spec_serialize(), self.capacity_spec()),
            h < self.capacity_spec(),
    ;
}

/// One accepted physical node together with its virtual replicas.
struct Membership {
    node: Server,
    replicas: Vec<Server>,
}

/// The consistent-hash ring: a bucketed circular index of servers plus the
/// directories that relate each accepted physical node to its virtual
/// replicas and back.
pub struct DefaultMaatRing {
    ring: InMemoryRingBuffer<Server>,
    replicas: usize,
    memberships: Vec<Membership>,
}

impl DefaultMaatRing {
    /// The configured number of virtual replicas per physical node.
    pub closed spec fn spec_replicas(&self) -> nat {
        self.replicas as nat
    }

    /// The ring's capacity.
    pub closed spec fn spec_capacity(&self) -> nat {
        self.ring.capacity()
    }

    /// The accepted physical nodes, in order of acceptance.
    pub closed spec fn members(&self) -> Seq<Server> {
        Seq::new(self.memberships@.len(), |i: int| self.memberships@[i].node)
    }

    /// How many physical nodes are accepted.
    pub open spec fn member_count(&self) -> nat {
        self.members().len()
    }

    /// Whether some accepted physical node carries the identity `id`.
    pub open spec fn is_member_id(&self, id: Seq<char>) -> bool {
        exists|i: int|
            0 <= i < self.members().len() && (#[trigger] self.members()[i]).spec_id() == id
    }

    spec fn entry_has_id(e: Membership, id: Seq<char>) -> bool {
        ||| e.node.spec_id() == id
        ||| exists|j: int|
            0 <= j < e.replicas@.len() && (#[trigger] e.replicas@[j]).spec_id() == id
    }

    spec fn entry_has_ser(e: Membership, s: Seq<char>) -> bool {
        ||| e.node.spec_serialize() == s
        ||| exists|j: int|
            0 <= j < e.replicas@.len() && (#[trigger] e.replicas@[j]).spec_serialize() == s
    }

    spec fn entry_holds(e: Membership, x: Server) -> bool {
        e.node == x || e.replicas@.contains(x)
    }

    /// Whether the identity `id` appears anywhere in the directories,
    /// either as a physical node's or as a replica's.
    pub closed spec fn holds_id(&self, id: Seq<char>) -> bool {
        exists|i: int|
            0 <= i < self.memberships@.len() && Self::entry_has_id(
                #[trigger] self.memberships@[i],
                id,
            )
    }

    /// Whether some node in the directories serializes to `s`.
    pub closed spec fn holds_ser(&self, s: Seq<char>) -> bool {
        exists|i: int|
            0 <= i < self.memberships@.len() && Self::entry_has_ser(
                #[trigger] self.memberships@[i],
                s,
            )
    }

    /// Whether `x` is one of the nodes recorded in the directories: an
    /// accepted physical node or one of its replicas.
    pub closed spec fn holds_node(&self, x: Server) -> bool {
        exists|i: int|
            0 <= i < self.memberships@.len() && Self::entry_holds(
                #[trigger] self.memberships@[i],
                x,
            )
    }

    /// Whether `owner` is the accepted physical node of the entry that
    /// records `x` (as the node itself or as one of its replicas).
    pub closed spec fn owns(&self, owner: Server, x: Server) -> bool {
        exists|i: int|
            0 <= i < self.memberships@.len() && (#[trigger] self.memberships@[i]).node == owner
                && Self::entry_holds(self.memberships@[i], x)
    }

    /// Whether `s` owns some occupant of the bucket that the clockwise
    /// successor search for a request with serialized form `q` stops at:
    /// exactly the nodes a routing decision for `q` may yield.
    pub closed spec fn routes_to(&self, q: Seq<char>, s: Server) -> bool {
        exists|p: nat, x: Server|
            self.ring.is_nearest(position_of(q, self.spec_capacity()), p) && (
            #[trigger] self.ring.bucket(p).contains(x)) && self.owns(s, x)
    }

    /// The identities associated with the member of identity `member_id`:
    /// its own and those of its replicas; empty when no such member exists.
    pub closed spec fn assoc_ids(&self, member_id: Seq<char>) -> Set<Seq<char>> {
        if exists|i: int|
            0 <= i < self.memberships@.len() && (#[trigger] self.memberships@[i]).node.spec_id()
                == member_id {
            let i = choose|i: int|
                0 <= i < self.memberships@.len() && (#[trigger] self.memberships@[i]).node.spec_id()
                    == member_id;
            Set::new(|id: Seq<char>| Self::entry_has_id(self.memberships@[i], id))
        } else {
            Set::<Seq<char>>::empty()
        }
    }

    /// The node recorded at entry `i`: the physical node itself for
    /// `j == -1`, its `j`-th replica otherwise.
    spec fn node_at(&self, i: int, j: int) -> Server {
        if j < 0 {
            self.memberships@[i].node
        } else {
            self.memberships@[i].replicas@[j]
        }
    }

    spec fn valid_coord(&self, i: int, j: int) -> bool {
        0 <= i < self.memberships@.len() && -1 <= j < self.memberships@[i].replicas@.len()
    }

    /// Whether `x` sits in the ring bucket that its serialized form hashes
    /// to.
    spec fn in_ring(&self, x: Server) -> bool {
        self.ring.bucket(position_of(x.spec_serialize(), self.spec_capacity())).contains(x)
    }

    spec fn entry_wf(&self, e: Membership) -> bool {
        &&& e.node.spec_is_physical()
        &&& e.replicas@.len() == self.spec_replicas()
        &&& forall|j: int|
            0 <= j < e.replicas@.len() ==> (#[trigger] e.replicas@[j]).spec_replica_of(&e.node)
                && !e.replicas@[j].spec_is_physical()
        &&& self.in_ring(e.node)
        &&& forall|j: int| 0 <= j < e.replicas@.len() ==> self.in_ring(#[trigger] e.replicas@[j])
    }

    /// The directory invariants: every entry is a physical node with
    /// exactly the configured number of replicas, each replica derived
    /// from its node; all recorded identities and serialized forms are
    /// pairwise distinct; every recorded node sits in the ring at the
    /// position its serialized form hashes to; and the ring holds nothing
    /// else.
    pub closed spec fn wf(&self) -> bool {
        &&& self.ring.wf()
        &&& self.ring.capacity() >= 1
        &&& forall|i: int|
            0 <= i < self.memberships@.len() ==> self.entry_wf(#[trigger] self.memberships@[i])
        &&& forall|i1: int, j1: int, i2: int, j2: int|
            self.valid_coord(i1, j1) && self.valid_coord(i2, j2) && (i1 != i2 || j1 != j2) ==> (
            #[trigger] self.node_at(i1, j1)).spec_id() != (#[trigger] self.node_at(
                i2,
                j2,
            )).spec_id() && self.node_at(i1, j1).spec_serialize() != self.node_at(
                i2,
                j2,
            ).spec_serialize()
        &&& forall|p: nat, x: Server|
            #[trigger] self.ring.bucket(p).contains(x) ==> self.holds_node(x)
    }

    /// Creates an empty ring of the given capacity and replica count. A
    /// capacity below one is rejected.
    pub fn new(capacity: usize, replicas: usize) -> (r: Result<DefaultMaatRing, MaatError>)
        ensures
            match r {
                Ok(m) => capacity >= 1 && m.wf() && m.spec_capacity() == capacity as nat
                    && m.spec_replicas() == replicas as nat && m.member_count() == 0 && (forall|
                    id: Seq<char>,
                |
                    !m.holds_id(id)) && (forall|s: Seq<char>| !m.holds_ser(s)),
                Err(e) => capacity < 1 && e == MaatError::InvalidArgument,
            },
    {
        if capacity < 1 {
            return Err(MaatError::InvalidArgument);
        }
        let m = DefaultMaatRing {
            ring: InMemoryRingBuffer::<Server>::new(capacity),
            replicas,
            memberships: Vec::new(),
        };
        proof {
            assert forall|p: nat, x: Server| #[trigger]
                m.ring.bucket(p).contains(x) implies m.holds_node(x) by {
                assert(m.ring.bucket(p) == Set::<Server>::empty());
            }
            assert(m.wf());
        }
        Ok(m)
    }

    /// The position a serializable value hashes to, in this ring's own
    /// coordinate space.
    pub fn hash<T: Serializable>(&self, data: &T) -> (h: usize)
        requires
            self.wf(),
        ensures
            h as nat == position_of(data.spec_serialize(), self.spec_capacity()),
            h < self.spec_capacity(),
    {
        self.ring.hash_of(data)
    }

    /// Finds the index of the member entry whose node carries `id`.
    fn find_member(&self, id: &String) -> (r: Option<usize>)
        ensures
            match r {
                Some(i) => 0 <= i < self.memberships@.len()
                    && self.memberships@[i as int].node.spec_id() == id@,
                None => !self.is_member_id(id@),
            },
    {
        let mut i: usize = 0;
        while i < self.memberships.len()
            invariant
                0 <= i <= self.memberships@.len(),
                forall|k: int|
                    0 <= k < i ==> (#[trigger] self.memberships@[k]).node.spec_id() != id@,
            decreases self.memberships@.len() - i,
        {
            let nid = self.memberships[i].node.get_id();
            if nid == *id {
                return Some(i);
            }
            i = i + 1;
        }
        proof {
            assert forall|k: int|
                0 <= k < self.members().len() implies (#[trigger] self.members()[k]).spec_id()
                != id@ by {
                assert(self.members()[k] == self.memberships@[k].node);
            }
        }
        None
    }

    /// Whether the entry records the identity `id`.
    fn entry_has_id_exec(e: &Membership, id: &String) -> (b: bool)
        ensures
            b == Self::entry_has_id(*e, id@),
    {
        let nid = e.node.get_id();
        if nid == *id {
            return true;
        }
        let mut j: usize = 0;
        while j < e.replicas.len()
            invariant
                0 <= j <= e.replicas@.len(),
                forall|k: int| 0 <= k < j ==> (#[trigger] e.replicas@[k]).spec_id() != id@,
            decreases e.replicas@.len() - j,
        {
            let rid = e.replicas[j].get_id();
            if rid == *id {
                return true;
            }
            j = j + 1;
        }
        false
    }

    /// Whether some node of the entry serializes to `s`.
    fn entry_has_ser_exec(e: &Membership, s: &String) -> (b: bool)
        ensures
            b == Self::entry_has_ser(*e, s@),
    {
        let nser = e.node.serialize();
        if nser == *s {
            return true;
        }
        let mut j: usize = 0;
        while j < e.replicas.len()
            invariant
                0 <= j <= e.replicas@.len(),
                forall|k: int| 0 <= k < j ==> (#[trigger] e.replicas@[k]).spec_serialize() != s@,
            decreases e.replicas@.len() - j,
        {
            let rser = e.replicas[j].serialize();
            if rser == *s {
                return true;
            }
            j = j + 1;
        }
        false
    }

    /// Whether the identity `id` appears anywhere in the directories.
    fn holds_id_exec(&self, id: &String) -> (b: bool)
        ensures
            b == self.holds_id(id@),
    {
        let mut i: usize = 0;
        while i < self.memberships.len()
            invariant
                0 <= i <= self.memberships@.len(),
                forall|k: int|
                    0 <= k < i ==> !Self::entry_has_id(#[trigger] self.memberships@[k], id@),
            decreases self.memberships@.len() - i,
        {
            if Self::entry_has_id_exec(&self.memberships[i], id) {
                return true;
            }
            i = i + 1;
        }
        false
    }

    /// A recorded node's identity and serialized form are themselves
    /// recorded.
    proof fn lemma_holds_node_parts(&self, x: Server)
        requires
            self.holds_node(x),
        ensures
            self.holds_ser(x.spec_serialize()),
            self.holds_id(x.spec_id()),
    {
        let i = choose|i: int|
            0 <= i < self.memberships@.len() && Self::entry_holds(
                #[trigger] self.memberships@[i],
                x,
            );
        if self.memberships@[i].node == x {
            assert(Self::entry_has_ser(self.memberships@[i], x.spec_serialize()));
            assert(Self::entry_has_id(self.memberships@[i], x.spec_id()));
        } else {
            let j = choose|j: int|
                0 <= j < self.memberships@[i].replicas@.len() && self.memberships@[i].replicas@[j]
                    == x;
            assert(Self::entry_has_ser(self.memberships@[i], x.spec_serialize()));
            assert(Self::entry_has_id(self.memberships@[i], x.spec_id()));
        }
    }

    /// Whether a join of `node` must be rejected as conflicting: its
    /// identity or serialized form is already recorded.
    pub open spec fn accept_conflict(&self, node: Server) -> bool {
        self.holds_id(node.spec_id()) || self.holds_ser(node.spec_serialize())
    }

    /// Whether a batch of freshly replicated virtual nodes can join
    /// without breaching any invariant: identities and serialized forms
    /// are pairwise distinct and collide neither with anything recorded
    /// nor with the joining node itself.
    pub open spec fn fresh_ok(&self, node: Server, fresh: Seq<Server>) -> bool {
        &&& forall|a: int, b: int|
            0 <= a < b < fresh.len() ==> (#[trigger] fresh[a]).spec_id() != (
            #[trigger] fresh[b]).spec_id() && fresh[a].spec_serialize() != fresh[b].spec_serialize()
        &&& forall|a: int|
            0 <= a < fresh.len() ==> (#[trigger] fresh[a]).spec_id() != node.spec_id() && fresh[a].spec_serialize() != node.spec_serialize()
        &&& forall|a: int|
            0 <= a < fresh.len() ==> !self.holds_id((#[trigger] fresh[a]).spec_id())
                && !self.holds_ser(fresh[a].spec_serialize())
    }

    /// Joins a physical node using the given batch of freshly replicated
    /// virtual nodes, so that the join decision is checkable for every
    /// batch the random identity source may produce. The caller-facing
    /// `accept` draws the batch and hands it here. Rejects a non-physical
    /// node and a conflicting one; a join of an already-accepted identity
    /// is a no-op; a clash inside the batch is reported as `Internal` and
    /// changes nothing.
    #[verifier::loop_isolation(false)]
    pub fn accept_with(&mut self, node: &Server, fresh: Vec<Server>) -> (r: Result<
        (),
        MaatError,
    >)
        requires
            old(self).wf(),
            fresh@.len() == old(self).spec_replicas(),
            forall|k: int|
                0 <= k < fresh@.len() ==> (#[trigger] fresh@[k]).spec_replica_of(node) && !fresh@[k].spec_is_physical(),
        ensures
            final(self).wf(),
            final(self).spec_replicas() == old(self).spec_replicas(),
            final(self).spec_capacity() == old(self).spec_capacity(),
            !node.spec_is_physical() ==> r == Err::<(), MaatError>(MaatError::InvalidArgument)
                && *final(self) == *old(self),
            node.spec_is_physical() && old(self).is_member_id(node.spec_id()) ==> r == Ok::<
                (),
                MaatError,
            >(()) && *final(self) == *old(self),
            node.spec_is_physical() && !old(self).is_member_id(node.spec_id()) && old(
                self,
            ).accept_conflict(*node) ==> r == Err::<(), MaatError>(MaatError::InvalidArgument)
                && *final(self) == *old(self),
            node.spec_is_physical() && !old(self).is_member_id(node.spec_id()) && !old(
                self,
            ).accept_conflict(*node) && !old(self).fresh_ok(*node, fresh@) ==> r == Err::<
                (),
                MaatError,
            >(MaatError::Internal) && *final(self) == *old(self),
            node.spec_is_physical() && !old(self).is_member_id(node.spec_id()) && !old(
                self,
            ).accept_conflict(*node) && old(self).fresh_ok(*node, fresh@) ==> r == Ok::<
                (),
                MaatError,
            >(()) && final(self).members() == old(self).members().push(*node),
            node.spec_is_physical() && !old(self).is_member_id(node.spec_id()) && !old(
                self,
            ).accept_conflict(*node) && old(self).fresh_ok(*node, fresh@) ==> forall|id: Seq<char>|
                #[trigger] final(self).holds_id(id) <==> (old(self).holds_id(id) || id
                    == node.spec_id() || exists|k: int|
                    0 <= k < fresh@.len() && (#[trigger] fresh@[k]).spec_id() == id),
            node.spec_is_physical() && !old(self).is_member_id(node.spec_id()) && !old(
                self,
            ).accept_conflict(*node) && old(self).fresh_ok(*node, fresh@) ==> forall|s: Seq<char>|
                #[trigger] final(self).holds_ser(s) <==> (old(self).holds_ser(s) || s
                    == node.spec_serialize() || exists|k: int|
                    0 <= k < fresh@.len() && (#[trigger] fresh@[k]).spec_serialize() == s),
            node.spec_is_physical() && !old(self).is_member_id(node.spec_id()) && !old(
                self,
            ).accept_conflict(*node) && old(self).fresh_ok(*node, fresh@) ==> forall|id: Seq<char>|
                #[trigger] final(self).assoc_ids(node.spec_id()).contains(id) <==> (id
                    == node.spec_id() || exists|k: int|
                    0 <= k < fresh@.len() && (#[trigger] fresh@[k]).spec_id() == id),
            r matches Ok(_) ==> final(self).is_member_id(node.spec_id()),
    {
        if !node.is_physical() {
            return Err(MaatError::InvalidArgument);
        }
        let node_id = node.get_id();
        match self.find_member(&node_id) {
            Some(i) => {
                proof {
                    assert(self.members()[i as int] == self.memberships@[i as int].node);
                    assert(self.is_member_id(node.spec_id()));
                }
                return Ok(());
            },
            None => {},
        }
        if self.holds_id_exec(&node_id) {
            return Err(MaatError::InvalidArgument);
        }
        let node_ser = node.serialize();
        if self.holds_ser_exec(&node_ser) {
            return Err(MaatError::InvalidArgument);
        }
        // All identity and serialized-form checks come before any mutation,
        // so a rejected join leaves the ring untouched.
        let mut k: usize = 0;
        while k < fresh.len()
            invariant
                0 <= k <= fresh@.len(),
                forall|a: int|
                    0 <= a < k ==> (#[trigger] fresh@[a]).spec_id() != node.spec_id() && fresh@[a].spec_serialize() != node.spec_serialize() && !self.holds_id(
                        fresh@[a].spec_id(),
                    ) && !self.holds_ser(fresh@[a].spec_serialize()),
                forall|a: int, b: int|
                    0 <= a < b < k ==> (#[trigger] fresh@[a]).spec_id() != (
                    #[trigger] fresh@[b]).spec_id() && fresh@[a].spec_serialize() != fresh@[b].spec_serialize(),
            decreases fresh@.len() - k,
        {
            let fid = fresh[k].get_id();
            let fser = fresh[k].serialize();
            if fid == node_id || fser == node_ser || self.holds_id_exec(&fid)
                || self.holds_ser_exec(&fser) {
                return Err(MaatError::Internal);
            }
            let mut k2: usize = 0;
            while k2 < k
                invariant
                    0 <= k2 <= k,
                    forall|a: int|
                        0 <= a < k2 ==> (#[trigger] fresh@[a]).spec_id() != fresh@[k as int].spec_id() && fresh@[a].spec_serialize() != fresh@[k as int].spec_serialize(),
                decreases k - k2,
            {
                let pid = fresh[k2].get_id();
                let pser = fresh[k2].serialize();
                if pid == fid || pser == fser {
                    return Err(MaatError::Internal);
                }
                k2 = k2 + 1;
            }
            k = k + 1;
        }
        assert(self.fresh_ok(*node, fresh@));
        // Join: place each replica on the ring, then the node itself, then
        // record the membership.
        let ghost prior = *self;
        let mut i: usize = 0;
        while i < fresh.len()
            invariant
                0 <= i <= fresh@.len(),
                self.ring.wf(),
                self.ring.capacity() == prior.ring.capacity(),
                self.memberships == prior.memberships,
                self.replicas == prior.replicas,
                forall|p: nat, x: Server|
                    #[trigger] self.ring.bucket(p).contains(x) <==> (prior.ring.bucket(p).contains(
                        x,
                    ) || exists|a: int|
                        0 <= a < i && x == fresh@[a] && p == position_of(
                            (#[trigger] fresh@[a]).spec_serialize(),
                            prior.spec_capacity(),
                        )),
            decreases fresh@.len() - i,
        {
            let ghost step = *self;
            proof {
                let fs = fresh@[i as int].spec_serialize();
                let fp = position_of(fs, prior.spec_capacity());
                assert forall|x: Server| self.ring.bucket(fp).contains(x) implies x.spec_serialize()
                    != fs by {
                    if prior.ring.bucket(fp).contains(x) {
                        prior.lemma_holds_node_parts(x);
                    }
                }
                assert(!self.ring.contains_ser(fs));
            }
            let replica = fresh[i].clone();
            self.ring.add(replica);
            i = i + 1;
            proof {
                let a0 = i - 1;
                let fs = fresh@[a0].spec_serialize();
                let fp = position_of(fs, prior.spec_capacity());
                assert forall|p: nat, x: Server|
                    #[trigger] self.ring.bucket(p).contains(x) implies (prior.ring.bucket(
                    p,
                ).contains(x) || exists|a: int|
                    0 <= a < i && x == fresh@[a] && p == position_of(
                        (#[trigger] fresh@[a]).spec_serialize(),
                        prior.spec_capacity(),
                    )) by {
                    if p == fp {
                        assert(self.ring.bucket(p) == step.ring.bucket(p).insert(fresh@[a0]));
                        if x == fresh@[a0] {
                            assert(0 <= a0 < i && x == fresh@[a0] && p == position_of(
                                fresh@[a0].spec_serialize(),
                                prior.spec_capacity(),
                            ));
                        } else {
                            assert(step.ring.bucket(p).contains(x));
                        }
                    } else {
                        assert(self.ring.bucket(p) == step.ring.bucket(p));
                    }
                }
                assert forall|p: nat, x: Server|
                    (prior.ring.bucket(p).contains(x) || exists|a: int|
                        0 <= a < i && x == fresh@[a] && p == position_of(
                            (#[trigger] fresh@[a]).spec_serialize(),
                            prior.spec_capacity(),
                        )) implies #[trigger] self.ring.bucket(p).contains(x) by {
                    if prior.ring.bucket(p).contains(x) {
                        assert(step.ring.bucket(p).contains(x));
                        if p == fp {
                            assert(self.ring.bucket(p) == step.ring.bucket(p).insert(fresh@[a0]));
                        } else {
                            assert(self.ring.bucket(p) == step.ring.bucket(p));
                        }
                    } else {
                        let a = choose|a: int|
                            0 <= a < i && x == fresh@[a] && p == position_of(
                                (#[trigger] fresh@[a]).spec_serialize(),
                                prior.spec_capacity(),
                            );
                        if a < a0 {
                            assert(step.ring.bucket(p).contains(x));
                            if p == fp {
                                assert(self.ring.bucket(p) == step.ring.bucket(p).insert(
                                    fresh@[a0],
                                ));
                            } else {
                                assert(self.ring.bucket(p) == step.ring.bucket(p));
                            }
                        } else {
                            assert(x == fresh@[a0] && p == fp);
                            assert(self.ring.bucket(p) == step.ring.bucket(p).insert(fresh@[a0]));
                        }
                    }
                }
            }
        }
        let ghost mid = *self;
        proof {
            let np = position_of(node.spec_serialize(), prior.spec_capacity());
            assert forall|x: Server| self.ring.bucket(np).contains(x) implies x.spec_serialize()
                != node.spec_serialize() by {
                if prior.ring.bucket(np).contains(x) {
                    prior.lemma_holds_node_parts(x);
                }
            }
            assert(!self.ring.contains_ser(node.spec_serialize()));
        }
        self.ring.add(node.clone());
        proof {
            let np = position_of(node.spec_serialize(), prior.spec_capacity());
            assert(self.ring.bucket(np) == mid.ring.bucket(np).insert(*node));
            assert forall|p: nat, x: Server|
                #[trigger] self.ring.bucket(p).contains(x) <==> (mid.ring.bucket(p).contains(x) || (
                x == *node && p == np)) by {
                if p != np {
                    assert(self.ring.bucket(p) == mid.ring.bucket(p));
                }
            }
        }
        self.memberships.push(Membership { node: node.clone(), replicas: fresh });
        proof {
            let ghost last = prior.memberships@.len() as int;
            assert(self.memberships@.len() == last + 1);
            assert(self.memberships@[last].node == *node);
            assert(self.memberships@[last].replicas@ == fresh@);
            assert forall|q: int| 0 <= q < last implies self.memberships@[q]
                == prior.memberships@[q] by {}
            // the new state is well-formed
            assert forall|i2: int|
                0 <= i2 < self.memberships@.len() implies self.entry_wf(
                #[trigger] self.memberships@[i2],
            ) by {
                let e = self.memberships@[i2];
                if i2 < last {
                    assert(prior.entry_wf(e));
                    assert(self.in_ring(e.node)) by {
                        assert(prior.in_ring(e.node));
                    }
                    assert forall|j: int| 0 <= j < e.replicas@.len() implies self.in_ring(
                        #[trigger] e.replicas@[j],
                    ) by {
                        assert(prior.in_ring(e.replicas@[j]));
                    }
                } else {
                    assert(e.node == *node);
                    assert(self.in_ring(e.node));
                    assert forall|j: int| 0 <= j < e.replicas@.len() implies self.in_ring(
                        #[trigger] e.replicas@[j],
                    ) by {
                        assert(e.replicas@[j] == fresh@[j]);
                        assert(self.ring.bucket(
                            position_of(fresh@[j].spec_serialize(), prior.spec_capacity()),
                        ).contains(fresh@[j]));
                    }
                }
            }
            assert forall|i1: int, j1: int, i2: int, j2: int|
                self.valid_coord(i1, j1) && self.valid_coord(i2, j2) && (i1 != i2 || j1 != j2)
                    implies (#[trigger] self.node_at(i1, j1)).spec_id() != (
                #[trigger] self.node_at(i2, j2)).spec_id() && self.node_at(i1, j1).spec_serialize()
                    != self.node_at(i2, j2).spec_serialize() by {
                Self::lemma_new_coords_distinct(&prior, self, node, fresh@, i1, j1, i2, j2);
            }
            assert forall|p: nat, x: Server| #[trigger]
                self.ring.bucket(p).contains(x) implies self.holds_node(x) by {
                if mid.ring.bucket(p).contains(x) {
                    if prior.ring.bucket(p).contains(x) {
                        let q = choose|q: int|
                            0 <= q < prior.memberships@.len() && Self::entry_holds(
                                #[trigger] prior.memberships@[q],
                                x,
                            );
                        assert(Self::entry_holds(self.memberships@[q], x));
                    } else {
                        let a = choose|a: int|
                            0 <= a < fresh@.len() && x == fresh@[a] && p == position_of(
                                (#[trigger] fresh@[a]).spec_serialize(),
                                prior.spec_capacity(),
                            );
                        assert(self.memberships@[last].replicas@[a] == x);
                        assert(self.memberships@[last].replicas@.contains(x));
                        assert(Self::entry_holds(self.memberships@[last], x));
                    }
                } else {
                    assert(x == *node);
                    assert(Self::entry_holds(self.memberships@[last], x));
                }
            }
            assert(self.wf());
            // the membership view grew by exactly this node
            assert(self.members() =~= prior.members().push(*node));
            assert(self.members()[last].spec_id() == node.spec_id());
            assert(self.is_member_id(node.spec_id()));
            Self::lemma_join_frames(&prior, self, node, fresh@);
        }
        Ok(())
    }

    /// Joins a physical node: draws the configured number of fresh virtual
    /// replicas of it and places the node and all replicas on the ring,
    /// recording them in the directories. Rejects a non-physical node and
    /// one whose identity or serialized form conflicts with what is
    /// present; joining an already-accepted identity is a no-op. A clash
    /// among the freshly drawn identities is reported as `Internal` and
    /// changes nothing; either way the directory invariants hold.
    #[verifier::loop_isolation(false)]
    pub fn accept(&mut self, node: &Server) -> (r: Result<(), MaatError>)
        requires
            old(self).wf(),
        ensures
            final(self).wf(),
            final(self).spec_replicas() == old(self).spec_replicas(),
            final(self).spec_capacity() == old(self).spec_capacity(),
            !node.spec_is_physical() ==> r == Err::<(), MaatError>(MaatError::InvalidArgument)
                && *final(self) == *old(self),
            node.spec_is_physical() && old(self).is_member_id(node.spec_id()) ==> r == Ok::<
                (),
                MaatError,
            >(()) && *final(self) == *old(self),
            node.spec_is_physical() && !old(self).is_member_id(node.spec_id()) && old(
                self,
            ).accept_conflict(*node) ==> r == Err::<(), MaatError>(MaatError::InvalidArgument)
                && *final(self) == *old(self),
            node.spec_is_physical() && !old(self).is_member_id(node.spec_id()) && !old(
                self,
            ).accept_conflict(*node) ==> (r == Ok::<(), MaatError>(()) && final(self).members()
                == old(self).members().push(*node)) || (r == Err::<(), MaatError>(
                MaatError::Internal,
            ) && *final(self) == *old(self)),
            node.spec_is_physical() && !old(self).is_member_id(node.spec_id()) && !old(
                self,
            ).accept_conflict(*node) && old(self).spec_replicas() == 0 ==> r == Ok::<(), MaatError>(
                (),
            ) && final(self).members() == old(self).members().push(*node),
            r matches Ok(_) ==> final(self).is_member_id(node.spec_id()),
            r matches Ok(_) ==> forall|id: Seq<char>|
                #[trigger] old(self).holds_id(id) ==> final(self).holds_id(id),
            r matches Ok(_) ==> final(self).holds_id(node.spec_id()),
            r matches Ok(_) ==> forall|id: Seq<char>|
                #[trigger] final(self).holds_id(id) ==> (old(self).holds_id(id)
                    || final(self).assoc_ids(node.spec_id()).contains(id)),
    {
        let mut fresh: Vec<Server> = Vec::new();
        let mut k: usize = 0;
        while k < self.replicas
            invariant
                0 <= k <= self.replicas,
                fresh@.len() == k,
                forall|a: int|
                    0 <= a < k ==> (#[trigger] fresh@[a]).spec_replica_of(node) && !fresh@[a].spec_is_physical(),
            decreases self.replicas - k,
        {
            fresh.push(node.replicate());
            k = k + 1;
        }
        let ghost fseq = fresh@;
        let r = self.accept_with(node, fresh);
        proof {
            // a join of zero replicas draws nothing, so success is owed
            if node.spec_is_physical() && !old(self).is_member_id(node.spec_id()) && !old(
                self,
            ).accept_conflict(*node) && old(self).spec_replicas() == 0 {
                assert(fseq.len() == 0);
                assert(old(self).fresh_ok(*node, fseq));
            }
            match r {
                Ok(_) => {
                    if old(self).is_member_id(node.spec_id()) {
                        let i = choose|i: int|
                            0 <= i < old(self).members().len() && (#[trigger] old(
                                self,
                            ).members()[i]).spec_id() == node.spec_id();
                        assert(old(self).members()[i] == old(self).memberships@[i].node);
                        assert(Self::entry_has_id(old(self).memberships@[i], node.spec_id()));
                        assert(old(self).holds_id(node.spec_id()));
                    } else {
                        assert(node.spec_is_physical());
                        assert(!old(self).accept_conflict(*node));
                        assert(old(self).fresh_ok(*node, fseq));
                        assert forall|id: Seq<char>| #[trigger]
                            old(self).holds_id(id) implies self.holds_id(id) by {}
                        assert forall|id: Seq<char>| #[trigger]
                            self.holds_id(id) implies (old(self).holds_id(id) || self.assoc_ids(
                            node.spec_id(),
                        ).contains(id)) by {}
                        assert(self.holds_id(node.spec_id()));
                    }
                },
                Err(_) => {},
            }
        }
        r
    }

    /// Removes a previously accepted physical node: erases it and all of
    /// its replicas from the ring and the directories. An unknown identity
    /// is rejected with `NotFound`; on success nothing associated with the
    /// node remains anywhere.
    #[verifier::loop_isolation(false)]
    #[verifier::rlimit(100)]
    pub fn remove(&mut self, node: &Server) -> (r: Result<(), MaatError>)
        requires
            old(self).wf(),
        ensures
            final(self).wf(),
            final(self).spec_replicas() == old(self).spec_replicas(),
            final(self).spec_capacity() == old(self).spec_capacity(),
            (r matches Ok(_)) <==> old(self).is_member_id(node.spec_id()),
            r matches Err(e) ==> e == MaatError::NotFound && *final(self) == *old(self),
            r matches Ok(_) ==> exists|i: int|
                0 <= i < old(self).members().len() && (#[trigger] old(
                    self,
                ).members()[i]).spec_id() == node.spec_id() && final(self).members() == old(
                    self,
                ).members().remove(i),
            r matches Ok(_) ==> !final(self).holds_id(node.spec_id()),
            r matches Ok(_) ==> forall|id: Seq<char>|
                #[trigger] final(self).holds_id(id) <==> (old(self).holds_id(id) && !old(
                    self,
                ).assoc_ids(node.spec_id()).contains(id)),
    {
        let node_id = node.get_id();
        let found = self.find_member(&node_id);
        match found {
            None => Err(MaatError::NotFound),
            Some(i) => {
                proof {
                    assert(self.members()[i as int] == self.memberships@[i as int].node);
                    assert(self.is_member_id(node.spec_id()));
                }
                let ghost prior = *self;
                let entry = self.memberships.remove(i);
                proof {
                    assert(entry == prior.memberships@[i as int]);
                    assert(self.memberships@ == prior.memberships@.remove(i as int));
                }
                self.ring.remove(&entry.node);
                proof {
                    let ns = entry.node.spec_serialize();
                    let np = position_of(ns, prior.spec_capacity());
                    assert forall|p: nat, x: Server|
                        #[trigger] self.ring.bucket(p).contains(x) <==> (prior.ring.bucket(
                            p,
                        ).contains(x) && x.spec_serialize() != ns) by {
                        if p != np {
                            assert(self.ring.bucket(p) == prior.ring.bucket(p));
                            if prior.ring.bucket(p).contains(x) && x.spec_serialize() == ns {
                                prior.ring.lemma_occupant_position(p, x);
                                assert(false);
                            }
                        }
                    }
                }
                let mut j: usize = 0;
                while j < entry.replicas.len()
                    invariant
                        0 <= j <= entry.replicas@.len(),
                        self.ring.wf(),
                        self.ring.capacity() == prior.ring.capacity(),
                        self.memberships@ == prior.memberships@.remove(i as int),
                        self.replicas == prior.replicas,
                        forall|p: nat, x: Server|
                            #[trigger] self.ring.bucket(p).contains(x) <==> (prior.ring.bucket(
                                p,
                            ).contains(x) && x.spec_serialize() != entry.node.spec_serialize() && (
                            forall|a: int|
                                0 <= a < j ==> x.spec_serialize() != (
                                #[trigger] entry.replicas@[a]).spec_serialize())),
                    decreases entry.replicas@.len() - j,
                {
                    let ghost step = *self;
                    self.ring.remove(&entry.replicas[j]);
                    j = j + 1;
                    proof {
                        let a0 = j - 1;
                        let rs = entry.replicas@[a0].spec_serialize();
                        let rp = position_of(rs, prior.spec_capacity());
                        assert forall|p: nat, x: Server|
                            #[trigger] self.ring.bucket(p).contains(x) <==> (prior.ring.bucket(
                                p,
                            ).contains(x) && x.spec_serialize() != entry.node.spec_serialize() && (
                            forall|a: int|
                                0 <= a < j ==> x.spec_serialize() != (
                                #[trigger] entry.replicas@[a]).spec_serialize())) by {
                            if p != rp {
                                assert(self.ring.bucket(p) == step.ring.bucket(p));
                                if step.ring.bucket(p).contains(x) && x.spec_serialize() == rs {
                                    step.ring.lemma_occupant_position(p, x);
                                }
                            }
                            if self.ring.bucket(p).contains(x) {
                                assert(step.ring.bucket(p).contains(x) && x.spec_serialize() != rs);
                                assert forall|a: int| 0 <= a < j implies x.spec_serialize() != (
                                #[trigger] entry.replicas@[a]).spec_serialize() by {
                                    if a < a0 {
                                        assert(step.ring.bucket(p).contains(x));
                                    }
                                }
                            }
                            if prior.ring.bucket(p).contains(x) && x.spec_serialize()
                                != entry.node.spec_serialize() && (forall|a: int|
                                0 <= a < j ==> x.spec_serialize() != (
                                #[trigger] entry.replicas@[a]).spec_serialize()) {
                                assert(x.spec_serialize() != rs);
                                assert(step.ring.bucket(p).contains(x));
                            }
                        }
                    }
                }
                proof {
                    self.lemma_remove_restores(&prior, &entry, i as int, node);
                }
                Ok(())
            },
        }
    }

    /// Remove-then-route law: when every recorded identity belongs to the
    /// single accepted member — as after one join on a fresh ring — its
    /// leave empties the directories entirely. The hypotheses are exactly
    /// what `accept` and `remove` ensure for that history: one member
    /// carrying `node_id`, every recorded identity among its associated
    /// ones, and `remove`'s membership and identity postconditions.
    pub proof fn lemma_sole_member_leave_empties(pre: Self, post: Self, node_id: Seq<char>)
        requires
            pre.member_count() == 1,
            pre.members()[0].spec_id() == node_id,
            forall|id: Seq<char>|
                #[trigger] pre.holds_id(id) ==> pre.assoc_ids(node_id).contains(id),
            exists|i: int|
                0 <= i < pre.members().len() && (#[trigger] pre.members()[i]).spec_id() == node_id
                    && post.members() == pre.members().remove(i),
            forall|id: Seq<char>|
                #[trigger] post.holds_id(id) <==> (pre.holds_id(id) && !pre.assoc_ids(
                    node_id,
                ).contains(id)),
        ensures
            post.member_count() == 0,
            forall|id: Seq<char>| !post.holds_id(id),
    {
        let i = choose|i: int|
            0 <= i < pre.members().len() && (#[trigger] pre.members()[i]).spec_id() == node_id
                && post.members() == pre.members().remove(i);
        assert(post.members().len() == 0);
        assert forall|id: Seq<char>| !post.holds_id(id) by {
            if post.holds_id(id) {
                assert(pre.holds_id(id) && !pre.assoc_ids(node_id).contains(id));
            }
        }
    }

    /// After a leave, the directory invariants hold again and nothing of
    /// the removed entry remains recorded.
    proof fn lemma_remove_restores(&self, prior: &Self, entry: &Membership, i: int, node: &Server)
        requires
            prior.wf(),
            0 <= i < prior.memberships@.len(),
            *entry == prior.memberships@[i],
            entry.node.spec_id() == node.spec_id(),
            self.memberships@ == prior.memberships@.remove(i),
            self.replicas == prior.replicas,
            self.ring.wf(),
            self.ring.capacity() == prior.ring.capacity(),
            forall|p: nat, x: Server|
                #[trigger] self.ring.bucket(p).contains(x) <==> (prior.ring.bucket(p).contains(x)
                    && x.spec_serialize() != entry.node.spec_serialize() && (forall|a: int|
                    0 <= a < entry.replicas@.len() ==> x.spec_serialize() != (
                    #[trigger] entry.replicas@[a]).spec_serialize())),
        ensures
            self.wf(),
            self.members() == prior.members().remove(i),
            prior.members()[i].spec_id() == node.spec_id(),
            !self.holds_id(node.spec_id()),
            forall|id: Seq<char>|
                #[trigger] self.holds_id(id) <==> (prior.holds_id(id) && !prior.assoc_ids(
                    node.spec_id(),
                ).contains(id)),
    {
        let last = prior.memberships@.len() as int;
        assert(self.memberships@.len() == last - 1);
        assert forall|q: int| 0 <= q < last - 1 implies #[trigger] self.memberships@[q] == (if q < i {
            prior.memberships@[q]
        } else {
            prior.memberships@[q + 1]
        }) by {}
        // a coordinate of the removed entry never shares an identity or a
        // serialized form with a coordinate of a surviving entry
        assert forall|q: int, jq: int|
            self.valid_coord(q, jq) implies prior.valid_coord(
            if q < i {
                q
            } else {
                q + 1
            },
            jq,
        ) && #[trigger] self.node_at(q, jq) == prior.node_at(
            if q < i {
                q
            } else {
                q + 1
            },
            jq,
        ) by {}
        assert forall|q: int, jq: int| self.valid_coord(q, jq) implies (
        #[trigger] self.node_at(q, jq)).spec_serialize() != entry.node.spec_serialize() && (forall|
            a: int,
        |
            0 <= a < entry.replicas@.len() ==> self.node_at(q, jq).spec_serialize() != (
            #[trigger] entry.replicas@[a]).spec_serialize()) by {
            let qp: int = if q < i {
                q
            } else {
                q + 1
            };
            assert(prior.node_at(i, -1) == entry.node);
            assert(prior.valid_coord(i, -1));
            assert forall|a: int|
                0 <= a < entry.replicas@.len() implies self.node_at(q, jq).spec_serialize() != (
                #[trigger] entry.replicas@[a]).spec_serialize() by {
                assert(prior.node_at(i, a) == entry.replicas@[a]);
                assert(prior.valid_coord(i, a));
            }
        }
        assert forall|q: int|
            0 <= q < self.memberships@.len() implies self.entry_wf(
            #[trigger] self.memberships@[q],
        ) by {
            let qp: int = if q < i {
                q
            } else {
                q + 1
            };
            let e = self.memberships@[q];
            assert(prior.entry_wf(e));
            assert(self.in_ring(e.node)) by {
                assert(prior.in_ring(e.node));
                assert(self.node_at(q, -1) == e.node);
                assert(self.valid_coord(q, -1));
            }
            assert forall|jq: int| 0 <= jq < e.replicas@.len() implies self.in_ring(
                #[trigger] e.replicas@[jq],
            ) by {
                assert(prior.in_ring(e.replicas@[jq]));
                assert(self.node_at(q, jq) == e.replicas@[jq]);
                assert(self.valid_coord(q, jq));
            }
        }
        assert forall|q1: int, j1: int, q2: int, j2: int|
            self.valid_coord(q1, j1) && self.valid_coord(q2, j2) && (q1 != q2 || j1 != j2) implies (
        #[trigger] self.node_at(q1, j1)).spec_id() != (#[trigger] self.node_at(q2, j2)).spec_id()
            && self.node_at(q1, j1).spec_serialize() != self.node_at(q2, j2).spec_serialize() by {
            let p1: int = if q1 < i {
                q1
            } else {
                q1 + 1
            };
            let p2: int = if q2 < i {
                q2
            } else {
                q2 + 1
            };
            assert(self.node_at(q1, j1) == prior.node_at(p1, j1));
            assert(self.node_at(q2, j2) == prior.node_at(p2, j2));
        }
        assert forall|p: nat, x: Server| #[trigger]
            self.ring.bucket(p).contains(x) implies self.holds_node(x) by {
            assert(prior.ring.bucket(p).contains(x));
            let q = choose|q: int|
                0 <= q < prior.memberships@.len() && Self::entry_holds(
                    #[trigger] prior.memberships@[q],
                    x,
                );
            if q == i {
                if prior.memberships@[q].node == x {
                    assert(x.spec_serialize() == entry.node.spec_serialize());
                } else {
                    let a = choose|a: int|
                        0 <= a < entry.replicas@.len() && entry.replicas@[a] == x;
                    assert(x.spec_serialize() == entry.replicas@[a].spec_serialize());
                }
                assert(false);
            } else {
                let qn: int = if q < i {
                    q
                } else {
                    q - 1
                };
                assert(self.memberships@[qn] == prior.memberships@[q]);
                assert(Self::entry_holds(self.memberships@[qn], x));
            }
        }
        assert(self.wf());
        assert(self.members() =~= prior.members().remove(i));
        // nothing of the removed entry remains recorded
        let own = prior.assoc_ids(node.spec_id());
        assert(prior.memberships@[i].node.spec_id() == node.spec_id());
        let iw = choose|iw: int|
            0 <= iw < prior.memberships@.len() && (#[trigger] prior.memberships@[iw]).node.spec_id()
                == node.spec_id();
        assert(iw == i) by {
            if iw != i {
                assert(prior.node_at(iw, -1).spec_id() == prior.node_at(i, -1).spec_id());
            }
        }
        assert forall|id: Seq<char>| #[trigger]
            self.holds_id(id) implies (prior.holds_id(id) && !own.contains(id)) by {
            let q = choose|q: int|
                0 <= q < self.memberships@.len() && Self::entry_has_id(
                    #[trigger] self.memberships@[q],
                    id,
                );
            let qp: int = if q < i {
                q
            } else {
                q + 1
            };
            assert(self.memberships@[q] == prior.memberships@[qp]);
            assert(prior.holds_id(id));
            if own.contains(id) {
                assert(Self::entry_has_id(prior.memberships@[i], id));
                // two distinct coordinates would carry the same identity
                let e1 = self.memberships@[q];
                if e1.node.spec_id() == id {
                    if prior.memberships@[i].node.spec_id() == id {
                        assert(prior.node_at(qp, -1).spec_id() == prior.node_at(i, -1).spec_id());
                    } else {
                        let a = choose|a: int|
                            0 <= a < prior.memberships@[i].replicas@.len() && (
                            #[trigger] prior.memberships@[i].replicas@[a]).spec_id() == id;
                        assert(prior.node_at(qp, -1).spec_id() == prior.node_at(i, a).spec_id());
                    }
                } else {
                    let b = choose|b: int|
                        0 <= b < e1.replicas@.len() && (#[trigger] e1.replicas@[b]).spec_id() == id;
                    if prior.memberships@[i].node.spec_id() == id {
                        assert(prior.node_at(qp, b).spec_id() == prior.node_at(i, -1).spec_id());
                    } else {
                        let a = choose|a: int|
                            0 <= a < prior.memberships@[i].replicas@.len() && (
                            #[trigger] prior.memberships@[i].replicas@[a]).spec_id() == id;
                        assert(prior.node_at(qp, b).spec_id() == prior.node_at(i, a).spec_id());
                    }
                }
                assert(false);
            }
        }
        assert forall|id: Seq<char>|
            prior.holds_id(id) && !own.contains(id) implies #[trigger] self.holds_id(id) by {
            let q = choose|q: int|
                0 <= q < prior.memberships@.len() && Self::entry_has_id(
                    #[trigger] prior.memberships@[q],
                    id,
                );
            if q == i {
                assert(own.contains(id));
            } else {
                let qn: int = if q < i {
                    q
                } else {
                    q - 1
                };
                assert(self.memberships@[qn] == prior.memberships@[q]);
            }
        }
        assert(!self.holds_id(node.spec_id())) by {
            assert(own.contains(node.spec_id())) by {
                assert(Self::entry_has_id(prior.memberships@[i], node.spec_id()));
            }
        }
    }

    /// After a join, the recorded identities and serialized forms are
    /// exactly the old ones plus the joined node's and its batch's, and
    /// the identities associated with the new member are its own and its
    /// batch's.
    proof fn lemma_join_frames(prior: &Self, cur: &Self, node: &Server, fresh: Seq<Server>)
        requires
            cur.memberships@.len() == prior.memberships@.len() + 1,
            forall|q: int|
                0 <= q < prior.memberships@.len() ==> #[trigger] cur.memberships@[q]
                    == prior.memberships@[q],
            cur.memberships@[prior.memberships@.len() as int].node == *node,
            cur.memberships@[prior.memberships@.len() as int].replicas@ == fresh,
            !prior.holds_id(node.spec_id()),
        ensures
            forall|id: Seq<char>|
                #[trigger] cur.holds_id(id) <==> (prior.holds_id(id) || id == node.spec_id()
                    || exists|k: int|
                    0 <= k < fresh.len() && (#[trigger] fresh[k]).spec_id() == id),
            forall|s: Seq<char>|
                #[trigger] cur.holds_ser(s) <==> (prior.holds_ser(s) || s == node.spec_serialize()
                    || exists|k: int|
                    0 <= k < fresh.len() && (#[trigger] fresh[k]).spec_serialize() == s),
            forall|id: Seq<char>|
                #[trigger] cur.assoc_ids(node.spec_id()).contains(id) <==> (id == node.spec_id()
                    || exists|k: int|
                    0 <= k < fresh.len() && (#[trigger] fresh[k]).spec_id() == id),
    {
        let last = prior.memberships@.len() as int;
        assert forall|id: Seq<char>| #[trigger]
            cur.holds_id(id) implies (prior.holds_id(id) || id == node.spec_id() || exists|k: int|
            0 <= k < fresh.len() && (#[trigger] fresh[k]).spec_id() == id) by {
            let q = choose|q: int|
                0 <= q < cur.memberships@.len() && Self::entry_has_id(
                    #[trigger] cur.memberships@[q],
                    id,
                );
            if q < last {
                assert(Self::entry_has_id(prior.memberships@[q], id));
            } else {
                if cur.memberships@[last].node.spec_id() != id {
                    let j = choose|j: int|
                        0 <= j < cur.memberships@[last].replicas@.len() && (
                        #[trigger] cur.memberships@[last].replicas@[j]).spec_id() == id;
                    assert(fresh[j].spec_id() == id);
                }
            }
        }
        assert forall|id: Seq<char>|
            (prior.holds_id(id) || id == node.spec_id() || exists|k: int|
                0 <= k < fresh.len() && (#[trigger] fresh[k]).spec_id() == id) implies #[trigger]
            cur.holds_id(id) by {
            if prior.holds_id(id) {
                let q = choose|q: int|
                    0 <= q < prior.memberships@.len() && Self::entry_has_id(
                        #[trigger] prior.memberships@[q],
                        id,
                    );
                assert(Self::entry_has_id(cur.memberships@[q], id));
            } else if id == node.spec_id() {
                assert(Self::entry_has_id(cur.memberships@[last], id));
            } else {
                let k = choose|k: int|
                    0 <= k < fresh.len() && (#[trigger] fresh[k]).spec_id() == id;
                assert(cur.memberships@[last].replicas@[k].spec_id() == id);
                assert(Self::entry_has_id(cur.memberships@[last], id));
            }
        }
        assert forall|s: Seq<char>| #[trigger]
            cur.holds_ser(s) implies (prior.holds_ser(s) || s == node.spec_serialize() || exists|
            k: int,
        |
            0 <= k < fresh.len() && (#[trigger] fresh[k]).spec_serialize() == s) by {
            let q = choose|q: int|
                0 <= q < cur.memberships@.len() && Self::entry_has_ser(
                    #[trigger] cur.memberships@[q],
                    s,
                );
            if q < last {
                assert(Self::entry_has_ser(prior.memberships@[q], s));
            } else {
                if cur.memberships@[last].node.spec_serialize() != s {
                    let j = choose|j: int|
                        0 <= j < cur.memberships@[last].replicas@.len() && (
                        #[trigger] cur.memberships@[last].replicas@[j]).spec_serialize() == s;
                    assert(fresh[j].spec_serialize() == s);
                }
            }
        }
        assert forall|s: Seq<char>|
            (prior.holds_ser(s) || s == node.spec_serialize() || exists|k: int|
                0 <= k < fresh.len() && (#[trigger] fresh[k]).spec_serialize() == s) implies #[trigger]
            cur.holds_ser(s) by {
            if prior.holds_ser(s) {
                let q = choose|q: int|
                    0 <= q < prior.memberships@.len() && Self::entry_has_ser(
                        #[trigger] prior.memberships@[q],
                        s,
                    );
                assert(Self::entry_has_ser(cur.memberships@[q], s));
            } else if s == node.spec_serialize() {
                assert(Self::entry_has_ser(cur.memberships@[last], s));
            } else {
                let k = choose|k: int|
                    0 <= k < fresh.len() && (#[trigger] fresh[k]).spec_serialize() == s;
                assert(cur.memberships@[last].replicas@[k].spec_serialize() == s);
                assert(Self::entry_has_ser(cur.memberships@[last], s));
            }
        }
        // the entry that assoc_ids selects for the node's identity is the
        // new one: an older entry with that identity would have been held
        assert(cur.memberships@[last].node.spec_id() == node.spec_id());
        let iw = choose|iw: int|
            0 <= iw < cur.memberships@.len() && (#[trigger] cur.memberships@[iw]).node.spec_id()
                == node.spec_id();
        assert(iw == last) by {
            if iw < last {
                assert(Self::entry_has_id(prior.memberships@[iw], node.spec_id()));
                assert(prior.holds_id(node.spec_id()));
            }
        }
        assert forall|id: Seq<char>| #[trigger]
            cur.assoc_ids(node.spec_id()).contains(id) <==> (id == node.spec_id() || exists|k: int|
            0 <= k < fresh.len() && (#[trigger] fresh[k]).spec_id() == id) by {
            assert(cur.assoc_ids(node.spec_id()).contains(id) == Self::entry_has_id(
                cur.memberships@[last],
                id,
            ));
            if Self::entry_has_id(cur.memberships@[last], id) {
                if cur.memberships@[last].node.spec_id() != id {
                    let j = choose|j: int|
                        0 <= j < cur.memberships@[last].replicas@.len() && (
                        #[trigger] cur.memberships@[last].replicas@[j]).spec_id() == id;
                    assert(fresh[j].spec_id() == id);
                }
            }
            if !Self::entry_has_id(cur.memberships@[last], id) && (exists|k: int|
                0 <= k < fresh.len() && (#[trigger] fresh[k]).spec_id() == id) {
                let k = choose|k: int|
                    0 <= k < fresh.len() && (#[trigger] fresh[k]).spec_id() == id;
                assert(cur.memberships@[last].replicas@[k].spec_id() == id);
            }
        }
    }

    /// After a join, all recorded identities and serialized forms are
    /// still pairwise distinct: the old ones were, the batch was checked
    /// fresh, and the node itself was checked against everything.
    proof fn lemma_new_coords_distinct(
        prior: &Self,
        cur: &Self,
        node: &Server,
        fresh: Seq<Server>,
        i1: int,
        j1: int,
        i2: int,
        j2: int,
    )
        requires
            prior.wf(),
            !prior.holds_id(node.spec_id()),
            !prior.holds_ser(node.spec_serialize()),
            prior.fresh_ok(*node, fresh),
            cur.memberships@.len() == prior.memberships@.len() + 1,
            forall|q: int|
                0 <= q < prior.memberships@.len() ==> #[trigger] cur.memberships@[q]
                    == prior.memberships@[q],
            cur.memberships@[prior.memberships@.len() as int].node == *node,
            cur.memberships@[prior.memberships@.len() as int].replicas@ == fresh,
            cur.valid_coord(i1, j1),
            cur.valid_coord(i2, j2),
            i1 != i2 || j1 != j2,
        ensures
            cur.node_at(i1, j1).spec_id() != cur.node_at(i2, j2).spec_id(),
            cur.node_at(i1, j1).spec_serialize() != cur.node_at(i2, j2).spec_serialize(),
    {
        let last = prior.memberships@.len() as int;
        if i1 < last && i2 < last {
            assert(prior.valid_coord(i1, j1) && prior.valid_coord(i2, j2));
            assert(cur.node_at(i1, j1) == prior.node_at(i1, j1));
            assert(cur.node_at(i2, j2) == prior.node_at(i2, j2));
        } else if i1 < last && i2 == last {
            Self::lemma_old_new_coord_distinct(prior, cur, node, fresh, i1, j1, j2);
        } else if i2 < last && i1 == last {
            Self::lemma_old_new_coord_distinct(prior, cur, node, fresh, i2, j2, j1);
        } else {
            // both coordinates lie in the new entry
            let x1 = cur.node_at(i1, j1);
            let x2 = cur.node_at(i2, j2);
            if j1 < 0 {
                assert(x1 == *node && x2 == fresh[j2]);
            } else if j2 < 0 {
                assert(x2 == *node && x1 == fresh[j1]);
            } else {
                assert(x1 == fresh[j1] && x2 == fresh[j2]);
                if j1 < j2 {
                    assert(fresh[j1].spec_id() != fresh[j2].spec_id());
                } else {
                    assert(fresh[j2].spec_id() != fresh[j1].spec_id());
                }
            }
        }
    }

    /// An old coordinate and a coordinate of the newly joined entry never
    /// share an identity or a serialized form.
    proof fn lemma_old_new_coord_distinct(
        prior: &Self,
        cur: &Self,
        node: &Server,
        fresh: Seq<Server>,
        io: int,
        jo: int,
        jn: int,
    )
        requires
            prior.wf(),
            !prior.holds_id(node.spec_id()),
            !prior.holds_ser(node.spec_serialize()),
            prior.fresh_ok(*node, fresh),
            cur.memberships@.len() == prior.memberships@.len() + 1,
            forall|q: int|
                0 <= q < prior.memberships@.len() ==> #[trigger] cur.memberships@[q]
                    == prior.memberships@[q],
            cur.memberships@[prior.memberships@.len() as int].node == *node,
            cur.memberships@[prior.memberships@.len() as int].replicas@ == fresh,
            cur.valid_coord(io, jo),
            io < prior.memberships@.len(),
            cur.valid_coord(prior.memberships@.len() as int, jn),
        ensures
            cur.node_at(io, jo).spec_id() != cur.node_at(
                prior.memberships@.len() as int,
                jn,
            ).spec_id(),
            cur.node_at(io, jo).spec_serialize() != cur.node_at(
                prior.memberships@.len() as int,
                jn,
            ).spec_serialize(),
    {
        let last = prior.memberships@.len() as int;
        let xo = cur.node_at(io, jo);
        let xn = cur.node_at(last, jn);
        assert(xo == prior.node_at(io, jo));
        assert(Self::entry_has_id(prior.memberships@[io], xo.spec_id())) by {
            if jo < 0 {
            } else {
                assert(prior.memberships@[io].replicas@[jo] == xo);
            }
        }
        assert(Self::entry_has_ser(prior.memberships@[io], xo.spec_serialize())) by {
            if jo < 0 {
            } else {
                assert(prior.memberships@[io].replicas@[jo] == xo);
            }
        }
        assert(prior.holds_id(xo.spec_id()));
        assert(prior.holds_ser(xo.spec_serialize()));
        if jn < 0 {
            assert(xn == *node);
        } else {
            assert(xn == fresh[jn]);
        }
    }

    /// Relies on `rand::thread_rng` and `rand::seq::SliceRandom::shuffle`:
    /// returns the given identities in a random order; only the multiset
    /// of identities is assumed preserved, nothing of the order. The
    /// first use of the thread's generator panics if the operating
    /// system's random source fails — an environmental condition that no
    /// contract here covers.
    #[verifier::external_body]
    fn shuffle_set(input_set: &Vec<String>) -> (r: Vec<String>)
        ensures
            r@.to_multiset() == input_set@.to_multiset(),
    {
        let mut vec: Vec<String> = input_set.clone();
        let mut rng = rand::thread_rng();
        rand::seq::SliceRandom::shuffle(vec.as_mut_slice(), &mut rng);
        vec
    }

    /// Whether the vector holds a string with the same text.
    fn contains_string(v: &Vec<String>, s: &String) -> (b: bool)
        ensures
            b == exists|t: int| 0 <= t < v@.len() && (#[trigger] v@[t])@ == s@,
    {
        let mut t: usize = 0;
        while t < v.len()
            invariant
                0 <= t <= v@.len(),
                forall|u: int| 0 <= u < t ==> (#[trigger] v@[u])@ != s@,
            decreases v@.len() - t,
        {
            if v[t] == *s {
                return true;
            }
            t = t + 1;
        }
        false
    }

    /// The identity of the member owning the given virtual replica.
    #[verifier::loop_isolation(false)]
    fn find_owner_id(&self, replica: &Server) -> (r: String)
        requires
            self.wf(),
            self.holds_node(*replica),
            !replica.spec_is_physical(),
        ensures
            self.is_member_id(r@),
            exists|i: int|
                0 <= i < self.memberships@.len() && (
                #[trigger] self.memberships@[i]).replicas@.contains(*replica)
                    && self.memberships@[i].node.spec_id() == r@,
    {
        let rid = replica.get_id();
        let mut i: usize = 0;
        while i < self.memberships.len()
            invariant
                0 <= i <= self.memberships@.len(),
                forall|k: int, j: int|
                    0 <= k < i && 0 <= j < self.memberships@[k].replicas@.len() ==> (
                    #[trigger] self.memberships@[k].replicas@[j]).spec_id() != rid@,
            decreases self.memberships@.len() - i,
        {
            let e = &self.memberships[i];
            let mut j: usize = 0;
            while j < e.replicas.len()
                invariant
                    0 <= j <= e.replicas@.len(),
                    forall|u: int| 0 <= u < j ==> (#[trigger] e.replicas@[u]).spec_id() != rid@,
                decreases e.replicas@.len() - j,
            {
                let cand = e.replicas[j].get_id();
                if cand == rid {
                    let owner = e.node.get_id();
                    proof {
                        assert(self.members()[i as int] == self.memberships@[i as int].node);
                        // the identities are unique, so the replica found
                        // here is the given one itself
                        let q0 = choose|q0: int|
                            0 <= q0 < self.memberships@.len() && Self::entry_holds(
                                #[trigger] self.memberships@[q0],
                                *replica,
                            );
                        assert(self.memberships@[q0].node != *replica) by {
                            if self.memberships@[q0].node == *replica {
                                assert(self.memberships@[q0].node.spec_is_physical());
                            }
                        }
                        let j0 = choose|j0: int|
                            0 <= j0 < self.memberships@[q0].replicas@.len()
                                && self.memberships@[q0].replicas@[j0] == *replica;
                        assert(self.node_at(q0, j0) == *replica);
                        assert(self.valid_coord(q0, j0));
                        assert(self.valid_coord(i as int, j as int));
                        if q0 != i as int || j0 != j as int {
                            assert(self.node_at(i as int, j as int).spec_id() != self.node_at(
                                q0,
                                j0,
                            ).spec_id());
                            assert(false);
                        }
                        assert(self.memberships@[i as int].replicas@.contains(*replica));
                    }
                    return owner;
                }
                j = j + 1;
            }
            i = i + 1;
        }
        proof {
            let q = choose|q: int|
                0 <= q < self.memberships@.len() && Self::entry_holds(
                    #[trigger] self.memberships@[q],
                    *replica,
                );
            if self.memberships@[q].node == *replica {
                assert(self.memberships@[q].node.spec_is_physical());
                assert(false);
            } else {
                let j = choose|j: int|
                    0 <= j < self.memberships@[q].replicas@.len()
                        && self.memberships@[q].replicas@[j] == *replica;
                assert(self.memberships@[q].replicas@[j].spec_id() == rid@);
                assert(false);
            }
        }
        vstd::pervasive::unreached()
    }

    /// A clone of the accepted physical node carrying the identity `id`.
    #[verifier::loop_isolation(false)]
    fn get_member(&self, id: &String) -> (r: Server)
        requires
            self.wf(),
            self.is_member_id(id@),
        ensures
            self.members().contains(r),
            r.spec_id() == id@,
    {
        let found = self.find_member(id);
        match found {
            Some(i) => {
                let r = self.memberships[i].node.clone();
                proof {
                    assert(self.members()[i as int] == self.memberships@[i as int].node);
                }
                r
            },
            None => {
                proof {
                    assert(false);
                }
                vstd::pervasive::unreached()
            },
        }
    }

    /// Collapses a bucket of co-located ring occupants to one physical
    /// owner: a physical occupant contributes its own identity, a virtual
    /// occupant the identity of the member it replicates. The single
    /// owner is returned when unambiguous; otherwise one owner is drawn
    /// at random.
    #[verifier::loop_isolation(false)]
    pub fn pick(&self, nodes: &Vec<Server>) -> (r: Server)
        requires
            self.wf(),
            nodes@.len() >= 1,
            forall|k: int| 0 <= k < nodes@.len() ==> self.holds_node(#[trigger] nodes@[k]),
        ensures
            self.members().contains(r),
            r.spec_is_physical(),
            exists|k: int| 0 <= k < nodes@.len() && self.owns(r, #[trigger] nodes@[k]),
    {
        let mut owner_ids: Vec<String> = Vec::new();
        let mut idx: usize = 0;
        while idx < nodes.len()
            invariant
                0 <= idx <= nodes@.len(),
                idx >= 1 ==> owner_ids@.len() >= 1,
                forall|t: int|
                    0 <= t < owner_ids@.len() ==> self.is_member_id((#[trigger] owner_ids@[t])@),
                forall|t: int|
                    0 <= t < owner_ids@.len() ==> exists|k: int, q: int|
                        0 <= k < nodes@.len() && 0 <= q < self.memberships@.len()
                            && self.memberships@[q].node.spec_id() == (#[trigger] owner_ids@[t])@
                            && Self::entry_holds(self.memberships@[q], nodes@[k]),
            decreases nodes@.len() - idx,
        {
            let n = &nodes[idx];
            let owner_id: String = if n.is_physical() {
                proof {
                    let q = choose|q: int|
                        0 <= q < self.memberships@.len() && Self::entry_holds(
                            #[trigger] self.memberships@[q],
                            nodes@[idx as int],
                        );
                    if self.memberships@[q].node == nodes@[idx as int] {
                        assert(self.members()[q] == self.memberships@[q].node);
                    } else {
                        let j = choose|j: int|
                            0 <= j < self.memberships@[q].replicas@.len()
                                && self.memberships@[q].replicas@[j] == nodes@[idx as int];
                        assert(!self.memberships@[q].replicas@[j].spec_is_physical());
                        assert(false);
                    }
                }
                n.get_id()
            } else {
                self.find_owner_id(n)
            };
            proof {
                assert(exists|k: int, q: int|
                    0 <= k < nodes@.len() && 0 <= q < self.memberships@.len()
                        && self.memberships@[q].node.spec_id() == owner_id@
                        && Self::entry_holds(self.memberships@[q], nodes@[k])) by {
                    if nodes@[idx as int].spec_is_physical() {
                        let q = choose|q: int|
                            0 <= q < self.memberships@.len() && Self::entry_holds(
                                #[trigger] self.memberships@[q],
                                nodes@[idx as int],
                            );
                        assert(self.memberships@[q].node == nodes@[idx as int]) by {
                            if self.memberships@[q].node != nodes@[idx as int] {
                                let j = choose|j: int|
                                    0 <= j < self.memberships@[q].replicas@.len()
                                        && self.memberships@[q].replicas@[j] == nodes@[
                                    idx as int];
                                assert(!self.memberships@[q].replicas@[j].spec_is_physical());
                            }
                        }
                        assert(0 <= idx < nodes@.len() && 0 <= q < self.memberships@.len()
                            && self.memberships@[q].node.spec_id() == owner_id@
                            && Self::entry_holds(self.memberships@[q], nodes@[idx as int]));
                    } else {
                        let q = choose|q: int|
                            0 <= q < self.memberships@.len() && (
                            #[trigger] self.memberships@[q]).replicas@.contains(nodes@[idx as int])
                                && self.memberships@[q].node.spec_id() == owner_id@;
                        assert(0 <= idx < nodes@.len() && 0 <= q < self.memberships@.len()
                            && self.memberships@[q].node.spec_id() == owner_id@
                            && Self::entry_holds(self.memberships@[q], nodes@[idx as int]));
                    }
                }
            }
            if !Self::contains_string(&owner_ids, &owner_id) {
                owner_ids.push(owner_id);
            }
            idx = idx + 1;
        }
        let chosen: String = if owner_ids.len() == 1 {
            owner_ids[0].clone()
        } else {
            let shuffled = Self::shuffle_set(&owner_ids);
            proof {
                assert(shuffled@.len() == shuffled@.to_multiset().len());
                assert(owner_ids@.len() == owner_ids@.to_multiset().len());
                assert(shuffled@.to_multiset().count(shuffled@[0]) > 0);
                assert(owner_ids@.contains(shuffled@[0]));
                let t = choose|t: int| 0 <= t < owner_ids@.len() && owner_ids@[t] == shuffled@[0];
                assert(self.is_member_id(owner_ids@[t]@));
            }
            shuffled[0].clone()
        };
        proof {
            assert(exists|t: int| 0 <= t < owner_ids@.len() && (#[trigger] owner_ids@[t])@
                == chosen@) by {
                if owner_ids@.len() == 1 {
                    assert(owner_ids@[0]@ == chosen@);
                }
            }
        }
        let picked = self.get_member(&chosen);
        proof {
            let w = choose|w: int|
                0 <= w < self.members().len() && self.members()[w] == picked;
            assert(self.members()[w] == self.memberships@[w].node);
            assert(self.memberships@[w].node.spec_is_physical());
            // the picked member is the one whose identity was chosen, so
            // it owns the occupant that contributed that identity
            let t = choose|t: int|
                0 <= t < owner_ids@.len() && (#[trigger] owner_ids@[t])@ == chosen@;
            let (k, q) = choose|k: int, q: int|
                0 <= k < nodes@.len() && 0 <= q < self.memberships@.len()
                    && self.memberships@[q].node.spec_id() == (owner_ids@[t])@
                    && Self::entry_holds(self.memberships@[q], nodes@[k]);
            if q != w {
                assert(self.node_at(q, -1).spec_id() != self.node_at(w, -1).spec_id());
                assert(false);
            }
            assert(self.owns(picked, nodes@[k]));
        }
        picked
    }

    /// Routes a request: hashes its serialized form onto the ring, walks
    /// clockwise to the nearest occupied bucket, and collapses that bucket
    /// to one physical owner. Fails with `NotFound` exactly when no node
    /// is accepted; with a single accepted node every request routes to
    /// it.
    pub fn route<T: Serializable>(&self, request: &Request<T>) -> (r: Result<Server, NotFound>)
        requires
            self.wf(),
        ensures
            r matches Ok(s) ==> self.members().contains(s) && s.spec_is_physical(),
            r matches Ok(s) ==> self.routes_to(request.spec_serialize(), s),
            r.is_ok() <==> self.member_count() > 0,
            self.member_count() == 1 ==> r == Ok::<Server, NotFound>(self.members()[0]),
    {
        let h = self.hash(request);
        let found = self.ring.find_nearest(h);
        match found {
            Some(bucket) => {
                proof {
                    let p = choose|p: nat|
                        #[trigger] self.ring.is_nearest(h as nat, p) && bucket@.to_set()
                            == self.ring.bucket(p) && bucket@.len() >= 1;
                    assert forall|k: int|
                        0 <= k < bucket@.len() implies self.holds_node(
                        #[trigger] bucket@[k],
                    ) by {
                        assert(bucket@.contains(bucket@[k]));
                        assert(self.ring.bucket(p).contains(bucket@[k]));
                    }
                    // a held occupant means some member is present
                    let x = bucket@[0];
                    let q = choose|q: int|
                        0 <= q < self.memberships@.len() && Self::entry_holds(
                            #[trigger] self.memberships@[q],
                            x,
                        );
                    assert(self.member_count() > 0);
                }
                let picked = self.pick(bucket);
                proof {
                    if self.member_count() == 1 {
                        let w = choose|w: int|
                            0 <= w < self.members().len() && self.members()[w] == picked;
                        assert(w == 0);
                    }
                    // the picked node owns an occupant of the nearest bucket
                    let p = choose|p: nat|
                        #[trigger] self.ring.is_nearest(h as nat, p) && bucket@.to_set()
                            == self.ring.bucket(p) && bucket@.len() >= 1;
                    let k = choose|k: int|
                        0 <= k < bucket@.len() && self.owns(picked, #[trigger] bucket@[k]);
                    assert(bucket@.contains(bucket@[k]));
                    assert(self.ring.bucket(p).contains(bucket@[k]));
                    assert(self.routes_to(request.spec_serialize(), picked));
                }
                Ok(picked)
            },
            None => {
                proof {
                    if self.member_count() > 0 {
                        assert(self.entry_wf(self.memberships@[0]));
                        let e = self.memberships@[0];
                        assert(self.in_ring(e.node));
                        let p0 = position_of(e.node.spec_serialize(), self.spec_capacity());
                        assert(self.ring.occupied(p0));
                        assert(self.ring.has_occupants());
                        assert(false);
                    }
                }
                Err(NotFound)
            },
        }
    }

    /// Whether some node in the directories serializes to `s`.
    fn holds_ser_exec(&self, s: &String) -> (b: bool)
        ensures
            b == self.holds_ser(s@),
    {
        let mut i: usize = 0;
        while i < self.memberships.len()
            invariant
                0 <= i <= self.memberships@.len(),
                forall|k: int|
                    0 <= k < i ==> !Self::entry_has_ser(#[trigger] self.memberships@[k], s@),
            decreases self.memberships@.len() - i,
        {
            if Self::entry_has_ser_exec(&self.memberships[i], s) {
                return true;
            }
            i = i + 1;
        }
        false
    }
}

impl MaatRing for DefaultMaatRing {
    open spec fn wf_spec(&self) -> bool {
        self.wf()
    }

    open spec fn members_spec(&self) -> Seq<Server> {
        self.members()
    }

    open spec fn replicas_spec(&self) -> nat {
        self.spec_replicas()
    }

    open spec fn capacity_spec(&self) -> nat {
        self.spec_capacity()
    }

    open spec fn holds_id_spec(&self, id: Seq<char>) -> bool {
        self.holds_id(id)
    }

    open spec fn holds_ser_spec(&self, s: Seq<char>) -> bool {
        self.holds_ser(s)
    }

    open spec fn assoc_ids_spec(&self, member_id: Seq<char>) -> Set<Seq<char>> {
        self.assoc_ids(member_id)
    }

    fn accept(&mut self, node: &Server) -> (r: Result<(), MaatError>) {
        let ghost pre = *self;
        let r = DefaultMaatRing::accept(self, node);
        proof {
            assert(pre.is_member_id_spec(node.spec_id()) == pre.is_member_id(node.spec_id())) by {
                if pre.is_member_id_spec(node.spec_id()) {
                    let i = choose|i: int|
                        0 <= i < pre.members_spec().len() && (
                        #[trigger] pre.members_spec()[i]).spec_id() == node.spec_id();
                    assert(pre.members()[i].spec_id() == node.spec_id());
                }
                if pre.is_member_id(node.spec_id()) {
                    let i = choose|i: int|
                        0 <= i < pre.members().len() && (#[trigger] pre.members()[i]).spec_id()
                            == node.spec_id();
                    assert(pre.members_spec()[i].spec_id() == node.spec_id());
                }
            }
            assert(self.is_member_id(node.spec_id()) ==> self.is_member_id_spec(node.spec_id()))
                by {
                if self.is_member_id(node.spec_id()) {
                    let i = choose|i: int|
                        0 <= i < self.members().len() && (#[trigger] self.members()[i]).spec_id()
                            == node.spec_id();
                    assert(self.members_spec()[i].spec_id() == node.spec_id());
                }
            }
        }
        r
    }

    fn remove(&mut self, node: &Server) -> (r: Result<(), MaatError>) {
        let ghost pre = *self;
        let r = DefaultMaatRing::remove(self, node);
        proof {
            assert(pre.is_member_id_spec(node.spec_id()) == pre.is_member_id(node.spec_id())) by {
                if pre.is_member_id_spec(node.spec_id()) {
                    let i = choose|i: int|
                        0 <= i < pre.members_spec().len() && (
                        #[trigger] pre.members_spec()[i]).spec_id() == node.spec_id();
                    assert(pre.members()[i].spec_id() == node.spec_id());
                }
                if pre.is_member_id(node.spec_id()) {
                    let i = choose|i: int|
                        0 <= i < pre.members().len() && (#[trigger] pre.members()[i]).spec_id()
                            == node.spec_id();
                    assert(pre.members_spec()[i].spec_id() == node.spec_id());
                }
            }
            match r {
                Ok(_) => {
                    let i = choose|i: int|
                        0 <= i < pre.members().len() && (#[trigger] pre.members()[i]).spec_id()
                            == node.spec_id() && self.members() == pre.members().remove(i);
                    assert(0 <= i < pre.members_spec().len() && (
                    #[trigger] pre.members_spec()[i]).spec_id() == node.spec_id()
                        && self.members_spec() == pre.members_spec().remove(i));
                },
                Err(_) => {},
            }
        }
        r
    }

    fn route<T: Serializable>(&self, request: &Request<T>) -> (r: Result<Server, NotFound>) {
        DefaultMaatRing::route(self, request)
    }

    fn hash<T: Serializable>(&self, data: &T) -> (h: usize) {
        DefaultMaatRing::hash(self, data)
    }
}

} // verus!
