//! Ring participants: the node capability and the concrete server record.

use crate::maat_ring::Serializable;
use vstd::prelude::*;
use vstd::string::StringExecFns;

verus! {

/// The decimal digit character for `d`.
pub open spec fn digit_char(d: nat) -> char
    recommends
        d < 10,
{
    if d == 0 {
        '0'
    } else if d == 1 {
        '1'
    } else if d == 2 {
        '2'
    } else if d == 3 {
        '3'
    } else if d == 4 {
        '4'
    } else if d == 5 {
        '5'
    } else if d == 6 {
        '6'
    } else if d == 7 {
        '7'
    } else if d == 8 {
        '8'
    } else {
        '9'
    }
}

/// The decimal digits of `n`, most significant first.
pub open spec fn decimal_digits(n: nat) -> Seq<char>
    decreases n,
{
    if n < 10 {
        seq![digit_char(n)]
    } else {
        decimal_digits(n / 10).push(digit_char(n % 10))
    }
}

/// Relies on std's `ToString` for `usize`: renders the value as its
/// decimal digits, most significant first.
#[verifier::external_body]
fn usize_to_string(n: usize) -> (r: String)
    ensures
        r@ == decimal_digits(n as nat),
{
    n.to_string()
}

/// Relies on `uuid::Uuid::new_v4` and `Uuid::to_string`: a freshly drawn
/// random identifier rendered as text. Nothing is assumed of its value;
/// callers check any uniqueness they need at run time. The call panics if
/// the operating system's random source fails — an environmental
/// condition, like running out of memory, that no contract here covers.
#[verifier::external_body]
fn fresh_id() -> (r: String) {
    uuid::Uuid::new_v4().to_string()
}

/// A ring participant: an identity, a physical flag, and the ability to
/// spawn a virtual replica of itself.
pub trait MaatNode: Serializable + Sized {
    /// The node's identity.
    spec fn spec_id(&self) -> Seq<char>;

    /// Whether the node is physical (introduced by the caller) rather than
    /// a virtual replica.
    spec fn spec_is_physical(&self) -> bool;

    /// Whether this node is a well-formed virtual replica of `parent`.
    spec fn spec_replica_of(&self, parent: &Self) -> bool;

    /// The node's identity as text.
    fn get_id(&self) -> (r: String)
        ensures
            r@ == self.spec_id(),
    ;

    /// Whether the node is physical.
    fn is_physical(&self) -> (r: bool)
        ensures
            r == self.spec_is_physical(),
    ;

    /// Produces a non-physical replica of this node with a fresh identity.
    fn replicate(&self) -> (r: Self)
        ensures
            !r.spec_is_physical(),
            r.spec_replica_of(self),
    ;
}

/// A backend server: an address and port, a unique identity, and the
/// physical flag. Two servers are equal only when all fields agree.
pub struct Server {
    ip: String,
    port: usize,
    id: String,
    is_physical: bool,
}

impl Server {
    /// The server's address text.
    pub closed spec fn spec_ip(&self) -> Seq<char> {
        self.ip@
    }

    /// The server's port.
    pub closed spec fn spec_port(&self) -> usize {
        self.port
    }

    /// Creates a server with a freshly drawn identity.
    pub fn new(ip: String, port: usize, is_physical: bool) -> (r: Server)
        ensures
            r.spec_ip() == ip@,
            r.spec_port() == port,
            r.spec_is_physical() == is_physical,
    {
        Server { ip, port, is_physical, id: fresh_id() }
    }
}

impl Serializable for Server {
    /// A physical server serializes as `ip@port`; a virtual replica salts
    /// that form with its own identity so that distinct replicas occupy
    /// distinct ring positions.
    closed spec fn spec_serialize(&self) -> Seq<char> {
        if self.is_physical {
            self.ip@ + seq!['@'] + decimal_digits(self.port as nat)
        } else {
            self.ip@ + seq!['@'] + decimal_digits(self.port as nat) + seq!['#'] + self.id@
        }
    }

    fn serialize(&self) -> (s: String) {
        let mut s = self.ip.clone();
        s.append("@");
        let ps = usize_to_string(self.port);
        s.append(ps.as_str());
        if !self.is_physical {
            s.append("#");
            s.append(self.id.as_str());
        }
        proof {
            reveal_strlit("@");
            reveal_strlit("#");
            assert("@"@ =~= seq!['@']);
            assert("#"@ =~= seq!['#']);
            assert(s@ =~= self.spec_serialize());
        }
        s
    }
}

impl MaatNode for Server {
    closed spec fn spec_id(&self) -> Seq<char> {
        self.id@
    }

    closed spec fn spec_is_physical(&self) -> bool {
        self.is_physical
    }

    /// A replica of `parent` carries the same address and port and is not
    /// physical; its identity is its own.
    closed spec fn spec_replica_of(&self, parent: &Server) -> bool {
        self.ip@ == parent.ip@ && self.port == parent.port && !self.is_physical
    }

    fn get_id(&self) -> (r: String) {
        self.id.clone()
    }

    fn is_physical(&self) -> (r: bool) {
        self.is_physical
    }

    fn replicate(&self) -> (r: Server) {
        Server { ip: self.ip.clone(), port: self.port, id: fresh_id(), is_physical: false }
    }
}

impl Clone for Server {
    /// Cloning preserves the value exactly.
    fn clone(&self) -> (r: Self)
        ensures
            r == *self,
    {
        let r = Server {
            ip: self.ip.clone(),
            port: self.port,
            id: self.id.clone(),
            is_physical: self.is_physical,
        };
        r
    }
}

impl PartialEq for Server {
    fn eq(&self, other: &Server) -> (r: bool) {
        self.ip == other.ip && self.port == other.port && self.id == other.id
            && self.is_physical == other.is_physical
    }
}

impl vstd::std_specs::cmp::PartialEqSpecImpl for Server {
    open spec fn obeys_eq_spec() -> bool {
        true
    }

    closed spec fn eq_spec(&self, other: &Server) -> bool {
        self.ip@ == other.ip@ && self.port == other.port && self.id@ == other.id@
            && self.is_physical == other.is_physical
    }
}

} // verus!
