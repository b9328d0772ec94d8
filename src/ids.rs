//! Identifiers: peers, URNs and object ids.
use vstd::prelude::*;

use crate::name::{check_component, is_component};

verus! {

/// A peer's public key, held as the short text that names it inside
/// reference names (one path component).
#[derive(Debug, PartialEq, Eq)]
pub struct PeerId {
    id: String,
}

impl View for PeerId {
    type V = Seq<char>;

    closed spec fn view(&self) -> Seq<char> {
        self.id@
    }
}

impl PeerId {
    #[verifier::type_invariant]
    spec fn inv(&self) -> bool {
        is_component(self.id@)
    }

    /// The peer named by `s`, if `s` is one path component. Only the shape
    /// of the name is checked here, not that it encodes a public key.
    pub fn parse(s: &str) -> (r: Option<PeerId>)
        ensures
            r is Some <==> is_component(s@),
            r is Some ==> r->Some_0@ == s@,
    {
        if check_component(s) {
            Some(PeerId { id: s.to_owned() })
        } else {
            None
        }
    }

    pub(crate) fn from_text(s: String) -> (r: PeerId)
        requires
            is_component(s@),
        ensures
            r@ == s@,
    {
        PeerId { id: s }
    }

    pub fn as_str(&self) -> (r: &str)
        ensures
            r@ == self@,
    {
        self.id.as_str()
    }

    pub fn to_text(&self) -> (r: String)
        ensures
            r@ == self@,
            is_component(r@),
    {
        proof {
            use_type_invariant(self);
        }
        self.id.clone()
    }

    /// A copy of this peer id.
    pub fn copied(&self) -> (r: PeerId)
        ensures
            r@ == self@,
    {
        proof {
            use_type_invariant(self);
        }
        PeerId { id: self.id.clone() }
    }

    /// Whether both name the same peer.
    pub fn same(&self, other: &PeerId) -> (r: bool)
        ensures
            r == (self@ == other@),
    {
        self.id == other.id
    }

}

/// The identifier of a replicated identity, held as its textual id, which is
/// also the name of its namespace (one path component).
#[derive(Debug, PartialEq, Eq)]
pub struct Urn {
    id: String,
}

impl View for Urn {
    type V = Seq<char>;

    closed spec fn view(&self) -> Seq<char> {
        self.id@
    }
}

impl Urn {
    #[verifier::type_invariant]
    spec fn inv(&self) -> bool {
        is_component(self.id@)
    }

    /// The URN whose textual id is `s`, if `s` is one path component. Only
    /// the shape of the id is checked here, not its encoding.
    pub fn try_from_id(s: &str) -> (r: Option<Urn>)
        ensures
            r is Some <==> is_component(s@),
            r is Some ==> r->Some_0@ == s@,
    {
        if check_component(s) {
            Some(Urn { id: s.to_owned() })
        } else {
            None
        }
    }

    pub(crate) fn from_text(s: String) -> (r: Urn)
        requires
            is_component(s@),
        ensures
            r@ == s@,
    {
        Urn { id: s }
    }

    pub fn encode_id(&self) -> (r: String)
        ensures
            r@ == self@,
            is_component(r@),
    {
        proof {
            use_type_invariant(self);
        }
        self.id.clone()
    }

    pub fn copied(&self) -> (r: Urn)
        ensures
            r@ == self@,
    {
        proof {
            use_type_invariant(self);
        }
        Urn { id: self.id.clone() }
    }

    pub fn same(&self, other: &Urn) -> (r: bool)
        ensures
            r == (self@ == other@),
    {
        self.id == other.id
    }

}

/// A git object hash (twenty bytes: the first sixteen in `hi`, the last four
/// in `lo`).
#[derive(Clone, Copy, Debug, PartialEq, Eq, Structural)]
pub struct ObjectId {
    pub hi: u128,
    pub lo: u32,
}

impl ObjectId {
    pub fn new(hi: u128, lo: u32) -> (r: ObjectId)
        ensures
            r.hi == hi,
            r.lo == lo,
    {
        ObjectId { hi, lo }
    }

    pub fn same(&self, other: &ObjectId) -> (r: bool)
        ensures
            r == (*self == *other),
    {
        self.hi == other.hi && self.lo == other.lo
    }
}

} // verus!
