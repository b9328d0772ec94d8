//! Parsed reference names: an optional remote peer and an owned name, which
//! is either an identity-layer (`rad/...`) reference or a data reference.
use vstd::prelude::*;

use crate::ids::PeerId;
use crate::refs::{
    into_rt,
    is_lit,
    is_owned,
    is_qualified,
    lemma_lits,
    lit_namespaces,
    lit_refs,
    lit_remotes,
    owned,
    owned_of,
    Owned,
    Qualified,
    RemoteTracking,
};

verus! {

pub open spec fn lit_rad() -> Seq<char> {
    "rad"@
}

pub open spec fn lit_id() -> Seq<char> {
    "id"@
}

pub open spec fn lit_ids() -> Seq<char> {
    "ids"@
}

pub open spec fn lit_self() -> Seq<char> {
    "self"@
}

pub open spec fn lit_signed_refs() -> Seq<char> {
    "signed_refs"@
}

pub open spec fn lit_heads() -> Seq<char> {
    "heads"@
}

pub open spec fn lit_notes() -> Seq<char> {
    "notes"@
}

pub open spec fn lit_tags() -> Seq<char> {
    "tags"@
}

/// What an owned name refers to.
#[derive(Clone, Copy, Debug, PartialEq, Eq, Structural)]
pub enum RefKind {
    /// `refs/rad/id`: the identity document.
    Id,
    /// `refs/rad/ids/<urn>`: a delegate's identity.
    Ids,
    /// `refs/rad/signed_refs`: the signed manifest.
    SignedRefs,
    /// `refs/rad/self`: the peer's personal identity.
    SelfRef,
    /// Any other name under `refs/rad/`.
    OtherRad,
    Heads,
    Notes,
    Tags,
    /// A data reference of a category other than heads, notes and tags.
    Unknown,
}

impl RefKind {
    pub open spec fn is_rad(self) -> bool {
        match self {
            RefKind::Id | RefKind::Ids | RefKind::SignedRefs | RefKind::SelfRef
            | RefKind::OtherRad => true,
            _ => false,
        }
    }

    pub open spec fn is_data(self) -> bool {
        match self {
            RefKind::Heads | RefKind::Notes | RefKind::Tags => true,
            _ => false,
        }
    }

    pub fn rad(&self) -> (r: bool)
        ensures
            r == self.is_rad(),
    {
        match self {
            RefKind::Id | RefKind::Ids | RefKind::SignedRefs | RefKind::SelfRef
            | RefKind::OtherRad => true,
            _ => false,
        }
    }

    pub fn data(&self) -> (r: bool)
        ensures
            r == self.is_data(),
    {
        match self {
            RefKind::Heads | RefKind::Notes | RefKind::Tags => true,
            _ => false,
        }
    }
}

/// The kind of an owned name.
pub open spec fn kind_of(cs: Seq<Seq<char>>) -> RefKind {
    if cs[1] == lit_rad() {
        if cs.len() == 3 && cs[2] == lit_id() {
            RefKind::Id
        } else if cs.len() == 3 && cs[2] == lit_self() {
            RefKind::SelfRef
        } else if cs.len() == 3 && cs[2] == lit_signed_refs() {
            RefKind::SignedRefs
        } else if cs.len() == 4 && cs[2] == lit_ids() {
            RefKind::Ids
        } else {
            RefKind::OtherRad
        }
    } else if cs[1] == lit_heads() {
        RefKind::Heads
    } else if cs[1] == lit_notes() {
        RefKind::Notes
    } else if cs[1] == lit_tags() {
        RefKind::Tags
    } else {
        RefKind::Unknown
    }
}

/// The kind of an owned name.
pub fn kind(name: &Owned) -> (r: RefKind)
    ensures
        r == kind_of(name@),
{
    let cs = name.as_qualified().parts();
    let n = cs.len();
    if is_lit(&cs[1], "rad") {
        if n == 3 && is_lit(&cs[2], "id") {
            RefKind::Id
        } else if n == 3 && is_lit(&cs[2], "self") {
            RefKind::SelfRef
        } else if n == 3 && is_lit(&cs[2], "signed_refs") {
            RefKind::SignedRefs
        } else if n == 4 && is_lit(&cs[2], "ids") {
            RefKind::Ids
        } else {
            RefKind::OtherRad
        }
    } else if is_lit(&cs[1], "heads") {
        RefKind::Heads
    } else if is_lit(&cs[1], "notes") {
        RefKind::Notes
    } else if is_lit(&cs[1], "tags") {
        RefKind::Tags
    } else {
        RefKind::Unknown
    }
}

/// What a parsed name holds: the peer it names, if any, and its owned form.
pub struct ParsedView {
    pub remote: Option<Seq<char>>,
    pub name: Seq<Seq<char>>,
}

/// The parse of an advertised name: a remote-tracking name gives its peer and
/// its owned form; an owned name gives no peer; a namespaced name, and a
/// remote-tracking name without owned form, give nothing.
pub open spec fn parse_of(cs: Seq<Seq<char>>) -> Option<ParsedView> {
    if cs[1] == lit_namespaces() {
        None
    } else if cs[1] == lit_remotes() {
        match owned_of(cs) {
            Some(o) => Some(ParsedView { remote: Some(cs[2]), name: o }),
            None => None,
        }
    } else {
        Some(ParsedView { remote: None, name: cs })
    }
}

/// A name split into an optional remote peer and an owned name.
#[derive(Debug)]
pub struct Parsed {
    pub remote: Option<PeerId>,
    pub name: Owned,
}

impl View for Parsed {
    type V = ParsedView;

    open spec fn view(&self) -> ParsedView {
        ParsedView {
            remote: match &self.remote {
                Some(p) => Some(p@),
                None => None,
            },
            name: self.name@,
        }
    }
}

/// Splits `name` into its remote peer, if any, and its owned name.
pub fn parse(name: &Qualified) -> (r: Option<Parsed>)
    ensures
        r is Some <==> parse_of(name@) is Some,
        r is Some ==> r->Some_0@ == parse_of(name@)->Some_0,
{
    let cs = name.parts();
    let o = match owned(name) {
        Some(o) => o,
        None => {
            return None;
        },
    };
    proof {
        lemma_lits();
    }
    if is_lit(&cs[1], "remotes") {
        let peer = PeerId::from_text(cs[2].clone());
        Some(Parsed { remote: Some(peer), name: o })
    } else {
        Some(Parsed { remote: None, name: o })
    }
}

impl Parsed {
    /// The owned name.
    pub fn to_owned(&self) -> (r: Owned)
        ensures
            r@ == self@.name,
    {
        self.name.check();
        proof {
            lemma_lits();
        }
        let q = self.name.as_qualified().to_owned();
        match owned(&q) {
            Some(o) => o,
            None => vstd::pervasive::unreached(),
        }
    }

    /// The remote-tracking name under the peer, if the name has one.
    pub fn to_remote_tracking(&self) -> (r: Option<RemoteTracking>)
        ensures
            r is Some <==> self@.remote is Some,
            r is Some ==> r->Some_0@ == into_rt(self@.remote->Some_0, self@.name),
    {
        match &self.remote {
            None => None,
            Some(p) => Some(self.to_owned().into_remote_tracking(p)),
        }
    }
}

} // verus!
