//! What a negotiation round exchanges: `ls-refs` prefixes, advertised refs
//! retained by a filter, and the wants and haves of a `fetch`.
use vstd::prelude::*;

use crate::ids::{ObjectId, PeerId};
use crate::name::join_slash;
use crate::parsed::{kind, kind_of, parse, parse_of, Parsed, RefKind};
use crate::refs::{into_rt, is_owned, Owned, Qualified, RemoteTracking};

verus! {

/// Why a round did not fetch.
#[derive(Clone, Copy, Debug, PartialEq, Eq, Structural)]
pub enum SkippedFetch {
    /// The remote did not advertise any matching refs.
    NoMatchingRefs,
    /// All local refs are up to date.
    WantNothing,
}

/// The text of a prefix for `prefix` (which starts with `refs/`), scoped to
/// `scope`: `refs/remotes/<scope>/` replaces `refs/` where there is one.
pub open spec fn prefix_of(scope: Option<Seq<char>>, prefix: Seq<char>) -> Seq<char> {
    match scope {
        None => prefix,
        Some(id) => "refs/remotes/"@ + id + "/"@ + prefix.subrange(5, prefix.len() as int),
    }
}

pub open spec fn starts_with_refs(s: Seq<char>) -> bool {
    s.len() >= 5 && s.subrange(0, 5) == "refs/"@
}

/// A `ref-prefix` argument of `ls-refs`.
#[derive(Debug)]
pub struct RefPrefix(String);

impl View for RefPrefix {
    type V = Seq<char>;

    closed spec fn view(&self) -> Seq<char> {
        self.0@
    }
}

impl RefPrefix {
    pub fn from_prefix(scope: Option<&PeerId>, prefix: &str) -> (r: RefPrefix)
        requires
            starts_with_refs(prefix@),
        ensures
            r@ == prefix_of(
                match scope {
                    Some(p) => Some(p@),
                    None => None,
                },
                prefix@,
            ),
    {
        match scope {
            None => RefPrefix(prefix.to_owned()),
            Some(id) => {
                let mut s = "refs/remotes/".to_owned();
                s.append(id.as_str());
                s.append("/");
                let rest = prefix.substring_char(5, prefix.unicode_len());
                s.append(rest);
                RefPrefix(s)
            },
        }
    }

    /// The prefix spelling out a whole name.
    pub fn from_name(name: &Qualified) -> (r: RefPrefix)
        ensures
            r@ == join_slash(name@),
    {
        RefPrefix(name.as_str())
    }

    pub fn as_str(&self) -> (r: &str)
        ensures
            r@ == self@,
    {
        self.0.as_str()
    }

    pub fn same(&self, other: &RefPrefix) -> (r: bool)
        ensures
            r == (self@ == other@),
    {
        self.0 == other.0
    }

    /// Whether the text of `name` starts with this prefix.
    pub fn matches(&self, name: &Qualified) -> (r: bool)
        ensures
            r == (self@.len() <= join_slash(name@).len() && join_slash(name@).subrange(
                0,
                self@.len() as int,
            ) == self@),
    {
        let text = name.as_str();
        let t = text.as_str();
        let p = self.0.as_str();
        let n = p.unicode_len();
        if n > t.unicode_len() {
            assert(t@ == join_slash(name@));
            return false;
        }
        let mut i: usize = 0;
        while i < n
            invariant
                n == p@.len(),
                n <= t@.len(),
                t@ == join_slash(name@),
                p@ == self@,
                i <= n,
                t@.subrange(0, i as int) == p@.subrange(0, i as int),
            decreases n - i,
        {
            let a = t.get_char(i);
            let b = p.get_char(i);
            if a != b {
                assert(t@ == join_slash(name@));
                assert(p@ == self@);
                assert(join_slash(name@).subrange(0, n as int)[i as int] != self@[i as int]);
                return false;
            }
            assert(t@.subrange(0, i as int + 1) =~= t@.subrange(0, i as int).push(t@[i as int]));
            assert(p@.subrange(0, i as int + 1) =~= p@.subrange(0, i as int).push(p@[i as int]));
            i += 1;
        }
        assert(p@.subrange(0, n as int) =~= p@);
        true
    }
}

/// A ref as the remote advertised it.
#[derive(Debug)]
pub struct Advertised {
    pub name: String,
    pub tip: ObjectId,
}

/// What a retained ref holds: its tip, the peer it belongs to, and its owned
/// name.
pub struct FilteredView {
    pub tip: ObjectId,
    pub remote: Seq<char>,
    pub name: Seq<Seq<char>>,
}

/// One advertised ref retained by a negotiation step. Its peer is always
/// set: the peer named in the ref, or else the remote it was fetched from.
#[derive(Debug)]
pub struct FilteredRef {
    tip: ObjectId,
    remote_id: PeerId,
    name: Owned,
}

impl View for FilteredRef {
    type V = FilteredView;

    closed spec fn view(&self) -> FilteredView {
        FilteredView { tip: self.tip, remote: self.remote_id@, name: self.name@ }
    }
}

pub open spec fn filtered_views(v: Seq<FilteredRef>) -> Seq<FilteredView> {
    v.map_values(|f: FilteredRef| f@)
}

impl FilteredRef {
    /// A retained ref of `parsed` at `tip`, belonging to the peer that
    /// `parsed` names, or else to `remote_id`.
    pub fn new(tip: ObjectId, remote_id: &PeerId, parsed: Parsed) -> (r: FilteredRef)
        ensures
            r@.tip == tip,
            r@.remote == match parsed@.remote {
                Some(p) => p,
                None => remote_id@,
            },
            r@.name == parsed@.name,
    {
        parsed.name.check();
        let remote = match parsed.remote {
            Some(p) => p,
            None => remote_id.copied(),
        };
        FilteredRef { tip, remote_id: remote, name: parsed.name }
    }

    /// The owned name.
    pub fn to_owned(&self) -> (r: Owned)
        ensures
            r@ == self@.name,
    {
        let p = Parsed { remote: None, name: self.owned_copy() };
        p.to_owned()
    }

    fn owned_copy(&self) -> (r: Owned)
        ensures
            r@ == self@.name,
    {
        self.name.check();
        let q = self.name.as_qualified().to_owned();
        match crate::refs::owned(&q) {
            Some(o) => o,
            None => {
                proof {
                    crate::refs::lemma_lits();
                }
                vstd::pervasive::unreached()
            },
        }
    }

    /// The name under `refs/remotes/<peer>/`.
    pub fn to_remote_tracking(&self) -> (r: RemoteTracking)
        ensures
            r@ == into_rt(self@.remote, self@.name),
    {
        self.owned_copy().into_remote_tracking(&self.remote_id)
    }

    pub fn tip(&self) -> (r: ObjectId)
        ensures
            r == self@.tip,
    {
        self.tip
    }

    pub fn remote_id(&self) -> (r: &PeerId)
        ensures
            r@ == self@.remote,
    {
        &self.remote_id
    }

    pub fn name(&self) -> (r: &Owned)
        ensures
            r@ == self@.name,
            is_owned(r@),
    {
        self.name.check();
        &self.name
    }

    /// The kind of the owned name.
    pub fn kind(&self) -> (r: RefKind)
        ensures
            r == kind_of(self@.name),
    {
        kind(&self.name)
    }

    /// Whether the owned name is of kind `k`.
    pub fn is(&self, k: RefKind) -> (r: bool)
        ensures
            r == (kind_of(self@.name) == k),
    {
        kind(&self.name) == k
    }

    pub fn copied(&self) -> (r: FilteredRef)
        ensures
            r@ == self@,
    {
        FilteredRef { tip: self.tip, remote_id: self.remote_id.copied(), name: self.owned_copy() }
    }
}

/// The parse of an advertised ref, if its text is a qualified name.
pub fn parse_advertised(r: &Advertised) -> (p: Option<Parsed>)
    ensures
        p is Some <==> (crate::refs::qualified_of(r.name@) is Some && parse_of(
            crate::refs::qualified_of(r.name@)->Some_0,
        ) is Some),
        p is Some ==> p->Some_0@ == parse_of(crate::refs::qualified_of(r.name@)->Some_0)->Some_0,
{
    match Qualified::from_refstr(r.name.as_str()) {
        None => None,
        Some(q) => parse(&q),
    }
}

/// The refs a `fetch` should bring, and the objects to ask for and to offer.
#[derive(Debug)]
pub struct WantsHaves {
    pub wanted: Vec<FilteredRef>,
    pub wants: Vec<ObjectId>,
    pub haves: Vec<ObjectId>,
}

impl WantsHaves {
    pub fn new() -> (r: WantsHaves)
        ensures
            r.wanted@.len() == 0,
            r.wants@.len() == 0,
            r.haves@.len() == 0,
    {
        WantsHaves { wanted: Vec::new(), wants: Vec::new(), haves: Vec::new() }
    }
}

/// Adds `o` to `v` unless it is there already.
pub fn insert_oid(v: &mut Vec<ObjectId>, o: ObjectId)
    ensures
        forall|x: ObjectId| #[trigger] final(v)@.contains(x) <==> (old(v)@.contains(x) || x == o),
        old(v)@.no_duplicates() ==> final(v)@.no_duplicates(),
{
    let mut i: usize = 0;
    while i < v.len()
        invariant
            i <= v@.len(),
            v@ == old(v)@,
            forall|j: int| 0 <= j < i ==> v@[j] != o,
        decreases v@.len() - i,
    {
        if v[i].same(&o) {
            assert(v@.contains(o));
            return;
        }
        i += 1;
    }
    let ghost before = v@;
    v.push(o);
    proof {
        assert(!before.contains(o));
        assert forall|x: ObjectId| #[trigger] v@.contains(x) <==> (before.contains(x) || x == o) by {
            if v@.contains(x) && x != o {
                let k = choose|k: int| 0 <= k < v@.len() && v@[k] == x;
                assert(before[k] == x);
            }
            if before.contains(x) {
                let k = choose|k: int| 0 <= k < before.len() && before[k] == x;
                assert(v@[k] == x);
            }
            if x == o {
                assert(v@[v@.len() - 1] == o);
            }
        }
        if before.no_duplicates() {
            assert forall|a: int, b: int|
                0 <= a < v@.len() && 0 <= b < v@.len() && a != b implies v@[a] != v@[b] by {
                if a == v@.len() - 1 {
                    assert(before[b] != o);
                } else if b == v@.len() - 1 {
                    assert(before[a] != o);
                } else {
                    assert(before[a] != before[b]);
                }
            }
        }
    }
}

} // verus!
