//! The reference name taxonomy: qualified, namespaced, remote-tracking, owned
//! and scoped names, and the rewritings between them.
//!
//! A name is modelled as the sequence of its path components.
use vstd::prelude::*;

use crate::ids::{PeerId, Urn};
use crate::name::{
    all_components,
    copy_texts,
    is_component,
    join_slash,
    join_text,
    lemma_split_join,
    no_slash,
    split_slash,
    split_text,
    texts,
};

verus! {

pub open spec fn lit_refs() -> Seq<char> {
    "refs"@
}

pub open spec fn lit_remotes() -> Seq<char> {
    "remotes"@
}

pub open spec fn lit_namespaces() -> Seq<char> {
    "namespaces"@
}

pub proof fn lemma_lits()
    ensures
        lit_refs() != lit_remotes(),
        lit_refs() != lit_namespaces(),
        lit_remotes() != lit_namespaces(),
        is_component(lit_refs()),
        is_component(lit_remotes()),
        is_component(lit_namespaces()),
{
    reveal_strlit("refs");
    reveal_strlit("remotes");
    reveal_strlit("namespaces");
    assert(lit_refs().len() == 4);
    assert(lit_remotes().len() == 7);
    assert(lit_namespaces().len() == 10);
}

/// Starts with `refs` and has at least three components.
pub open spec fn is_qualified(cs: Seq<Seq<char>>) -> bool {
    &&& cs.len() >= 3
    &&& all_components(cs)
    &&& cs[0] == lit_refs()
}

/// `refs/namespaces/<ns>/refs/<cat>/<name>...`
pub open spec fn is_namespaced(cs: Seq<Seq<char>>) -> bool {
    &&& is_qualified(cs)
    &&& cs.len() >= 6
    &&& cs[1] == lit_namespaces()
    &&& cs[3] == lit_refs()
}

/// A qualified name that is neither namespaced nor remote-tracking.
pub open spec fn is_owned(cs: Seq<Seq<char>>) -> bool {
    &&& is_qualified(cs)
    &&& cs[1] != lit_remotes()
    &&& cs[1] != lit_namespaces()
}

/// The qualified name that `s` spells, if any.
pub open spec fn qualified_of(s: Seq<char>) -> Option<Seq<Seq<char>>> {
    if is_qualified(split_slash(s)) {
        Some(split_slash(s))
    } else {
        None
    }
}

/// `name` under the namespace `ns`.
pub open spec fn with_namespace(ns: Seq<char>, name: Seq<Seq<char>>) -> Seq<Seq<char>> {
    seq![lit_refs(), lit_namespaces(), ns] + name
}

/// Removes namespaces for as long as the name is namespaced.
pub open spec fn strip_all(cs: Seq<Seq<char>>) -> Seq<Seq<char>>
    decreases cs.len(),
{
    if is_namespaced(cs) {
        strip_all(cs.subrange(3, cs.len() as int))
    } else {
        cs
    }
}

pub open spec fn rt_prefix(p: Seq<char>) -> Seq<Seq<char>> {
    seq![lit_refs(), lit_remotes(), p]
}

/// Remote tracking form of a name that is not namespaced.
pub open spec fn rt_flat(p: Seq<char>, cs: Seq<Seq<char>>) -> Option<Seq<Seq<char>>> {
    if cs.len() < 3 || cs[0] != lit_refs() {
        None
    } else if cs[1] == lit_remotes() {
        if cs.len() >= 5 {
            Some(rt_prefix(p) + cs.subrange(3, cs.len() as int))
        } else {
            None
        }
    } else {
        Some(rt_prefix(p) + cs.subrange(1, cs.len() as int))
    }
}

/// The name `cs` as tracked from peer `p`: the peer of a remote-tracking name
/// is replaced, namespaces are stripped first, and any other name gets
/// `refs/remotes/<p>/` in front. A category is required after the peer.
pub open spec fn remote_tracking_of(p: Seq<char>, cs: Seq<Seq<char>>) -> Option<Seq<Seq<char>>> {
    if is_namespaced(cs) {
        rt_flat(p, strip_all(cs))
    } else {
        rt_flat(p, cs)
    }
}

/// The owned form of `cs`: `refs/remotes/<peer>/` is removed; namespaced
/// names, and remote-tracking names without category and name or whose rest
/// is not owned, have none.
pub open spec fn owned_of(cs: Seq<Seq<char>>) -> Option<Seq<Seq<char>>> {
    if cs[1] == lit_namespaces() {
        None
    } else if cs[1] == lit_remotes() {
        if cs.len() >= 5 && cs[3] != lit_remotes() && cs[3] != lit_namespaces() {
            Some(seq![lit_refs()] + cs.subrange(3, cs.len() as int))
        } else {
            None
        }
    } else {
        Some(cs)
    }
}

/// An owned name moved under `refs/remotes/<p>/`.
pub open spec fn into_rt(p: Seq<char>, cs: Seq<Seq<char>>) -> Seq<Seq<char>> {
    rt_prefix(p) + cs.subrange(1, cs.len() as int)
}

/// `cs` as seen from `wanted` when fetching from `remote`: owned when the two
/// are the same peer, remote-tracking under `wanted` otherwise.
pub open spec fn scoped_of(wanted: Seq<char>, remote: Seq<char>, cs: Seq<Seq<char>>) -> Seq<
    Seq<char>,
> {
    if wanted == remote {
        owned_of(cs)->Some_0
    } else {
        into_rt(wanted, owned_of(cs)->Some_0)
    }
}

/// Whether the string holds exactly the literal.
pub(crate) fn is_lit(s: &String, lit: &str) -> (r: bool)
    ensures
        r == (s@ == lit@),
{
    let l = lit.to_owned();
    *s == l
}

/// Appends `cs[from..]` to `out`.
pub(crate) fn append_from(out: &mut Vec<String>, cs: &Vec<String>, from: usize)
    requires
        from <= cs@.len(),
    ensures
        texts(final(out)@) == texts(old(out)@) + texts(cs@).subrange(from as int, cs@.len() as int),
{
    let mut i = from;
    while i < cs.len()
        invariant
            from <= i <= cs@.len(),
            texts(out@) == texts(old(out)@) + texts(cs@).subrange(from as int, i as int),
        decreases cs@.len() - i,
    {
        let c = cs[i].clone();
        let ghost before = out@;
        out.push(c);
        assert(texts(out@) =~= texts(before).push(c@));
        assert(texts(old(out)@) + texts(cs@).subrange(from as int, i as int + 1) =~= (texts(
            old(out)@,
        ) + texts(cs@).subrange(from as int, i as int)).push(c@));
        i += 1;
    }
}

/// The three components `refs/remotes/<p>`.
fn remotes_prefix(p: &PeerId) -> (r: Vec<String>)
    ensures
        texts(r@) == rt_prefix(p@),
        is_component(p@),
{
    let mut v: Vec<String> = Vec::new();
    v.push("refs".to_owned());
    v.push("remotes".to_owned());
    v.push(p.to_text());
    assert(texts(v@) =~= rt_prefix(p@));
    v
}

/// A fully qualified reference name: `refs/<category>/<name>...`.
#[derive(Debug)]
pub struct Qualified {
    comps: Vec<String>,
}

impl View for Qualified {
    type V = Seq<Seq<char>>;

    closed spec fn view(&self) -> Seq<Seq<char>> {
        texts(self.comps@)
    }
}

impl Qualified {
    #[verifier::type_invariant]
    spec fn inv(&self) -> bool {
        is_qualified(texts(self.comps@))
    }

    pub(crate) fn from_parts(comps: Vec<String>) -> (r: Qualified)
        requires
            is_qualified(texts(comps@)),
        ensures
            r@ == texts(comps@),
    {
        Qualified { comps }
    }

    pub(crate) fn parts(&self) -> (r: &Vec<String>)
        ensures
            texts(r@) == self@,
            is_qualified(self@),
    {
        proof {
            use_type_invariant(self);
        }
        &self.comps
    }

    /// Holds `self@` to be qualified.
    pub fn check(&self)
        ensures
            is_qualified(self@),
    {
        proof {
            use_type_invariant(self);
        }
    }

    /// The qualified name spelt by `s`, if it is one.
    pub fn from_refstr(s: &str) -> (r: Option<Qualified>)
        ensures
            r is Some <==> qualified_of(s@) is Some,
            r is Some ==> r->Some_0@ == qualified_of(s@)->Some_0,
    {
        let comps = split_text(s);
        if check_qualified(&comps) {
            Some(Qualified { comps })
        } else {
            None
        }
    }

    /// The name as text, components separated by `/`.
    pub fn as_str(&self) -> (r: String)
        ensures
            r@ == join_slash(self@),
    {
        join_text(&self.comps)
    }

    /// This name with the components of `other` appended, if `other` is made
    /// of path components.
    pub fn join(&self, other: &str) -> (r: Option<Qualified>)
        ensures
            r is Some <==> all_components(split_slash(other@)),
            r is Some ==> r->Some_0@ == self@ + split_slash(other@),
    {
        proof {
            use_type_invariant(self);
        }
        let tail = split_text(other);
        if !check_all_components(&tail) {
            return None;
        }
        let mut comps = copy_texts(&self.comps);
        append_from(&mut comps, &tail, 0);
        assert(texts(tail@).subrange(0, tail@.len() as int) =~= texts(tail@));
        assert forall|i: int| 0 <= i < texts(comps@).len() implies is_component(
            #[trigger] texts(comps@)[i],
        ) by {
            if i >= self@.len() {
                assert(texts(comps@)[i] == texts(tail@)[i - self@.len()]);
            }
        }
        Some(Qualified { comps })
    }

    /// This name as a namespaced name, if it is one.
    pub fn namespaced(&self) -> (r: Option<Namespaced>)
        ensures
            r is Some <==> is_namespaced(self@),
            r is Some ==> r->Some_0@ == self@,
    {
        proof {
            use_type_invariant(self);
        }
        if check_namespaced(&self.comps, 0) {
            assert(texts(self.comps@).subrange(0, self@.len() as int) =~= self@);
            Some(Namespaced { comps: copy_texts(&self.comps) })
        } else {
            assert(texts(self.comps@).subrange(0, self@.len() as int) =~= self@);
            None
        }
    }

    /// This name under the namespace of `ns`: `refs/namespaces/<ns>/<self>`.
    pub fn add_namespace(&self, ns: &Urn) -> (r: Namespaced)
        ensures
            r@ == with_namespace(ns@, self@),
    {
        proof {
            use_type_invariant(self);
        }
        let mut comps: Vec<String> = Vec::new();
        comps.push("refs".to_owned());
        comps.push("namespaces".to_owned());
        let nid = ns.encode_id();
        comps.push(nid);
        let ghost head = texts(comps@);
        append_from(&mut comps, &self.comps, 0);
        assert(texts(self.comps@).subrange(0, self@.len() as int) =~= self@);
        assert(head =~= seq![lit_refs(), lit_namespaces(), ns@]);
        proof {
            lemma_lits();
            assert forall|i: int| 0 <= i < texts(comps@).len() implies is_component(
                #[trigger] texts(comps@)[i],
            ) by {
                if i >= 3 {
                    assert(texts(comps@)[i] == self@[i - 3]);
                }
            }
        }
        Namespaced { comps }
    }

    pub fn to_owned(&self) -> (r: Qualified)
        ensures
            r@ == self@,
    {
        proof {
            use_type_invariant(self);
        }
        Qualified { comps: copy_texts(&self.comps) }
    }

    pub fn into_owned(self) -> (r: Qualified)
        ensures
            r@ == self@,
    {
        self
    }

    pub fn into_refstring(self) -> (r: String)
        ensures
            r@ == join_slash(self@),
    {
        join_text(&self.comps)
    }
}

/// Whether every string is a path component.
pub(crate) fn check_all_components(cs: &Vec<String>) -> (r: bool)
    ensures
        r == all_components(texts(cs@)),
{
    let mut i: usize = 0;
    while i < cs.len()
        invariant
            i <= cs@.len(),
            forall|j: int| 0 <= j < i ==> is_component(#[trigger] texts(cs@)[j]),
        decreases cs@.len() - i,
    {
        if !crate::name::check_component(cs[i].as_str()) {
            assert(!is_component(texts(cs@)[i as int]));
            return false;
        }
        i += 1;
    }
    true
}

pub(crate) fn check_qualified(cs: &Vec<String>) -> (r: bool)
    ensures
        r == is_qualified(texts(cs@)),
{
    if cs.len() < 3 {
        return false;
    }
    if !is_lit(&cs[0], "refs") {
        return false;
    }
    check_all_components(cs)
}

/// Whether `cs[start..]` is namespaced, given that it is qualified.
pub(crate) fn check_namespaced(cs: &Vec<String>, start: usize) -> (r: bool)
    requires
        start <= cs@.len(),
        is_qualified(texts(cs@).subrange(start as int, cs@.len() as int)),
    ensures
        r == is_namespaced(texts(cs@).subrange(start as int, cs@.len() as int)),
{
    let ghost t = texts(cs@).subrange(start as int, cs@.len() as int);
    if cs.len() - start < 6 {
        return false;
    }
    assert(t[1] == cs@[start + 1]@);
    assert(t[3] == cs@[start + 3]@);
    is_lit(&cs[start + 1], "namespaces") && is_lit(&cs[start + 3], "refs")
}

/// A qualified name under a namespace:
/// `refs/namespaces/<ns>/refs/<category>/<name>...`.
#[derive(Debug)]
pub struct Namespaced {
    comps: Vec<String>,
}

impl View for Namespaced {
    type V = Seq<Seq<char>>;

    closed spec fn view(&self) -> Seq<Seq<char>> {
        texts(self.comps@)
    }
}

impl Namespaced {
    #[verifier::type_invariant]
    spec fn inv(&self) -> bool {
        is_namespaced(texts(self.comps@))
    }

    /// Holds `self@` to be namespaced.
    pub fn check(&self)
        ensures
            is_namespaced(self@),
    {
        proof {
            use_type_invariant(self);
        }
    }

    /// The outermost namespace.
    pub fn namespace(&self) -> (r: String)
        ensures
            r@ == self@[2],
    {
        proof {
            use_type_invariant(self);
        }
        self.comps[2].clone()
    }

    /// The name with the outermost namespace removed.
    pub fn strip_namespace(&self) -> (r: Qualified)
        ensures
            r@ == self@.subrange(3, self@.len() as int),
    {
        proof {
            use_type_invariant(self);
        }
        let mut comps: Vec<String> = Vec::new();
        append_from(&mut comps, &self.comps, 3);
        proof {
            assert(texts(comps@) =~= self@.subrange(3, self@.len() as int));
            let t = texts(comps@);
            assert forall|i: int| 0 <= i < t.len() implies is_component(#[trigger] t[i]) by {
                assert(t[i] == self@[i + 3]);
            }
        }
        Qualified { comps }
    }

    /// The name with all namespaces removed.
    pub fn strip_namespace_recursive(&self) -> (r: Qualified)
        ensures
            r@ == strip_all(self@),
    {
        proof {
            use_type_invariant(self);
        }
        let ghost whole = self@;
        let mut start: usize = 3;
        let n = self.comps.len();
        proof {
            lemma_strip_qualified(whole, 0);
            assert(whole.subrange(0, whole.len() as int) =~= whole);
        }
        while check_namespaced(&self.comps, start)
            invariant
                whole == texts(self.comps@),
                n == whole.len(),
                is_namespaced(whole),
                3 <= start <= whole.len(),
                is_qualified(whole.subrange(start as int, whole.len() as int)),
                strip_all(whole) == strip_all(whole.subrange(start as int, whole.len() as int)),
            decreases whole.len() - start,
        {
            proof {
                let cur = whole.subrange(start as int, whole.len() as int);
                assert(cur.subrange(3, cur.len() as int) =~= whole.subrange(
                    start + 3,
                    whole.len() as int,
                ));
                lemma_strip_qualified(whole, start as int);
                assert(whole.len() == self.comps@.len());
                assert(start + 3 <= whole.len());
            }
            start = start + 3;
        }
        let mut comps: Vec<String> = Vec::new();
        append_from(&mut comps, &self.comps, start);
        proof {
            let cur = whole.subrange(start as int, whole.len() as int);
            assert(texts(comps@) =~= cur);
        }
        Qualified { comps }
    }

    pub fn to_owned(&self) -> (r: Namespaced)
        ensures
            r@ == self@,
    {
        proof {
            use_type_invariant(self);
        }
        Namespaced { comps: copy_texts(&self.comps) }
    }

    pub fn into_owned(self) -> (r: Namespaced)
        ensures
            r@ == self@,
    {
        self
    }

    pub fn into_qualified(self) -> (r: Qualified)
        ensures
            r@ == self@,
    {
        proof {
            use_type_invariant(&self);
        }
        Qualified { comps: self.comps }
    }
}

/// Stripping one namespace off a namespaced suffix leaves a qualified name.
proof fn lemma_strip_qualified(whole: Seq<Seq<char>>, start: int)
    requires
        0 <= start <= whole.len(),
        is_namespaced(whole.subrange(start, whole.len() as int)),
    ensures
        is_qualified(whole.subrange(start + 3, whole.len() as int)),
        strip_all(whole.subrange(start, whole.len() as int)) == strip_all(
            whole.subrange(start + 3, whole.len() as int),
        ),
{
    let cur = whole.subrange(start, whole.len() as int);
    let next = whole.subrange(start + 3, whole.len() as int);
    assert(cur.subrange(3, cur.len() as int) =~= next);
    assert forall|i: int| 0 <= i < next.len() implies is_component(#[trigger] next[i]) by {
        assert(next[i] == cur[i + 3]);
    }
}

/// `cs[from..]` appended to `refs/remotes/<p>`, as a qualified name.
fn remote_tracking_from(p: &PeerId, cs: &Vec<String>, from: usize) -> (r: Qualified)
    requires
        1 <= from,
        from + 2 <= cs@.len(),
        all_components(texts(cs@)),
    ensures
        r@ == rt_prefix(p@) + texts(cs@).subrange(from as int, cs@.len() as int),
{
    let mut comps = remotes_prefix(p);
    append_from(&mut comps, cs, from);
    proof {
        lemma_lits();
        let t = texts(comps@);
        assert forall|i: int| 0 <= i < t.len() implies is_component(#[trigger] t[i]) by {
            if i >= 3 {
                assert(t[i] == texts(cs@)[i - 3 + from]);
            }
        }
    }
    Qualified { comps }
}

/// The remote-tracking form of a name that is not namespaced.
fn rt_flat_exec(p: &PeerId, cs: &Vec<String>) -> (r: Option<Qualified>)
    requires
        is_qualified(texts(cs@)),
    ensures
        r is Some <==> rt_flat(p@, texts(cs@)) is Some,
        r is Some ==> r->Some_0@ == rt_flat(p@, texts(cs@))->Some_0,
{
    if is_lit(&cs[1], "remotes") {
        if cs.len() >= 5 {
            Some(remote_tracking_from(p, cs, 3))
        } else {
            None
        }
    } else {
        Some(remote_tracking_from(p, cs, 1))
    }
}

/// A name under `refs/remotes/<peer>/<category>/`.
#[derive(Debug)]
pub struct RemoteTracking(Qualified);

impl View for RemoteTracking {
    type V = Seq<Seq<char>>;

    closed spec fn view(&self) -> Seq<Seq<char>> {
        self.0@
    }
}

impl RemoteTracking {
    pub fn as_qualified(&self) -> (r: &Qualified)
        ensures
            r@ == self@,
    {
        &self.0
    }

    pub fn into_qualified(self) -> (r: Qualified)
        ensures
            r@ == self@,
    {
        self.0
    }
}

/// Ensures that `name` is a remote-tracking name under `remote_id`.
///
/// A remote-tracking name gets its peer replaced; a namespaced name is
/// stripped of all namespaces first; any other name, including one whose
/// second component is `namespaces` but which is not namespaced, gets
/// `refs/remotes/<remote_id>/` in front. `None` where no category would follow
/// the peer.
pub fn remote_tracking(remote_id: &PeerId, name: &Qualified) -> (r: Option<RemoteTracking>)
    ensures
        r is Some <==> remote_tracking_of(remote_id@, name@) is Some,
        r is Some ==> r->Some_0@ == remote_tracking_of(remote_id@, name@)->Some_0,
{
    let cs = name.parts();
    match name.namespaced() {
        Some(ns) => {
            let stripped = ns.strip_namespace_recursive();
            proof {
                lemma_strip_all_qualified(name@);
            }
            match rt_flat_exec(remote_id, stripped.parts()) {
                Some(q) => Some(RemoteTracking(q)),
                None => None,
            }
        },
        None => match rt_flat_exec(remote_id, cs) {
            Some(q) => Some(RemoteTracking(q)),
            None => None,
        },
    }
}

/// Stripping namespaces off a qualified name leaves a qualified name.
pub proof fn lemma_strip_all_qualified(cs: Seq<Seq<char>>)
    requires
        is_qualified(cs),
    ensures
        is_qualified(strip_all(cs)),
    decreases cs.len(),
{
    if is_namespaced(cs) {
        let next = cs.subrange(3, cs.len() as int);
        assert forall|i: int| 0 <= i < next.len() implies is_component(#[trigger] next[i]) by {
            assert(next[i] == cs[i + 3]);
        }
        lemma_strip_all_qualified(next);
    }
}

/// A qualified name that is not remote-tracking: `refs/<category>/<name>...`.
#[derive(Debug)]
pub struct Owned(Qualified);

impl View for Owned {
    type V = Seq<Seq<char>>;

    closed spec fn view(&self) -> Seq<Seq<char>> {
        self.0@
    }
}

impl Owned {
    #[verifier::type_invariant]
    spec fn inv(&self) -> bool {
        is_owned(self.0@)
    }

    /// Holds `self@` to be owned.
    pub fn check(&self)
        ensures
            is_owned(self@),
    {
        proof {
            use_type_invariant(self);
        }
    }

    /// This name under `refs/remotes/<remote_id>/`.
    pub fn into_remote_tracking(self, remote_id: &PeerId) -> (r: RemoteTracking)
        ensures
            r@ == into_rt(remote_id@, self@),
    {
        let cs = self.0.parts();
        RemoteTracking(remote_tracking_from(remote_id, cs, 1))
    }

    pub fn into_owned(self) -> (r: Owned)
        ensures
            r@ == self@,
    {
        self
    }

    pub fn as_qualified(&self) -> (r: &Qualified)
        ensures
            r@ == self@,
    {
        &self.0
    }

    pub fn into_qualified(self) -> (r: Qualified)
        ensures
            r@ == self@,
    {
        self.0
    }
}

/// Ensures that `name` is not a remote-tracking name: removes
/// `refs/remotes/<peer>/`. `None` for a namespaced name, and for a
/// remote-tracking name without both a category and a name after the peer.
pub fn owned(name: &Qualified) -> (r: Option<Owned>)
    ensures
        r is Some <==> owned_of(name@) is Some,
        r is Some ==> r->Some_0@ == owned_of(name@)->Some_0,
{
    let cs = name.parts();
    if is_lit(&cs[1], "namespaces") {
        None
    } else if is_lit(&cs[1], "remotes") {
        if cs.len() >= 5 && !is_lit(&cs[3], "remotes") && !is_lit(&cs[3], "namespaces") {
            let mut comps: Vec<String> = Vec::new();
            comps.push("refs".to_owned());
            append_from(&mut comps, cs, 3);
            proof {
                lemma_lits();
                let t = texts(comps@);
                assert(t =~= seq![lit_refs()] + name@.subrange(3, name@.len() as int));
                assert forall|i: int| 0 <= i < t.len() implies is_component(#[trigger] t[i]) by {
                    if i >= 1 {
                        assert(t[i] == name@[i + 2]);
                    }
                }
                assert(t[1] == name@[3]);
            }
            Some(Owned(Qualified { comps }))
        } else {
            None
        }
    } else {
        proof {
            lemma_lits();
        }
        Some(Owned(name.to_owned()))
    }
}

/// The name of a [`Scoped`]: owned, or remote-tracking.
#[derive(Debug)]
pub enum ScopedName {
    Owned(Owned),
    RemoteTracking(RemoteTracking),
}

/// A name as seen from the peer `scope`.
#[derive(Debug)]
pub struct Scoped {
    pub scope: PeerId,
    pub name: ScopedName,
}

impl View for Scoped {
    type V = Seq<Seq<char>>;

    closed spec fn view(&self) -> Seq<Seq<char>> {
        match &self.name {
            ScopedName::Owned(o) => o@,
            ScopedName::RemoteTracking(t) => t@,
        }
    }
}

impl Scoped {
    pub fn as_qualified(&self) -> (r: &Qualified)
        ensures
            r@ == self@,
    {
        match &self.name {
            ScopedName::Owned(o) => o.as_qualified(),
            ScopedName::RemoteTracking(t) => t.as_qualified(),
        }
    }

    pub fn into_qualified(self) -> (r: Qualified)
        ensures
            r@ == self@,
    {
        match self.name {
            ScopedName::Owned(o) => o.into_qualified(),
            ScopedName::RemoteTracking(t) => t.into_qualified(),
        }
    }
}

/// `name` as seen by `wanted_id` when fetching from `remote_id`: owned when
/// the two are the same peer, else remote-tracking under `wanted_id`.
pub fn scoped(wanted_id: &PeerId, remote_id: &PeerId, name: &Qualified) -> (r: Scoped)
    requires
        owned_of(name@) is Some,
    ensures
        r.scope@ == wanted_id@,
        r@ == scoped_of(wanted_id@, remote_id@, name@),
{
    let own = match owned(name) {
        Some(o) => o,
        None => vstd::pervasive::unreached(),
    };
    if wanted_id.same(remote_id) {
        Scoped { scope: wanted_id.copied(), name: ScopedName::Owned(own) }
    } else {
        Scoped {
            scope: wanted_id.copied(),
            name: ScopedName::RemoteTracking(own.into_remote_tracking(wanted_id)),
        }
    }
}

/// `name` under the namespace of `ns`.
pub fn namespaced(ns: &Urn, name: &Qualified) -> (r: Namespaced)
    ensures
        r@ == with_namespace(ns@, name@),
{
    name.add_namespace(ns)
}

/// Tracking a name from `q` and then from `p` is the same as tracking it from
/// `p` directly; a name that cannot be tracked from `q` cannot be tracked
/// from `p` either.
pub proof fn law_remote_tracking_idempotent(p: Seq<char>, q: Seq<char>, n: Seq<Seq<char>>)
    requires
        is_component(p),
        is_component(q),
        is_qualified(n),
    ensures
        match remote_tracking_of(q, n) {
            Some(m) => remote_tracking_of(p, m) == remote_tracking_of(p, n),
            None => remote_tracking_of(p, n) is None,
        },
{
    lemma_lits();
    lemma_strip_all_qualified(n);
    let flat = if is_namespaced(n) {
        strip_all(n)
    } else {
        n
    };
    if let Some(m) = remote_tracking_of(q, n) {
        let rest = if flat[1] == lit_remotes() {
            flat.subrange(3, flat.len() as int)
        } else {
            flat.subrange(1, flat.len() as int)
        };
        assert(m == rt_prefix(q) + rest);
        assert(m[1] == lit_remotes());
        assert(m.subrange(3, m.len() as int) =~= rest);
        assert(remote_tracking_of(p, m) == Some(rt_prefix(p) + rest));
    }
}

/// Scoping an owned name to the peer it is fetched from keeps its owned form.
pub proof fn law_owned_scoped_self(p: Seq<char>, n: Seq<Seq<char>>)
    requires
        is_component(p),
        is_owned(n),
    ensures
        owned_of(scoped_of(p, p, n)) == owned_of(n),
{
}

/// Stripping all namespaces off a name put under two namespaces gives the
/// name back, where the name is not itself namespaced.
pub proof fn law_strip_nested(u1: Seq<char>, u2: Seq<char>, q: Seq<Seq<char>>)
    requires
        is_component(u1),
        is_component(u2),
        is_qualified(q),
        !is_namespaced(q),
    ensures
        strip_all(with_namespace(u1, with_namespace(u2, q))) == q,
{
    lemma_lits();
    let inner = with_namespace(u2, q);
    let outer = with_namespace(u1, inner);
    assert(is_namespaced(inner)) by {
        assert forall|i: int| 0 <= i < inner.len() implies is_component(#[trigger] inner[i]) by {
            if i >= 3 {
                assert(inner[i] == q[i - 3]);
            }
        }
    }
    assert(is_namespaced(outer)) by {
        assert forall|i: int| 0 <= i < outer.len() implies is_component(#[trigger] outer[i]) by {
            if i >= 3 {
                assert(outer[i] == inner[i - 3]);
            }
        }
    }
    assert(outer.subrange(3, outer.len() as int) =~= inner);
    assert(inner.subrange(3, inner.len() as int) =~= q);
    assert(strip_all(q) == q);
    assert(strip_all(inner) == strip_all(q));
    assert(strip_all(outer) == strip_all(inner));
}

/// Writing a qualified name out as text and reading it back gives the name.
pub proof fn law_name_round_trip(q: Seq<Seq<char>>)
    requires
        is_qualified(q),
    ensures
        qualified_of(join_slash(q)) == Some(q),
{
    assert forall|i: int| 0 <= i < q.len() implies no_slash(#[trigger] q[i]) by {
        assert(is_component(q[i]));
    }
    lemma_split_join(q);
}

} // verus!
