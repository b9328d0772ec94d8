//! The negotiation steps of a replication run: [`ForClone`] and [`ForFetch`]
//! peek at the identity layer, [`Fetch`] brings the data that signed refs
//! and tracking call for.
use vstd::prelude::*;

use crate::ids::{ObjectId, PeerId};
use crate::name::join_slash;
use crate::parsed::{kind_of, parse_of, RefKind};
use crate::refdb::{shim_peel, EntryView, Policy, Shim, Update, UpdateView};
use crate::refs::{into_rt, is_owned, lemma_lits, owned_of, qualified_of, scoped, scoped_of, Qualified};
use crate::sigrefs::{contains_peer, peer_views, signed_of, Combined, RefsView};
use crate::transmit::{
    filtered_views,
    insert_oid,
    parse_advertised,
    prefix_of,
    starts_with_refs,
    Advertised,
    FilteredRef,
    FilteredView,
    RefPrefix,
    WantsHaves,
};

verus! {

pub open spec fn prefix_views(v: Seq<RefPrefix>) -> Seq<Seq<char>> {
    v.map_values(|p: RefPrefix| p@)
}

pub open spec fn scope_of(p: Seq<char>, remote: Seq<char>) -> Option<Seq<char>> {
    if p == remote {
        None
    } else {
        Some(p)
    }
}

/// The identity-layer prefixes of peer `p`, as seen from `remote`.
pub open spec fn rad_prefixes_of(p: Seq<char>, remote: Seq<char>) -> Seq<Seq<char>> {
    let sc = scope_of(p, remote);
    seq![
        prefix_of(sc, "refs/rad/id"@),
        prefix_of(sc, "refs/rad/self"@),
        prefix_of(sc, "refs/rad/signed_refs"@),
        prefix_of(sc, "refs/rad/ids/"@),
    ]
}

/// The data prefixes of peer `p`, as seen from `remote`.
pub open spec fn data_prefixes_of(p: Seq<char>, remote: Seq<char>) -> Seq<Seq<char>> {
    let sc = scope_of(p, remote);
    seq![prefix_of(sc, "refs/heads"@), prefix_of(sc, "refs/notes"@), prefix_of(sc, "refs/tags"@)]
}

proof fn lemma_prefix_lits()
    ensures
        starts_with_refs("refs/rad/id"@),
        starts_with_refs("refs/rad/self"@),
        starts_with_refs("refs/rad/signed_refs"@),
        starts_with_refs("refs/rad/ids/"@),
        starts_with_refs("refs/heads"@),
        starts_with_refs("refs/notes"@),
        starts_with_refs("refs/tags"@),
{
    reveal_strlit("refs/");
    reveal_strlit("refs/rad/id");
    reveal_strlit("refs/rad/self");
    reveal_strlit("refs/rad/signed_refs");
    reveal_strlit("refs/rad/ids/");
    reveal_strlit("refs/heads");
    reveal_strlit("refs/notes");
    reveal_strlit("refs/tags");
    assert("refs/rad/id"@.subrange(0, 5) =~= "refs/"@);
    assert("refs/rad/self"@.subrange(0, 5) =~= "refs/"@);
    assert("refs/rad/signed_refs"@.subrange(0, 5) =~= "refs/"@);
    assert("refs/rad/ids/"@.subrange(0, 5) =~= "refs/"@);
    assert("refs/heads"@.subrange(0, 5) =~= "refs/"@);
    assert("refs/notes"@.subrange(0, 5) =~= "refs/"@);
    assert("refs/tags"@.subrange(0, 5) =~= "refs/"@);
}

fn scope<'a>(p: &'a PeerId, remote: &PeerId) -> (r: Option<&'a PeerId>)
    ensures
        match r {
            Some(q) => Some(q@),
            None => None::<Seq<char>>,
        } == scope_of(p@, remote@),
{
    if p.same(remote) {
        None
    } else {
        Some(p)
    }
}

fn push_rad_prefixes(out: &mut Vec<RefPrefix>, p: &PeerId, remote: &PeerId)
    ensures
        prefix_views(final(out)@) == prefix_views(old(out)@) + rad_prefixes_of(p@, remote@),
{
    proof {
        lemma_prefix_lits();
    }
    let sc = scope(p, remote);
    let ghost before = prefix_views(out@);
    out.push(RefPrefix::from_prefix(sc, "refs/rad/id"));
    out.push(RefPrefix::from_prefix(sc, "refs/rad/self"));
    out.push(RefPrefix::from_prefix(sc, "refs/rad/signed_refs"));
    out.push(RefPrefix::from_prefix(sc, "refs/rad/ids/"));
    assert(prefix_views(out@) =~= before + rad_prefixes_of(p@, remote@));
}

fn push_data_prefixes(out: &mut Vec<RefPrefix>, p: &PeerId, remote: &PeerId)
    ensures
        prefix_views(final(out)@) == prefix_views(old(out)@) + data_prefixes_of(p@, remote@),
{
    proof {
        lemma_prefix_lits();
    }
    let sc = scope(p, remote);
    let ghost before = prefix_views(out@);
    out.push(RefPrefix::from_prefix(sc, "refs/heads"));
    out.push(RefPrefix::from_prefix(sc, "refs/notes"));
    out.push(RefPrefix::from_prefix(sc, "refs/tags"));
    assert(prefix_views(out@) =~= before + data_prefixes_of(p@, remote@));
}

/// The local tip of the remote-tracking form of a retained ref.
pub open spec fn local_tip(inner: Seq<EntryView>, fetch: Seq<EntryView>, f: FilteredView) -> Option<
    ObjectId,
> {
    shim_peel(inner, fetch, into_rt(f.remote, f.name))
}

/// The refs whose flag is set.
pub open spec fn kept(refs: Seq<FilteredView>, keep: Seq<bool>) -> Seq<FilteredView>
    decreases refs.len(),
{
    if refs.len() == 0 || keep.len() != refs.len() {
        Seq::empty()
    } else {
        let r = kept(refs.drop_last(), keep.drop_last());
        if keep.last() {
            r.push(refs.last())
        } else {
            r
        }
    }
}

pub open spec fn tips(refs: Seq<FilteredView>) -> Seq<ObjectId> {
    refs.map_values(|f: FilteredView| f.tip)
}

/// The local tips of the refs, where they exist.
pub open spec fn haves_of(inner: Seq<EntryView>, fetch: Seq<EntryView>, refs: Seq<FilteredView>) -> Seq<
    ObjectId,
>
    decreases refs.len(),
{
    if refs.len() == 0 {
        Seq::empty()
    } else {
        let r = haves_of(inner, fetch, refs.drop_last());
        match local_tip(inner, fetch, refs.last()) {
            Some(o) => r.push(o),
            None => r,
        }
    }
}

/// What a [`WantsHaves`] holds, as views.
pub open spec fn wants_haves_is(
    w: WantsHaves,
    inner: Seq<EntryView>,
    fetch: Seq<EntryView>,
    refs: Seq<FilteredView>,
    keep: Seq<bool>,
) -> bool {
    &&& filtered_views(w.wanted@) == kept(refs, keep)
    &&& forall|o: ObjectId| #[trigger] w.wants@.contains(o) <==> tips(kept(refs, keep)).contains(o)
    &&& forall|o: ObjectId| #[trigger] w.haves@.contains(o) <==> haves_of(inner, fetch, refs).contains(o)
}

proof fn lemma_contains_push<A>(s: Seq<A>, x: A, y: A)
    ensures
        s.push(x).contains(y) <==> (s.contains(y) || y == x),
{
    if s.push(x).contains(y) && y != x {
        let k = choose|k: int| 0 <= k < s.push(x).len() && s.push(x)[k] == y;
        assert(s[k] == y);
    }
    if s.contains(y) {
        let k = choose|k: int| 0 <= k < s.len() && s[k] == y;
        assert(s.push(x)[k] == y);
    }
    if y == x {
        assert(s.push(x)[s.len() as int] == x);
    }
}

/// Keeps the flagged refs as wanted, wants their tips, and has the local
/// tips of all of them.
fn collect(db: &Shim, refs: &Vec<FilteredRef>, keep: &Vec<bool>) -> (r: WantsHaves)
    requires
        keep@.len() == refs@.len(),
    ensures
        wants_haves_is(r, db.inner@, db.fetch@, filtered_views(refs@), keep@),
{
    let ghost fv = filtered_views(refs@);
    let mut w = WantsHaves::new();
    let mut i: usize = 0;
    assert(fv.subrange(0, 0) =~= Seq::<FilteredView>::empty());
    assert(keep@.subrange(0, 0) =~= Seq::<bool>::empty());
    assert(filtered_views(w.wanted@) =~= Seq::<FilteredView>::empty());
    while i < refs.len()
        invariant
            i <= refs@.len(),
            keep@.len() == refs@.len(),
            fv == filtered_views(refs@),
            wants_haves_is(
                w,
                db.inner@,
                db.fetch@,
                fv.subrange(0, i as int),
                keep@.subrange(0, i as int),
            ),
        decreases refs@.len() - i,
    {
        let ghost pre = fv.subrange(0, i as int);
        let ghost cur = fv.subrange(0, i as int + 1);
        let ghost kpre = keep@.subrange(0, i as int);
        let ghost kcur = keep@.subrange(0, i as int + 1);
        assert(cur.drop_last() =~= pre);
        assert(kcur.drop_last() =~= kpre);
        assert(cur.last() == refs@[i as int]@);
        let r = &refs[i];
        let rt = r.to_remote_tracking();
        let have = db.refname_to_id(rt.as_qualified());
        let ghost old_haves = w.haves@;
        match have {
            Some(o) => {
                insert_oid(&mut w.haves, o);
                proof {
                    assert forall|x: ObjectId| #[trigger] w.haves@.contains(x) <==> haves_of(
                        db.inner@,
                        db.fetch@,
                        cur,
                    ).contains(x) by {
                        lemma_contains_push(haves_of(db.inner@, db.fetch@, pre), o, x);
                    }
                }
            },
            None => {},
        }
        if keep[i] {
            let ghost old_wanted = w.wanted@;
            insert_oid(&mut w.wants, r.tip());
            w.wanted.push(r.copied());
            proof {
                assert(filtered_views(w.wanted@) =~= filtered_views(old_wanted).push(fv[i as int]));
                assert(tips(kept(cur, kcur)) =~= tips(kept(pre, kpre)).push(r@.tip));
                assert forall|x: ObjectId| #[trigger] w.wants@.contains(x) <==> tips(
                    kept(cur, kcur),
                ).contains(x) by {
                    lemma_contains_push(tips(kept(pre, kpre)), r@.tip, x);
                }
            }
        }
        i += 1;
    }
    assert(fv.subrange(0, refs@.len() as int) =~= fv);
    assert(keep@.subrange(0, refs@.len() as int) =~= keep@);
    w
}

/// The update a retained identity-layer or data ref gives, on its
/// remote-tracking name: identity documents must fast-forward, the
/// personal identity and the signed manifest are rejected where they do not,
/// data refs are forced; other refs give none.
pub open spec fn mk_update_of(f: FilteredView) -> Option<UpdateView> {
    let name = into_rt(f.remote, f.name);
    match kind_of(f.name) {
        RefKind::Id | RefKind::Ids => Some(
            UpdateView::Direct { name, target: f.tip, no_ff: Policy::Abort },
        ),
        RefKind::SelfRef | RefKind::SignedRefs => Some(
            UpdateView::Direct { name, target: f.tip, no_ff: Policy::Reject },
        ),
        RefKind::Heads | RefKind::Notes | RefKind::Tags => Some(
            UpdateView::Direct { name, target: f.tip, no_ff: Policy::Allow },
        ),
        _ => None,
    }
}

pub open spec fn mk_updates_of(refs: Seq<FilteredView>) -> Seq<UpdateView>
    decreases refs.len(),
{
    if refs.len() == 0 {
        Seq::empty()
    } else {
        let r = mk_updates_of(refs.drop_last());
        match mk_update_of(refs.last()) {
            Some(u) => r.push(u),
            None => r,
        }
    }
}

pub open spec fn update_views(v: Seq<Update>) -> Seq<UpdateView> {
    v.map_values(|u: Update| u@)
}

fn mk_update(r: &FilteredRef) -> (u: Option<Update>)
    ensures
        match mk_update_of(r@) {
            Some(v) => u is Some && u->Some_0@ == v,
            None => u is None,
        },
{
    let name = r.to_remote_tracking().into_qualified();
    match r.kind() {
        RefKind::Id | RefKind::Ids => Some(
            Update::Direct { name, target: r.tip(), no_ff: Policy::Abort },
        ),
        RefKind::SelfRef | RefKind::SignedRefs => Some(
            Update::Direct { name, target: r.tip(), no_ff: Policy::Reject },
        ),
        RefKind::Heads | RefKind::Notes | RefKind::Tags => Some(
            Update::Direct { name, target: r.tip(), no_ff: Policy::Allow },
        ),
        _ => None,
    }
}

fn mk_updates(refs: &Vec<FilteredRef>) -> (r: Vec<Update>)
    ensures
        update_views(r@) == mk_updates_of(filtered_views(refs@)),
{
    let ghost fv = filtered_views(refs@);
    let mut out: Vec<Update> = Vec::new();
    let mut i: usize = 0;
    assert(fv.subrange(0, 0) =~= Seq::<FilteredView>::empty());
    assert(update_views(out@) =~= Seq::<UpdateView>::empty());
    while i < refs.len()
        invariant
            i <= refs@.len(),
            fv == filtered_views(refs@),
            update_views(out@) == mk_updates_of(fv.subrange(0, i as int)),
        decreases refs@.len() - i,
    {
        let ghost cur = fv.subrange(0, i as int + 1);
        assert(cur.drop_last() =~= fv.subrange(0, i as int));
        assert(cur.last() == refs@[i as int]@);
        let ghost before = out@;
        match mk_update(&refs[i]) {
            Some(u) => {
                out.push(u);
                assert(update_views(out@) =~= update_views(before).push(out@.last()@));
            },
            None => {},
        }
        i += 1;
    }
    assert(fv.subrange(0, refs@.len() as int) =~= fv);
    out
}

/// Names that a layout check found missing.
#[derive(Debug)]
pub enum Layout {
    MissingRequiredRefs(Vec<Qualified>),
}

pub open spec fn qualified_views(v: Seq<Qualified>) -> Seq<Seq<Seq<char>>> {
    v.map_values(|q: Qualified| q@)
}

/// The names of the required identity-layer refs of `p`, as seen from
/// `remote`.
pub open spec fn required_of(p: Seq<char>, remote: Seq<char>) -> Seq<Seq<Seq<char>>> {
    seq![
        scoped_of(p, remote, seq![crate::refs::lit_refs(), "rad"@, "id"@]),
        scoped_of(p, remote, seq![crate::refs::lit_refs(), "rad"@, "self"@]),
        scoped_of(p, remote, seq![crate::refs::lit_refs(), "rad"@, "signed_refs"@]),
    ]
}

/// The names of the advertised refs, each as seen from `remote`.
pub open spec fn advertised_of(refs: Seq<FilteredView>, remote: Seq<char>) -> Seq<Seq<Seq<char>>> {
    refs.map_values(|f: FilteredView| scoped_of(f.remote, remote, f.name))
}

fn rad_name(last: &str) -> (r: Qualified)
    requires
        crate::name::is_component(last@),
    ensures
        r@ == seq![crate::refs::lit_refs(), "rad"@, last@],
        is_owned(r@),
{
    let mut v: Vec<String> = Vec::new();
    v.push("refs".to_owned());
    v.push("rad".to_owned());
    v.push(last.to_owned());
    proof {
        lemma_lits();
        reveal_strlit("rad");
        reveal_strlit("refs");
        reveal_strlit("remotes");
        reveal_strlit("namespaces");
        assert("rad"@.len() == 3);
        assert("remotes"@.len() == 7);
        assert("namespaces"@.len() == 10);
        assert(crate::name::texts(v@) =~= seq![crate::refs::lit_refs(), "rad"@, last@]);
        assert(crate::name::is_component("rad"@));
        assert("rad"@ != crate::refs::lit_remotes());
        assert("rad"@ != crate::refs::lit_namespaces());
    }
    Qualified::from_parts(v)
}

fn required_names(p: &PeerId, remote: &PeerId) -> (r: Vec<Qualified>)
    ensures
        qualified_views(r@) == required_of(p@, remote@),
{
    proof {
        reveal_strlit("id");
        reveal_strlit("self");
        reveal_strlit("signed_refs");
        lemma_lits();
    }
    let id = rad_name("id");
    let selv = rad_name("self");
    let sig = rad_name("signed_refs");
    let mut v: Vec<Qualified> = Vec::new();
    v.push(scoped(p, remote, &id).into_qualified());
    v.push(scoped(p, remote, &selv).into_qualified());
    v.push(scoped(p, remote, &sig).into_qualified());
    assert(qualified_views(v@) =~= required_of(p@, remote@));
    v
}

fn advertised_names(refs: &Vec<FilteredRef>, remote: &PeerId) -> (r: Vec<Qualified>)
    ensures
        qualified_views(r@) == advertised_of(filtered_views(refs@), remote@),
{
    let mut v: Vec<Qualified> = Vec::new();
    let mut i: usize = 0;
    while i < refs.len()
        invariant
            i <= refs@.len(),
            qualified_views(v@) == advertised_of(filtered_views(refs@), remote@).subrange(
                0,
                i as int,
            ),
        decreases refs@.len() - i,
    {
        let r = &refs[i];
        let name = r.name();
        proof {
            lemma_lits();
        }
        let s = scoped(r.remote_id(), remote, name.as_qualified());
        let ghost before = v@;
        let q = s.into_qualified();
        let ghost qv = q@;
        assert(qv == advertised_of(filtered_views(refs@), remote@)[i as int]);
        v.push(q);
        assert(qualified_views(v@) =~= qualified_views(before).push(qv));
        assert(qualified_views(v@) =~= advertised_of(filtered_views(refs@), remote@).subrange(
            0,
            i as int + 1,
        ));
        i += 1;
    }
    assert(advertised_of(filtered_views(refs@), remote@).subrange(0, refs@.len() as int)
        =~= advertised_of(filtered_views(refs@), remote@));
    v
}

fn contains_name(v: &Vec<Qualified>, q: &Qualified) -> (r: bool)
    ensures
        r == qualified_views(v@).contains(q@),
{
    let mut i: usize = 0;
    while i < v.len()
        invariant
            i <= v@.len(),
            forall|j: int| 0 <= j < i ==> v@[j]@ != q@,
        decreases v@.len() - i,
    {
        if crate::refdb::same_name(&v[i], q) {
            assert(qualified_views(v@)[i as int] == q@);
            return true;
        }
        i += 1;
    }
    assert forall|j: int| 0 <= j < qualified_views(v@).len() implies qualified_views(v@)[j]
        != q@ by {
        assert(qualified_views(v@)[j] == v@[j]@);
    }
    false
}

/// The required names that are not among the advertised ones.
pub open spec fn missing_of(required: Seq<Seq<Seq<char>>>, advertised: Seq<Seq<Seq<char>>>) -> Seq<
    Seq<Seq<char>>,
>
    decreases required.len(),
{
    if required.len() == 0 {
        Seq::empty()
    } else {
        let r = missing_of(required.drop_last(), advertised);
        if advertised.contains(required.last()) {
            r
        } else {
            r.push(required.last())
        }
    }
}

fn push_missing(out: &mut Vec<Qualified>, required: Vec<Qualified>, advertised: &Vec<Qualified>)
    ensures
        qualified_views(final(out)@) == qualified_views(old(out)@) + missing_of(
            qualified_views(required@),
            qualified_views(advertised@),
        ),
{
    let ghost rv = qualified_views(required@);
    let ghost av = qualified_views(advertised@);
    let n = required.len();
    let mut required = required;
    let ghost all = required@;
    let mut i: usize = 0;
    assert(rv.subrange(0, 0) =~= Seq::<Seq<Seq<char>>>::empty());
    assert(qualified_views(out@) =~= qualified_views(old(out)@) + Seq::empty());
    assert(required@.subrange(0, n as int) =~= required@);
    while i < n
        invariant
            i <= n,
            n == all.len(),
            rv == qualified_views(all),
            av == qualified_views(advertised@),
            required@ == all.subrange(i as int, n as int),
            qualified_views(out@) == qualified_views(old(out)@) + missing_of(
                rv.subrange(0, i as int),
                av,
            ),
        decreases n - i,
    {
        let ghost cur = rv.subrange(0, i as int + 1);
        assert(cur.drop_last() =~= rv.subrange(0, i as int));
        assert(required@[0] == all[i as int]);
        let q = required.remove(0);
        assert(required@ =~= all.subrange(i as int + 1, n as int));
        assert(cur.last() == q@);
        if !contains_name(advertised, &q) {
            let ghost before = qualified_views(out@);
            out.push(q);
            assert(qualified_views(out@) =~= before.push(cur.last()));
        }
        i += 1;
    }
    assert(rv.subrange(0, n as int) =~= rv);
}

/// Whether `p` is among `v` minus `local`, as views.
pub open spec fn without(v: Seq<Seq<char>>, local: Seq<char>) -> Seq<Seq<char>>
    decreases v.len(),
{
    if v.len() == 0 {
        Seq::empty()
    } else {
        let r = without(v.drop_last(), local);
        if v.last() == local {
            r
        } else {
            r.push(v.last())
        }
    }
}

/// The step that peeks at the identity layer of a peer that has not been
/// replicated yet.
#[derive(Debug)]
pub struct ForClone {
    pub remote_id: PeerId,
}

impl ForClone {
    /// The identity-layer refs the remote must advertise.
    pub fn required_refs(&self) -> (r: Vec<Qualified>)
        ensures
            qualified_views(r@) == required_of(self.remote_id@, self.remote_id@),
    {
        required_names(&self.remote_id, &self.remote_id)
    }

    pub fn ref_prefixes(&self) -> (r: Vec<RefPrefix>)
        ensures
            prefix_views(r@) == rad_prefixes_of(self.remote_id@, self.remote_id@),
    {
        let mut out: Vec<RefPrefix> = Vec::new();
        push_rad_prefixes(&mut out, &self.remote_id, &self.remote_id);
        assert(prefix_views(out@) =~= rad_prefixes_of(self.remote_id@, self.remote_id@));
        out
    }

    /// Keeps the identity-layer refs of the remote itself.
    pub fn ref_filter(&self, r: &Advertised) -> (f: Option<FilteredRef>)
        ensures
            match qualified_of(r.name@) {
                Some(q) => match parse_of(q) {
                    Some(p) => if p.remote is None && kind_of(p.name).is_rad() {
                        f is Some && f->Some_0@ == FilteredView {
                            tip: r.tip,
                            remote: self.remote_id@,
                            name: p.name,
                        }
                    } else {
                        f is None
                    },
                    None => f is None,
                },
                None => f is None,
            },
    {
        match parse_advertised(r) {
            None => None,
            Some(parsed) => {
                if parsed.remote.is_none() && crate::parsed::kind(&parsed.name).rad() {
                    Some(FilteredRef::new(r.tip, &self.remote_id, parsed))
                } else {
                    None
                }
            },
        }
    }

    /// Wants every retained ref of the remote.
    pub fn wants_haves(&self, db: &Shim, refs: &Vec<FilteredRef>) -> (r: WantsHaves)
        ensures
            wants_haves_is(
                r,
                db.inner@,
                db.fetch@,
                filtered_views(refs@),
                filtered_views(refs@).map_values(|f: FilteredView| f.remote == self.remote_id@),
            ),
    {
        let mut keep: Vec<bool> = Vec::new();
        let mut i: usize = 0;
        while i < refs.len()
            invariant
                i <= refs@.len(),
                keep@ == filtered_views(refs@).map_values(
                    |f: FilteredView| f.remote == self.remote_id@,
                ).subrange(0, i as int),
            decreases refs@.len() - i,
        {
            keep.push(refs[i].remote_id().same(&self.remote_id));
            assert(keep@ =~= filtered_views(refs@).map_values(
                |f: FilteredView| f.remote == self.remote_id@,
            ).subrange(0, i as int + 1));
            i += 1;
        }
        assert(filtered_views(refs@).map_values(|f: FilteredView| f.remote == self.remote_id@).subrange(
            0,
            refs@.len() as int,
        ) =~= filtered_views(refs@).map_values(|f: FilteredView| f.remote == self.remote_id@));
        collect(db, refs, &keep)
    }

    /// The updates of the retained refs where the remote is among the
    /// delegates of the verified identity, none otherwise.
    pub fn prepare(&self, delegate_ids: &Vec<PeerId>, refs: &Vec<FilteredRef>) -> (r: Vec<Update>)
        ensures
            update_views(r@) == if peer_views(delegate_ids@).contains(self.remote_id@) {
                mk_updates_of(filtered_views(refs@))
            } else {
                Seq::empty()
            },
    {
        if contains_peer(delegate_ids, &self.remote_id) {
            mk_updates(refs)
        } else {
            let v: Vec<Update> = Vec::new();
            assert(update_views(v@) =~= Seq::<UpdateView>::empty());
            v
        }
    }

    /// Every required ref must be advertised.
    pub fn pre_validate(&self, refs: &Vec<FilteredRef>) -> (r: Result<(), Layout>)
        ensures
            ({
                let missing = missing_of(
                    required_of(self.remote_id@, self.remote_id@),
                    advertised_of(filtered_views(refs@), self.remote_id@),
                );
                &&& r is Ok <==> missing.len() == 0
                &&& r is Err ==> match r->Err_0 {
                    Layout::MissingRequiredRefs(v) => qualified_views(v@) == missing,
                }
            }),
    {
        let adv = advertised_names(refs, &self.remote_id);
        let mut missing: Vec<Qualified> = Vec::new();
        push_missing(&mut missing, self.required_refs(), &adv);
        assert(qualified_views(missing@) =~= missing_of(
            required_of(self.remote_id@, self.remote_id@),
            advertised_of(filtered_views(refs@), self.remote_id@),
        ));
        if missing.len() == 0 {
            Ok(())
        } else {
            Err(Layout::MissingRequiredRefs(missing))
        }
    }
}

/// The identity-layer prefixes of every peer in `ps`, as seen from `remote`.
pub open spec fn rad_prefixes_all(ps: Seq<Seq<char>>, remote: Seq<char>) -> Seq<Seq<char>>
    decreases ps.len(),
{
    if ps.len() == 0 {
        Seq::empty()
    } else {
        rad_prefixes_all(ps.drop_last(), remote) + rad_prefixes_of(ps.last(), remote)
    }
}

/// The data prefixes of every peer in `ps`, as seen from `remote`.
pub open spec fn data_prefixes_all(ps: Seq<Seq<char>>, remote: Seq<char>) -> Seq<Seq<char>>
    decreases ps.len(),
{
    if ps.len() == 0 {
        Seq::empty()
    } else {
        data_prefixes_all(ps.drop_last(), remote) + data_prefixes_of(ps.last(), remote)
    }
}

/// The required refs of every peer in `ps`, as seen from `remote`.
pub open spec fn required_all(ps: Seq<Seq<char>>, remote: Seq<char>) -> Seq<Seq<Seq<char>>>
    decreases ps.len(),
{
    if ps.len() == 0 {
        Seq::empty()
    } else {
        required_all(ps.drop_last(), remote) + required_of(ps.last(), remote)
    }
}

/// The prefixes naming each signed ref of `p`, as seen from `remote`.
pub open spec fn names_prefixes(
    p: Seq<char>,
    remote: Seq<char>,
    names: Seq<(Seq<Seq<char>>, ObjectId)>,
) -> Seq<Seq<char>> {
    names.map_values(|n: (Seq<Seq<char>>, ObjectId)| join_slash(scoped_of(p, remote, n.0)))
}

/// The prefixes naming each signed ref of every peer other than `local`.
pub open spec fn signed_prefixes_all(
    v: Seq<(Seq<char>, RefsView)>,
    local: Seq<char>,
    remote: Seq<char>,
) -> Seq<Seq<char>>
    decreases v.len(),
{
    if v.len() == 0 {
        Seq::empty()
    } else {
        let r = signed_prefixes_all(v.drop_last(), local, remote);
        if v.last().0 == local {
            r
        } else {
            r + names_prefixes(v.last().0, remote, v.last().1.refs)
        }
    }
}

/// The peers of `v` other than `local`.
fn peers_without(out: &mut Vec<PeerId>, v: &Vec<PeerId>, local: &PeerId)
    ensures
        peer_views(final(out)@) == peer_views(old(out)@) + without(peer_views(v@), local@),
{
    let ghost pv = peer_views(v@);
    let mut i: usize = 0;
    assert(pv.subrange(0, 0) =~= Seq::<Seq<char>>::empty());
    assert(peer_views(out@) =~= peer_views(old(out)@) + Seq::empty());
    while i < v.len()
        invariant
            i <= v@.len(),
            pv == peer_views(v@),
            peer_views(out@) == peer_views(old(out)@) + without(pv.subrange(0, i as int), local@),
        decreases v@.len() - i,
    {
        let ghost cur = pv.subrange(0, i as int + 1);
        assert(cur.drop_last() =~= pv.subrange(0, i as int));
        assert(cur.last() == v@[i as int]@);
        if !v[i].same(local) {
            let ghost before = peer_views(out@);
            out.push(v[i].copied());
            assert(peer_views(out@) =~= before.push(v@[i as int]@));
        }
        i += 1;
    }
    assert(pv.subrange(0, v@.len() as int) =~= pv);
}

/// The step that peeks at the identity layer of the delegates and tracked
/// peers of an identity already replicated.
#[derive(Debug)]
pub struct ForFetch {
    /// The local peer, whose own refs are never fetched.
    pub local_id: PeerId,
    /// The peer fetched from.
    pub remote_id: PeerId,
    /// The delegates of the latest known identity revision.
    pub delegates: Vec<PeerId>,
    /// The other peers being tracked.
    pub tracking: Vec<PeerId>,
}

impl ForFetch {
    /// Delegates and tracked peers, without the local peer.
    pub fn peers(&self) -> (r: Vec<PeerId>)
        ensures
            peer_views(r@) == without(peer_views(self.delegates@), self.local_id@) + without(
                peer_views(self.tracking@),
                self.local_id@,
            ),
    {
        let mut out: Vec<PeerId> = Vec::new();
        assert(peer_views(out@) =~= Seq::<Seq<char>>::empty());
        peers_without(&mut out, &self.delegates, &self.local_id);
        peers_without(&mut out, &self.tracking, &self.local_id);
        assert(peer_views(out@) =~= without(peer_views(self.delegates@), self.local_id@) + without(
            peer_views(self.tracking@),
            self.local_id@,
        ));
        out
    }

    /// The identity-layer refs every delegate other than the local peer must
    /// have advertised.
    pub fn required_refs(&self) -> (r: Vec<Qualified>)
        ensures
            qualified_views(r@) == required_all(
                without(peer_views(self.delegates@), self.local_id@),
                self.remote_id@,
            ),
    {
        let mut ds: Vec<PeerId> = Vec::new();
        peers_without(&mut ds, &self.delegates, &self.local_id);
        assert(peer_views(ds@) =~= without(peer_views(self.delegates@), self.local_id@));
        let ghost dv = peer_views(ds@);
        let mut out: Vec<Qualified> = Vec::new();
        let mut i: usize = 0;
        assert(dv.subrange(0, 0) =~= Seq::<Seq<char>>::empty());
        assert(qualified_views(out@) =~= Seq::<Seq<Seq<char>>>::empty());
        while i < ds.len()
            invariant
                i <= ds@.len(),
                dv == peer_views(ds@),
                qualified_views(out@) == required_all(dv.subrange(0, i as int), self.remote_id@),
            decreases ds@.len() - i,
        {
            let ghost cur = dv.subrange(0, i as int + 1);
            assert(cur.drop_last() =~= dv.subrange(0, i as int));
            let ghost before = qualified_views(out@);
            let mut req = required_names(&ds[i], &self.remote_id);
            let ghost rv = qualified_views(req@);
            out.append(&mut req);
            assert(qualified_views(out@) =~= before + rv);
            i += 1;
        }
        assert(dv.subrange(0, ds@.len() as int) =~= dv);
        out
    }

    pub fn ref_prefixes(&self) -> (r: Vec<RefPrefix>)
        ensures
            prefix_views(r@) == rad_prefixes_all(
                without(peer_views(self.delegates@), self.local_id@) + without(
                    peer_views(self.tracking@),
                    self.local_id@,
                ),
                self.remote_id@,
            ),
    {
        let ps = self.peers();
        let ghost pv = peer_views(ps@);
        let mut out: Vec<RefPrefix> = Vec::new();
        let mut i: usize = 0;
        assert(pv.subrange(0, 0) =~= Seq::<Seq<char>>::empty());
        assert(prefix_views(out@) =~= Seq::<Seq<char>>::empty());
        while i < ps.len()
            invariant
                i <= ps@.len(),
                pv == peer_views(ps@),
                prefix_views(out@) == rad_prefixes_all(pv.subrange(0, i as int), self.remote_id@),
            decreases ps@.len() - i,
        {
            let ghost cur = pv.subrange(0, i as int + 1);
            assert(cur.drop_last() =~= pv.subrange(0, i as int));
            push_rad_prefixes(&mut out, &ps[i], &self.remote_id);
            i += 1;
        }
        assert(pv.subrange(0, ps@.len() as int) =~= pv);
        out
    }

    /// Keeps every parsed ref but those of the local peer; a ref that names
    /// no peer belongs to the remote.
    pub fn ref_filter(&self, r: &Advertised) -> (f: Option<FilteredRef>)
        ensures
            match f {
                Some(x) => for_fetch_filter_of(self.local_id@, self.remote_id@, r.name@, r.tip)
                    == Some(x@),
                None => for_fetch_filter_of(self.local_id@, self.remote_id@, r.name@, r.tip) is None,
            },
    {
        match parse_advertised(r) {
            None => None,
            Some(parsed) => {
                let local = match &parsed.remote {
                    Some(x) => x.same(&self.local_id),
                    None => false,
                };
                if local {
                    None
                } else {
                    Some(FilteredRef::new(r.tip, &self.remote_id, parsed))
                }
            },
        }
    }

    /// Wants every retained ref of the delegates and tracked peers.
    pub fn wants_haves(&self, db: &Shim, refs: &Vec<FilteredRef>) -> (r: WantsHaves)
        ensures
            ({
                let ps = without(peer_views(self.delegates@), self.local_id@) + without(
                    peer_views(self.tracking@),
                    self.local_id@,
                );
                wants_haves_is(
                    r,
                    db.inner@,
                    db.fetch@,
                    filtered_views(refs@),
                    filtered_views(refs@).map_values(|f: FilteredView| ps.contains(f.remote)),
                )
            }),
    {
        let ps = self.peers();
        let ghost pv = peer_views(ps@);
        let ghost flags = filtered_views(refs@).map_values(|f: FilteredView| pv.contains(f.remote));
        let mut keep: Vec<bool> = Vec::new();
        let mut i: usize = 0;
        while i < refs.len()
            invariant
                i <= refs@.len(),
                pv == peer_views(ps@),
                flags == filtered_views(refs@).map_values(|f: FilteredView| pv.contains(f.remote)),
                keep@ == flags.subrange(0, i as int),
            decreases refs@.len() - i,
        {
            keep.push(contains_peer(&ps, refs[i].remote_id()));
            assert(keep@ =~= flags.subrange(0, i as int + 1));
            i += 1;
        }
        assert(flags.subrange(0, refs@.len() as int) =~= flags);
        collect(db, refs, &keep)
    }

    /// The retained `rad/id` refs of delegates: their identities must verify
    /// before the updates are taken.
    pub fn identities_to_verify(&self, refs: &Vec<FilteredRef>) -> (r: Vec<FilteredRef>)
        ensures
            filtered_views(r@) == kept(
                filtered_views(refs@),
                filtered_views(refs@).map_values(
                    |f: FilteredView|
                        peer_views(self.delegates@).contains(f.remote) && kind_of(f.name)
                            == RefKind::Id,
                ),
            ),
    {
        let ghost fv = filtered_views(refs@);
        let ghost flags = fv.map_values(
            |f: FilteredView|
                peer_views(self.delegates@).contains(f.remote) && kind_of(f.name) == RefKind::Id,
        );
        let mut out: Vec<FilteredRef> = Vec::new();
        let mut i: usize = 0;
        assert(fv.subrange(0, 0) =~= Seq::<FilteredView>::empty());
        assert(flags.subrange(0, 0) =~= Seq::<bool>::empty());
        assert(filtered_views(out@) =~= Seq::<FilteredView>::empty());
        while i < refs.len()
            invariant
                i <= refs@.len(),
                fv == filtered_views(refs@),
                flags == fv.map_values(
                    |f: FilteredView|
                        peer_views(self.delegates@).contains(f.remote) && kind_of(f.name)
                            == RefKind::Id,
                ),
                filtered_views(out@) == kept(fv.subrange(0, i as int), flags.subrange(0, i as int)),
            decreases refs@.len() - i,
        {
            let ghost cur = fv.subrange(0, i as int + 1);
            let ghost fcur = flags.subrange(0, i as int + 1);
            assert(cur.drop_last() =~= fv.subrange(0, i as int));
            assert(fcur.drop_last() =~= flags.subrange(0, i as int));
            let r = &refs[i];
            if contains_peer(&self.delegates, r.remote_id()) && r.is(RefKind::Id) {
                let ghost before = filtered_views(out@);
                out.push(r.copied());
                assert(filtered_views(out@) =~= before.push(fv[i as int]));
            }
            i += 1;
        }
        assert(fv.subrange(0, refs@.len() as int) =~= fv);
        assert(flags.subrange(0, refs@.len() as int) =~= flags);
        out
    }

    /// The updates of the retained refs.
    pub fn prepare(&self, refs: &Vec<FilteredRef>) -> (r: Vec<Update>)
        ensures
            update_views(r@) == mk_updates_of(filtered_views(refs@)),
    {
        mk_updates(refs)
    }

    /// Every delegate other than the local peer must have advertised its
    /// required refs.
    pub fn pre_validate(&self, refs: &Vec<FilteredRef>) -> (r: Result<(), Layout>)
        ensures
            ({
                let missing = missing_of(
                    required_all(
                        without(peer_views(self.delegates@), self.local_id@),
                        self.remote_id@,
                    ),
                    advertised_of(filtered_views(refs@), self.remote_id@),
                );
                &&& r is Ok <==> missing.len() == 0
                &&& r is Err ==> match r->Err_0 {
                    Layout::MissingRequiredRefs(v) => qualified_views(v@) == missing,
                }
            }),
    {
        let adv = advertised_names(refs, &self.remote_id);
        let mut missing: Vec<Qualified> = Vec::new();
        push_missing(&mut missing, self.required_refs(), &adv);
        assert(qualified_views(missing@) =~= missing_of(
            required_all(without(peer_views(self.delegates@), self.local_id@), self.remote_id@),
            advertised_of(filtered_views(refs@), self.remote_id@),
        ));
        if missing.len() == 0 {
            Ok(())
        } else {
            Err(Layout::MissingRequiredRefs(missing))
        }
    }
}

/// The ref the data step retains of an advertised one.
pub open spec fn fetch_filter_of(
    local: Seq<char>,
    remote: Seq<char>,
    c: crate::sigrefs::CombinedView,
    name: Seq<char>,
    tip: ObjectId,
) -> Option<FilteredView> {
    match qualified_of(name) {
        Some(q) => match parse_of(q) {
            Some(p) => {
                let rem = match p.remote {
                    Some(x) => x,
                    None => remote,
                };
                if kind_of(p.name).is_data() && rem != local && (c.remotes.contains(rem)
                    || signed_of(c, rem, p.name) is Some) {
                    Some(FilteredView { tip, remote: rem, name: p.name })
                } else {
                    None
                }
            },
            None => None,
        },
        None => None,
    }
}

/// The ref the identity-layer peek of a fetch retains of an advertised one.
pub open spec fn for_fetch_filter_of(
    local: Seq<char>,
    remote: Seq<char>,
    name: Seq<char>,
    tip: ObjectId,
) -> Option<FilteredView> {
    match qualified_of(name) {
        Some(q) => match parse_of(q) {
            Some(p) => if p.remote == Some(local) {
                None
            } else {
                Some(
                    FilteredView {
                        tip,
                        remote: match p.remote {
                            Some(x) => x,
                            None => remote,
                        },
                        name: p.name,
                    },
                )
            },
            None => None,
        },
        None => None,
    }
}

/// No update that the peek of a fetch or the data step prepares writes under
/// the local peer, and each writes a qualified name.
pub proof fn law_no_update_of_local(
    local: Seq<char>,
    remote: Seq<char>,
    c: crate::sigrefs::CombinedView,
    name: Seq<char>,
    tip: ObjectId,
)
    requires
        crate::name::is_component(local),
        crate::name::is_component(remote),
        local != remote,
    ensures
        match fetch_filter_of(local, remote, c, name, tip) {
            Some(f) => data_update_of(f).name()[2] != local && crate::refs::is_qualified(
                data_update_of(f).name(),
            ),
            None => true,
        },
        match for_fetch_filter_of(local, remote, name, tip) {
            Some(f) => match mk_update_of(f) {
                Some(u) => u.name()[2] != local && crate::refs::is_qualified(u.name()),
                None => true,
            },
            None => true,
        },
{
    lemma_lits();
    if let Some(q) = qualified_of(name) {
        if let Some(p) = parse_of(q) {
            assert(is_owned(p.name)) by {
                if q[1] == crate::refs::lit_remotes() {
                    let o = seq![crate::refs::lit_refs()] + q.subrange(3, q.len() as int);
                    assert forall|i: int| 0 <= i < o.len() implies crate::name::is_component(
                        #[trigger] o[i],
                    ) by {
                        if i >= 1 {
                            assert(o[i] == q[i + 2]);
                        }
                    }
                }
            }
            let rem = match p.remote {
                Some(x) => x,
                None => remote,
            };
            assert(crate::name::is_component(rem)) by {
                if p.remote is Some {
                    assert(rem == q[2]);
                }
            }
            let n = into_rt(rem, p.name);
            assert(n[2] == rem);
            assert forall|i: int| 0 <= i < n.len() implies crate::name::is_component(
                #[trigger] n[i],
            ) by {
                if i >= 3 {
                    assert(n[i] == p.name[i - 2]);
                }
            }
        }
    }
}

/// The tip a retained ref should have: the signed tip where its peer signed
/// it, else the advertised tip where its peer is tracked.
pub open spec fn desired_of(c: crate::sigrefs::CombinedView, f: FilteredView) -> Option<ObjectId> {
    match signed_of(c, f.remote, f.name) {
        Some(o) => Some(o),
        None => if c.remotes.contains(f.remote) {
            Some(f.tip)
        } else {
            None
        },
    }
}

/// Whether the data step wants a retained ref: it has a desired tip, and
/// the local tip is not that already.
pub open spec fn fetch_wants(
    c: crate::sigrefs::CombinedView,
    inner: Seq<EntryView>,
    fetch: Seq<EntryView>,
    f: FilteredView,
) -> bool {
    desired_of(c, f) is Some && local_tip(inner, fetch, f) != desired_of(c, f)
}

/// The forced update of the remote-tracking name of a retained data ref.
pub open spec fn data_update_of(f: FilteredView) -> UpdateView {
    UpdateView::Direct { name: into_rt(f.remote, f.name), target: f.tip, no_ff: Policy::Allow }
}

/// The step that fetches the data refs that signed refs and tracking call
/// for.
#[derive(Debug)]
pub struct Fetch {
    /// The local peer.
    pub local_id: PeerId,
    /// The peer fetched from.
    pub remote_id: PeerId,
    /// The signed refs that decide which refs to ask for.
    pub signed_refs: Combined,
}

impl Fetch {
    /// The data prefixes of every tracked peer but the local one, then the
    /// exact name of every signed ref of every peer but the local one.
    pub fn ref_prefixes(&self) -> (r: Vec<RefPrefix>)
        ensures
            prefix_views(r@) == data_prefixes_all(
                without(peer_views(self.signed_refs.remotes@), self.local_id@),
                self.remote_id@,
            ) + signed_prefixes_all(self.signed_refs@.refs, self.local_id@, self.remote_id@),
    {
        let mut ps: Vec<PeerId> = Vec::new();
        peers_without(&mut ps, &self.signed_refs.remotes, &self.local_id);
        assert(peer_views(ps@) =~= without(peer_views(self.signed_refs.remotes@), self.local_id@));
        let ghost pv = peer_views(ps@);
        let mut out: Vec<RefPrefix> = Vec::new();
        let mut i: usize = 0;
        assert(pv.subrange(0, 0) =~= Seq::<Seq<char>>::empty());
        assert(prefix_views(out@) =~= Seq::<Seq<char>>::empty());
        while i < ps.len()
            invariant
                i <= ps@.len(),
                pv == peer_views(ps@),
                prefix_views(out@) == data_prefixes_all(pv.subrange(0, i as int), self.remote_id@),
            decreases ps@.len() - i,
        {
            let ghost cur = pv.subrange(0, i as int + 1);
            assert(cur.drop_last() =~= pv.subrange(0, i as int));
            push_data_prefixes(&mut out, &ps[i], &self.remote_id);
            i += 1;
        }
        assert(pv.subrange(0, ps@.len() as int) =~= pv);
        let ghost head = prefix_views(out@);
        let ghost sv = self.signed_refs@.refs;
        let refs = &self.signed_refs.refs;
        let mut k: usize = 0;
        assert(sv.subrange(0, 0) =~= Seq::<(Seq<char>, RefsView)>::empty());
        assert(prefix_views(out@) =~= head + Seq::empty());
        while k < refs.len()
            invariant
                k <= refs@.len(),
                sv == self.signed_refs@.refs,
                sv.len() == refs@.len(),
                refs == &self.signed_refs.refs,
                prefix_views(out@) == head + signed_prefixes_all(
                    sv.subrange(0, k as int),
                    self.local_id@,
                    self.remote_id@,
                ),
            decreases refs@.len() - k,
        {
            let ghost cur = sv.subrange(0, k as int + 1);
            assert(cur.drop_last() =~= sv.subrange(0, k as int));
            assert(cur.last() == sv[k as int]);
            let pr = &refs[k];
            if !pr.peer.same(&self.local_id) {
                let names = &pr.refs.refs;
                let ghost nv = sv[k as int].1.refs;
                let ghost before = prefix_views(out@);
                let mut j: usize = 0;
                assert(nv.subrange(0, 0) =~= Seq::<(Seq<Seq<char>>, ObjectId)>::empty());
                assert(prefix_views(out@) =~= before + names_prefixes(
                    pr.peer@,
                    self.remote_id@,
                    nv.subrange(0, 0),
                ));
                while j < names.len()
                    invariant
                        j <= names@.len(),
                        nv == crate::sigrefs::signed_views(names@),
                        prefix_views(out@) == before + names_prefixes(
                            pr.peer@,
                            self.remote_id@,
                            nv.subrange(0, j as int),
                        ),
                    decreases names@.len() - j,
                {
                    let name = &names[j].name;
                    name.check();
                    proof {
                        lemma_lits();
                    }
                    let sc = scoped(&pr.peer, &self.remote_id, name.as_qualified());
                    let p = RefPrefix::from_name(sc.as_qualified());
                    let ghost pv2 = prefix_views(out@);
                    out.push(p);
                    assert(prefix_views(out@) =~= pv2.push(p@));
                    assert(names_prefixes(pr.peer@, self.remote_id@, nv.subrange(0, j as int + 1))
                        =~= names_prefixes(pr.peer@, self.remote_id@, nv.subrange(0, j as int)).push(
                        p@,
                    ));
                    j += 1;
                }
                assert(nv.subrange(0, names@.len() as int) =~= nv);
            }
            k += 1;
        }
        assert(sv.subrange(0, refs@.len() as int) =~= sv);
        out
    }

    /// Keeps data refs of known categories whose peer is not the local one,
    /// and is tracked or signed the ref; a ref that names no peer belongs to
    /// the remote.
    pub fn ref_filter(&self, r: &Advertised) -> (f: Option<FilteredRef>)
        ensures
            match f {
                Some(x) => fetch_filter_of(
                    self.local_id@,
                    self.remote_id@,
                    self.signed_refs@,
                    r.name@,
                    r.tip,
                ) == Some(x@),
                None => fetch_filter_of(
                    self.local_id@,
                    self.remote_id@,
                    self.signed_refs@,
                    r.name@,
                    r.tip,
                ) is None,
            },
    {
        match parse_advertised(r) {
            None => None,
            Some(parsed) => {
                if !crate::parsed::kind(&parsed.name).data() {
                    return None;
                }
                let f = FilteredRef::new(r.tip, &self.remote_id, parsed);
                if f.remote_id().same(&self.local_id) {
                    return None;
                }
                if self.signed_refs.is_tracked(f.remote_id()) || self.signed_refs.signed(
                    f.remote_id(),
                    f.name(),
                ).is_some() {
                    Some(f)
                } else {
                    None
                }
            },
        }
    }

    /// Wants each retained ref whose desired tip is not the local one.
    pub fn wants_haves(&self, db: &Shim, refs: &Vec<FilteredRef>) -> (r: WantsHaves)
        ensures
            wants_haves_is(
                r,
                db.inner@,
                db.fetch@,
                filtered_views(refs@),
                filtered_views(refs@).map_values(
                    |f: FilteredView| fetch_wants(self.signed_refs@, db.inner@, db.fetch@, f),
                ),
            ),
    {
        let ghost flags = filtered_views(refs@).map_values(
            |f: FilteredView| fetch_wants(self.signed_refs@, db.inner@, db.fetch@, f),
        );
        let mut keep: Vec<bool> = Vec::new();
        let mut i: usize = 0;
        while i < refs.len()
            invariant
                i <= refs@.len(),
                flags == filtered_views(refs@).map_values(
                    |f: FilteredView| fetch_wants(self.signed_refs@, db.inner@, db.fetch@, f),
                ),
                keep@ == flags.subrange(0, i as int),
            decreases refs@.len() - i,
        {
            let r = &refs[i];
            let want = match self.signed_refs.signed(r.remote_id(), r.name()) {
                Some(o) => Some(o),
                None => if self.signed_refs.is_tracked(r.remote_id()) {
                    Some(r.tip())
                } else {
                    None
                },
            };
            let rt = r.to_remote_tracking();
            let have = db.refname_to_id(rt.as_qualified());
            let k = match want {
                None => false,
                Some(w) => match have {
                    Some(h) => !h.same(&w),
                    None => true,
                },
            };
            keep.push(k);
            assert(keep@ =~= flags.subrange(0, i as int + 1));
            i += 1;
        }
        assert(flags.subrange(0, refs@.len() as int) =~= flags);
        collect(db, refs, &keep)
    }

    /// Forced updates of the remote-tracking names of all retained refs.
    pub fn prepare(&self, refs: &Vec<FilteredRef>) -> (r: Vec<Update>)
        ensures
            update_views(r@) == filtered_views(refs@).map_values(|f: FilteredView| data_update_of(f)),
    {
        let mut out: Vec<Update> = Vec::new();
        let mut i: usize = 0;
        while i < refs.len()
            invariant
                i <= refs@.len(),
                update_views(out@) == filtered_views(refs@).map_values(
                    |f: FilteredView| data_update_of(f),
                ).subrange(0, i as int),
            decreases refs@.len() - i,
        {
            let r = &refs[i];
            let name = r.to_remote_tracking().into_qualified();
            let ghost before = update_views(out@);
            out.push(Update::Direct { name, target: r.tip(), no_ff: Policy::Allow });
            assert(update_views(out@) =~= before.push(data_update_of(refs@[i as int]@)));
            assert(update_views(out@) =~= filtered_views(refs@).map_values(
                |f: FilteredView| data_update_of(f),
            ).subrange(0, i as int + 1));
            i += 1;
        }
        assert(filtered_views(refs@).map_values(|f: FilteredView| data_update_of(f)).subrange(
            0,
            refs@.len() as int,
        ) =~= filtered_views(refs@).map_values(|f: FilteredView| data_update_of(f)));
        out
    }

    /// A partial set of signed refs is legal: nothing is required.
    pub fn pre_validate(&self, refs: &Vec<FilteredRef>) -> (r: Result<(), Layout>)
        ensures
            r is Ok,
    {
        Ok(())
    }
}

} // verus!
