//! The speculative state of one replication run, and the validation of its
//! result against signed refs.
use vstd::prelude::*;

use crate::ids::{ObjectId, PeerId, Urn};
use crate::name::texts;
use crate::parsed::{kind_of, RefKind};
use crate::refdb::{
    edits_view,
    entries_of,
    forced_edits,
    shim_peel,
    Applied,
    EditView,
    EntryView,
    Mem,
    Shim,
    Update,
    UpdateView,
};
use crate::refs::{into_rt, Owned, Qualified};
use crate::sigrefs::{peer_views, signed_views, Combined, RefsView};
use crate::steps::update_views;
use crate::transmit::{filtered_views, FilteredRef, FilteredView};

verus! {

/// A tip recorded for a peer.
#[derive(Debug)]
pub struct PeerTip {
    pub peer: PeerId,
    pub tip: ObjectId,
}

/// A delegation tip: the `rad/ids/<urn>` tip a peer advertised.
#[derive(Debug)]
pub struct DelegationTip {
    pub peer: PeerId,
    pub urn: Urn,
    pub tip: ObjectId,
}

/// A tracking relation to record: `peer`, under `urn` or the current URN.
#[derive(Debug)]
pub struct TrackRel {
    pub peer: PeerId,
    pub urn: Option<Urn>,
}

pub open spec fn tip_views(v: Seq<PeerTip>) -> Seq<(Seq<char>, ObjectId)> {
    v.map_values(|t: PeerTip| (t.peer@, t.tip))
}

pub open spec fn delegation_views(v: Seq<DelegationTip>) -> Seq<(Seq<char>, Seq<char>, ObjectId)> {
    v.map_values(|t: DelegationTip| (t.peer@, t.urn@, t.tip))
}

/// The latest tip recorded for `p`.
pub open spec fn tip_for(v: Seq<(Seq<char>, ObjectId)>, p: Seq<char>) -> Option<ObjectId>
    decreases v.len(),
{
    if v.len() == 0 {
        None
    } else if v.last().0 == p {
        Some(v.last().1)
    } else {
        tip_for(v.drop_last(), p)
    }
}

/// The latest delegation tip recorded for `urn` by `p`.
pub open spec fn delegation_for(
    v: Seq<(Seq<char>, Seq<char>, ObjectId)>,
    p: Seq<char>,
    urn: Seq<char>,
) -> Option<ObjectId>
    decreases v.len(),
{
    if v.len() == 0 {
        None
    } else if v.last().0 == p && v.last().1 == urn {
        Some(v.last().2)
    } else {
        delegation_for(v.drop_last(), p, urn)
    }
}

proof fn lemma_tip_for_push(v: Seq<(Seq<char>, ObjectId)>, x: (Seq<char>, ObjectId), p: Seq<char>)
    ensures
        tip_for(v.push(x), p) == if x.0 == p {
            Some(x.1)
        } else {
            tip_for(v, p)
        },
{
    assert(v.push(x).drop_last() =~= v);
}

/// The scratch space of a run: tips seen so far, the updates and trackings
/// to commit at the end, and an in-memory store that absorbs the updates so
/// later steps see them.
#[derive(Debug)]
pub struct FetchState {
    pub refs: Mem,
    pub idts: Vec<PeerTip>,
    pub dels: Vec<DelegationTip>,
    pub sigs: Vec<PeerTip>,
    pub tips: Vec<Update>,
    pub trks: Vec<TrackRel>,
}

impl FetchState {
    /// Every peer with a delegation tip has an identity tip.
    pub open spec fn wf(&self) -> bool {
        forall|i: int|
            0 <= i < self.dels@.len() ==> tip_for(tip_views(self.idts@), #[trigger] self.dels@[i].peer@)
                is Some
    }

    pub fn new() -> (r: FetchState)
        ensures
            r.wf(),
            r.refs@.len() == 0,
            r.idts@.len() == 0,
            r.dels@.len() == 0,
            r.sigs@.len() == 0,
            r.tips@.len() == 0,
            r.trks@.len() == 0,
    {
        FetchState {
            refs: Mem::new(),
            idts: Vec::new(),
            dels: Vec::new(),
            sigs: Vec::new(),
            tips: Vec::new(),
            trks: Vec::new(),
        }
    }

    fn find_tip(v: &Vec<PeerTip>, of: &PeerId) -> (r: Option<ObjectId>)
        ensures
            r == tip_for(tip_views(v@), of@),
    {
        let ghost tv = tip_views(v@);
        let mut i = v.len();
        assert(tv.subrange(0, i as int) =~= tv);
        while i > 0
            invariant
                i <= v@.len(),
                tv == tip_views(v@),
                tip_for(tv, of@) == tip_for(tv.subrange(0, i as int), of@),
            decreases i,
        {
            assert(tv.subrange(0, i as int).drop_last() =~= tv.subrange(0, i as int - 1));
            if v[i - 1].peer.same(of) {
                return Some(v[i - 1].tip);
            }
            i -= 1;
        }
        None
    }

    /// The identity tip recorded for `of`.
    pub fn id_tip(&self, of: &PeerId) -> (r: Option<ObjectId>)
        ensures
            r == tip_for(tip_views(self.idts@), of@),
    {
        Self::find_tip(&self.idts, of)
    }

    /// The signed-refs tip recorded for `of`.
    pub fn sigref_tip(&self, of: &PeerId) -> (r: Option<ObjectId>)
        ensures
            r == tip_for(tip_views(self.sigs@), of@),
    {
        Self::find_tip(&self.sigs, of)
    }

    /// The delegation tip `remote` advertised for `urn`.
    pub fn lookup_delegations(&self, remote: &PeerId, urn: &Urn) -> (r: Option<ObjectId>)
        ensures
            r == delegation_for(delegation_views(self.dels@), remote@, urn@),
    {
        let ghost dv = delegation_views(self.dels@);
        let mut i = self.dels.len();
        assert(dv.subrange(0, i as int) =~= dv);
        while i > 0
            invariant
                i <= self.dels@.len(),
                dv == delegation_views(self.dels@),
                delegation_for(dv, remote@, urn@) == delegation_for(
                    dv.subrange(0, i as int),
                    remote@,
                    urn@,
                ),
            decreases i,
        {
            assert(dv.subrange(0, i as int).drop_last() =~= dv.subrange(0, i as int - 1));
            let d = &self.dels[i - 1];
            if d.peer.same(remote) && d.urn.same(urn) {
                return Some(d.tip);
            }
            i -= 1;
        }
        None
    }

    /// Records the tips of the identity-layer refs of a step: identity and
    /// signed-refs tips first, then the delegation tips of peers that have an
    /// identity tip.
    pub fn record_tips(&mut self, refs: &Vec<FilteredRef>)
        requires
            old(self).wf(),
        ensures
            final(self).wf(),
            tip_views(final(self).idts@) == tip_views(old(self).idts@) + kind_tips(
                filtered_views(refs@),
                RefKind::Id,
            ),
            tip_views(final(self).sigs@) == tip_views(old(self).sigs@) + kind_tips(
                filtered_views(refs@),
                RefKind::SignedRefs,
            ),
            delegation_views(final(self).dels@) == delegation_views(old(self).dels@) + del_tips(
                filtered_views(refs@),
                tip_views(final(self).idts@),
            ),
            final(self).refs@ == old(self).refs@,
            final(self).tips@ == old(self).tips@,
            final(self).trks@ == old(self).trks@,
    {
        let ghost fv = filtered_views(refs@);
        let mut i: usize = 0;
        let ghost idts0 = tip_views(self.idts@);
        let ghost sigs0 = tip_views(self.sigs@);
        assert(fv.subrange(0, 0) =~= Seq::<FilteredView>::empty());
        assert(tip_views(self.idts@) =~= idts0 + Seq::empty());
        assert(tip_views(self.sigs@) =~= sigs0 + Seq::empty());
        while i < refs.len()
            invariant
                i <= refs@.len(),
                fv == filtered_views(refs@),
                self.wf(),
                tip_views(self.idts@) == idts0 + kind_tips(fv.subrange(0, i as int), RefKind::Id),
                tip_views(self.sigs@) == sigs0 + kind_tips(
                    fv.subrange(0, i as int),
                    RefKind::SignedRefs,
                ),
                self.refs@ == old(self).refs@,
                self.tips@ == old(self).tips@,
                self.dels@ == old(self).dels@,
                self.trks@ == old(self).trks@,
            decreases refs@.len() - i,
        {
            let ghost cur = fv.subrange(0, i as int + 1);
            assert(cur.drop_last() =~= fv.subrange(0, i as int));
            assert(cur.last() == refs@[i as int]@);
            let r = &refs[i];
            let k = r.kind();
            if k == RefKind::Id {
                let ghost before = tip_views(self.idts@);
                self.idts.push(PeerTip { peer: r.remote_id().copied(), tip: r.tip() });
                proof {
                    assert(tip_views(self.idts@) =~= before.push((r@.remote, r@.tip)));
                    assert forall|j: int| 0 <= j < self.dels@.len() implies tip_for(
                        tip_views(self.idts@),
                        #[trigger] self.dels@[j].peer@,
                    ) is Some by {
                        lemma_tip_for_push(before, (r@.remote, r@.tip), self.dels@[j].peer@);
                    }
                }
            } else if k == RefKind::SignedRefs {
                let ghost before = tip_views(self.sigs@);
                self.sigs.push(PeerTip { peer: r.remote_id().copied(), tip: r.tip() });
                assert(tip_views(self.sigs@) =~= before.push((r@.remote, r@.tip)));
            }
            i += 1;
        }
        assert(fv.subrange(0, refs@.len() as int) =~= fv);
        let mut j: usize = 0;
        let ghost ids = tip_views(self.idts@);
        let ghost dels0 = delegation_views(self.dels@);
        assert(delegation_views(self.dels@) =~= dels0 + del_tips(fv.subrange(0, 0), ids));
        while j < refs.len()
            invariant
                j <= refs@.len(),
                fv == filtered_views(refs@),
                self.wf(),
                ids == tip_views(self.idts@),
                tip_views(self.idts@) == idts0 + kind_tips(fv, RefKind::Id),
                tip_views(self.sigs@) == sigs0 + kind_tips(fv, RefKind::SignedRefs),
                delegation_views(self.dels@) == dels0 + del_tips(fv.subrange(0, j as int), ids),
                dels0 == delegation_views(old(self).dels@),
                self.refs@ == old(self).refs@,
                self.tips@ == old(self).tips@,
                self.trks@ == old(self).trks@,
            decreases refs@.len() - j,
        {
            let ghost cur = fv.subrange(0, j as int + 1);
            assert(cur.drop_last() =~= fv.subrange(0, j as int));
            assert(cur.last() == refs@[j as int]@);
            let r = &refs[j];
            if r.is(RefKind::Ids) && self.id_tip(r.remote_id()).is_some() {
                let parts = r.name().as_qualified().parts();
                let urn_text = parts[3].clone();
                proof {
                    assert(parts@[3]@ == r@.name[3]);
                    assert(crate::name::is_component(r@.name[3]));
                }
                match Urn::try_from_id(urn_text.as_str()) {
                    Some(urn) => {
                        let ghost before = self.dels@;
                        let ghost dv = delegation_views(self.dels@);
                        self.dels.push(
                            DelegationTip { peer: r.remote_id().copied(), urn, tip: r.tip() },
                        );
                        assert(delegation_views(self.dels@) =~= dv.push((r@.remote, r@.name[3], r@.tip)));
                        assert forall|m: int| 0 <= m < self.dels@.len() implies tip_for(
                            tip_views(self.idts@),
                            #[trigger] self.dels@[m].peer@,
                        ) is Some by {
                            if m < before.len() {
                                assert(self.dels@[m] == before[m]);
                            }
                        }
                    },
                    None => {},
                }
            }
            j += 1;
        }
        assert(fv.subrange(0, refs@.len() as int) =~= fv);
    }

    /// Queues tracking relations.
    pub fn track_all(&mut self, rels: Vec<TrackRel>)
        ensures
            final(self).trks@ == old(self).trks@ + rels@,
            final(self).idts@ == old(self).idts@,
            final(self).dels@ == old(self).dels@,
            final(self).tips@ == old(self).tips@,
            final(self).refs@ == old(self).refs@,
    {
        let mut rels = rels;
        self.trks.append(&mut rels);
    }

    /// Takes the queued tracking relations.
    pub fn drain_trackings(&mut self) -> (r: Vec<TrackRel>)
        ensures
            r@ == old(self).trks@,
            final(self).trks@.len() == 0,
            final(self).idts@ == old(self).idts@,
            final(self).dels@ == old(self).dels@,
            final(self).tips@ == old(self).tips@,
            final(self).refs@ == old(self).refs@,
    {
        let mut out: Vec<TrackRel> = Vec::new();
        out.append(&mut self.trks);
        assert(out@ =~= old(self).trks@);
        out
    }

    /// Queues the updates for the final commit and writes them to the
    /// in-memory store, so that later steps see them.
    pub fn update_all(&mut self, updates: Vec<Update>) -> (r: Applied)
        ensures
            update_views(final(self).tips@) == update_views(old(self).tips@) + update_views(
                updates@,
            ),
            final(self).refs@ == old(self).refs@ + entries_of(all_forced(update_views(updates@))),
            edits_view(r.updated@) == all_forced(update_views(updates@)),
            r.rejected@.len() == 0,
            final(self).idts@ == old(self).idts@,
            final(self).dels@ == old(self).dels@,
            final(self).trks@ == old(self).trks@,
    {
        let ghost uv = update_views(updates@);
        let ghost tips0 = update_views(self.tips@);
        let ghost refs0 = self.refs@;
        let mut applied = Applied::new();
        let mut i: usize = 0;
        assert(uv.subrange(0, 0) =~= Seq::<UpdateView>::empty());
        assert(update_views(self.tips@) =~= tips0 + Seq::empty());
        assert(entries_of(Seq::<EditView>::empty()) =~= Seq::<EntryView>::empty());
        assert(self.refs@ =~= refs0 + entries_of(all_forced(Seq::<UpdateView>::empty())));
        assert(edits_view(applied.updated@) =~= Seq::<EditView>::empty());
        while i < updates.len()
            invariant
                i <= updates@.len(),
                uv == update_views(updates@),
                update_views(self.tips@) == tips0 + uv.subrange(0, i as int),
                self.refs@ == refs0 + entries_of(all_forced(uv.subrange(0, i as int))),
                edits_view(applied.updated@) == all_forced(uv.subrange(0, i as int)),
                applied.rejected@.len() == 0,
                self.idts@ == old(self).idts@,
                self.dels@ == old(self).dels@,
                self.trks@ == old(self).trks@,
            decreases updates@.len() - i,
        {
            let ghost cur = uv.subrange(0, i as int + 1);
            assert(cur.drop_last() =~= uv.subrange(0, i as int));
            assert(cur.last() == updates@[i as int]@);
            let u = &updates[i];
            let ghost tv = update_views(self.tips@);
            self.tips.push(u.copied());
            assert(update_views(self.tips@) =~= tv.push(u@));
            assert(tips0 + cur =~= (tips0 + uv.subrange(0, i as int)).push(u@));
            let ghost before_updated = edits_view(applied.updated@);
            let mut written = self.refs.force(u);
            let ghost wv = edits_view(written@);
            applied.updated.append(&mut written);
            assert(edits_view(applied.updated@) =~= before_updated + wv);
            proof {
                lemma_entries_of_concat(all_forced(uv.subrange(0, i as int)), forced_edits(u@));
                assert(refs0 + entries_of(all_forced(uv.subrange(0, i as int))) + entries_of(
                    forced_edits(u@),
                ) =~= refs0 + (entries_of(all_forced(uv.subrange(0, i as int))) + entries_of(
                    forced_edits(u@),
                )));
            }
            i += 1;
        }
        assert(uv.subrange(0, updates@.len() as int) =~= uv);
        applied
    }

    /// Takes the queued updates, of several of one name only the last.
    pub fn drain_updates(&mut self) -> (r: Vec<Update>)
        ensures
            update_views(r@) == crate::refdb::collapse_of(update_views(old(self).tips@)),
            forall|a: int|
                0 <= a < r@.len() ==> exists|i: int|
                    0 <= i < old(self).tips@.len() && #[trigger] r@[a]@ == old(self).tips@[i]@,
            forall|a: int, b: int|
                0 <= a < b < r@.len() ==> #[trigger] r@[a]@.name() != #[trigger] r@[b]@.name(),
            forall|l: Seq<char>|
                #[trigger] old(self).tips_avoid(l) ==> views_avoid(update_views(r@), l),
            final(self).tips@.len() == 0,
            final(self).idts@ == old(self).idts@,
            final(self).dels@ == old(self).dels@,
            final(self).trks@ == old(self).trks@,
            final(self).refs@ == old(self).refs@,
    {
        let mut all: Vec<Update> = Vec::new();
        all.append(&mut self.tips);
        assert(all@ =~= old(self).tips@);
        assert(crate::steps::update_views(all@) =~= crate::refdb::updates_view(all@));
        let out = crate::refdb::collapse(&all);
        assert(update_views(out@) =~= crate::refdb::updates_view(out@));
        proof {
            let us = update_views(old(self).tips@);
            crate::refdb::law_collapse(us);
            assert forall|a: int| 0 <= a < out@.len() implies exists|i: int|
                0 <= i < old(self).tips@.len() && #[trigger] out@[a]@ == old(self).tips@[i]@ by {
                assert(out@[a]@ == crate::refdb::collapse_of(us)[a]);
                let i = choose|i: int|
                    0 <= i < us.len() && !crate::refdb::superseded(us, i)
                        && #[trigger] crate::refdb::collapse_of(us)[a] == us[i];
                assert(us[i] == old(self).tips@[i]@);
            }
            assert forall|l: Seq<char>| #[trigger] old(self).tips_avoid(l) implies views_avoid(
                update_views(out@),
                l,
            ) by {
                assert forall|a: int| 0 <= a < update_views(out@).len() implies !scoped_to(
                    #[trigger] update_views(out@)[a].name(),
                    l,
                ) by {
                    let i = choose|i: int|
                        0 <= i < old(self).tips@.len() && #[trigger] out@[a]@ == old(self).tips@[i]@;
                    assert(update_views(old(self).tips@)[i] == old(self).tips@[i]@);
                }
            }
            assert forall|a: int, b: int| 0 <= a < b < out@.len() implies #[trigger] out@[a]@.name()
                != #[trigger] out@[b]@.name() by {
                assert(out@[a]@ == crate::refdb::collapse_of(us)[a]);
                assert(out@[b]@ == crate::refdb::collapse_of(us)[b]);
            }
        }
        out
    }

    /// Reads through this state to the persistent store `inner`.
    pub fn as_shim<'a>(&'a self, inner: &'a Mem) -> (r: Shim<'a>)
        ensures
            r.inner@ == inner@,
            r.fetch@ == self.refs@,
    {
        Shim { inner, fetch: &self.refs }
    }
}

/// The `(peer, tip)` pairs of the retained refs of kind `k`.
pub open spec fn kind_tips(refs: Seq<FilteredView>, k: RefKind) -> Seq<(Seq<char>, ObjectId)>
    decreases refs.len(),
{
    if refs.len() == 0 {
        Seq::empty()
    } else {
        let r = kind_tips(refs.drop_last(), k);
        if kind_of(refs.last().name) == k {
            r.push((refs.last().remote, refs.last().tip))
        } else {
            r
        }
    }
}

/// What recording the tips of `refs` does: identity and signed-refs tips
/// are added, and delegation tips of peers with an identity tip; nothing
/// else changes.
pub open spec fn records_tips(old: FetchState, new: FetchState, refs: Seq<FilteredView>) -> bool {
    &&& tip_views(new.idts@) == tip_views(old.idts@) + kind_tips(refs, RefKind::Id)
    &&& tip_views(new.sigs@) == tip_views(old.sigs@) + kind_tips(refs, RefKind::SignedRefs)
    &&& delegation_views(new.dels@) == delegation_views(old.dels@) + del_tips(
        refs,
        tip_views(new.idts@),
    )
    &&& new.refs@ == old.refs@
    &&& new.tips@ == old.tips@
    &&& new.trks@ == old.trks@
}

/// A name scoped to the peer `l`: `refs/remotes/<l>/...`.
pub open spec fn scoped_to(n: Seq<Seq<char>>, l: Seq<char>) -> bool {
    n.len() >= 3 && n[1] == crate::refs::lit_remotes() && n[2] == l
}

/// No update writes a name scoped to the peer `l`.
pub open spec fn views_avoid(us: Seq<UpdateView>, l: Seq<char>) -> bool {
    forall|i: int| 0 <= i < us.len() ==> !scoped_to(#[trigger] us[i].name(), l)
}

/// Every retained ref belongs to a peer other than `l`.
pub open spec fn refs_avoid(refs: Seq<FilteredView>, l: Seq<char>) -> bool {
    forall|i: int| 0 <= i < refs.len() ==> #[trigger] refs[i].remote != l
}

impl FetchState {
    /// No queued update writes a name scoped to the peer `l`.
    pub open spec fn tips_avoid(&self, l: Seq<char>) -> bool {
        views_avoid(update_views(self.tips@), l)
    }
}

/// The updates of retained refs of other peers than `l` avoid `l`.
pub proof fn lemma_mk_updates_avoid(refs: Seq<FilteredView>, l: Seq<char>)
    requires
        refs_avoid(refs, l),
    ensures
        views_avoid(crate::steps::mk_updates_of(refs), l),
        views_avoid(refs.map_values(|f: FilteredView| crate::steps::data_update_of(f)), l),
    decreases refs.len(),
{
    let ds = refs.map_values(|f: FilteredView| crate::steps::data_update_of(f));
    assert forall|i: int| 0 <= i < ds.len() implies !scoped_to(#[trigger] ds[i].name(), l) by {
        assert(refs[i].remote != l);
        assert(ds[i].name()[2] == refs[i].remote);
    }
    if refs.len() > 0 {
        let init = refs.drop_last();
        assert forall|i: int| 0 <= i < init.len() implies #[trigger] init[i].remote != l by {
            assert(init[i] == refs[i]);
        }
        lemma_mk_updates_avoid(init, l);
        let r = crate::steps::mk_updates_of(init);
        let f = refs.last();
        assert(f.remote != l);
        if let Some(u) = crate::steps::mk_update_of(f) {
            assert(u.name()[2] == f.remote);
            assert forall|i: int| 0 <= i < r.push(u).len() implies !scoped_to(
                #[trigger] r.push(u)[i].name(),
                l,
            ) by {
                if i < r.len() {
                    assert(r.push(u)[i] == r[i]);
                }
            }
        }
    }
}

/// Queuing updates that avoid `l` keeps the queue avoiding it.
pub proof fn lemma_views_avoid_concat(a: Seq<UpdateView>, b: Seq<UpdateView>, l: Seq<char>)
    requires
        views_avoid(a, l),
        views_avoid(b, l),
    ensures
        views_avoid(a + b, l),
{
    assert forall|i: int| 0 <= i < (a + b).len() implies !scoped_to(#[trigger] (a + b)[i].name(), l) by {
        if i < a.len() {
            assert((a + b)[i] == a[i]);
        } else {
            assert((a + b)[i] == b[i - a.len()]);
        }
    }
}

/// The delegation tips of the `rad/ids/<urn>` refs of peers with an identity
/// tip in `ids`.
pub open spec fn del_tips(refs: Seq<FilteredView>, ids: Seq<(Seq<char>, ObjectId)>) -> Seq<
    (Seq<char>, Seq<char>, ObjectId),
>
    decreases refs.len(),
{
    if refs.len() == 0 {
        Seq::empty()
    } else {
        let r = del_tips(refs.drop_last(), ids);
        let f = refs.last();
        if kind_of(f.name) == RefKind::Ids && tip_for(ids, f.remote) is Some {
            r.push((f.remote, f.name[3], f.tip))
        } else {
            r
        }
    }
}

/// What the updates write when no policy is consulted, in order.
pub open spec fn all_forced(us: Seq<UpdateView>) -> Seq<EditView>
    decreases us.len(),
{
    if us.len() == 0 {
        Seq::empty()
    } else {
        all_forced(us.drop_last()) + forced_edits(us.last())
    }
}

proof fn lemma_entries_of_concat(a: Seq<EditView>, b: Seq<EditView>)
    ensures
        entries_of(a + b) == entries_of(a) + entries_of(b),
{
    assert(entries_of(a + b) =~= entries_of(a) + entries_of(b));
}

/// Where the signed refs of a peer load from during a run.
#[derive(Clone, Copy, Debug, PartialEq, Eq, Structural)]
pub enum SigrefsSource {
    /// From the persistent store: no step has seen signed refs yet.
    Stored,
    /// At the signed-refs tip a step recorded for the peer.
    At(ObjectId),
    /// Nowhere: steps saw signed refs, but none of this peer.
    Absent,
}

pub open spec fn source_of(sigs: Seq<(Seq<char>, ObjectId)>, of: Seq<char>) -> SigrefsSource {
    if sigs.len() == 0 {
        SigrefsSource::Stored
    } else {
        match tip_for(sigs, of) {
            Some(t) => SigrefsSource::At(t),
            None => SigrefsSource::Absent,
        }
    }
}

impl FetchState {
    /// Where the signed refs of `of` load from.
    pub fn sigrefs_source(&self, of: &PeerId) -> (r: SigrefsSource)
        ensures
            r == source_of(tip_views(self.sigs@), of@),
    {
        if self.sigs.len() == 0 {
            SigrefsSource::Stored
        } else {
            match self.sigref_tip(of) {
                Some(t) => SigrefsSource::At(t),
                None => SigrefsSource::Absent,
            }
        }
    }
}

/// Recording the tips of data refs records no signed-refs tip, so the
/// signed refs reloaded after the data step load from where they loaded
/// before it, for every peer.
pub proof fn law_data_fetch_keeps_sigrefs_sources(
    refs: Seq<FilteredView>,
    sigs: Seq<(Seq<char>, ObjectId)>,
    of: Seq<char>,
)
    requires
        forall|i: int| 0 <= i < refs.len() ==> kind_of(#[trigger] refs[i].name).is_data(),
    ensures
        kind_tips(refs, RefKind::SignedRefs) == Seq::<(Seq<char>, ObjectId)>::empty(),
        source_of(sigs + kind_tips(refs, RefKind::SignedRefs), of) == source_of(sigs, of),
    decreases refs.len(),
{
    if refs.len() > 0 {
        let init = refs.drop_last();
        assert forall|i: int| 0 <= i < init.len() implies kind_of(#[trigger] init[i].name).is_data() by {
            assert(init[i] == refs[i]);
        }
        law_data_fetch_keeps_sigrefs_sources(init, sigs, of);
        assert(kind_of(refs[refs.len() - 1].name).is_data());
    }
    assert(sigs + Seq::<(Seq<char>, ObjectId)>::empty() =~= sigs);
}

/// The entries the data step's updates of `refs` write, in order.
pub open spec fn data_entries(refs: Seq<FilteredView>) -> Seq<EntryView> {
    refs.map_values(
        |f: FilteredView|
            EntryView {
                name: into_rt(f.remote, f.name),
                target: crate::refdb::TargetView::Direct(f.tip),
            },
    )
}

proof fn lemma_data_entries(refs: Seq<FilteredView>)
    ensures
        entries_of(
            all_forced(refs.map_values(|f: FilteredView| crate::steps::data_update_of(f))),
        ) == data_entries(refs),
    decreases refs.len(),
{
    let us = refs.map_values(|f: FilteredView| crate::steps::data_update_of(f));
    if refs.len() > 0 {
        let init = refs.drop_last();
        lemma_data_entries(init);
        assert(us.drop_last() =~= init.map_values(
            |f: FilteredView| crate::steps::data_update_of(f),
        ));
        lemma_entries_of_concat(all_forced(us.drop_last()), forced_edits(us.last()));
        assert(entries_of(forced_edits(us.last())) =~= seq![data_entries(refs).last()]);
        assert(data_entries(refs) =~= data_entries(init).push(data_entries(refs).last()));
    } else {
        assert(entries_of(all_forced(us)) =~= data_entries(refs));
    }
}

proof fn lemma_lookup_append(es: Seq<EntryView>, xs: Seq<EntryView>, n: Seq<Seq<char>>)
    ensures
        crate::refdb::lookup(es + xs, n) == if crate::refdb::lookup(xs, n) is Some {
            crate::refdb::lookup(xs, n)
        } else {
            crate::refdb::lookup(es, n)
        },
    decreases xs.len(),
{
    if xs.len() == 0 {
        assert(es + xs =~= es);
    } else {
        assert((es + xs).drop_last() =~= es + xs.drop_last());
        lemma_lookup_append(es, xs.drop_last(), n);
    }
}

proof fn lemma_into_rt_injective(p: Seq<char>, n: Seq<Seq<char>>, q: Seq<char>, m: Seq<Seq<char>>)
    requires
        crate::refs::is_owned(n),
        crate::refs::is_owned(m),
        into_rt(p, n) == into_rt(q, m),
    ensures
        p == q,
        n == m,
{
    let a = into_rt(p, n);
    let b = into_rt(q, m);
    assert(a[2] == p && b[2] == q);
    assert(a.len() == n.len() + 2 && b.len() == m.len() + 2);
    assert(n.len() == m.len());
    assert forall|i: int| 0 <= i < n.len() implies n[i] == m[i] by {
        if i > 0 {
            assert(a[i + 2] == n[i] && b[i + 2] == m[i]);
        }
    }
    assert(n =~= m);
}

/// A retained ref with an owned name, advertised at the tip its peer
/// signed.
pub open spec fn advertised_as_signed(c: crate::sigrefs::CombinedView, f: FilteredView) -> bool {
    crate::refs::is_owned(f.name) && crate::sigrefs::signed_of(c, f.remote, f.name) == Some(f.tip)
}

/// Where every retained ref was advertised at its signed tip, each entry
/// the data step writes for a name holds that tip.
proof fn lemma_data_lookup(c: crate::sigrefs::CombinedView, refs: Seq<FilteredView>, k: int)
    requires
        0 <= k < refs.len(),
        forall|i: int| 0 <= i < refs.len() ==> advertised_as_signed(c, #[trigger] refs[i]),
    ensures
        crate::refdb::lookup(data_entries(refs), into_rt(refs[k].remote, refs[k].name)) == Some(
            crate::refdb::TargetView::Direct(refs[k].tip),
        ),
    decreases refs.len(),
{
    let xs = data_entries(refs);
    let n = into_rt(refs[k].remote, refs[k].name);
    let last = refs.last();
    assert(advertised_as_signed(c, refs[refs.len() - 1]));
    assert(advertised_as_signed(c, refs[k]));
    if xs.last().name == n {
        lemma_into_rt_injective(last.remote, last.name, refs[k].remote, refs[k].name);
    } else {
        let init = refs.drop_last();
        assert(xs.drop_last() =~= data_entries(init));
        if k == refs.len() - 1 {
            assert(false);
        }
        assert forall|i: int| 0 <= i < init.len() implies advertised_as_signed(
            c,
            #[trigger] init[i],
        ) by {
            assert(init[i] == refs[i]);
        }
        assert(init[k] == refs[k]);
        lemma_data_lookup(c, init, k);
    }
}

/// Validation after the data step: where every retained ref was advertised
/// at the tip its peer signed, the local tip of each one's remote-tracking
/// name is its signed tip once the step's updates are in the fetch state,
/// whatever the store held before.
pub proof fn law_fetched_signed_refs_validate(
    inner: Seq<EntryView>,
    fetch: Seq<EntryView>,
    c: crate::sigrefs::CombinedView,
    refs: Seq<FilteredView>,
    k: int,
)
    requires
        0 <= k < refs.len(),
        forall|i: int| 0 <= i < refs.len() ==> advertised_as_signed(c, #[trigger] refs[i]),
    ensures
        ({
            let after = fetch + entries_of(
                all_forced(refs.map_values(|f: FilteredView| crate::steps::data_update_of(f))),
            );
            shim_peel(inner, after, into_rt(refs[k].remote, refs[k].name))
                == crate::sigrefs::signed_of(c, refs[k].remote, refs[k].name)
        }),
{
    lemma_data_entries(refs);
    let n = into_rt(refs[k].remote, refs[k].name);
    lemma_data_lookup(c, refs, k);
    lemma_lookup_append(fetch, data_entries(refs), n);
    assert(advertised_as_signed(c, refs[k]));
}

/// A signed ref whose local remote-tracking tip is not the signed one.
#[derive(Debug)]
pub struct Warning {
    pub peer: PeerId,
    pub name: Owned,
    pub expected: ObjectId,
    pub actual: Option<ObjectId>,
}

pub struct WarningView {
    pub peer: Seq<char>,
    pub name: Seq<Seq<char>>,
    pub expected: ObjectId,
    pub actual: Option<ObjectId>,
}

pub open spec fn warning_views(v: Seq<Warning>) -> Seq<WarningView> {
    v.map_values(
        |w: Warning|
            WarningView { peer: w.peer@, name: w.name@, expected: w.expected, actual: w.actual },
    )
}

/// The warnings of the signed refs of one peer.
pub open spec fn peer_warnings(
    inner: Seq<EntryView>,
    fetch: Seq<EntryView>,
    p: Seq<char>,
    names: Seq<(Seq<Seq<char>>, ObjectId)>,
) -> Seq<WarningView>
    decreases names.len(),
{
    if names.len() == 0 {
        Seq::empty()
    } else {
        let r = peer_warnings(inner, fetch, p, names.drop_last());
        let (name, signed) = names.last();
        let local = shim_peel(inner, fetch, into_rt(p, name));
        if local == Some(signed) {
            r
        } else {
            r.push(WarningView { peer: p, name, expected: signed, actual: local })
        }
    }
}

/// The warnings of every signed ref of every peer.
pub open spec fn warnings_of(
    inner: Seq<EntryView>,
    fetch: Seq<EntryView>,
    v: Seq<(Seq<char>, RefsView)>,
) -> Seq<WarningView>
    decreases v.len(),
{
    if v.len() == 0 {
        Seq::empty()
    } else {
        warnings_of(inner, fetch, v.drop_last()) + peer_warnings(
            inner,
            fetch,
            v.last().0,
            v.last().1.refs,
        )
    }
}

/// Checks every signed ref against the local tip of its remote-tracking
/// name; each one that is missing or differs gives a warning.
pub fn validate(db: &Shim, signed_refs: &Combined) -> (r: Vec<Warning>)
    ensures
        warning_views(r@) == warnings_of(db.inner@, db.fetch@, signed_refs@.refs),
{
    let ghost sv = signed_refs@.refs;
    let refs = &signed_refs.refs;
    let mut out: Vec<Warning> = Vec::new();
    let mut k: usize = 0;
    assert(sv.subrange(0, 0) =~= Seq::<(Seq<char>, RefsView)>::empty());
    assert(warning_views(out@) =~= Seq::<WarningView>::empty());
    while k < refs.len()
        invariant
            k <= refs@.len(),
            sv == signed_refs@.refs,
            sv.len() == refs@.len(),
            refs == &signed_refs.refs,
            warning_views(out@) == warnings_of(db.inner@, db.fetch@, sv.subrange(0, k as int)),
        decreases refs@.len() - k,
    {
        let ghost cur = sv.subrange(0, k as int + 1);
        assert(cur.drop_last() =~= sv.subrange(0, k as int));
        assert(cur.last() == sv[k as int]);
        let pr = &refs[k];
        let names = &pr.refs.refs;
        let ghost nv = sv[k as int].1.refs;
        let ghost before = warning_views(out@);
        let mut j: usize = 0;
        assert(nv.subrange(0, 0) =~= Seq::<(Seq<Seq<char>>, ObjectId)>::empty());
        assert(warning_views(out@) =~= before + peer_warnings(
            db.inner@,
            db.fetch@,
            pr.peer@,
            nv.subrange(0, 0),
        ));
        while j < names.len()
            invariant
                j <= names@.len(),
                nv == signed_views(names@),
                warning_views(out@) == before + peer_warnings(
                    db.inner@,
                    db.fetch@,
                    pr.peer@,
                    nv.subrange(0, j as int),
                ),
            decreases names@.len() - j,
        {
            let ghost ncur = nv.subrange(0, j as int + 1);
            assert(ncur.drop_last() =~= nv.subrange(0, j as int));
            assert(ncur.last() == nv[j as int]);
            let sr = &names[j];
            sr.name.check();
            let rt = sr.name.as_qualified().to_owned();
            let o = match crate::refs::owned(&rt) {
                Some(o) => o,
                None => {
                    proof {
                        crate::refs::lemma_lits();
                    }
                    vstd::pervasive::unreached()
                },
            };
            let tracking_name = o.into_remote_tracking(&pr.peer).into_qualified();
            let local = db.refname_to_id(&tracking_name);
            let same = match local {
                Some(l) => l.same(&sr.tip),
                None => false,
            };
            if !same {
                let ghost wv = warning_views(out@);
                let n2 = crate::refs::owned(&rt);
                match n2 {
                    Some(n2) => {
                        out.push(
                            Warning {
                                peer: pr.peer.copied(),
                                name: n2,
                                expected: sr.tip,
                                actual: local,
                            },
                        );
                    },
                    None => {
                        proof {
                            crate::refs::lemma_lits();
                        }
                        vstd::pervasive::unreached()
                    },
                }
                assert(warning_views(out@) =~= wv.push(
                    WarningView {
                        peer: pr.peer@,
                        name: nv[j as int].0,
                        expected: nv[j as int].1,
                        actual: local,
                    },
                ));
            }
            j += 1;
        }
        assert(nv.subrange(0, names@.len() as int) =~= nv);
        k += 1;
    }
    assert(sv.subrange(0, refs@.len() as int) =~= sv);
    out
}

} // verus!
