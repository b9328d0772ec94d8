//! Signed refs: the manifests peers sign, and their combination for one run.
//!
//! Loading a manifest reads the store; [`combined`] takes what was loaded for
//! each selected peer.
use vstd::prelude::*;

use crate::ids::{ObjectId, PeerId};
use crate::refdb::same_name;
use crate::refs::Owned;

verus! {

/// One signed `(name, tip)` pair.
#[derive(Debug)]
pub struct SignedRef {
    pub name: Owned,
    pub tip: ObjectId,
}

pub open spec fn signed_views(v: Seq<SignedRef>) -> Seq<(Seq<Seq<char>>, ObjectId)> {
    v.map_values(|s: SignedRef| (s.name@, s.tip))
}

pub open spec fn peer_views(v: Seq<PeerId>) -> Seq<Seq<char>> {
    v.map_values(|p: PeerId| p@)
}

/// The signed refs of one peer, loaded at the commit `at`.
#[derive(Debug)]
pub struct Sigrefs {
    pub at: ObjectId,
    pub refs: Vec<SignedRef>,
    /// The peers the signer tracks, flattened to the cutoff depth.
    pub remotes: Vec<PeerId>,
}

pub struct SigrefsView {
    pub at: ObjectId,
    pub refs: Seq<(Seq<Seq<char>>, ObjectId)>,
    pub remotes: Seq<Seq<char>>,
}

impl View for Sigrefs {
    type V = SigrefsView;

    open spec fn view(&self) -> SigrefsView {
        SigrefsView {
            at: self.at,
            refs: signed_views(self.refs@),
            remotes: peer_views(self.remotes@),
        }
    }
}

/// The signed refs of one peer within a [`Combined`].
#[derive(Debug)]
pub struct Refs {
    pub at: ObjectId,
    pub refs: Vec<SignedRef>,
}

pub struct RefsView {
    pub at: ObjectId,
    pub refs: Seq<(Seq<Seq<char>>, ObjectId)>,
}

/// The signed refs of one peer, with the peer.
#[derive(Debug)]
pub struct PeerRefs {
    pub peer: PeerId,
    pub refs: Refs,
}

pub open spec fn peer_refs_views(v: Seq<PeerRefs>) -> Seq<(Seq<char>, RefsView)> {
    v.map_values(
        |p: PeerRefs| (p.peer@, RefsView { at: p.refs.at, refs: signed_views(p.refs.refs@) }),
    )
}

/// The signed refs of the peers of one run, and the peers they track.
#[derive(Debug)]
pub struct Combined {
    pub refs: Vec<PeerRefs>,
    pub remotes: Vec<PeerId>,
}

pub struct CombinedView {
    pub refs: Seq<(Seq<char>, RefsView)>,
    pub remotes: Set<Seq<char>>,
}

impl View for Combined {
    type V = CombinedView;

    open spec fn view(&self) -> CombinedView {
        CombinedView {
            refs: peer_refs_views(self.refs@),
            remotes: peer_views(self.remotes@).to_set(),
        }
    }
}

/// Which peers to combine: those whose signed refs are required, those whose
/// are taken where present, and the depth of the tracking graph.
#[derive(Debug)]
pub struct Select {
    pub must: Vec<PeerId>,
    pub may: Vec<PeerId>,
    pub cutoff: usize,
}

/// Why combining failed.
#[derive(Debug)]
pub enum Combine {
    /// The signed refs of a required peer were not found.
    NotFound(PeerId),
}

pub open spec fn loads_view(v: Seq<Option<Sigrefs>>) -> Seq<Option<SigrefsView>> {
    v.map_values(
        |o: Option<Sigrefs>| match o {
            Some(s) => Some(s@),
            None => None,
        },
    )
}

/// The `(peer, refs)` pairs of the peers whose signed refs were loaded.
pub open spec fn loaded_pairs(peers: Seq<Seq<char>>, loads: Seq<Option<SigrefsView>>) -> Seq<
    (Seq<char>, RefsView),
>
    decreases peers.len(),
{
    if peers.len() == 0 || loads.len() != peers.len() {
        Seq::empty()
    } else {
        let r = loaded_pairs(peers.drop_last(), loads.drop_last());
        match loads.last() {
            Some(s) => r.push((peers.last(), RefsView { at: s.at, refs: s.refs })),
            None => r,
        }
    }
}

/// Every peer tracked by a loaded manifest.
pub open spec fn loaded_remotes(loads: Seq<Option<SigrefsView>>) -> Set<Seq<char>>
    decreases loads.len(),
{
    if loads.len() == 0 {
        Set::empty()
    } else {
        let r = loaded_remotes(loads.drop_last());
        match loads.last() {
            Some(s) => r.union(s.remotes.to_set()),
            None => r,
        }
    }
}

/// The index of the first peer whose signed refs were not found.
pub open spec fn first_missing(loads: Seq<Option<SigrefsView>>) -> Option<int>
    decreases loads.len(),
{
    if loads.len() == 0 {
        None
    } else {
        match first_missing(loads.drop_last()) {
            Some(i) => Some(i),
            None => if loads.last() is None {
                Some(loads.len() - 1)
            } else {
                None
            },
        }
    }
}

/// What [`combined`] returns for the given loads: the first required peer
/// without signed refs, or the pairs of the required peers followed by those
/// of the optional peers that have signed refs, with every tracked peer.
pub open spec fn combine_of(
    must: Seq<Seq<char>>,
    may: Seq<Seq<char>>,
    must_loads: Seq<Option<SigrefsView>>,
    may_loads: Seq<Option<SigrefsView>>,
) -> Result<CombinedView, Seq<char>> {
    match first_missing(must_loads) {
        Some(i) => Err(must[i]),
        None => Ok(
            CombinedView {
                refs: loaded_pairs(must, must_loads) + loaded_pairs(may, may_loads),
                remotes: loaded_remotes(must_loads).union(loaded_remotes(may_loads)),
            },
        ),
    }
}

/// Whether `p` is one of `v`.
pub fn contains_peer(v: &Vec<PeerId>, p: &PeerId) -> (r: bool)
    ensures
        r == peer_views(v@).contains(p@),
{
    let mut i: usize = 0;
    while i < v.len()
        invariant
            i <= v@.len(),
            forall|j: int| 0 <= j < i ==> v@[j]@ != p@,
        decreases v@.len() - i,
    {
        if v[i].same(p) {
            assert(peer_views(v@)[i as int] == p@);
            return true;
        }
        i += 1;
    }
    assert forall|j: int| 0 <= j < peer_views(v@).len() implies peer_views(v@)[j] != p@ by {
        assert(peer_views(v@)[j] == v@[j]@);
    }
    false
}

/// Adds the peers of `from` that `into` lacks.
fn union_peers(into: &mut Vec<PeerId>, from: &Vec<PeerId>)
    ensures
        peer_views(final(into)@).to_set() == peer_views(old(into)@).to_set().union(
            peer_views(from@).to_set(),
        ),
{
    let mut i: usize = 0;
    while i < from.len()
        invariant
            i <= from@.len(),
            peer_views(into@).to_set() == peer_views(old(into)@).to_set().union(
                peer_views(from@).subrange(0, i as int).to_set(),
            ),
        decreases from@.len() - i,
    {
        let ghost before = peer_views(into@);
        let ghost p = from@[i as int]@;
        if !contains_peer(into, &from[i]) {
            into.push(from[i].copied());
            assert(peer_views(into@) =~= before.push(p));
        }
        proof {
            assert(peer_views(from@).subrange(0, i as int + 1) =~= peer_views(from@).subrange(
                0,
                i as int,
            ).push(p));
            lemma_push_to_set(before, p);
            lemma_push_to_set(peer_views(from@).subrange(0, i as int), p);
            if before.contains(p) {
                assert(before.to_set().insert(p) =~= before.to_set());
            }
            assert(peer_views(into@).to_set() =~= peer_views(old(into)@).to_set().union(
                peer_views(from@).subrange(0, i as int + 1).to_set(),
            ));
        }
        i += 1;
    }
    assert(peer_views(from@).subrange(0, from@.len() as int) =~= peer_views(from@));
}

pub proof fn lemma_push_to_set(s: Seq<Seq<char>>, x: Seq<char>)
    ensures
        s.push(x).to_set() == s.to_set().insert(x),
{
    assert forall|y: Seq<char>| s.push(x).to_set().contains(y) <==> s.to_set().insert(
        x,
    ).contains(y) by {
        if s.push(x).contains(y) && y != x {
            let k = choose|k: int| 0 <= k < s.push(x).len() && s.push(x)[k] == y;
            assert(s[k] == y);
        }
        if s.contains(y) {
            let k = choose|k: int| 0 <= k < s.len() && s[k] == y;
            assert(s.push(x)[k] == y);
        }
        if y == x {
            assert(s.push(x)[s.len() as int] == x);
        }
    }
    assert(s.push(x).to_set() =~= s.to_set().insert(x));
}

/// Adds the pairs of the loaded peers to `refs`, and the peers they track to
/// `remotes`.
fn add_loaded(
    refs: &mut Vec<PeerRefs>,
    remotes: &mut Vec<PeerId>,
    peers: &Vec<PeerId>,
    loads: Vec<Option<Sigrefs>>,
)
    requires
        peers@.len() == loads@.len(),
    ensures
        peer_refs_views(final(refs)@) == peer_refs_views(old(refs)@) + loaded_pairs(
            peer_views(peers@),
            loads_view(loads@),
        ),
        peer_views(final(remotes)@).to_set() == peer_views(old(remotes)@).to_set().union(
            loaded_remotes(loads_view(loads@)),
        ),
{
    let ghost ps = peer_views(peers@);
    let ghost ls = loads_view(loads@);
    let mut i: usize = 0;
    let n = loads.len();
    let mut loads = loads;
    let ghost all = loads@;
    assert(loads@.subrange(0, n as int) =~= loads@);
    assert(ps.subrange(0, 0) =~= Seq::<Seq<char>>::empty());
    assert(ls.subrange(0, 0) =~= Seq::<Option<SigrefsView>>::empty());
    assert(peer_refs_views(refs@) =~= peer_refs_views(old(refs)@) + Seq::empty());
    assert(peer_views(remotes@).to_set() =~= peer_views(old(remotes)@).to_set().union(
        Set::empty(),
    ));
    while i < n
        invariant
            n == all.len(),
            all.len() == peers@.len(),
            i <= n,
            ps == peer_views(peers@),
            ls == loads_view(all),
            loads@ == all.subrange(i as int, n as int),
            peer_refs_views(refs@) == peer_refs_views(old(refs)@) + loaded_pairs(
                ps.subrange(0, i as int),
                ls.subrange(0, i as int),
            ),
            peer_views(remotes@).to_set() == peer_views(old(remotes)@).to_set().union(
                loaded_remotes(ls.subrange(0, i as int)),
            ),
        decreases n - i,
    {
        let ghost pre_p = ps.subrange(0, i as int);
        let ghost pre_l = ls.subrange(0, i as int);
        let ghost cur_p = ps.subrange(0, i as int + 1);
        let ghost cur_l = ls.subrange(0, i as int + 1);
        assert(cur_p.drop_last() =~= pre_p);
        assert(cur_l.drop_last() =~= pre_l);
        assert(cur_p.last() == peers@[i as int]@);
        assert(cur_l.last() == ls[i as int]);
        assert(loads@[0] == all[i as int]);
        let item = loads.remove(0);
        assert(loads@ =~= all.subrange(i as int + 1, n as int));
        match item {
            None => {},
            Some(s) => {
                let ghost before = peer_refs_views(refs@);
                let ghost sv = s@;
                let Sigrefs { at, refs: signed, remotes: followed } = s;
                union_peers(remotes, &followed);
                refs.push(PeerRefs { peer: peers[i].copied(), refs: Refs { at, refs: signed } });
                assert(peer_refs_views(refs@) =~= before.push(
                    (ps[i as int], RefsView { at: sv.at, refs: sv.refs }),
                ));
                assert(peer_views(remotes@).to_set() =~= peer_views(old(remotes)@).to_set().union(
                    loaded_remotes(cur_l),
                ));
            },
        }
        i += 1;
    }
    assert(ps.subrange(0, n as int) =~= ps);
    assert(ls.subrange(0, n as int) =~= ls);
}

/// The first index whose load is missing.
fn find_missing(loads: &Vec<Option<Sigrefs>>) -> (r: Option<usize>)
    ensures
        match first_missing(loads_view(loads@)) {
            Some(i) => r == Some(i as usize),
            None => r is None,
        },
{
    let ghost ls = loads_view(loads@);
    let mut i: usize = 0;
    assert(ls.subrange(0, 0) =~= Seq::<Option<SigrefsView>>::empty());
    while i < loads.len()
        invariant
            i <= loads@.len(),
            ls == loads_view(loads@),
            first_missing(ls.subrange(0, i as int)) is None,
        decreases loads@.len() - i,
    {
        let ghost cur = ls.subrange(0, i as int + 1);
        assert(cur.drop_last() =~= ls.subrange(0, i as int));
        if loads[i].is_none() {
            proof {
                lemma_first_missing_extends(ls, i as int + 1);
            }
            return Some(i);
        }
        i += 1;
    }
    assert(ls.subrange(0, loads@.len() as int) =~= ls);
    None
}

proof fn lemma_first_missing_range(ls: Seq<Option<SigrefsView>>)
    ensures
        first_missing(ls) is Some ==> 0 <= first_missing(ls)->Some_0 < ls.len(),
    decreases ls.len(),
{
    if ls.len() > 0 {
        lemma_first_missing_range(ls.drop_last());
    }
}

proof fn lemma_first_missing_extends(ls: Seq<Option<SigrefsView>>, k: int)
    requires
        0 <= k <= ls.len(),
        first_missing(ls.subrange(0, k)) is Some,
    ensures
        first_missing(ls) == first_missing(ls.subrange(0, k)),
    decreases ls.len() - k,
{
    if k < ls.len() {
        let next = ls.subrange(0, k + 1);
        assert(next.drop_last() =~= ls.subrange(0, k));
        lemma_first_missing_extends(ls, k + 1);
    } else {
        assert(ls.subrange(0, k) =~= ls);
    }
}

/// Combines the signed refs loaded for the selected peers: `must_loads[i]`
/// is what was found for `select.must[i]`, `may_loads[i]` for
/// `select.may[i]`. Fails with the first required peer that has none.
pub fn combined(
    select: &Select,
    must_loads: Vec<Option<Sigrefs>>,
    may_loads: Vec<Option<Sigrefs>>,
) -> (r: Result<Combined, Combine>)
    requires
        must_loads@.len() == select.must@.len(),
        may_loads@.len() == select.may@.len(),
    ensures
        match combine_of(
            peer_views(select.must@),
            peer_views(select.may@),
            loads_view(must_loads@),
            loads_view(may_loads@),
        ) {
            Ok(c) => r is Ok && r->Ok_0@.refs == c.refs && r->Ok_0@.remotes == c.remotes,
            Err(p) => r is Err && match r->Err_0 {
                Combine::NotFound(q) => q@ == p,
            },
        },
{
    match find_missing(&must_loads) {
        Some(i) => {
            proof {
                lemma_first_missing_range(loads_view(must_loads@));
            }
            return Err(Combine::NotFound(select.must[i].copied()));
        },
        None => {},
    }
    let mut refs: Vec<PeerRefs> = Vec::new();
    let mut remotes: Vec<PeerId> = Vec::new();
    assert(peer_views(remotes@).to_set() =~= Set::<Seq<char>>::empty());
    add_loaded(&mut refs, &mut remotes, &select.must, must_loads);
    add_loaded(&mut refs, &mut remotes, &select.may, may_loads);
    let ghost c = combine_of(
        peer_views(select.must@),
        peer_views(select.may@),
        loads_view(must_loads@),
        loads_view(may_loads@),
    );
    assert(peer_refs_views(refs@) =~= c->Ok_0.refs);
    assert(peer_views(remotes@).to_set() =~= c->Ok_0.remotes);
    Ok(Combined { refs, remotes })
}

/// The tip `id` signed for `name`, in the latest manifest of `id`.
pub open spec fn signed_of(c: CombinedView, id: Seq<char>, name: Seq<Seq<char>>) -> Option<ObjectId> {
    match latest_refs(c.refs, id) {
        None => None,
        Some(rs) => tip_in(rs.refs, name),
    }
}

pub open spec fn latest_refs(v: Seq<(Seq<char>, RefsView)>, id: Seq<char>) -> Option<RefsView>
    decreases v.len(),
{
    if v.len() == 0 {
        None
    } else if v.last().0 == id {
        Some(v.last().1)
    } else {
        latest_refs(v.drop_last(), id)
    }
}

pub open spec fn tip_in(v: Seq<(Seq<Seq<char>>, ObjectId)>, name: Seq<Seq<char>>) -> Option<ObjectId>
    decreases v.len(),
{
    if v.len() == 0 {
        None
    } else if v.last().0 == name {
        Some(v.last().1)
    } else {
        tip_in(v.drop_last(), name)
    }
}

proof fn lemma_latest_concat(a: Seq<(Seq<char>, RefsView)>, b: Seq<(Seq<char>, RefsView)>, p: Seq<char>)
    ensures
        latest_refs(a + b, p) == if latest_refs(b, p) is Some {
            latest_refs(b, p)
        } else {
            latest_refs(a, p)
        },
    decreases b.len(),
{
    if b.len() == 0 {
        assert(a + b =~= a);
    } else {
        assert((a + b).drop_last() =~= a + b.drop_last());
        lemma_latest_concat(a, b.drop_last(), p);
    }
}

proof fn lemma_loaded_pairs_peer(
    ps: Seq<Seq<char>>,
    l1: Seq<Option<SigrefsView>>,
    l2: Seq<Option<SigrefsView>>,
    p: Seq<char>,
)
    requires
        l1.len() == ps.len(),
        l2.len() == ps.len(),
        forall|i: int| 0 <= i < ps.len() && ps[i] == p ==> #[trigger] l1[i] == l2[i],
    ensures
        latest_refs(loaded_pairs(ps, l1), p) == latest_refs(loaded_pairs(ps, l2), p),
    decreases ps.len(),
{
    if ps.len() > 0 {
        let n = ps.len() - 1;
        assert forall|i: int| 0 <= i < n && ps.drop_last()[i] == p implies #[trigger] l1.drop_last()[i]
            == l2.drop_last()[i] by {
            assert(ps.drop_last()[i] == ps[i]);
            assert(l1[i] == l2[i]);
        }
        lemma_loaded_pairs_peer(ps.drop_last(), l1.drop_last(), l2.drop_last(), p);
        if ps.last() == p {
            assert(l1[n] == l2[n]);
        }
        let r1 = loaded_pairs(ps.drop_last(), l1.drop_last());
        let r2 = loaded_pairs(ps.drop_last(), l2.drop_last());
        if let Some(x) = l1.last() {
            let e = (ps.last(), RefsView { at: x.at, refs: x.refs });
            assert(r1.push(e).drop_last() =~= r1);
            assert(r1.push(e).last() == e);
        }
        if let Some(x) = l2.last() {
            let e = (ps.last(), RefsView { at: x.at, refs: x.refs });
            assert(r2.push(e).drop_last() =~= r2);
            assert(r2.push(e).last() == e);
        }
    }
}

/// A peer whose signed refs load the same in two combinations has the same
/// entry in both, whatever the other peers' loads: reloading after the data
/// step changes the entries of the peers whose tips advanced only.
pub proof fn law_combined_per_peer(
    must: Seq<Seq<char>>,
    may: Seq<Seq<char>>,
    must1: Seq<Option<SigrefsView>>,
    may1: Seq<Option<SigrefsView>>,
    must2: Seq<Option<SigrefsView>>,
    may2: Seq<Option<SigrefsView>>,
    p: Seq<char>,
)
    requires
        must1.len() == must.len(),
        must2.len() == must.len(),
        may1.len() == may.len(),
        may2.len() == may.len(),
        forall|i: int| 0 <= i < must.len() && must[i] == p ==> #[trigger] must1[i] == must2[i],
        forall|i: int| 0 <= i < may.len() && may[i] == p ==> #[trigger] may1[i] == may2[i],
    ensures
        combine_of(must, may, must1, may1) is Ok && combine_of(must, may, must2, may2) is Ok
            ==> latest_refs(combine_of(must, may, must1, may1)->Ok_0.refs, p) == latest_refs(
            combine_of(must, may, must2, may2)->Ok_0.refs,
            p,
        ),
{
    lemma_loaded_pairs_peer(must, must1, must2, p);
    lemma_loaded_pairs_peer(may, may1, may2, p);
    lemma_latest_concat(loaded_pairs(must, must1), loaded_pairs(may, may1), p);
    lemma_latest_concat(loaded_pairs(must, must2), loaded_pairs(may, may2), p);
}

impl Combined {
    /// The tip `id` signed for `name`.
    pub fn signed(&self, id: &PeerId, name: &Owned) -> (r: Option<ObjectId>)
        ensures
            r == signed_of(self@, id@, name@),
    {
        let ghost v = peer_refs_views(self.refs@);
        let mut i = self.refs.len();
        assert(v.subrange(0, i as int) =~= v);
        while i > 0
            invariant
                i <= self.refs@.len(),
                v == peer_refs_views(self.refs@),
                latest_refs(v, id@) == latest_refs(v.subrange(0, i as int), id@),
            decreases i,
        {
            assert(v.subrange(0, i as int).drop_last() =~= v.subrange(0, i as int - 1));
            if self.refs[i - 1].peer.same(id) {
                let rs = &self.refs[i - 1].refs.refs;
                let ghost sv = signed_views(rs@);
                assert(v.subrange(0, i as int).last() == v[i as int - 1]);
                assert(v[i as int - 1].0 == id@);
                assert(v[i as int - 1].1.refs == sv);
                let mut j = rs.len();
                assert(sv.subrange(0, j as int) =~= sv);
                while j > 0
                    invariant
                        j <= rs@.len(),
                        sv == signed_views(rs@),
                        tip_in(sv, name@) == tip_in(sv.subrange(0, j as int), name@),
                        signed_of(self@, id@, name@) == tip_in(sv, name@),
                    decreases j,
                {
                    assert(sv.subrange(0, j as int).drop_last() =~= sv.subrange(0, j as int - 1));
                    if same_name(rs[j - 1].name.as_qualified(), name.as_qualified()) {
                        assert(sv.subrange(0, j as int).last() == sv[j as int - 1]);
                        return Some(rs[j - 1].tip);
                    }
                    j -= 1;
                }
                assert(sv.subrange(0, 0) =~= Seq::<(Seq<Seq<char>>, ObjectId)>::empty());
                return None;
            }
            i -= 1;
        }
        None
    }

    /// Whether `id` is among the tracked peers.
    pub fn is_tracked(&self, id: &PeerId) -> (r: bool)
        ensures
            r == self@.remotes.contains(id@),
    {
        contains_peer(&self.remotes, id)
    }
}

/// What one attempt to recompute the local peer's signed refs reported.
#[derive(Clone, Copy, Debug, PartialEq, Eq, Structural)]
pub enum UpdateOutcome {
    /// A new manifest was written at the commit.
    Updated(ObjectId),
    /// The manifest was up to date at the commit.
    Unchanged(ObjectId),
    /// Another writer changed the manifest meanwhile.
    ConcurrentlyModified,
}

/// What to do after an attempt.
#[derive(Clone, Copy, Debug, PartialEq, Eq, Structural)]
pub enum Attempt {
    /// Stop with the manifest's commit.
    Done(ObjectId),
    /// A transient collision: try again after a delay.
    Retry,
}

/// A concurrent modification is retried; otherwise the manifest's commit
/// is the result.
pub fn after_update(outcome: UpdateOutcome) -> (r: Attempt)
    ensures
        match outcome {
            UpdateOutcome::Updated(at) => r == Attempt::Done(at),
            UpdateOutcome::Unchanged(at) => r == Attempt::Done(at),
            UpdateOutcome::ConcurrentlyModified => r == Attempt::Retry,
        },
{
    match outcome {
        UpdateOutcome::Updated(at) => Attempt::Done(at),
        UpdateOutcome::Unchanged(at) => Attempt::Done(at),
        UpdateOutcome::ConcurrentlyModified => Attempt::Retry,
    }
}

} // verus!
