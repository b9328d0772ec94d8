//! The decisions of a replication run between its network rounds: the
//! precondition, what follows a peek, which signed refs to combine, and how
//! a step's retained refs enter the fetch state.
//!
//! Running the rounds, verifying identities and committing to the persistent
//! store are the caller's part; each decision here takes their outcome.
use vstd::prelude::*;

use crate::ids::{ObjectId, PeerId};
use crate::refdb::{edits_view, entries_of, Applied};
use crate::sigrefs::{peer_views, Select};
use crate::state::{all_forced, records_tips, FetchState, Warning};
use crate::steps::{
    advertised_of,
    data_update_of,
    missing_of,
    mk_updates_of,
    required_all,
    required_of,
    update_views,
    without,
    Fetch,
    ForClone,
    ForFetch,
    Layout,
};
use crate::parsed::RefKind;
use crate::transmit::{filtered_views, FilteredRef, FilteredView, SkippedFetch};

verus! {

/// Why a run could not start.
#[derive(Clone, Copy, Debug, PartialEq, Eq, Structural)]
pub enum Precondition {
    /// The remote is the local peer.
    ReplicateFromSelf,
    /// A pull found no local `rad/id` to anchor on.
    MissingAnchor,
}

/// A run must not replicate from the local peer itself.
pub fn check_remote(local_id: &PeerId, remote_id: &PeerId) -> (r: Result<(), Precondition>)
    ensures
        r is Err <==> local_id@ == remote_id@,
        r is Err ==> r == Err::<(), Precondition>(Precondition::ReplicateFromSelf),
{
    if local_id.same(remote_id) {
        Err(Precondition::ReplicateFromSelf)
    } else {
        Ok(())
    }
}

/// A pull needs the local identity tip it anchors on.
pub fn check_anchor(anchor: Option<ObjectId>) -> (r: Result<ObjectId, Precondition>)
    ensures
        match anchor {
            Some(o) => r == Ok::<ObjectId, Precondition>(o),
            None => r == Err::<ObjectId, Precondition>(Precondition::MissingAnchor),
        },
{
    match anchor {
        Some(o) => Ok(o),
        None => Err(Precondition::MissingAnchor),
    }
}

/// Which of two verified identities is newer.
#[derive(Clone, Copy, Debug, PartialEq, Eq, Structural)]
pub enum Newer {
    /// They diverge.
    Fork,
    /// The local one.
    Ours,
    /// The delegate's.
    Theirs,
}

/// What follows the identity-layer peek of a pull.
#[derive(Clone, Copy, Debug, PartialEq, Eq, Structural)]
pub enum AfterPeek {
    /// Nothing matched: the run ends with an empty success.
    Done,
    /// Set up the local `rad/` hierarchy at the newer identity.
    Setup(Newer),
    /// Go on to the data without setting up the `rad/` hierarchy; the flag
    /// says whether the caller must confirm which lineage wins.
    Continue { requires_confirmation: bool },
}

/// The decision after the peek of a pull: with no matching refs the run is
/// done; with nothing wanted, or no delegate identity, there is nothing to
/// set up; a fork requires confirmation and sets up nothing; otherwise the
/// newer identity is set up.
pub fn after_peek(skip: Option<SkippedFetch>, newest: Option<Newer>) -> (r: AfterPeek)
    ensures
        skip == Some(SkippedFetch::NoMatchingRefs) ==> r == AfterPeek::Done,
        skip == Some(SkippedFetch::WantNothing) ==> r == (AfterPeek::Continue {
            requires_confirmation: false,
        }),
        skip is None ==> r == match newest {
            None => AfterPeek::Continue { requires_confirmation: false },
            Some(Newer::Fork) => AfterPeek::Continue { requires_confirmation: true },
            Some(n) => AfterPeek::Setup(n),
        },
{
    match skip {
        Some(SkippedFetch::NoMatchingRefs) => AfterPeek::Done,
        Some(SkippedFetch::WantNothing) => AfterPeek::Continue { requires_confirmation: false },
        None => match newest {
            None => AfterPeek::Continue { requires_confirmation: false },
            Some(Newer::Fork) => AfterPeek::Continue { requires_confirmation: true },
            Some(n) => AfterPeek::Setup(n),
        },
    }
}

/// The depth of the tracking graph that signed refs are combined to.
pub const CUTOFF: usize = 2;

/// The peers to combine signed refs of: the delegates other than the local
/// peer are required, the tracked peers are taken where present.
pub fn select_for(local_id: &PeerId, delegates: &Vec<PeerId>, tracking: &Vec<PeerId>) -> (r: Select)
    ensures
        peer_views(r.must@) == without(peer_views(delegates@), local_id@),
        peer_views(r.may@) == peer_views(tracking@),
        r.cutoff == CUTOFF,
{
    let mut must: Vec<PeerId> = Vec::new();
    let mut i: usize = 0;
    let ghost dv = peer_views(delegates@);
    assert(dv.subrange(0, 0) =~= Seq::<Seq<char>>::empty());
    assert(peer_views(must@) =~= Seq::<Seq<char>>::empty());
    while i < delegates.len()
        invariant
            i <= delegates@.len(),
            dv == peer_views(delegates@),
            peer_views(must@) == without(dv.subrange(0, i as int), local_id@),
        decreases delegates@.len() - i,
    {
        let ghost cur = dv.subrange(0, i as int + 1);
        assert(cur.drop_last() =~= dv.subrange(0, i as int));
        assert(cur.last() == delegates@[i as int]@);
        if !delegates[i].same(local_id) {
            let ghost before = peer_views(must@);
            must.push(delegates[i].copied());
            assert(peer_views(must@) =~= before.push(delegates@[i as int]@));
        }
        i += 1;
    }
    assert(dv.subrange(0, delegates@.len() as int) =~= dv);
    let mut may: Vec<PeerId> = Vec::new();
    let mut j: usize = 0;
    while j < tracking.len()
        invariant
            j <= tracking@.len(),
            peer_views(may@) == peer_views(tracking@).subrange(0, j as int),
        decreases tracking@.len() - j,
    {
        let ghost before = peer_views(may@);
        may.push(tracking[j].copied());
        assert(peer_views(may@) =~= before.push(tracking@[j as int]@));
        assert(peer_views(may@) =~= peer_views(tracking@).subrange(0, j as int + 1));
        j += 1;
    }
    assert(peer_views(tracking@).subrange(0, tracking@.len() as int) =~= peer_views(tracking@));
    Select { must, may, cutoff: CUTOFF }
}

/// Takes the retained refs of a clone peek into the state: the layout is
/// checked first, and on success the identity-layer tips are recorded; on a
/// layout error the state is left as it was.
pub fn absorb_clone_peek(state: &mut FetchState, step: &ForClone, refs: &Vec<FilteredRef>) -> (r:
    Result<(), Layout>)
    requires
        old(state).wf(),
    ensures
        final(state).wf(),
        r is Ok <==> missing_of(
            required_of(step.remote_id@, step.remote_id@),
            advertised_of(filtered_views(refs@), step.remote_id@),
        ).len() == 0,
        r is Ok ==> records_tips(*old(state), *final(state), filtered_views(refs@)),
        r is Err ==> *final(state) == *old(state),
{
    match step.pre_validate(refs) {
        Err(e) => Err(e),
        Ok(()) => {
            state.record_tips(refs);
            Ok(())
        },
    }
}

/// Takes the updates of a clone peek into the state, given the delegates of
/// the identity verified at the remote's `rad/id` tip.
pub fn apply_clone(
    state: &mut FetchState,
    step: &ForClone,
    refs: &Vec<FilteredRef>,
    delegate_ids: &Vec<PeerId>,
) -> (r: Applied)
    ensures
        ({
            let ups = if peer_views(delegate_ids@).contains(step.remote_id@) {
                mk_updates_of(filtered_views(refs@))
            } else {
                Seq::empty()
            };
            &&& update_views(final(state).tips@) == update_views(old(state).tips@) + ups
            &&& final(state).refs@ == old(state).refs@ + entries_of(all_forced(ups))
            &&& edits_view(r.updated@) == all_forced(ups)
        }),
        final(state).idts@ == old(state).idts@,
        final(state).dels@ == old(state).dels@,
        forall|l: Seq<char>|
            #![trigger final(state).tips_avoid(l)]
            old(state).tips_avoid(l) && crate::state::refs_avoid(filtered_views(refs@), l)
                ==> final(state).tips_avoid(l),
{
    let ups = step.prepare(delegate_ids, refs);
    let r = state.update_all(ups);
    proof {
        assert forall|l: Seq<char>|
            #![trigger final(state).tips_avoid(l)]
            old(state).tips_avoid(l) && crate::state::refs_avoid(filtered_views(refs@), l)
                implies final(state).tips_avoid(l) by {
            crate::state::lemma_mk_updates_avoid(filtered_views(refs@), l);
            crate::state::lemma_views_avoid_concat(update_views(old(state).tips@), if peer_views(delegate_ids@).contains(step.remote_id@) { mk_updates_of(filtered_views(refs@)) } else { Seq::empty() }, l);
        }
    }
    r
}

/// Takes the retained refs of the identity-layer peek of a pull into the
/// state: the layout is checked first, and on success the tips are
/// recorded; on a layout error the state is left as it was. The delegates'
/// identities verify against the recorded tips before [`apply_for_fetch`].
pub fn absorb_for_fetch(state: &mut FetchState, step: &ForFetch, refs: &Vec<FilteredRef>) -> (r:
    Result<(), Layout>)
    requires
        old(state).wf(),
    ensures
        final(state).wf(),
        r is Ok <==> missing_of(
            required_all(without(peer_views(step.delegates@), step.local_id@), step.remote_id@),
            advertised_of(filtered_views(refs@), step.remote_id@),
        ).len() == 0,
        r is Ok ==> records_tips(*old(state), *final(state), filtered_views(refs@)),
        r is Err ==> *final(state) == *old(state),
{
    match step.pre_validate(refs) {
        Err(e) => Err(e),
        Ok(()) => {
            state.record_tips(refs);
            Ok(())
        },
    }
}

/// Queues the updates of the identity-layer peek of a pull, once its
/// delegates' identities have verified.
pub fn apply_for_fetch(state: &mut FetchState, step: &ForFetch, refs: &Vec<FilteredRef>) -> (r:
    Applied)
    ensures
        update_views(final(state).tips@) == update_views(old(state).tips@) + mk_updates_of(
            filtered_views(refs@),
        ),
        final(state).refs@ == old(state).refs@ + entries_of(
            all_forced(mk_updates_of(filtered_views(refs@))),
        ),
        edits_view(r.updated@) == all_forced(mk_updates_of(filtered_views(refs@))),
        final(state).idts@ == old(state).idts@,
        final(state).dels@ == old(state).dels@,
        final(state).trks@ == old(state).trks@,
        forall|l: Seq<char>|
            #![trigger final(state).tips_avoid(l)]
            old(state).tips_avoid(l) && crate::state::refs_avoid(filtered_views(refs@), l)
                ==> final(state).tips_avoid(l),
{
    let ups = step.prepare(refs);
    let r = state.update_all(ups);
    proof {
        assert forall|l: Seq<char>|
            #![trigger final(state).tips_avoid(l)]
            old(state).tips_avoid(l) && crate::state::refs_avoid(filtered_views(refs@), l)
                implies final(state).tips_avoid(l) by {
            crate::state::lemma_mk_updates_avoid(filtered_views(refs@), l);
            crate::state::lemma_views_avoid_concat(update_views(old(state).tips@), mk_updates_of(filtered_views(refs@)), l);
        }
    }
    r
}

/// Takes the retained refs of the data step into the state: forced updates
/// of their remote-tracking names.
pub fn absorb_fetch(state: &mut FetchState, step: &Fetch, refs: &Vec<FilteredRef>) -> (r: Applied)
    ensures
        update_views(final(state).tips@) == update_views(old(state).tips@) + filtered_views(
            refs@,
        ).map_values(|f: FilteredView| data_update_of(f)),
        final(state).refs@ == old(state).refs@ + entries_of(
            all_forced(filtered_views(refs@).map_values(|f: FilteredView| data_update_of(f))),
        ),
        final(state).idts@ == old(state).idts@,
        final(state).dels@ == old(state).dels@,
        forall|l: Seq<char>|
            #![trigger final(state).tips_avoid(l)]
            old(state).tips_avoid(l) && crate::state::refs_avoid(filtered_views(refs@), l)
                ==> final(state).tips_avoid(l),
{
    let ups = step.prepare(refs);
    let r = state.update_all(ups);
    proof {
        assert forall|l: Seq<char>|
            #![trigger final(state).tips_avoid(l)]
            old(state).tips_avoid(l) && crate::state::refs_avoid(filtered_views(refs@), l)
                implies final(state).tips_avoid(l) by {
            crate::state::lemma_mk_updates_avoid(filtered_views(refs@), l);
            crate::state::lemma_views_avoid_concat(update_views(old(state).tips@), filtered_views(refs@).map_values(|f: FilteredView| data_update_of(f)), l);
        }
    }
    r
}

/// The outcome of a run: what was written, whether an identity fork needs
/// confirmation, and the validation warnings.
#[derive(Debug)]
pub struct Success {
    pub applied: Applied,
    pub requires_confirmation: bool,
    pub validation: Vec<Warning>,
}

impl Success {
    /// The success of a run that found nothing to replicate.
    pub fn empty() -> (r: Success)
        ensures
            r.applied.updated@.len() == 0,
            r.applied.rejected@.len() == 0,
            !r.requires_confirmation,
            r.validation@.len() == 0,
    {
        Success { applied: Applied::new(), requires_confirmation: false, validation: Vec::new() }
    }
}

} // verus!
