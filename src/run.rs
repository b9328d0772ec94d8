//! The order of a replication run: which stage follows which outcome, and
//! that the one write, the commit, comes only after every earlier stage
//! went through.
use vstd::prelude::*;

use crate::transmit::SkippedFetch;

verus! {

/// Where a run stands.
#[derive(Clone, Copy, Debug, PartialEq, Eq, Structural)]
pub enum Phase {
    Start,
    Peeking,
    Combining,
    Fetching,
    Reloading,
    Committing,
    Done,
    Failed,
}

/// How a stage ended.
#[derive(Clone, Copy, Debug, PartialEq, Eq, Structural)]
pub enum Outcome {
    Done,
    Skipped(SkippedFetch),
    Failed,
}

/// What the caller reports.
#[derive(Clone, Copy, Debug, PartialEq, Eq, Structural)]
pub enum Event {
    /// The run begins: whether the remote is the local peer, and whether a
    /// pull has its local anchor (a clone always does).
    Begin { remote_is_local: bool, anchored: bool },
    /// The stage under way ended.
    Stage(Outcome),
}

/// What the caller does next.
#[derive(Clone, Copy, Debug, PartialEq, Eq, Structural)]
pub enum Action {
    /// Run the identity-layer peek (and set up the `rad/` hierarchy).
    Peek,
    /// Combine the signed refs.
    Combine,
    /// Run the data step.
    FetchData,
    /// Combine the signed refs again and validate.
    Reload,
    /// Write trackings, ref updates and signed refs: the run's one write.
    Commit,
    /// End with success; `empty` where nothing was replicated.
    Finish { empty: bool },
    /// End with the error, writing nothing.
    Abort,
    /// The run is over.
    Stop,
}

pub open spec fn step_of(p: Phase, e: Event) -> (Phase, Action) {
    match (p, e) {
        (Phase::Start, Event::Begin { remote_is_local, anchored }) => if remote_is_local
            || !anchored {
            (Phase::Failed, Action::Abort)
        } else {
            (Phase::Peeking, Action::Peek)
        },
        (Phase::Peeking, Event::Stage(o)) => match o {
            Outcome::Failed => (Phase::Failed, Action::Abort),
            Outcome::Skipped(SkippedFetch::NoMatchingRefs) => (
                Phase::Done,
                Action::Finish { empty: true },
            ),
            _ => (Phase::Combining, Action::Combine),
        },
        (Phase::Combining, Event::Stage(o)) => match o {
            Outcome::Done => (Phase::Fetching, Action::FetchData),
            _ => (Phase::Failed, Action::Abort),
        },
        (Phase::Fetching, Event::Stage(o)) => match o {
            Outcome::Failed => (Phase::Failed, Action::Abort),
            _ => (Phase::Reloading, Action::Reload),
        },
        (Phase::Reloading, Event::Stage(o)) => match o {
            Outcome::Done => (Phase::Committing, Action::Commit),
            _ => (Phase::Failed, Action::Abort),
        },
        (Phase::Committing, Event::Stage(o)) => match o {
            Outcome::Done => (Phase::Done, Action::Finish { empty: false }),
            _ => (Phase::Failed, Action::Abort),
        },
        (Phase::Done, _) => (Phase::Done, Action::Stop),
        (Phase::Failed, _) => (Phase::Failed, Action::Stop),
        _ => (Phase::Failed, Action::Abort),
    }
}

/// The next phase and action after `e` in phase `p`.
pub fn step(p: Phase, e: Event) -> (r: (Phase, Action))
    ensures
        r == step_of(p, e),
{
    match (p, e) {
        (Phase::Start, Event::Begin { remote_is_local, anchored }) => if remote_is_local
            || !anchored {
            (Phase::Failed, Action::Abort)
        } else {
            (Phase::Peeking, Action::Peek)
        },
        (Phase::Peeking, Event::Stage(o)) => match o {
            Outcome::Failed => (Phase::Failed, Action::Abort),
            Outcome::Skipped(SkippedFetch::NoMatchingRefs) => (
                Phase::Done,
                Action::Finish { empty: true },
            ),
            _ => (Phase::Combining, Action::Combine),
        },
        (Phase::Combining, Event::Stage(o)) => match o {
            Outcome::Done => (Phase::Fetching, Action::FetchData),
            _ => (Phase::Failed, Action::Abort),
        },
        (Phase::Fetching, Event::Stage(o)) => match o {
            Outcome::Failed => (Phase::Failed, Action::Abort),
            _ => (Phase::Reloading, Action::Reload),
        },
        (Phase::Reloading, Event::Stage(o)) => match o {
            Outcome::Done => (Phase::Committing, Action::Commit),
            _ => (Phase::Failed, Action::Abort),
        },
        (Phase::Committing, Event::Stage(o)) => match o {
            Outcome::Done => (Phase::Done, Action::Finish { empty: false }),
            _ => (Phase::Failed, Action::Abort),
        },
        (Phase::Done, _) => (Phase::Done, Action::Stop),
        (Phase::Failed, _) => (Phase::Failed, Action::Stop),
        _ => (Phase::Failed, Action::Abort),
    }
}

/// The phase after the events, from the start.
pub open spec fn phase_after(es: Seq<Event>) -> Phase
    decreases es.len(),
{
    if es.len() == 0 {
        Phase::Start
    } else {
        step_of(phase_after(es.drop_last()), es.last()).0
    }
}

/// The actions the events lead to, in order.
pub open spec fn actions_of(es: Seq<Event>) -> Seq<Action>
    decreases es.len(),
{
    if es.len() == 0 {
        Seq::empty()
    } else {
        actions_of(es.drop_last()).push(step_of(phase_after(es.drop_last()), es.last()).1)
    }
}

/// An event that stops a run short of its commit, in phase `p`: a refused
/// start, a failed stage, or a peek that matched nothing.
pub open spec fn stops_short(p: Phase, e: Event) -> bool {
    match e {
        Event::Begin { remote_is_local, anchored } => remote_is_local || !anchored,
        Event::Stage(Outcome::Failed) => true,
        Event::Stage(Outcome::Skipped(SkippedFetch::NoMatchingRefs)) => p == Phase::Peeking,
        _ => false,
    }
}

proof fn lemma_live_phase(es: Seq<Event>)
    ensures
        phase_after(es) != Phase::Done && phase_after(es) != Phase::Failed ==> forall|i: int|
            0 <= i < es.len() ==> !stops_short(phase_after(es.subrange(0, i)), #[trigger] es[i]),
        phase_after(es) == Phase::Committing ==> actions_of(es).len() > 0 && actions_of(es).last()
            == Action::Commit,
    decreases es.len(),
{
    if es.len() > 0 {
        let init = es.drop_last();
        lemma_live_phase(init);
        let p = phase_after(init);
        let e = es.last();
        if phase_after(es) != Phase::Done && phase_after(es) != Phase::Failed {
            assert(p != Phase::Done && p != Phase::Failed);
            assert(es.subrange(0, init.len() as int) =~= init);
            assert(!stops_short(p, e));
            assert forall|i: int| 0 <= i < es.len() implies !stops_short(
                phase_after(es.subrange(0, i)),
                #[trigger] es[i],
            ) by {
                if i < init.len() {
                    assert(es[i] == init[i]);
                    assert(es.subrange(0, i) =~= init.subrange(0, i));
                }
            }
        }
    }
}

/// The run writes only through its commit, and commits only where no event
/// before stopped it short: a refused start, a failed layout check,
/// verification, pack check or signed-refs combination, and a peek that
/// matched nothing all end the run without a write.
pub proof fn law_commit_only_after_success(es: Seq<Event>, k: int)
    requires
        0 <= k < actions_of(es).len(),
        actions_of(es)[k] == Action::Commit,
    ensures
        forall|i: int| 0 <= i <= k ==> !stops_short(phase_after(es.subrange(0, i)), #[trigger] es[i]),
        phase_after(es.subrange(0, k)) == Phase::Reloading,
    decreases es.len(),
{
    lemma_actions_len(es);
    let init = es.drop_last();
    lemma_actions_len(init);
    if k < es.len() - 1 {
        assert(actions_of(es)[k] == actions_of(init)[k]);
        law_commit_only_after_success(init, k);
        assert forall|i: int| 0 <= i <= k implies !stops_short(
            phase_after(es.subrange(0, i)),
            #[trigger] es[i],
        ) by {
            assert(es[i] == init[i]);
            assert(es.subrange(0, i) =~= init.subrange(0, i));
        }
        assert(init.subrange(0, k) =~= es.subrange(0, k));
    } else {
        let p = phase_after(init);
        assert(step_of(p, es.last()).1 == Action::Commit);
        assert(p == Phase::Reloading);
        lemma_live_phase(init);
        assert(init =~= es.subrange(0, k));
        assert forall|i: int| 0 <= i <= k implies !stops_short(
            phase_after(es.subrange(0, i)),
            #[trigger] es[i],
        ) by {
            if i < k {
                assert(es[i] == init[i]);
                assert(es.subrange(0, i) =~= init.subrange(0, i));
            }
        }
    }
}

proof fn lemma_actions_len(es: Seq<Event>)
    ensures
        actions_of(es).len() == es.len(),
    decreases es.len(),
{
    if es.len() > 0 {
        lemma_actions_len(es.drop_last());
    }
}

} // verus!
