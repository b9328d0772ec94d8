use link_replication::ids::{ObjectId, PeerId};
use link_replication::net::sorted_prefixes;
use link_replication::refdb::force_reflog;
use link_replication::refs::{remote_tracking, Qualified};
use link_replication::sigrefs::{after_update, Attempt, UpdateOutcome};
use link_replication::state::{FetchState, SigrefsSource};
use link_replication::steps::ForFetch;
use link_replication::transmit::{Advertised, RefPrefix};

fn q(s: &str) -> Qualified {
    Qualified::from_refstr(s).unwrap()
}

fn peer(s: &str) -> PeerId {
    PeerId::parse(s).unwrap()
}

fn oid(n: u32) -> ObjectId {
    ObjectId::new(0, n)
}

#[test]
fn concurrent_modification_is_retried() {
    assert_eq!(after_update(UpdateOutcome::Updated(oid(1))), Attempt::Done(oid(1)));
    assert_eq!(after_update(UpdateOutcome::Unchanged(oid(2))), Attempt::Done(oid(2)));
    assert_eq!(after_update(UpdateOutcome::ConcurrentlyModified), Attempt::Retry);
}

#[test]
fn reflogs_are_forced_for_identity_refs() {
    assert!(force_reflog(&q("refs/rad/id")));
    assert!(force_reflog(&q("refs/remotes/a/rad/signed_refs")));
    assert!(force_reflog(&q("refs/namespaces/u/refs/rad/self")));
    assert!(force_reflog(&q("refs/namespaces/u/refs/remotes/a/rad/id")));
    assert!(!force_reflog(&q("refs/heads/main")));
    assert!(!force_reflog(&q("refs/remotes/a/heads/rad")));
    assert!(!force_reflog(&q("refs/namespaces/u/refs/heads/main")));
}

#[test]
fn ls_refs_prefixes_are_sorted_and_unique() {
    let a = peer("a");
    let sorted = sorted_prefixes(vec![
        RefPrefix::from_prefix(Some(&a), "refs/tags"),
        RefPrefix::from_prefix(None, "refs/rad/id"),
        RefPrefix::from_prefix(Some(&a), "refs/heads"),
        RefPrefix::from_prefix(None, "refs/rad/id"),
        RefPrefix::from_prefix(None, "refs/heads"),
    ]);
    let texts: Vec<&str> = sorted.iter().map(|p| p.as_str()).collect();
    assert_eq!(
        texts,
        vec!["refs/heads", "refs/rad/id", "refs/remotes/a/heads", "refs/remotes/a/tags"]
    );
}

#[test]
fn data_refs_leave_sigrefs_sources_alone() {
    let step = ForFetch {
        local_id: peer("me"),
        remote_id: peer("a"),
        delegates: vec![peer("a")],
        tracking: vec![],
    };
    let mut state = FetchState::new();
    assert_eq!(state.sigrefs_source(&peer("a")), SigrefsSource::Stored);
    let peek: Vec<_> = vec![Advertised { name: "refs/rad/signed_refs".to_string(), tip: oid(4) }]
        .iter()
        .filter_map(|r| step.ref_filter(r))
        .collect();
    state.record_tips(&peek);
    assert_eq!(state.sigrefs_source(&peer("a")), SigrefsSource::At(oid(4)));
    assert_eq!(state.sigrefs_source(&peer("b")), SigrefsSource::Absent);
    let data: Vec<_> = vec![
        Advertised { name: "refs/heads/main".to_string(), tip: oid(5) },
        Advertised { name: "refs/remotes/c/tags/v1".to_string(), tip: oid(6) },
    ]
    .iter()
    .filter_map(|r| step.ref_filter(r))
    .collect();
    state.record_tips(&data);
    assert_eq!(state.sigrefs_source(&peer("a")), SigrefsSource::At(oid(4)));
    assert_eq!(state.sigrefs_source(&peer("c")), SigrefsSource::Absent);
}

#[test]
fn remote_tracking_without_category_has_none() {
    let p = peer("p");
    assert!(remote_tracking(&p, &q("refs/remotes/x/heads")).is_none());
}

#[test]
fn remote_tracking_prepends_to_names_that_are_not_namespaced() {
    let p = peer("p");
    let rt = remote_tracking(&p, &q("refs/namespaces/x/heads")).unwrap();
    assert_eq!(rt.as_qualified().as_str(), "refs/remotes/p/namespaces/x/heads");
    let rt = remote_tracking(&p, &q("refs/namespaces/x/refs/heads")).unwrap();
    assert_eq!(rt.as_qualified().as_str(), "refs/remotes/p/namespaces/x/refs/heads");
    let rt = remote_tracking(&p, &q("refs/namespaces/x/refs/heads/main")).unwrap();
    assert_eq!(rt.as_qualified().as_str(), "refs/remotes/p/heads/main");
}

#[test]
fn nested_namespace_under_name_strips_further() {
    let n = q("refs/namespaces/a/refs/namespaces/b/refs/heads/main").namespaced().unwrap();
    assert_eq!(n.strip_namespace_recursive().as_str(), "refs/heads/main");
}

use link_replication::eval::{absorb_for_fetch, apply_for_fetch};
use link_replication::refs::owned;
use link_replication::run::{step, Action, Event, Outcome, Phase};
use link_replication::sigrefs::{combined, Select, SignedRef, Sigrefs};
use link_replication::transmit::SkippedFetch;

fn run(events: &[Event]) -> Vec<Action> {
    let mut phase = Phase::Start;
    let mut actions = Vec::new();
    for e in events {
        let (next, action) = step(phase, *e);
        phase = next;
        actions.push(action);
    }
    actions
}

#[test]
fn run_commits_after_every_stage_went_through() {
    let ok = Event::Stage(Outcome::Done);
    let actions = run(&[
        Event::Begin { remote_is_local: false, anchored: true },
        Event::Stage(Outcome::Skipped(SkippedFetch::WantNothing)),
        ok,
        Event::Stage(Outcome::Skipped(SkippedFetch::NoMatchingRefs)),
        ok,
        ok,
    ]);
    assert_eq!(
        actions,
        vec![
            Action::Peek,
            Action::Combine,
            Action::FetchData,
            Action::Reload,
            Action::Commit,
            Action::Finish { empty: false },
        ]
    );
}

#[test]
fn run_stopped_short_never_commits() {
    let ok = Event::Stage(Outcome::Done);
    let begin = Event::Begin { remote_is_local: false, anchored: true };
    let nothing = run(&[begin, Event::Stage(Outcome::Skipped(SkippedFetch::NoMatchingRefs)), ok, ok]);
    assert_eq!(nothing, vec![Action::Peek, Action::Finish { empty: true }, Action::Stop, Action::Stop]);
    let missing_sigrefs = run(&[begin, ok, Event::Stage(Outcome::Failed), ok, ok]);
    assert_eq!(missing_sigrefs[2], Action::Abort);
    assert!(!missing_sigrefs.contains(&Action::Commit));
    let bad_pack = run(&[begin, ok, ok, Event::Stage(Outcome::Failed), ok]);
    assert!(!bad_pack.contains(&Action::Commit));
    let from_self = run(&[Event::Begin { remote_is_local: true, anchored: true }, ok]);
    assert_eq!(from_self, vec![Action::Abort, Action::Stop]);
    let no_anchor = run(&[Event::Begin { remote_is_local: false, anchored: false }]);
    assert_eq!(no_anchor, vec![Action::Abort]);
}

#[test]
fn layout_error_leaves_state_untouched() {
    let step = ForFetch {
        local_id: peer("me"),
        remote_id: peer("a"),
        delegates: vec![peer("a")],
        tracking: vec![],
    };
    let refs: Vec<_> = vec![
        Advertised { name: "refs/rad/id".to_string(), tip: oid(1) },
        Advertised { name: "refs/rad/signed_refs".to_string(), tip: oid(2) },
    ]
    .iter()
    .filter_map(|r| step.ref_filter(r))
    .collect();
    let mut state = FetchState::new();
    assert!(absorb_for_fetch(&mut state, &step, &refs).is_err());
    assert_eq!(state.id_tip(&peer("a")), None);
    assert_eq!(state.sigrefs_source(&peer("a")), SigrefsSource::Stored);
    assert!(state.drain_updates().is_empty());

    let mut full: Vec<Advertised> = vec![
        Advertised { name: "refs/rad/id".to_string(), tip: oid(1) },
        Advertised { name: "refs/rad/signed_refs".to_string(), tip: oid(2) },
        Advertised { name: "refs/rad/self".to_string(), tip: oid(3) },
    ];
    full.push(Advertised { name: "refs/rad/ids/d".to_string(), tip: oid(4) });
    let refs: Vec<_> = full.iter().filter_map(|r| step.ref_filter(r)).collect();
    assert!(absorb_for_fetch(&mut state, &step, &refs).is_ok());
    assert_eq!(state.id_tip(&peer("a")), Some(oid(1)));
    assert!(state.drain_updates().is_empty());
    apply_for_fetch(&mut state, &step, &refs);
    assert_eq!(state.drain_updates().len(), 4);
}

fn loaded(tip: u32) -> Option<Sigrefs> {
    Some(Sigrefs {
        at: oid(tip),
        refs: vec![SignedRef { name: owned(&q("refs/heads/main")).unwrap(), tip: oid(tip) }],
        remotes: vec![],
    })
}

#[test]
fn reload_keeps_entries_of_peers_that_did_not_advance() {
    let select = Select { must: vec![peer("a")], may: vec![peer("b")], cutoff: 2 };
    let first = combined(&select, vec![loaded(1)], vec![loaded(5)]).unwrap();
    let second = combined(&select, vec![loaded(2)], vec![loaded(5)]).unwrap();
    let main = owned(&q("refs/heads/main")).unwrap();
    assert_eq!(first.signed(&peer("b"), &main), second.signed(&peer("b"), &main));
    assert_ne!(first.signed(&peer("a"), &main), second.signed(&peer("a"), &main));
}

use link_replication::refdb::{Ancestry, Entry, Expected, Mem, Policy, SymrefTarget, Target, Update};
use link_replication::refs::namespaced;
use link_replication::ids::Urn;

#[test]
fn planned_edits_carry_preconditions_and_reflog_mode() {
    let anc = Ancestry { descends: vec![] };
    let mem = Mem { entries: vec![Entry { name: q("refs/heads/main"), target: Target::Direct(oid(1)) }] };

    let create = Update::Direct { name: q("refs/rad/id"), target: oid(2), no_ff: Policy::Abort };
    let edits = mem.plan(&anc, &create).unwrap().unwrap();
    assert_eq!(edits.len(), 1);
    assert_eq!(edits[0].expected, Expected::MustNotExist);
    assert!(edits[0].force_reflog);

    let forced = Update::Direct { name: q("refs/heads/main"), target: oid(3), no_ff: Policy::Allow };
    let edits = mem.plan(&anc, &forced).unwrap().unwrap();
    assert_eq!(edits[0].expected, Expected::MustMatch(oid(1)));
    assert!(!edits[0].force_reflog);

    let u = Urn::try_from_id("u").unwrap();
    let link = Update::Symbolic {
        name: q("refs/rad/self"),
        target: SymrefTarget { name: namespaced(&u, &q("refs/rad/id")), target: oid(4) },
        type_change: Policy::Allow,
    };
    let edits = mem.plan(&anc, &link).unwrap().unwrap();
    assert_eq!(edits.len(), 2);
    assert_eq!(edits[0].name.as_str(), "refs/namespaces/u/refs/rad/id");
    assert_eq!(edits[0].expected, Expected::MustNotExist);
    assert!(edits[0].force_reflog);
    assert_eq!(edits[1].name.as_str(), "refs/rad/self");
    assert_eq!(edits[1].expected, Expected::MustNotExist);
    assert!(edits[1].force_reflog);
}

#[test]
fn namespaced_round_trips_through_qualified() {
    let n = q("refs/namespaces/a/refs/heads/main").namespaced().unwrap();
    n.check();
    let back = n.into_qualified();
    back.check();
    assert!(back.namespaced().is_some());
}

#[test]
fn mixed_batch_applies_policies_per_name() {
    let u = Urn::try_from_id("u").unwrap();
    let mut mem = Mem {
        entries: vec![
            Entry { name: q("refs/heads/main"), target: Target::Direct(oid(1)) },
            Entry { name: q("refs/heads/dev"), target: Target::Direct(oid(5)) },
        ],
    };
    let anc = Ancestry { descends: vec![(oid(2), oid(1))] };
    let applied = mem
        .update(
            &anc,
            vec![
                Update::Symbolic {
                    name: q("refs/rad/self"),
                    target: SymrefTarget { name: namespaced(&u, &q("refs/rad/id")), target: oid(7) },
                    type_change: Policy::Allow,
                },
                Update::Direct { name: q("refs/heads/main"), target: oid(2), no_ff: Policy::Abort },
                Update::Direct { name: q("refs/heads/dev"), target: oid(6), no_ff: Policy::Reject },
            ],
        )
        .unwrap();
    assert_eq!(applied.rejected.len(), 1);
    assert_eq!(applied.updated.len(), 3);
    assert_eq!(mem.refname_to_id(&q("refs/heads/main")), Some(oid(2)));
    assert_eq!(mem.refname_to_id(&q("refs/heads/dev")), Some(oid(5)));
    assert_eq!(mem.refname_to_id(&q("refs/rad/self")), Some(oid(7)));
}
