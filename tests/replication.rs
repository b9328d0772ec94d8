use link_replication::activation::{listen_fds, parse_u32, ActivationError, FdRange, Systemd};
use link_replication::eval::{after_peek, check_anchor, check_remote, AfterPeek, Newer, Precondition, Success};
use link_replication::ids::{ObjectId, PeerId, Urn};
use link_replication::net::{check_pack, plan_fetch, FetchLimit};
use link_replication::refdb::{Ancestry, Entry, Mem, Policy, Shim, SymrefTarget, Target, TxError, Update};
use link_replication::refs::{namespaced, owned, remote_tracking, scoped, Owned, Qualified};
use link_replication::sigrefs::{combined, Combine, Combined, PeerRefs, Refs, Select, SignedRef, Sigrefs};
use link_replication::state::{validate, FetchState};
use link_replication::steps::{Fetch, ForClone, ForFetch, Layout};
use link_replication::transmit::{Advertised, RefPrefix, SkippedFetch};

fn q(s: &str) -> Qualified {
    Qualified::from_refstr(s).unwrap()
}

fn o(s: &str) -> Owned {
    owned(&q(s)).unwrap()
}

fn peer(s: &str) -> PeerId {
    PeerId::parse(s).unwrap()
}

fn oid(n: u32) -> ObjectId {
    ObjectId::new(0, n)
}

fn adv(name: &str, n: u32) -> Advertised {
    Advertised { name: name.to_string(), tip: oid(n) }
}

fn direct(name: &str, n: u32) -> Entry {
    Entry { name: q(name), target: Target::Direct(oid(n)) }
}

#[test]
fn remote_tracking_twice_is_remote_tracking_once() {
    let p = peer("p");
    let r = peer("r");
    for name in ["refs/heads/main", "refs/remotes/x/tags/v1", "refs/namespaces/u/refs/rad/id"] {
        let once = remote_tracking(&r, &q(name)).unwrap().into_qualified();
        let twice = remote_tracking(&p, &once).unwrap().into_qualified();
        let direct = remote_tracking(&p, &q(name)).unwrap().into_qualified();
        assert_eq!(twice.as_str(), direct.as_str());
    }
    assert_eq!(
        remote_tracking(&p, &q("refs/namespaces/u/refs/rad/id")).unwrap().as_qualified().as_str(),
        "refs/remotes/p/rad/id"
    );
}

#[test]
fn owned_of_scoped_to_self_is_owned() {
    let p = peer("p");
    let n = q("refs/heads/feature/x");
    let s = scoped(&p, &p, &n).into_qualified();
    assert_eq!(
        owned(&s).unwrap().as_qualified().as_str(),
        owned(&n).unwrap().as_qualified().as_str()
    );
}

#[test]
fn nested_namespaces_strip_to_the_name() {
    let u1 = Urn::try_from_id("u1").unwrap();
    let u2 = Urn::try_from_id("u2").unwrap();
    let inner = namespaced(&u2, &q("refs/heads/main")).into_qualified();
    let outer = namespaced(&u1, &inner);
    assert_eq!(outer.namespace(), "u1");
    assert_eq!(outer.strip_namespace().as_str(), "refs/namespaces/u2/refs/heads/main");
    assert_eq!(outer.strip_namespace_recursive().as_str(), "refs/heads/main");
}

#[test]
fn name_text_round_trips() {
    for s in ["refs/heads/main", "refs/remotes/abc/rad/ids/xyz", "refs/namespaces/a/refs/tags/v1"] {
        let name = q(s);
        let again = Qualified::from_refstr(&name.as_str()).unwrap();
        assert_eq!(again.as_str(), s);
    }
}

#[test]
fn qualified_join_and_namespaced() {
    let joined = q("refs/heads/main").join("sub/x").unwrap();
    assert_eq!(joined.as_str(), "refs/heads/main/sub/x");
    assert!(q("refs/heads/main").join("a//b").is_none());
    assert!(q("refs/heads/main").namespaced().is_none());
    assert!(q("refs/namespaces/a/refs/heads/main").namespaced().is_some());
}

fn store_with_main(n: u32) -> Mem {
    Mem { entries: vec![direct("refs/heads/main", n)] }
}

#[test]
fn fast_forward_commits_whatever_the_policy() {
    for policy in [Policy::Abort, Policy::Reject, Policy::Allow] {
        let mut mem = store_with_main(1);
        let anc = Ancestry { descends: vec![(oid(2), oid(1))] };
        let up = Update::Direct { name: q("refs/heads/main"), target: oid(2), no_ff: policy };
        let applied = mem.update(&anc, vec![up]).unwrap();
        assert_eq!(applied.updated.len(), 1);
        assert!(applied.rejected.is_empty());
        assert_eq!(mem.refname_to_id(&q("refs/heads/main")), Some(oid(2)));
    }
}

#[test]
fn duplicate_updates_keep_the_last_proposal() {
    let mut mem = store_with_main(1);
    let anc = Ancestry { descends: vec![(oid(3), oid(1))] };
    let ups = vec![
        Update::Direct { name: q("refs/heads/main"), target: oid(2), no_ff: Policy::Allow },
        Update::Direct { name: q("refs/heads/other"), target: oid(5), no_ff: Policy::Allow },
        Update::Direct { name: q("refs/heads/main"), target: oid(3), no_ff: Policy::Reject },
    ];
    let applied = mem.update(&anc, ups).unwrap();
    assert!(applied.rejected.is_empty());
    let names: Vec<String> = applied.updated.iter().map(|u| u.name.as_str()).collect();
    assert_eq!(names, vec!["refs/heads/other", "refs/heads/main"]);
    assert_eq!(mem.refname_to_id(&q("refs/heads/main")), Some(oid(3)));
}

#[test]
fn drained_updates_are_collapsed() {
    let mut state = FetchState::new();
    state.update_all(vec![
        Update::Direct { name: q("refs/remotes/a/heads/x"), target: oid(1), no_ff: Policy::Allow },
        Update::Direct { name: q("refs/remotes/a/heads/x"), target: oid(2), no_ff: Policy::Allow },
    ]);
    let drained = state.drain_updates();
    assert_eq!(drained.len(), 1);
    assert!(matches!(&drained[0], Update::Direct { target, .. } if *target == oid(2)));
}

#[test]
fn rejected_non_fast_forward_is_not_written() {
    let mut mem = store_with_main(1);
    let anc = Ancestry { descends: vec![] };
    let up = Update::Direct { name: q("refs/heads/main"), target: oid(2), no_ff: Policy::Reject };
    let applied = mem.update(&anc, vec![up]).unwrap();
    assert_eq!(applied.rejected.len(), 1);
    assert!(applied.updated.is_empty());
    assert_eq!(mem.refname_to_id(&q("refs/heads/main")), Some(oid(1)));
}

#[test]
fn aborted_non_fast_forward_fails_the_transaction() {
    let mut mem = store_with_main(1);
    let anc = Ancestry { descends: vec![] };
    let ups = vec![
        Update::Direct { name: q("refs/heads/other"), target: oid(5), no_ff: Policy::Abort },
        Update::Direct { name: q("refs/heads/main"), target: oid(2), no_ff: Policy::Abort },
    ];
    let r = mem.update(&anc, ups);
    assert!(matches!(r, Err(TxError::NonFF { .. })));
    assert_eq!(mem.refname_to_id(&q("refs/heads/other")), None);
    assert_eq!(mem.refname_to_id(&q("refs/heads/main")), Some(oid(1)));
}

#[test]
fn forced_non_fast_forward_moves_the_ref() {
    let mut mem = Mem { entries: vec![direct("refs/remotes/a/heads/master", 1)] };
    let anc = Ancestry { descends: vec![] };
    let up = Update::Direct {
        name: q("refs/remotes/a/heads/master"),
        target: oid(9),
        no_ff: Policy::Allow,
    };
    mem.update(&anc, vec![up]).unwrap();
    assert_eq!(mem.refname_to_id(&q("refs/remotes/a/heads/master")), Some(oid(9)));
}

fn sym_update(policy: Policy) -> Update {
    let u = Urn::try_from_id("u").unwrap();
    Update::Symbolic {
        name: q("refs/rad/self"),
        target: SymrefTarget { name: namespaced(&u, &q("refs/rad/id")), target: oid(3) },
        type_change: policy,
    }
}

#[test]
fn symbolic_update_creates_missing_target() {
    let mut mem = Mem::new();
    let anc = Ancestry { descends: vec![] };
    let applied = mem.update(&anc, vec![sym_update(Policy::Abort)]).unwrap();
    assert_eq!(applied.updated.len(), 2);
    assert_eq!(mem.refname_to_id(&q("refs/rad/self")), Some(oid(3)));
    assert_eq!(mem.refname_to_id(&q("refs/namespaces/u/refs/rad/id")), Some(oid(3)));
}

#[test]
fn symbolic_update_of_direct_ref_follows_policy() {
    let anc = Ancestry { descends: vec![] };
    let mut mem = Mem { entries: vec![direct("refs/rad/self", 1)] };
    assert!(matches!(mem.update(&anc, vec![sym_update(Policy::Abort)]), Err(TxError::TypeChange(_))));
    let applied = mem.update(&anc, vec![sym_update(Policy::Reject)]).unwrap();
    assert_eq!(applied.rejected.len(), 1);
    assert_eq!(mem.refname_to_id(&q("refs/rad/self")), Some(oid(1)));
}

#[test]
fn symbolic_target_must_not_be_symbolic() {
    let anc = Ancestry { descends: vec![] };
    let mut mem = Mem {
        entries: vec![Entry {
            name: q("refs/namespaces/u/refs/rad/id"),
            target: Target::Symbolic(q("refs/heads/x")),
        }],
    };
    assert!(matches!(
        mem.update(&anc, vec![sym_update(Policy::Allow)]),
        Err(TxError::TargetSymbolic(_))
    ));
}

#[test]
fn no_matching_refs_ends_with_empty_success() {
    assert!(matches!(plan_fetch(0, &vec![oid(1)], &vec![]), Err(SkippedFetch::NoMatchingRefs)));
    assert_eq!(after_peek(Some(SkippedFetch::NoMatchingRefs), Some(Newer::Theirs)), AfterPeek::Done);
    let s = Success::empty();
    assert!(s.applied.updated.is_empty());
    assert!(s.applied.rejected.is_empty());
    assert!(!s.requires_confirmation);
}

#[test]
fn up_to_date_tips_want_nothing() {
    let r = plan_fetch(3, &vec![oid(1), oid(2)], &vec![oid(2), oid(1)]);
    assert!(matches!(r, Err(SkippedFetch::WantNothing)));
    let r = plan_fetch(3, &vec![oid(3), oid(1), oid(2)], &vec![oid(1), oid(9), oid(4)]).unwrap();
    assert_eq!(r.wants, vec![oid(2), oid(3)]);
    assert_eq!(r.haves, vec![oid(1), oid(4), oid(9)]);
}

#[test]
fn tip_missing_from_pack_is_fatal() {
    let a = peer("a");
    let step = ForClone { remote_id: a.copied() };
    let refs: Vec<_> = vec![adv("refs/rad/id", 1), adv("refs/rad/self", 2)]
        .iter()
        .filter_map(|r| step.ref_filter(r))
        .collect();
    assert!(check_pack(&refs, &vec![true, true]).is_ok());
    let err = check_pack(&refs, &vec![true, false]).unwrap_err();
    assert_eq!(err.index, 1);
    assert_eq!(err.tip, oid(2));
}

fn sigrefs(names: &[(&str, u32)], remotes: &[&str]) -> Sigrefs {
    Sigrefs {
        at: oid(100),
        refs: names.iter().map(|(n, t)| SignedRef { name: o(n), tip: oid(*t) }).collect(),
        remotes: remotes.iter().map(|p| peer(p)).collect(),
    }
}

#[test]
fn missing_required_sigrefs_is_not_found() {
    let select = Select { must: vec![peer("a"), peer("b")], may: vec![peer("c")], cutoff: 2 };
    let r = combined(&select, vec![Some(sigrefs(&[], &[])), None], vec![None]);
    match r {
        Err(Combine::NotFound(p)) => assert_eq!(p.as_str(), "b"),
        Ok(_) => panic!("expected NotFound"),
    }
}

#[test]
fn optional_sigrefs_are_skipped_when_absent() {
    let select = Select { must: vec![peer("a")], may: vec![peer("c")], cutoff: 2 };
    let c = combined(&select, vec![Some(sigrefs(&[("refs/heads/main", 7)], &["x", "a"]))], vec![None])
        .unwrap();
    assert_eq!(c.refs.len(), 1);
    assert_eq!(c.signed(&peer("a"), &o("refs/heads/main")), Some(oid(7)));
    assert!(c.is_tracked(&peer("x")));
    assert!(!c.is_tracked(&peer("c")));
}

#[test]
fn clone_from_a_delegate() {
    let a = peer("a");
    let step = ForClone { remote_id: a.copied() };
    let prefixes: Vec<String> = step.ref_prefixes().iter().map(|p| p.as_str().to_string()).collect();
    assert_eq!(prefixes, vec!["refs/rad/id", "refs/rad/self", "refs/rad/signed_refs", "refs/rad/ids/"]);
    let advertised = vec![
        adv("refs/rad/id", 1),
        adv("refs/rad/self", 2),
        adv("refs/rad/signed_refs", 3),
        adv("refs/heads/master", 4),
    ];
    let refs: Vec<_> = advertised.iter().filter_map(|r| step.ref_filter(r)).collect();
    assert_eq!(refs.len(), 3);
    assert!(step.pre_validate(&refs).is_ok());
    let inner = Mem::new();
    let fetch = Mem::new();
    let wh = step.wants_haves(&Shim { inner: &inner, fetch: &fetch }, &refs);
    assert_eq!(wh.wants.len(), 3);
    assert!(wh.haves.is_empty());
    let ups = step.prepare(&vec![a.copied()], &refs);
    let u = Urn::try_from_id("u").unwrap();
    let names: Vec<String> = ups
        .iter()
        .map(|up| namespaced(&u, up.refname()).into_qualified().as_str())
        .collect();
    assert_eq!(
        names,
        vec![
            "refs/namespaces/u/refs/remotes/a/rad/id",
            "refs/namespaces/u/refs/remotes/a/rad/self",
            "refs/namespaces/u/refs/remotes/a/rad/signed_refs",
        ]
    );
    assert!(step.prepare(&vec![peer("z")], &refs).is_empty());
}

#[test]
fn clone_without_required_refs_is_a_layout_error() {
    let step = ForClone { remote_id: peer("a") };
    let refs: Vec<_> = vec![adv("refs/rad/id", 1)].iter().filter_map(|r| step.ref_filter(r)).collect();
    match step.pre_validate(&refs) {
        Err(Layout::MissingRequiredRefs(missing)) => {
            let names: Vec<String> = missing.iter().map(|m| m.as_str()).collect();
            assert_eq!(names, vec!["refs/rad/self", "refs/rad/signed_refs"]);
        },
        Ok(()) => panic!("expected a layout error"),
    }
}

#[test]
fn for_fetch_skips_local_refs() {
    let step = ForFetch {
        local_id: peer("me"),
        remote_id: peer("a"),
        delegates: vec![peer("a"), peer("me"), peer("c")],
        tracking: vec![peer("t")],
    };
    let peers: Vec<String> = step.peers().iter().map(|p| p.as_str().to_string()).collect();
    assert_eq!(peers, vec!["a", "c", "t"]);
    assert!(step.ref_filter(&adv("refs/remotes/me/rad/id", 1)).is_none());
    let f = step.ref_filter(&adv("refs/remotes/c/rad/id", 1)).unwrap();
    assert_eq!(f.remote_id().as_str(), "c");
    let f = step.ref_filter(&adv("refs/rad/id", 1)).unwrap();
    assert_eq!(f.remote_id().as_str(), "a");
    assert_eq!(step.required_refs().len(), 6);
}

fn gossip_fetch(signed_tip: u32) -> Fetch {
    Fetch {
        local_id: peer("b"),
        remote_id: peer("a"),
        signed_refs: Combined {
            refs: vec![PeerRefs {
                peer: peer("a"),
                refs: Refs { at: oid(100), refs: vec![SignedRef { name: o("refs/heads/master"), tip: oid(signed_tip) }] },
            }],
            remotes: vec![peer("a"), peer("x"), peer("b")],
        },
    }
}

#[test]
fn gossip_driven_fetch_updates_remote_tracking_ref() {
    let step = gossip_fetch(7);
    let prefixes: Vec<String> = step.ref_prefixes().iter().map(|p| p.as_str().to_string()).collect();
    assert_eq!(
        prefixes,
        vec![
            "refs/heads",
            "refs/notes",
            "refs/tags",
            "refs/remotes/x/heads",
            "refs/remotes/x/notes",
            "refs/remotes/x/tags",
            "refs/heads/master",
        ]
    );
    let refs: Vec<_> = vec![adv("refs/heads/master", 7)].iter().filter_map(|r| step.ref_filter(r)).collect();
    let inner = Mem::new();
    let mut state = FetchState::new();
    let wh = step.wants_haves(&state.as_shim(&inner), &refs);
    assert_eq!(wh.wants, vec![oid(7)]);
    state.update_all(step.prepare(&wh.wanted));
    assert_eq!(state.refs.refname_to_id(&q("refs/remotes/a/heads/master")), Some(oid(7)));
    let warnings = validate(&state.as_shim(&inner), &step.signed_refs);
    assert!(warnings.is_empty());
    assert_eq!(state.drain_updates().len(), 1);
}

#[test]
fn tracked_unsigned_ref_is_fetched() {
    let step = gossip_fetch(7);
    let f = step.ref_filter(&adv("refs/remotes/x/heads/topic", 5)).unwrap();
    assert_eq!(f.remote_id().as_str(), "x");
    assert!(step.ref_filter(&adv("refs/remotes/y/heads/topic", 5)).is_none());
    assert!(step.ref_filter(&adv("refs/remotes/b/heads/topic", 5)).is_none());
    assert!(step.ref_filter(&adv("refs/remotes/x/cobs/thing", 5)).is_none());
    assert!(step.ref_filter(&adv("refs/rad/id", 5)).is_none());
}

#[test]
fn validation_warns_on_mismatch() {
    let step = gossip_fetch(7);
    let inner = Mem { entries: vec![direct("refs/remotes/a/heads/master", 6)] };
    let fetch = Mem::new();
    let warnings = validate(&Shim { inner: &inner, fetch: &fetch }, &step.signed_refs);
    assert_eq!(warnings.len(), 1);
    assert_eq!(warnings[0].expected, oid(7));
    assert_eq!(warnings[0].actual, Some(oid(6)));
    let empty = Mem::new();
    let warnings = validate(&Shim { inner: &empty, fetch: &fetch }, &step.signed_refs);
    assert_eq!(warnings[0].actual, None);
}

#[test]
fn data_step_does_not_want_what_it_has() {
    let step = gossip_fetch(7);
    let inner = Mem { entries: vec![direct("refs/remotes/a/heads/master", 7)] };
    let fetch = Mem::new();
    let refs: Vec<_> = vec![adv("refs/heads/master", 7)].iter().filter_map(|r| step.ref_filter(r)).collect();
    let wh = step.wants_haves(&Shim { inner: &inner, fetch: &fetch }, &refs);
    assert!(wh.wants.is_empty());
    assert_eq!(wh.haves, vec![oid(7)]);
    assert!(matches!(plan_fetch(1, &wh.wants, &wh.haves), Err(SkippedFetch::WantNothing)));
}

#[test]
fn identity_fork_requires_confirmation() {
    assert_eq!(
        after_peek(None, Some(Newer::Fork)),
        AfterPeek::Continue { requires_confirmation: true }
    );
    assert_eq!(after_peek(None, Some(Newer::Theirs)), AfterPeek::Setup(Newer::Theirs));
    assert_eq!(
        after_peek(Some(SkippedFetch::WantNothing), Some(Newer::Fork)),
        AfterPeek::Continue { requires_confirmation: false }
    );
}

#[test]
fn replicating_from_self_is_refused() {
    assert_eq!(check_remote(&peer("a"), &peer("a")), Err(Precondition::ReplicateFromSelf));
    assert_eq!(check_remote(&peer("a"), &peer("b")), Ok(()));
    assert_eq!(check_anchor(None), Err(Precondition::MissingAnchor));
    assert_eq!(check_anchor(Some(oid(1))), Ok(oid(1)));
}

#[test]
fn foreign_listen_pid_activates_nothing() {
    let range = listen_fds(Some("1"), 2, Some("1")).unwrap();
    assert_eq!(range, FdRange { start: 0, end: 0 });
    let mut sd = Systemd::from_parts(range, Some("http")).unwrap();
    assert!(sd.activate("http").is_empty());
}

#[test]
fn own_listen_pid_activates_named_sockets() {
    let range = listen_fds(Some("42"), 42, Some("2")).unwrap();
    assert_eq!(range, FdRange { start: 3, end: 5 });
    let mut sd = Systemd::from_parts(range, Some("http:git")).unwrap();
    assert_eq!(sd.activate("git"), vec![4]);
    assert!(sd.activate("git").is_empty());
    assert_eq!(sd.activate("http"), vec![3]);
    let mut twice = Systemd::from_parts(range, Some("http:http")).unwrap();
    assert_eq!(twice.activate("http"), vec![4]);
    assert!(twice.activate("http").is_empty());
    assert!(matches!(Systemd::from_parts(range, Some("http")), Err(ActivationError::NamesMismatch)));
    assert_eq!(listen_fds(Some("x"), 42, Some("2")), Err(ActivationError::InvalidPid));
    assert_eq!(listen_fds(Some("42"), 42, Some("two")), Err(ActivationError::InvalidFds));
    assert_eq!(listen_fds(Some("42"), 42, Some("4294967295")), Err(ActivationError::FdCountOverflow));
    assert_eq!(listen_fds(None, 42, Some("2")), Ok(FdRange { start: 0, end: 0 }));
}

#[test]
fn decimal_parsing() {
    assert_eq!(parse_u32("0"), Some(0));
    assert_eq!(parse_u32("+17"), Some(17));
    assert_eq!(parse_u32("4294967295"), Some(4294967295));
    assert_eq!(parse_u32("4294967296"), None);
    assert_eq!(parse_u32(""), None);
    assert_eq!(parse_u32("+"), None);
    assert_eq!(parse_u32("-1"), None);
}

#[test]
fn prefixes_scope_and_match() {
    let a = peer("a");
    let p = RefPrefix::from_prefix(Some(&a), "refs/heads");
    assert_eq!(p.as_str(), "refs/remotes/a/heads");
    assert!(p.matches(&q("refs/remotes/a/heads/main")));
    assert!(!p.matches(&q("refs/remotes/b/heads/main")));
    assert_eq!(RefPrefix::from_prefix(None, "refs/heads").as_str(), "refs/heads");
}

#[test]
fn fetch_limits_default() {
    let l = FetchLimit::default_limits();
    assert_eq!(l.peek, 5 * 1024 * 1024);
    assert_eq!(l.data, 5 * 1024 * 1024 * 1024);
}

#[test]
fn delegation_tips_need_an_identity_tip() {
    let step = ForFetch {
        local_id: peer("me"),
        remote_id: peer("a"),
        delegates: vec![peer("a")],
        tracking: vec![],
    };
    let refs: Vec<_> = vec![
        adv("refs/remotes/c/rad/ids/d1", 9),
        adv("refs/rad/ids/d1", 8),
        adv("refs/rad/id", 1),
        adv("refs/rad/signed_refs", 2),
    ]
    .iter()
    .filter_map(|r| step.ref_filter(r))
    .collect();
    let mut state = FetchState::new();
    state.record_tips(&refs);
    let d1 = Urn::try_from_id("d1").unwrap();
    assert_eq!(state.id_tip(&peer("a")), Some(oid(1)));
    assert_eq!(state.sigref_tip(&peer("a")), Some(oid(2)));
    assert_eq!(state.lookup_delegations(&peer("a"), &d1), Some(oid(8)));
    assert_eq!(state.lookup_delegations(&peer("c"), &d1), None);
    assert_eq!(step.identities_to_verify(&refs).len(), 1);
}
