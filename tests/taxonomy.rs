use link_replication::ids::PeerId;
use link_replication::refs::{owned, remote_tracking, scoped, Qualified};

fn q(s: &str) -> Qualified {
    Qualified::from_refstr(s).unwrap()
}

fn peer(s: &str) -> PeerId {
    PeerId::parse(s).unwrap()
}

#[test]
fn qualified_requires_refs_and_three_components() {
    assert!(Qualified::from_refstr("refs/heads/main").is_some());
    assert!(Qualified::from_refstr("refs/heads").is_none());
    assert!(Qualified::from_refstr("heads/main/x").is_none());
    assert!(Qualified::from_refstr("refs//main").is_none());
    assert_eq!(q("refs/heads/main").as_str(), "refs/heads/main");
}

#[test]
fn remote_tracking_prepends_peer() {
    let p = peer("xyz");
    let rt = remote_tracking(&p, &q("refs/heads/main")).unwrap();
    assert_eq!(rt.as_qualified().as_str(), "refs/remotes/xyz/heads/main");
}

#[test]
fn remote_tracking_replaces_peer() {
    let p = peer("abc");
    let rt = remote_tracking(&p, &q("refs/remotes/xyz/rad/id")).unwrap();
    assert_eq!(rt.as_qualified().as_str(), "refs/remotes/abc/rad/id");
    assert!(remote_tracking(&p, &q("refs/remotes/xyz/heads")).is_none());
}

#[test]
fn owned_strips_remote() {
    let o = owned(&q("refs/remotes/xyz/heads/main")).unwrap();
    assert_eq!(o.as_qualified().as_str(), "refs/heads/main");
    assert!(owned(&q("refs/namespaces/a/refs/heads/main")).is_none());
}

#[test]
fn scoped_is_owned_for_same_peer() {
    let a = peer("a");
    let b = peer("b");
    let s = scoped(&a, &a, &q("refs/heads/main"));
    assert_eq!(s.as_qualified().as_str(), "refs/heads/main");
    let s = scoped(&b, &a, &q("refs/heads/main"));
    assert_eq!(s.as_qualified().as_str(), "refs/remotes/b/heads/main");
}
