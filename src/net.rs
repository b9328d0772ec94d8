//! The decisions of one network round: what to send with `ls-refs`, whether
//! to fetch at all, what to ask for, and whether the pack held every wanted
//! tip. Opening streams and moving bytes is the caller's part.
use vstd::prelude::*;

use crate::ids::ObjectId;
use crate::steps::prefix_views;
use crate::transmit::{FilteredRef, FilteredView, RefPrefix, SkippedFetch, filtered_views};

verus! {

/// Limits on the size of the pack of each phase, in bytes.
#[derive(Clone, Copy, Debug, PartialEq, Eq, Structural)]
pub struct FetchLimit {
    pub peek: u64,
    pub data: u64,
}

pub const PEEK_LIMIT: u64 = 5242880;

pub const DATA_LIMIT: u64 = 5368709120;

impl FetchLimit {
    /// Five MiB for the peek phase, five GiB for the data phase.
    pub fn default_limits() -> (r: FetchLimit)
        ensures
            r.peek == 5 * 1024 * 1024,
            r.data == 5 * 1024 * 1024 * 1024,
    {
        FetchLimit { peek: PEEK_LIMIT, data: DATA_LIMIT }
    }
}

/// Lexicographic order of texts, by code point.
pub open spec fn lex_lt(a: Seq<char>, b: Seq<char>) -> bool
    decreases a.len(),
{
    if a.len() == 0 {
        b.len() > 0
    } else if b.len() == 0 {
        false
    } else if a[0] != b[0] {
        (a[0] as int) < (b[0] as int)
    } else {
        lex_lt(a.drop_first(), b.drop_first())
    }
}

pub proof fn lemma_lex_transitive(a: Seq<char>, b: Seq<char>, c: Seq<char>)
    requires
        lex_lt(a, b),
        lex_lt(b, c),
    ensures
        lex_lt(a, c),
    decreases a.len(),
{
    if a.len() > 0 && b.len() > 0 && c.len() > 0 {
        if a[0] == b[0] && b[0] == c[0] {
            lemma_lex_transitive(a.drop_first(), b.drop_first(), c.drop_first());
        }
    }
}

pub proof fn lemma_lex_total(a: Seq<char>, b: Seq<char>)
    requires
        a != b,
    ensures
        lex_lt(a, b) || lex_lt(b, a),
    decreases a.len(),
{
    if a.len() > 0 && b.len() > 0 {
        if a[0] == b[0] {
            if a.drop_first() == b.drop_first() {
                assert(a =~= seq![a[0]] + a.drop_first());
                assert(b =~= seq![b[0]] + b.drop_first());
            }
            lemma_lex_total(a.drop_first(), b.drop_first());
        } else {
            assert((a[0] as int) != (b[0] as int));
        }
    } else if a.len() == 0 && b.len() == 0 {
        assert(a =~= b);
    }
}

/// Whether `a` comes strictly before `b`.
fn text_lt(a: &str, b: &str) -> (r: bool)
    ensures
        r == lex_lt(a@, b@),
{
    let n = a.unicode_len();
    let m = b.unicode_len();
    let mut i: usize = 0;
    assert(a@.subrange(0, n as int) =~= a@);
    assert(b@.subrange(0, m as int) =~= b@);
    while i < n && i < m
        invariant
            n == a@.len(),
            m == b@.len(),
            i <= n,
            i <= m,
            lex_lt(a@, b@) == lex_lt(a@.subrange(i as int, n as int), b@.subrange(i as int, m as int)),
        decreases n - i,
    {
        let x = a.get_char(i);
        let y = b.get_char(i);
        let ghost sa = a@.subrange(i as int, n as int);
        let ghost sb = b@.subrange(i as int, m as int);
        assert(sa[0] == x);
        assert(sb[0] == y);
        if x != y {
            return (x as u32) < (y as u32);
        }
        assert(sa.drop_first() =~= a@.subrange(i as int + 1, n as int));
        assert(sb.drop_first() =~= b@.subrange(i as int + 1, m as int));
        i += 1;
    }
    let ghost sa = a@.subrange(i as int, n as int);
    let ghost sb = b@.subrange(i as int, m as int);
    assert(i == n ==> sa.len() == 0);
    assert(i == m ==> sb.len() == 0);
    i == n && i < m
}

/// Strictly increasing in lexicographic order.
pub open spec fn strictly_sorted(v: Seq<Seq<char>>) -> bool {
    forall|i: int, j: int| 0 <= i < j < v.len() ==> lex_lt(#[trigger] v[i], #[trigger] v[j])
}

/// Inserts `p` into the sorted `v` where it is not there yet.
fn insert_sorted(v: &mut Vec<RefPrefix>, p: RefPrefix)
    requires
        strictly_sorted(prefix_views(old(v)@)),
    ensures
        strictly_sorted(prefix_views(final(v)@)),
        prefix_views(final(v)@).to_set() == prefix_views(old(v)@).to_set().insert(p@),
{
    let ghost pv = prefix_views(v@);
    let mut k: usize = 0;
    while k < v.len() && text_lt(v[k].as_str(), p.as_str())
        invariant
            k <= v@.len(),
            pv == prefix_views(v@),
            v@ == old(v)@,
            forall|j: int| 0 <= j < k ==> lex_lt(#[trigger] pv[j], p@),
        decreases v@.len() - k,
    {
        assert(pv[k as int] == v@[k as int]@);
        k += 1;
    }
    if k < v.len() && v[k].same(&p) {
        assert(pv[k as int] == p@);
        assert(pv.to_set().insert(p@) =~= pv.to_set()) by {
            assert(pv.contains(p@));
        }
        return;
    }
    proof {
        if k < pv.len() {
            assert(pv[k as int] == v@[k as int]@);
            assert(!lex_lt(pv[k as int], p@));
            assert(pv[k as int] != p@);
            lemma_lex_total(pv[k as int], p@);
        }
    }
    let ghost pval = p@;
    v.insert(k, p);
    let ghost nv = prefix_views(v@);
    proof {
        assert(nv =~= pv.insert(k as int, pval));
        assert forall|i: int, j: int| 0 <= i < j < nv.len() implies lex_lt(
            #[trigger] nv[i],
            #[trigger] nv[j],
        ) by {
            if j < k {
                assert(nv[i] == pv[i] && nv[j] == pv[j]);
            } else if j == k {
                assert(nv[i] == pv[i]);
            } else if i == k {
                assert(nv[j] == pv[j - 1]);
                if j - 1 > k {
                    assert(lex_lt(pv[k as int], pv[j - 1]));
                    lemma_lex_transitive(pval, pv[k as int], pv[j - 1]);
                }
            } else if i < k {
                assert(nv[i] == pv[i] && nv[j] == pv[j - 1]);
            } else {
                assert(nv[i] == pv[i - 1] && nv[j] == pv[j - 1]);
            }
        }
        assert forall|x: Seq<char>| nv.to_set().contains(x) <==> pv.to_set().insert(pval).contains(
            x,
        ) by {
            if nv.contains(x) {
                let m = choose|m: int| 0 <= m < nv.len() && nv[m] == x;
                if m < k {
                    assert(pv[m] == x);
                } else if m > k {
                    assert(pv[m - 1] == x);
                }
            }
            if pv.contains(x) {
                let m = choose|m: int| 0 <= m < pv.len() && pv[m] == x;
                if m < k {
                    assert(nv[m] == x);
                } else {
                    assert(nv[m + 1] == x);
                }
            }
            if x == pval {
                assert(nv[k as int] == x);
            }
        }
        assert(nv.to_set() =~= pv.to_set().insert(pval));
    }
}

/// The `ls-refs` prefixes of a step, sorted and each once.
pub fn sorted_prefixes(prefixes: Vec<RefPrefix>) -> (r: Vec<RefPrefix>)
    ensures
        strictly_sorted(prefix_views(r@)),
        prefix_views(r@).to_set() == prefix_views(prefixes@).to_set(),
{
    let ghost pv = prefix_views(prefixes@);
    let n = prefixes.len();
    let mut rest = prefixes;
    let ghost all = rest@;
    let mut out: Vec<RefPrefix> = Vec::new();
    let mut i: usize = 0;
    assert(prefix_views(out@).to_set() =~= pv.subrange(0, 0).to_set());
    assert(rest@.subrange(0, n as int) =~= rest@);
    while i < n
        invariant
            i <= n,
            n == all.len(),
            pv == prefix_views(all),
            rest@ == all.subrange(i as int, n as int),
            strictly_sorted(prefix_views(out@)),
            prefix_views(out@).to_set() == pv.subrange(0, i as int).to_set(),
        decreases n - i,
    {
        assert(rest@[0] == all[i as int]);
        let p = rest.remove(0);
        assert(rest@ =~= all.subrange(i as int + 1, n as int));
        let ghost x = p@;
        assert(x == pv[i as int]);
        insert_sorted(&mut out, p);
        proof {
            crate::sigrefs::lemma_push_to_set(pv.subrange(0, i as int), x);
            assert(pv.subrange(0, i as int + 1) =~= pv.subrange(0, i as int).push(x));
        }
        i += 1;
    }
    assert(pv.subrange(0, n as int) =~= pv);
    out
}

/// The wants that are not haves.
pub open spec fn wants_left(wants: Seq<ObjectId>, haves: Seq<ObjectId>) -> Seq<ObjectId>
    decreases wants.len(),
{
    if wants.len() == 0 {
        Seq::empty()
    } else {
        let r = wants_left(wants.drop_last(), haves);
        if haves.contains(wants.last()) {
            r
        } else {
            r.push(wants.last())
        }
    }
}

fn contains_oid(v: &Vec<ObjectId>, o: ObjectId) -> (r: bool)
    ensures
        r == v@.contains(o),
{
    let mut i: usize = 0;
    while i < v.len()
        invariant
            i <= v@.len(),
            forall|j: int| 0 <= j < i ==> v@[j] != o,
        decreases v@.len() - i,
    {
        if v[i].same(&o) {
            return true;
        }
        i += 1;
    }
    false
}

/// The order of object ids: by their bytes.
pub open spec fn oid_lt(a: ObjectId, b: ObjectId) -> bool {
    a.hi < b.hi || (a.hi == b.hi && a.lo < b.lo)
}

pub open spec fn oids_sorted(v: Seq<ObjectId>) -> bool {
    forall|i: int, j: int| 0 <= i < j < v.len() ==> oid_lt(#[trigger] v[i], #[trigger] v[j])
}

fn insert_oid_sorted(v: &mut Vec<ObjectId>, o: ObjectId)
    requires
        oids_sorted(old(v)@),
    ensures
        oids_sorted(final(v)@),
        final(v)@.to_set() == old(v)@.to_set().insert(o),
{
    let ghost pv = v@;
    let mut k: usize = 0;
    while k < v.len() && (v[k].hi < o.hi || (v[k].hi == o.hi && v[k].lo < o.lo))
        invariant
            k <= v@.len(),
            v@ == pv,
            pv == old(v)@,
            forall|j: int| 0 <= j < k ==> oid_lt(#[trigger] pv[j], o),
        decreases v@.len() - k,
    {
        k += 1;
    }
    if k < v.len() && v[k].same(&o) {
        assert(pv.contains(o));
        assert(pv.to_set().insert(o) =~= pv.to_set());
        return;
    }
    v.insert(k, o);
    let ghost nv = v@;
    proof {
        assert(nv =~= pv.insert(k as int, o));
        assert forall|i: int, j: int| 0 <= i < j < nv.len() implies oid_lt(
            #[trigger] nv[i],
            #[trigger] nv[j],
        ) by {
            if j < k {
                assert(nv[i] == pv[i] && nv[j] == pv[j]);
            } else if j == k {
                assert(nv[i] == pv[i]);
            } else if i == k {
                assert(nv[j] == pv[j - 1]);
                if j - 1 > k {
                    assert(oid_lt(pv[k as int], pv[j - 1]));
                }
            } else if i < k {
                assert(nv[i] == pv[i] && nv[j] == pv[j - 1]);
            } else {
                assert(nv[i] == pv[i - 1] && nv[j] == pv[j - 1]);
            }
        }
        assert forall|x: ObjectId| nv.to_set().contains(x) <==> pv.to_set().insert(o).contains(x) by {
            if nv.contains(x) {
                let m = choose|m: int| 0 <= m < nv.len() && nv[m] == x;
                if m < k {
                    assert(pv[m] == x);
                } else if m > k {
                    assert(pv[m - 1] == x);
                }
            }
            if pv.contains(x) {
                let m = choose|m: int| 0 <= m < pv.len() && pv[m] == x;
                if m < k {
                    assert(nv[m] == x);
                } else {
                    assert(nv[m + 1] == x);
                }
            }
            if x == o {
                assert(nv[k as int] == x);
            }
        }
        assert(nv.to_set() =~= pv.to_set().insert(o));
    }
}

/// The object ids sorted, each once.
pub fn sorted_oids(v: &Vec<ObjectId>) -> (r: Vec<ObjectId>)
    ensures
        oids_sorted(r@),
        r@.to_set() == v@.to_set(),
{
    let mut out: Vec<ObjectId> = Vec::new();
    let mut i: usize = 0;
    assert(out@.to_set() =~= v@.subrange(0, 0).to_set());
    while i < v.len()
        invariant
            i <= v@.len(),
            oids_sorted(out@),
            out@.to_set() == v@.subrange(0, i as int).to_set(),
        decreases v@.len() - i,
    {
        insert_oid_sorted(&mut out, v[i]);
        proof {
            assert(v@.subrange(0, i as int + 1) =~= v@.subrange(0, i as int).push(v@[i as int]));
            lemma_push_set(v@.subrange(0, i as int), v@[i as int]);
        }
        i += 1;
    }
    assert(v@.subrange(0, v@.len() as int) =~= v@);
    out
}

proof fn lemma_push_set(s: Seq<ObjectId>, x: ObjectId)
    ensures
        s.push(x).to_set() == s.to_set().insert(x),
{
    assert forall|y: ObjectId| s.push(x).to_set().contains(y) <==> s.to_set().insert(x).contains(y) by {
        if s.push(x).contains(y) && y != x {
            let k = choose|k: int| 0 <= k < s.push(x).len() && s.push(x)[k] == y;
            assert(s[k] == y);
        }
        if s.contains(y) {
            let k = choose|k: int| 0 <= k < s.len() && s[k] == y;
            assert(s.push(x)[k] == y);
        }
        if y == x {
            assert(s.push(x)[s.len() as int] == x);
        }
    }
    assert(s.push(x).to_set() =~= s.to_set().insert(x));
}

/// What a `fetch` asks for and offers, each sorted.
#[derive(Debug)]
pub struct FetchRequest {
    pub wants: Vec<ObjectId>,
    pub haves: Vec<ObjectId>,
}

/// Whether to fetch after `ls-refs` advertised `advertised` refs: with none
/// advertised, [`SkippedFetch::NoMatchingRefs`]; with every want also a
/// have, [`SkippedFetch::WantNothing`]; else the wants that are not haves
/// and the haves, each sorted and once.
pub fn plan_fetch(advertised: usize, wants: &Vec<ObjectId>, haves: &Vec<ObjectId>) -> (r: Result<
    FetchRequest,
    SkippedFetch,
>)
    ensures
        advertised == 0 ==> r is Err && r->Err_0 == SkippedFetch::NoMatchingRefs,
        advertised > 0 && wants_left(wants@, haves@).len() == 0 ==> r is Err && r->Err_0
            == SkippedFetch::WantNothing,
        advertised > 0 && wants_left(wants@, haves@).len() > 0 ==> r is Ok && oids_sorted(
            r->Ok_0.wants@,
        ) && r->Ok_0.wants@.to_set() == wants_left(wants@, haves@).to_set() && oids_sorted(
            r->Ok_0.haves@,
        ) && r->Ok_0.haves@.to_set() == haves@.to_set(),
{
    if advertised == 0 {
        return Err(SkippedFetch::NoMatchingRefs);
    }
    let mut out: Vec<ObjectId> = Vec::new();
    let mut i: usize = 0;
    assert(wants@.subrange(0, 0) =~= Seq::<ObjectId>::empty());
    while i < wants.len()
        invariant
            i <= wants@.len(),
            out@ == wants_left(wants@.subrange(0, i as int), haves@),
        decreases wants@.len() - i,
    {
        let ghost cur = wants@.subrange(0, i as int + 1);
        assert(cur.drop_last() =~= wants@.subrange(0, i as int));
        if !contains_oid(haves, wants[i]) {
            out.push(wants[i]);
        }
        i += 1;
    }
    assert(wants@.subrange(0, wants@.len() as int) =~= wants@);
    if out.len() == 0 {
        Err(SkippedFetch::WantNothing)
    } else {
        Ok(FetchRequest { wants: sorted_oids(&out), haves: sorted_oids(haves) })
    }
}

/// A wanted tip that the fetched pack did not hold.
#[derive(Debug)]
pub struct NotFoundInPack {
    pub index: usize,
    pub tip: ObjectId,
}

/// Checks that every wanted ref's tip is now present: `present[i]` says
/// whether the object database holds the tip of `wanted[i]`. The first ref
/// whose tip is missing is an error.
pub fn check_pack(wanted: &Vec<FilteredRef>, present: &Vec<bool>) -> (r: Result<(), NotFoundInPack>)
    requires
        present@.len() == wanted@.len(),
    ensures
        r is Ok <==> forall|i: int| 0 <= i < present@.len() ==> present@[i],
        r is Err ==> ({
            let k = r->Err_0.index as int;
            &&& 0 <= k < present@.len()
            &&& !present@[k]
            &&& r->Err_0.tip == filtered_views(wanted@)[k].tip
            &&& forall|j: int| 0 <= j < k ==> present@[j]
        }),
{
    let mut i: usize = 0;
    while i < wanted.len()
        invariant
            i <= wanted@.len(),
            present@.len() == wanted@.len(),
            forall|j: int| 0 <= j < i ==> present@[j],
        decreases wanted@.len() - i,
    {
        if !present[i] {
            return Err(NotFoundInPack { index: i, tip: wanted[i].tip() });
        }
        i += 1;
    }
    Ok(())
}

} // verus!
