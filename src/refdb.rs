//! Reference updates and an in-memory transactional reference store.
//!
//! Whether one object descends from another is the object database's
//! knowledge; the store takes it as an [`Ancestry`] relation.
use vstd::prelude::*;

use crate::ids::ObjectId;
use crate::name::texts;
use crate::refs::{is_qualified, Namespaced, Qualified};

verus! {

/// What to do when an update does not apply cleanly.
#[derive(Clone, Copy, Debug, PartialEq, Eq, Structural)]
pub enum Policy {
    /// Abort the entire transaction.
    Abort,
    /// Reject this update, but continue the transaction.
    Reject,
    /// Allow the update.
    Allow,
}

/// The target of a symbolic reference: a namespaced name, and the object it
/// should point to.
#[derive(Debug)]
pub struct SymrefTarget {
    pub name: Namespaced,
    pub target: ObjectId,
}

impl SymrefTarget {
    pub fn name(&self) -> (r: &Namespaced)
        ensures
            r@ == self.name@,
    {
        &self.name
    }

    pub fn into_owned(self) -> (r: SymrefTarget)
        ensures
            r.name@ == self.name@,
            r.target == self.target,
    {
        self
    }

    pub fn copied(&self) -> (r: SymrefTarget)
        ensures
            r.name@ == self.name@,
            r.target == self.target,
    {
        SymrefTarget { name: self.name.to_owned(), target: self.target }
    }
}

/// One reference mutation.
#[derive(Debug)]
pub enum Update {
    /// Point `name` at `target`; `no_ff` applies where that is not a
    /// fast-forward of an existing reference.
    Direct { name: Qualified, target: ObjectId, no_ff: Policy },
    /// Make `name` a symbolic reference to `target`; `type_change` applies
    /// where `name` exists as a direct reference.
    Symbolic { name: Qualified, target: SymrefTarget, type_change: Policy },
}

/// What an update holds.
pub enum UpdateView {
    Direct { name: Seq<Seq<char>>, target: ObjectId, no_ff: Policy },
    Symbolic {
        name: Seq<Seq<char>>,
        sym_name: Seq<Seq<char>>,
        sym_target: ObjectId,
        type_change: Policy,
    },
}

impl UpdateView {
    pub open spec fn name(self) -> Seq<Seq<char>> {
        match self {
            UpdateView::Direct { name, .. } => name,
            UpdateView::Symbolic { name, .. } => name,
        }
    }
}

impl View for Update {
    type V = UpdateView;

    open spec fn view(&self) -> UpdateView {
        match self {
            Update::Direct { name, target, no_ff } => UpdateView::Direct {
                name: name@,
                target: *target,
                no_ff: *no_ff,
            },
            Update::Symbolic { name, target, type_change } => UpdateView::Symbolic {
                name: name@,
                sym_name: target.name@,
                sym_target: target.target,
                type_change: *type_change,
            },
        }
    }
}

impl Update {
    /// The name this update writes.
    pub fn refname(&self) -> (r: &Qualified)
        ensures
            r@ == self@.name(),
    {
        match self {
            Update::Direct { name, .. } => name,
            Update::Symbolic { name, .. } => name,
        }
    }

    pub fn into_owned(self) -> (r: Update)
        ensures
            r@ == self@,
    {
        self
    }

    pub fn copied(&self) -> (r: Update)
        ensures
            r@ == self@,
    {
        match self {
            Update::Direct { name, target, no_ff } => Update::Direct {
                name: name.to_owned(),
                target: *target,
                no_ff: *no_ff,
            },
            Update::Symbolic { name, target, type_change } => Update::Symbolic {
                name: name.to_owned(),
                target: target.copied(),
                type_change: *type_change,
            },
        }
    }
}

/// What a stored reference points to.
#[derive(Debug)]
pub enum Target {
    Direct(ObjectId),
    Symbolic(Qualified),
}

pub enum TargetView {
    Direct(ObjectId),
    Symbolic(Seq<Seq<char>>),
}

impl View for Target {
    type V = TargetView;

    open spec fn view(&self) -> TargetView {
        match self {
            Target::Direct(o) => TargetView::Direct(*o),
            Target::Symbolic(n) => TargetView::Symbolic(n@),
        }
    }
}

impl Target {
    pub fn copied(&self) -> (r: Target)
        ensures
            r@ == self@,
    {
        match self {
            Target::Direct(o) => Target::Direct(*o),
            Target::Symbolic(n) => Target::Symbolic(n.to_owned()),
        }
    }
}

/// What the store must find under a name for an edit to apply.
#[derive(Clone, Copy, Debug, PartialEq, Eq, Structural)]
pub enum Expected {
    /// The name must not exist.
    MustNotExist,
    /// The name must exist and point at this object.
    MustMatch(ObjectId),
    /// Nothing is checked: a write to the speculative store.
    Unchecked,
}

/// A reference that an update wrote, with the precondition the store checks
/// when it applies the edit, and whether the write must create a reflog.
#[derive(Debug)]
pub struct Updated {
    pub name: Qualified,
    pub target: Target,
    pub expected: Expected,
    pub force_reflog: bool,
}

/// The precondition and reflog mode of an edit.
pub struct GuardView {
    pub expected: Expected,
    pub force_reflog: bool,
}

pub open spec fn guard_views(v: Seq<Updated>) -> Seq<GuardView> {
    v.map_values(|u: Updated| GuardView { expected: u.expected, force_reflog: u.force_reflog })
}

/// The preconditions and reflog modes of the edits an update plans, in
/// order: a created name must not exist, a fast-forwarded or forced one must
/// still hold its previous tip, a symbolic link is created, and its target
/// too where missing; a reflog is forced for identity-layer names.
pub open spec fn guards_of(es: Seq<EntryView>, anc: Seq<(ObjectId, ObjectId)>, u: UpdateView) -> Seq<
    GuardView,
> {
    match u {
        UpdateView::Direct { name, target, no_ff } => match peel(es, name) {
            None => seq![
                GuardView { expected: Expected::MustNotExist, force_reflog: force_reflog_of(name) },
            ],
            Some(prev) => if is_ff(anc, target, prev) || no_ff == Policy::Allow {
                seq![
                    GuardView {
                        expected: Expected::MustMatch(prev),
                        force_reflog: force_reflog_of(name),
                    },
                ]
            } else {
                Seq::empty()
            },
        },
        UpdateView::Symbolic { name, sym_name, sym_target, .. } => {
            let link = GuardView {
                expected: Expected::MustNotExist,
                force_reflog: force_reflog_of(name),
            };
            match lookup(es, sym_name) {
                None => seq![
                    GuardView {
                        expected: Expected::MustNotExist,
                        force_reflog: force_reflog_of(sym_name),
                    },
                    link,
                ],
                Some(TargetView::Direct(dst)) => if sym_target != dst && is_ff(anc, sym_target, dst) {
                    seq![
                        GuardView {
                            expected: Expected::MustMatch(dst),
                            force_reflog: force_reflog_of(sym_name),
                        },
                        link,
                    ]
                } else {
                    seq![link]
                },
                _ => Seq::empty(),
            }
        },
    }
}

pub struct EditView {
    pub name: Seq<Seq<char>>,
    pub target: TargetView,
}

impl View for Updated {
    type V = EditView;

    open spec fn view(&self) -> EditView {
        EditView { name: self.name@, target: self.target@ }
    }
}

pub open spec fn edits_view(v: Seq<Updated>) -> Seq<EditView> {
    v.map_values(|u: Updated| u@)
}

pub open spec fn updates_view(v: Seq<Update>) -> Seq<UpdateView> {
    v.map_values(|u: Update| u@)
}

/// The outcome of a transaction: the updates rejected by their policy, and
/// the references written.
#[derive(Debug)]
pub struct Applied {
    pub rejected: Vec<Update>,
    pub updated: Vec<Updated>,
}

impl Applied {
    pub fn new() -> (r: Applied)
        ensures
            r.rejected@.len() == 0,
            r.updated@.len() == 0,
    {
        Applied { rejected: Vec::new(), updated: Vec::new() }
    }

    /// Moves everything of `other` to the end of `self`.
    pub fn append(&mut self, other: &mut Applied)
        ensures
            final(self).rejected@ == old(self).rejected@ + old(other).rejected@,
            final(self).updated@ == old(self).updated@ + old(other).updated@,
            final(other).rejected@.len() == 0,
            final(other).updated@.len() == 0,
    {
        self.rejected.append(&mut other.rejected);
        self.updated.append(&mut other.updated);
    }

    pub fn into_owned(self) -> (r: Applied)
        ensures
            r.rejected@ == self.rejected@,
            r.updated@ == self.updated@,
    {
        self
    }
}

/// Why a transaction failed.
#[derive(Debug)]
pub enum TxError {
    /// A non-fast-forward update under [`Policy::Abort`].
    NonFF { name: Qualified, new: ObjectId, cur: ObjectId },
    /// A symbolic update of a direct reference under [`Policy::Abort`].
    TypeChange(Qualified),
    /// The target of a symbolic update is itself symbolic.
    TargetSymbolic(Qualified),
}

pub enum TxErrorView {
    NonFF { name: Seq<Seq<char>>, new: ObjectId, cur: ObjectId },
    TypeChange(Seq<Seq<char>>),
    TargetSymbolic(Seq<Seq<char>>),
}

impl View for TxError {
    type V = TxErrorView;

    open spec fn view(&self) -> TxErrorView {
        match self {
            TxError::NonFF { name, new, cur } => TxErrorView::NonFF {
                name: name@,
                new: *new,
                cur: *cur,
            },
            TxError::TypeChange(n) => TxErrorView::TypeChange(n@),
            TxError::TargetSymbolic(n) => TxErrorView::TargetSymbolic(n@),
        }
    }
}

/// Known descent between objects: `(new, old)` is listed where `old` is
/// reachable from `new` by walking parents.
#[derive(Debug)]
pub struct Ancestry {
    pub descends: Vec<(ObjectId, ObjectId)>,
}

/// Whether moving from `old` to `new` is a fast-forward.
pub open spec fn is_ff(anc: Seq<(ObjectId, ObjectId)>, new: ObjectId, old: ObjectId) -> bool {
    new == old || anc.contains((new, old))
}

impl Ancestry {
    pub fn is_in_ancestry_path(&self, new: ObjectId, old: ObjectId) -> (r: bool)
        ensures
            r == is_ff(self.descends@, new, old),
    {
        if new.same(&old) {
            return true;
        }
        let mut i: usize = 0;
        while i < self.descends.len()
            invariant
                i <= self.descends@.len(),
                forall|j: int| 0 <= j < i ==> self.descends@[j] != (new, old),
            decreases self.descends@.len() - i,
        {
            let (a, b) = self.descends[i];
            if a.same(&new) && b.same(&old) {
                assert(self.descends@[i as int] == (new, old));
                return true;
            }
            i += 1;
        }
        false
    }
}

/// What a stored entry holds.
pub struct EntryView {
    pub name: Seq<Seq<char>>,
    pub target: TargetView,
}

/// The latest entry for `name`, searching from the end.
pub open spec fn lookup(es: Seq<EntryView>, name: Seq<Seq<char>>) -> Option<TargetView>
    decreases es.len(),
{
    if es.len() == 0 {
        None
    } else if es.last().name == name {
        Some(es.last().target)
    } else {
        lookup(es.drop_last(), name)
    }
}

/// The object `name` resolves to: its target, or the target of the direct
/// reference it points to.
pub open spec fn peel(es: Seq<EntryView>, name: Seq<Seq<char>>) -> Option<ObjectId> {
    match lookup(es, name) {
        Some(TargetView::Direct(o)) => Some(o),
        Some(TargetView::Symbolic(t)) => match lookup(es, t) {
            Some(TargetView::Direct(o)) => Some(o),
            _ => None,
        },
        None => None,
    }
}

/// What a single update does to a store.
pub enum Plan {
    Edits(Seq<EditView>),
    Rejected,
    Failed(TxErrorView),
}

pub open spec fn plan_of(es: Seq<EntryView>, anc: Seq<(ObjectId, ObjectId)>, u: UpdateView) -> Plan {
    match u {
        UpdateView::Direct { name, target, no_ff } => {
            let set = seq![EditView { name, target: TargetView::Direct(target) }];
            match peel(es, name) {
                None => Plan::Edits(set),
                Some(prev) => if is_ff(anc, target, prev) {
                    Plan::Edits(set)
                } else {
                    match no_ff {
                        Policy::Abort => Plan::Failed(
                            TxErrorView::NonFF { name, new: target, cur: prev },
                        ),
                        Policy::Reject => Plan::Rejected,
                        Policy::Allow => Plan::Edits(set),
                    }
                },
            }
        },
        UpdateView::Symbolic { name, sym_name, sym_target, type_change } => {
            let link = EditView { name, target: TargetView::Symbolic(sym_name) };
            let move_target = EditView { name: sym_name, target: TargetView::Direct(sym_target) };
            if lookup(es, name) is Some && lookup(es, name)->Some_0 is Direct && type_change
                == Policy::Abort {
                Plan::Failed(TxErrorView::TypeChange(name))
            } else if lookup(es, name) is Some && lookup(es, name)->Some_0 is Direct
                && type_change == Policy::Reject {
                Plan::Rejected
            } else {
                match lookup(es, sym_name) {
                    Some(TargetView::Symbolic(_)) => Plan::Failed(
                        TxErrorView::TargetSymbolic(sym_name),
                    ),
                    None => Plan::Edits(seq![move_target, link]),
                    Some(TargetView::Direct(dst)) => if sym_target != dst && is_ff(
                        anc,
                        sym_target,
                        dst,
                    ) {
                        Plan::Edits(seq![move_target, link])
                    } else {
                        Plan::Edits(seq![link])
                    },
                }
            }
        },
    }
}

pub open spec fn entries_of(edits: Seq<EditView>) -> Seq<EntryView> {
    edits.map_values(|e: EditView| EntryView { name: e.name, target: e.target })
}

/// The state of a transaction after some of its updates.
pub struct TxView {
    pub store: Seq<EntryView>,
    pub rejected: Seq<UpdateView>,
    pub updated: Seq<EditView>,
    /// The precondition and reflog mode of each edit of `updated`.
    pub guards: Seq<GuardView>,
}

/// Runs the updates in order, each against the store as the earlier ones
/// left it. The first failure fails the whole transaction.
pub open spec fn run_tx(es: Seq<EntryView>, anc: Seq<(ObjectId, ObjectId)>, ups: Seq<UpdateView>) -> Result<
    TxView,
    TxErrorView,
>
    decreases ups.len(),
{
    if ups.len() == 0 {
        Ok(TxView { store: es, rejected: Seq::empty(), updated: Seq::empty(), guards: Seq::empty() })
    } else {
        match run_tx(es, anc, ups.drop_last()) {
            Err(e) => Err(e),
            Ok(t) => match plan_of(t.store, anc, ups.last()) {
                Plan::Failed(e) => Err(e),
                Plan::Rejected => Ok(TxView { rejected: t.rejected.push(ups.last()), ..t }),
                Plan::Edits(ed) => Ok(
                    TxView {
                        store: t.store + entries_of(ed),
                        updated: t.updated + ed,
                        guards: t.guards + guards_of(t.store, anc, ups.last()),
                        ..t
                    },
                ),
            },
        }
    }
}

/// Once a transaction has failed, later updates do not change the failure.
proof fn lemma_tx_err_extends(
    es: Seq<EntryView>,
    anc: Seq<(ObjectId, ObjectId)>,
    ups: Seq<UpdateView>,
    k: int,
    n: int,
)
    requires
        0 <= k <= n <= ups.len(),
        run_tx(es, anc, ups.subrange(0, k)) is Err,
    ensures
        run_tx(es, anc, ups.subrange(0, n)) == run_tx(es, anc, ups.subrange(0, k)),
    decreases n - k,
{
    if n > k {
        lemma_tx_err_extends(es, anc, ups, k, n - 1);
        assert(ups.subrange(0, n).drop_last() =~= ups.subrange(0, n - 1));
    }
}

/// An entry of the store.
#[derive(Debug)]
pub struct Entry {
    pub name: Qualified,
    pub target: Target,
}

impl View for Entry {
    type V = EntryView;

    open spec fn view(&self) -> EntryView {
        EntryView { name: self.name@, target: self.target@ }
    }
}

pub open spec fn store_view(v: Seq<Entry>) -> Seq<EntryView> {
    v.map_values(|e: Entry| e@)
}

/// Whether two names are the same.
pub fn same_name(a: &Qualified, b: &Qualified) -> (r: bool)
    ensures
        r == (a@ == b@),
{
    let x = a.parts();
    let y = b.parts();
    if x.len() != y.len() {
        return false;
    }
    let mut i: usize = 0;
    while i < x.len()
        invariant
            x@.len() == y@.len(),
            i <= x@.len(),
            texts(x@) == a@,
            texts(y@) == b@,
            forall|j: int| 0 <= j < i ==> a@[j] == b@[j],
        decreases x@.len() - i,
    {
        if x[i] != y[i] {
            assert(a@[i as int] != b@[i as int]);
            return false;
        }
        i += 1;
    }
    assert(a@ =~= b@);
    true
}

/// An in-memory reference store. Later entries shadow earlier ones of the
/// same name; the transaction of [`Mem::update`] is all or nothing.
#[derive(Debug)]
pub struct Mem {
    pub entries: Vec<Entry>,
}

impl View for Mem {
    type V = Seq<EntryView>;

    open spec fn view(&self) -> Seq<EntryView> {
        store_view(self.entries@)
    }
}

impl Mem {
    pub fn new() -> (r: Mem)
        ensures
            r@.len() == 0,
    {
        Mem { entries: Vec::new() }
    }

    /// The latest target stored under `name`.
    pub fn find(&self, name: &Qualified) -> (r: Option<&Target>)
        ensures
            r is Some <==> lookup(self@, name@) is Some,
            r is Some ==> r->Some_0@ == lookup(self@, name@)->Some_0,
    {
        let mut i = self.entries.len();
        assert(self@.subrange(0, i as int) =~= self@);
        while i > 0
            invariant
                i <= self.entries@.len(),
                lookup(self@, name@) == lookup(self@.subrange(0, i as int), name@),
            decreases i,
        {
            let ghost pre = self@.subrange(0, i as int);
            assert(pre.drop_last() =~= self@.subrange(0, i as int - 1));
            if same_name(&self.entries[i - 1].name, name) {
                return Some(&self.entries[i - 1].target);
            }
            i -= 1;
        }
        None
    }

    /// The object `refname` resolves to, following one symbolic link.
    pub fn refname_to_id(&self, refname: &Qualified) -> (r: Option<ObjectId>)
        ensures
            r == peel(self@, refname@),
    {
        match self.find(refname) {
            None => None,
            Some(Target::Direct(o)) => Some(*o),
            Some(Target::Symbolic(t)) => match self.find(t) {
                Some(Target::Direct(o)) => Some(*o),
                _ => None,
            },
        }
    }

    /// What one update would do to this store.
    pub fn plan(&self, anc: &Ancestry, u: &Update) -> (r: Result<Option<Vec<Updated>>, TxError>)
        ensures
            match plan_of(self@, anc.descends@, u@) {
                Plan::Edits(ed) => r is Ok && r->Ok_0 is Some && edits_view(r->Ok_0->Some_0@)
                    == ed && guard_views(r->Ok_0->Some_0@) == guards_of(self@, anc.descends@, u@),
                Plan::Rejected => r is Ok && r->Ok_0 is None,
                Plan::Failed(e) => r is Err && r->Err_0@ == e,
            },
    {
        match u {
            Update::Direct { name, target, no_ff } => {
                let prev = self.refname_to_id(name);
                let expected = match prev {
                    None => Expected::MustNotExist,
                    Some(p) => Expected::MustMatch(p),
                };
                let mut set: Vec<Updated> = Vec::new();
                set.push(
                    Updated {
                        name: name.to_owned(),
                        target: Target::Direct(*target),
                        expected,
                        force_reflog: force_reflog(name),
                    },
                );
                let ghost ed = seq![EditView { name: name@, target: TargetView::Direct(*target) }];
                assert(edits_view(set@) =~= ed);
                match prev {
                    None => Ok(Some(set)),
                    Some(prev) => {
                        if anc.is_in_ancestry_path(*target, prev) {
                            Ok(Some(set))
                        } else {
                            match no_ff {
                                Policy::Abort => Err(
                                    TxError::NonFF { name: name.to_owned(), new: *target, cur: prev },
                                ),
                                Policy::Reject => Ok(None),
                                Policy::Allow => Ok(Some(set)),
                            }
                        }
                    },
                }
            },
            Update::Symbolic { name, target, type_change } => {
                let src_direct = match self.find(name) {
                    Some(Target::Direct(_)) => true,
                    _ => false,
                };
                if src_direct && *type_change == Policy::Abort {
                    return Err(TxError::TypeChange(name.to_owned()));
                }
                if src_direct && *type_change == Policy::Reject {
                    return Ok(None);
                }
                let sym_name = target.name.to_owned().into_qualified();
                let sym_reflog = force_reflog(&sym_name);
                let link = Updated {
                    name: name.to_owned(),
                    target: Target::Symbolic(sym_name),
                    expected: Expected::MustNotExist,
                    force_reflog: force_reflog(name),
                };
                let mut out: Vec<Updated> = Vec::new();
                match self.find(&target.name.to_owned().into_qualified()) {
                    Some(Target::Symbolic(_)) => {
                        return Err(
                            TxError::TargetSymbolic(target.name.to_owned().into_qualified()),
                        );
                    },
                    None => {
                        out.push(
                            Updated {
                                name: target.name.to_owned().into_qualified(),
                                target: Target::Direct(target.target),
                                expected: Expected::MustNotExist,
                                force_reflog: sym_reflog,
                            },
                        );
                    },
                    Some(Target::Direct(dst)) => {
                        if !target.target.same(dst) && anc.is_in_ancestry_path(
                            target.target,
                            *dst,
                        ) {
                            out.push(
                                Updated {
                                    name: target.name.to_owned().into_qualified(),
                                    target: Target::Direct(target.target),
                                    expected: Expected::MustMatch(*dst),
                                    force_reflog: sym_reflog,
                                },
                            );
                        }
                    },
                }
                out.push(link);
                assert(edits_view(out@) =~= match plan_of(self@, anc.descends@, u@) {
                    Plan::Edits(ed) => ed,
                    _ => Seq::empty(),
                });
                assert(guard_views(out@) =~= guards_of(self@, anc.descends@, u@));
                Ok(Some(out))
            },
        }
    }

    /// Applies `updates` as one transaction. Of several updates of one name
    /// only the last is kept; each kept update is planned against
    /// the store as the earlier ones left it; an update rejected by its policy
    /// is returned in `rejected`; if any update fails, the store is left as it
    /// was and the first failure is returned.
    pub fn update(&mut self, anc: &Ancestry, updates: Vec<Update>) -> (r: Result<Applied, TxError>)
        ensures
            match run_tx(old(self)@, anc.descends@, collapse_of(updates_view(updates@))) {
                Ok(t) => r is Ok && final(self)@ == t.store && updates_view(
                    r->Ok_0.rejected@,
                ) == t.rejected && edits_view(r->Ok_0.updated@) == t.updated && guard_views(
                    r->Ok_0.updated@,
                ) == t.guards,
                Err(e) => r is Err && r->Err_0@ == e && final(self)@ == old(self)@,
            },
    {
        let collapsed = collapse(&updates);
        self.apply_in_order(anc, collapsed)
    }

    fn apply_in_order(&mut self, anc: &Ancestry, updates: Vec<Update>) -> (r: Result<Applied, TxError>)
        ensures
            match run_tx(old(self)@, anc.descends@, updates_view(updates@)) {
                Ok(t) => r is Ok && final(self)@ == t.store && updates_view(
                    r->Ok_0.rejected@,
                ) == t.rejected && edits_view(r->Ok_0.updated@) == t.updated && guard_views(
                    r->Ok_0.updated@,
                ) == t.guards,
                Err(e) => r is Err && r->Err_0@ == e && final(self)@ == old(self)@,
            },
    {
        let ghost ups = updates_view(updates@);
        let mut store: Vec<Entry> = Vec::new();
        let mut k: usize = 0;
        while k < self.entries.len()
            invariant
                k <= self.entries@.len(),
                store_view(store@) == store_view(self.entries@).subrange(0, k as int),
            decreases self.entries@.len() - k,
        {
            let e = &self.entries[k];
            let ghost before = store@;
            let fresh = Entry { name: e.name.to_owned(), target: e.target.copied() };
            assert(fresh@ == self.entries@[k as int]@);
            store.push(fresh);
            assert(store_view(store@) =~= store_view(before).push(fresh@));
            assert(store_view(store@) =~= store_view(self.entries@).subrange(0, k as int + 1));
            k += 1;
        }
        assert(store_view(self.entries@).subrange(0, self.entries@.len() as int) =~= self@);
        let mut scratch = Mem { entries: store };
        let mut applied = Applied::new();
        let mut i: usize = 0;
        assert(ups.subrange(0, 0) =~= Seq::<UpdateView>::empty());
        assert(updates_view(applied.rejected@) =~= Seq::<UpdateView>::empty());
        assert(edits_view(applied.updated@) =~= Seq::<EditView>::empty());
        assert(guard_views(applied.updated@) =~= Seq::<GuardView>::empty());
        while i < updates.len()
            invariant
                i <= updates@.len(),
                ups == updates_view(updates@),
                self@ == old(self)@,
                run_tx(old(self)@, anc.descends@, ups.subrange(0, i as int)) is Ok,
                ({
                    let t = run_tx(old(self)@, anc.descends@, ups.subrange(0, i as int))->Ok_0;
                    &&& scratch@ == t.store
                    &&& updates_view(applied.rejected@) == t.rejected
                    &&& edits_view(applied.updated@) == t.updated
                    &&& guard_views(applied.updated@) == t.guards
                }),
            decreases updates@.len() - i,
        {
            let ghost pre = ups.subrange(0, i as int);
            let ghost cur = ups.subrange(0, i as int + 1);
            assert(cur.drop_last() =~= pre);
            assert(cur.last() == updates@[i as int]@);
            let u = &updates[i];
            match scratch.plan(anc, u) {
                Err(e) => {
                    proof {
                        lemma_tx_err_extends(old(self)@, anc.descends@, ups, i as int + 1, ups.len() as int);
                        assert(ups.subrange(0, ups.len() as int) =~= ups);
                    }
                    return Err(e);
                },
                Ok(None) => {
                    let ghost before = applied.rejected@;
                    applied.rejected.push(u.copied());
                    assert(updates_view(applied.rejected@) =~= updates_view(before).push(u@));
                },
                Ok(Some(edits)) => {
                    let ghost es = edits@;
                    let ghost before_store = scratch@;
                    let ghost before_upd = applied.updated@;
                    let mut j: usize = 0;
                    while j < edits.len()
                        invariant
                            j <= edits@.len(),
                            es == edits@,
                            scratch@ == before_store + entries_of(
                                edits_view(es).subrange(0, j as int),
                            ),
                        decreases edits@.len() - j,
                    {
                        let ed = &edits[j];
                        let ghost sv = scratch@;
                        scratch.entries.push(
                            Entry { name: ed.name.to_owned(), target: ed.target.copied() },
                        );
                        assert(scratch@ =~= sv.push(
                            EntryView { name: es[j as int]@.name, target: es[j as int]@.target },
                        ));
                        assert(entries_of(edits_view(es).subrange(0, j as int + 1)) =~= entries_of(
                            edits_view(es).subrange(0, j as int),
                        ).push(EntryView { name: es[j as int]@.name, target: es[j as int]@.target }));
                        j += 1;
                    }
                    assert(edits_view(es).subrange(0, es.len() as int) =~= edits_view(es));
                    let mut edits = edits;
                    applied.updated.append(&mut edits);
                    assert(edits_view(applied.updated@) =~= edits_view(before_upd) + edits_view(es));
                    assert(guard_views(applied.updated@) =~= guard_views(before_upd) + guard_views(es));
                },
            }
            i += 1;
        }
        assert(ups.subrange(0, updates@.len() as int) =~= ups);
        *self = scratch;
        Ok(applied)
    }
}

/// The references an update writes when no policy is consulted.
pub open spec fn forced_edits(u: UpdateView) -> Seq<EditView> {
    match u {
        UpdateView::Direct { name, target, .. } => seq![
            EditView { name, target: TargetView::Direct(target) },
        ],
        UpdateView::Symbolic { name, sym_name, sym_target, .. } => seq![
            EditView { name: sym_name, target: TargetView::Direct(sym_target) },
            EditView { name, target: TargetView::Symbolic(sym_name) },
        ],
    }
}

impl Mem {
    /// Writes what `u` writes, consulting no policy.
    pub fn force(&mut self, u: &Update) -> (r: Vec<Updated>)
        ensures
            edits_view(r@) == forced_edits(u@),
            final(self)@ == old(self)@ + entries_of(forced_edits(u@)),
    {
        let mut out: Vec<Updated> = Vec::new();
        match u {
            Update::Direct { name, target, .. } => {
                self.entries.push(Entry { name: name.to_owned(), target: Target::Direct(*target) });
                out.push(
                    Updated {
                        name: name.to_owned(),
                        target: Target::Direct(*target),
                        expected: Expected::Unchecked,
                        force_reflog: force_reflog(name),
                    },
                );
            },
            Update::Symbolic { name, target, .. } => {
                let sym = target.name.to_owned().into_qualified();
                self.entries.push(
                    Entry { name: sym.to_owned(), target: Target::Direct(target.target) },
                );
                self.entries.push(
                    Entry { name: name.to_owned(), target: Target::Symbolic(sym.to_owned()) },
                );
                let sym_reflog = force_reflog(&sym);
                out.push(
                    Updated {
                        name: sym.to_owned(),
                        target: Target::Direct(target.target),
                        expected: Expected::Unchecked,
                        force_reflog: sym_reflog,
                    },
                );
                out.push(
                    Updated {
                        name: name.to_owned(),
                        target: Target::Symbolic(sym),
                        expected: Expected::Unchecked,
                        force_reflog: force_reflog(name),
                    },
                );
            },
        }
        assert(edits_view(out@) =~= forced_edits(u@));
        assert(self@ =~= old(self)@ + entries_of(forced_edits(u@)));
        out
    }
}

/// The object `name` resolves to in the speculative store `fetch`, or else
/// in the persistent store `inner`.
pub open spec fn shim_peel(inner: Seq<EntryView>, fetch: Seq<EntryView>, name: Seq<Seq<char>>) -> Option<ObjectId> {
    match peel(fetch, name) {
        Some(o) => Some(o),
        None => peel(inner, name),
    }
}

/// Reads through a speculative store to a persistent one.
pub struct Shim<'a> {
    pub inner: &'a Mem,
    pub fetch: &'a Mem,
}

impl<'a> Shim<'a> {
    pub fn refname_to_id(&self, refname: &Qualified) -> (r: Option<ObjectId>)
        ensures
            r == shim_peel(self.inner@, self.fetch@, refname@),
    {
        match self.fetch.refname_to_id(refname) {
            Some(o) => Some(o),
            None => self.inner.refname_to_id(refname),
        }
    }
}

/// Whether writing `cs` must create a reflog even where reflogs are off:
/// `refs/rad/...`, `refs/remotes/<peer>/rad/...`, and both under a
/// namespace.
pub open spec fn force_reflog_of(cs: Seq<Seq<char>>) -> bool {
    let refs = crate::refs::lit_refs();
    let remotes = crate::refs::lit_remotes();
    let ns = crate::refs::lit_namespaces();
    let rad = "rad"@;
    ||| cs.len() >= 2 && cs[0] == refs && cs[1] == rad
    ||| cs.len() >= 4 && cs[0] == refs && cs[1] == remotes && cs[3] == rad
    ||| cs.len() >= 5 && cs[0] == refs && cs[1] == ns && cs[3] == refs && cs[4] == rad
    ||| cs.len() >= 7 && cs[0] == refs && cs[1] == ns && cs[3] == refs && cs[4] == remotes
        && cs[6] == rad
}

/// Whether writing `name` must create a reflog.
pub fn force_reflog(name: &Qualified) -> (r: bool)
    ensures
        r == force_reflog_of(name@),
{
    let cs = name.parts();
    let n = cs.len();
    let refs0 = crate::refs::is_lit(&cs[0], "refs");
    (n >= 2 && refs0 && crate::refs::is_lit(&cs[1], "rad")) || (n >= 4 && refs0
        && crate::refs::is_lit(&cs[1], "remotes") && crate::refs::is_lit(&cs[3], "rad")) || (n
        >= 5 && refs0 && crate::refs::is_lit(&cs[1], "namespaces") && crate::refs::is_lit(
        &cs[3],
        "refs",
    ) && crate::refs::is_lit(&cs[4], "rad")) || (n >= 7 && refs0 && crate::refs::is_lit(
        &cs[1],
        "namespaces",
    ) && crate::refs::is_lit(&cs[3], "refs") && crate::refs::is_lit(&cs[4], "remotes")
        && crate::refs::is_lit(&cs[6], "rad"))
}

/// A later update of the batch has the same name as the `i`th.
pub open spec fn superseded(us: Seq<UpdateView>, i: int) -> bool {
    exists|j: int| i < j < us.len() && #[trigger] us[j].name() == us[i].name()
}

/// The first `k` updates, without those a later update of the batch
/// supersedes.
pub open spec fn keep_upto(us: Seq<UpdateView>, k: int) -> Seq<UpdateView>
    decreases k,
{
    if k <= 0 {
        Seq::empty()
    } else {
        let r = keep_upto(us, k - 1);
        if superseded(us, k - 1) {
            r
        } else {
            r.push(us[k - 1])
        }
    }
}

/// The batch with duplicates collapsed: of the updates of one name only the
/// last proposal is kept, in its place.
pub open spec fn collapse_of(us: Seq<UpdateView>) -> Seq<UpdateView> {
    keep_upto(us, us.len() as int)
}

/// The batch with duplicates collapsed, keeping the last proposal of each
/// name.
pub fn collapse(updates: &Vec<Update>) -> (r: Vec<Update>)
    ensures
        updates_view(r@) == collapse_of(updates_view(updates@)),
{
    let ghost us = updates_view(updates@);
    let n = updates.len();
    let mut out: Vec<Update> = Vec::new();
    let mut i: usize = 0;
    assert(updates_view(out@) =~= keep_upto(us, 0));
    while i < n
        invariant
            n == updates@.len(),
            i <= n,
            us == updates_view(updates@),
            updates_view(out@) == keep_upto(us, i as int),
        decreases n - i,
    {
        let mut later = false;
        let mut j = i + 1;
        while j < n
            invariant
                n == updates@.len(),
                i < n,
                i + 1 <= j <= n,
                us == updates_view(updates@),
                later == exists|k: int| i < k < j && #[trigger] us[k].name() == us[i as int].name(),
            decreases n - j,
        {
            let ghost before = later;
            assert(us[j as int] == updates@[j as int]@);
            assert(us[i as int] == updates@[i as int]@);
            let same = same_name(updates[j].refname(), updates[i].refname());
            assert(same == (us[j as int].name() == us[i as int].name()));
            if same {
                later = true;
            }
            assert(later == exists|k: int| i < k < j + 1 && #[trigger] us[k].name() == us[i as int].name()) by {
                if exists|k: int| i < k < j + 1 && #[trigger] us[k].name() == us[i as int].name() {
                    let k = choose|k: int| i < k < j + 1 && #[trigger] us[k].name() == us[i as int].name();
                    if k < j {
                        assert(before);
                    }
                }
                if later && !same {
                    let k = choose|k: int| i < k < j && #[trigger] us[k].name() == us[i as int].name();
                    assert(i < k < j + 1);
                }
            }
            j += 1;
        }
        assert(later == superseded(us, i as int));
        if !later {
            let ghost prev = updates_view(out@);
            out.push(updates[i].copied());
            assert(updates_view(out@) =~= prev.push(us[i as int]));
        }
        i += 1;
    }
    out
}

/// Every update of the collapsed batch is a last proposal of the batch, no
/// two share a name, and every last proposal is kept.
pub proof fn law_collapse(us: Seq<UpdateView>)
    ensures
        forall|a: int, b: int|
            0 <= a < b < collapse_of(us).len() ==> #[trigger] collapse_of(us)[a].name()
                != #[trigger] collapse_of(us)[b].name(),
        forall|a: int|
            0 <= a < collapse_of(us).len() ==> exists|i: int|
                0 <= i < us.len() && !superseded(us, i) && #[trigger] collapse_of(us)[a] == us[i],
        forall|i: int| 0 <= i < us.len() && !superseded(us, i) ==> collapse_of(us).contains(#[trigger] us[i]),
{
    lemma_keep_upto(us, us.len() as int);
}

proof fn lemma_keep_upto(us: Seq<UpdateView>, k: int)
    requires
        0 <= k <= us.len(),
    ensures
        forall|a: int|
            0 <= a < keep_upto(us, k).len() ==> exists|i: int|
                0 <= i < k && !superseded(us, i) && #[trigger] keep_upto(us, k)[a] == us[i],
        forall|a: int, b: int|
            0 <= a < b < keep_upto(us, k).len() ==> #[trigger] keep_upto(us, k)[a].name()
                != #[trigger] keep_upto(us, k)[b].name(),
        forall|i: int| 0 <= i < k && !superseded(us, i) ==> keep_upto(us, k).contains(#[trigger] us[i]),
    decreases k,
{
    if k > 0 {
        lemma_keep_upto(us, k - 1);
        let r = keep_upto(us, k - 1);
        if !superseded(us, k - 1) {
            let s = r.push(us[k - 1]);
            assert forall|a: int|
                0 <= a < s.len() implies exists|i: int|
                    0 <= i < k && !superseded(us, i) && #[trigger] s[a] == us[i] by {
                if a < r.len() {
                    let i = choose|i: int| 0 <= i < k - 1 && !superseded(us, i) && #[trigger] r[a] == us[i];
                    assert(s[a] == us[i]);
                } else {
                    assert(s[a] == us[k - 1]);
                }
            }
            assert forall|a: int, b: int|
                0 <= a < b < s.len() implies #[trigger] s[a].name() != #[trigger] s[b].name() by {
                if b == r.len() {
                    let i = choose|i: int| 0 <= i < k - 1 && !superseded(us, i) && #[trigger] r[a] == us[i];
                    assert(s[a] == us[i]);
                    if us[i].name() == us[k - 1].name() {
                        assert(us[k - 1].name() == us[i].name());
                        assert(superseded(us, i));
                    }
                } else {
                    assert(s[a] == r[a] && s[b] == r[b]);
                }
            }
            assert forall|i: int| 0 <= i < k && !superseded(us, i) implies s.contains(#[trigger] us[i]) by {
                if i < k - 1 {
                    let m = choose|m: int| 0 <= m < r.len() && r[m] == us[i];
                    assert(s[m] == us[i]);
                } else {
                    assert(s[r.len() as int] == us[i]);
                }
            }
        }
    }
}

/// The edit a direct update writes.
pub open spec fn direct_edit(u: UpdateView) -> EditView {
    match u {
        UpdateView::Direct { name, target, .. } => EditView { name, target: TargetView::Direct(target) },
        UpdateView::Symbolic { name, sym_name, .. } => EditView { name, target: TargetView::Symbolic(sym_name) },
    }
}

proof fn lemma_direct_run(es: Seq<EntryView>, anc: Seq<(ObjectId, ObjectId)>, vs: Seq<UpdateView>)
    requires
        forall|i: int| 0 <= i < vs.len() ==> #[trigger] vs[i] is Direct,
        forall|a: int, b: int| 0 <= a < b < vs.len() ==> #[trigger] vs[a].name() != #[trigger] vs[b].name(),
    ensures
        run_tx(es, anc, vs) is Ok ==> {
            let t = run_tx(es, anc, vs)->Ok_0;
            &&& forall|a: int| 0 <= a < t.updated.len() ==> exists|i: int|
                0 <= i < vs.len() && #[trigger] t.updated[a] == direct_edit(vs[i])
            &&& forall|a: int, b: int| 0 <= a < b < t.updated.len() ==> #[trigger] t.updated[a].name
                != #[trigger] t.updated[b].name
        },
    decreases vs.len(),
{
    if vs.len() > 0 {
        let init = vs.drop_last();
        assert forall|i: int| 0 <= i < init.len() implies #[trigger] init[i] is Direct by {
            assert(init[i] == vs[i]);
        }
        assert forall|a: int, b: int| 0 <= a < b < init.len() implies #[trigger] init[a].name() != #[trigger] init[b].name() by {
            assert(init[a] == vs[a] && init[b] == vs[b]);
        }
        lemma_direct_run(es, anc, init);
        let last = vs.last();
        assert(vs[vs.len() - 1] is Direct);
        if run_tx(es, anc, vs) is Ok {
            let t0 = run_tx(es, anc, init)->Ok_0;
            let t = run_tx(es, anc, vs)->Ok_0;
            match plan_of(t0.store, anc, last) {
                Plan::Edits(ed) => {
                    assert(ed == seq![direct_edit(last)]);
                    assert(t.updated == t0.updated + ed);
                    assert forall|a: int| 0 <= a < t.updated.len() implies exists|i: int|
                        0 <= i < vs.len() && #[trigger] t.updated[a] == direct_edit(vs[i]) by {
                        if a < t0.updated.len() {
                            let i = choose|i: int| 0 <= i < init.len() && #[trigger] t0.updated[a] == direct_edit(init[i]);
                            assert(t.updated[a] == direct_edit(vs[i]));
                        } else {
                            assert(t.updated[a] == direct_edit(vs[vs.len() - 1]));
                        }
                    }
                    assert forall|a: int, b: int| 0 <= a < b < t.updated.len() implies #[trigger] t.updated[a].name
                        != #[trigger] t.updated[b].name by {
                        if b >= t0.updated.len() {
                            let i = choose|i: int| 0 <= i < init.len() && #[trigger] t0.updated[a] == direct_edit(init[i]);
                            assert(init[i] == vs[i]);
                            assert(t.updated[a] == t0.updated[a]);
                            assert(vs[i].name() != vs[vs.len() - 1].name());
                        } else {
                            assert(t.updated[a] == t0.updated[a] && t.updated[b] == t0.updated[b]);
                        }
                    }
                },
                _ => {},
            }
        }
    }
}

/// A batch of direct updates writes at most one edit per name, and each
/// edit written is that of the last proposal for its name.
pub proof fn law_direct_batch_one_edit_per_name(
    es: Seq<EntryView>,
    anc: Seq<(ObjectId, ObjectId)>,
    us: Seq<UpdateView>,
)
    requires
        forall|i: int| 0 <= i < us.len() ==> #[trigger] us[i] is Direct,
    ensures
        run_tx(es, anc, collapse_of(us)) is Ok ==> {
            let t = run_tx(es, anc, collapse_of(us))->Ok_0;
            &&& forall|a: int, b: int| 0 <= a < b < t.updated.len() ==> #[trigger] t.updated[a].name
                != #[trigger] t.updated[b].name
            &&& forall|a: int| 0 <= a < t.updated.len() ==> exists|i: int|
                0 <= i < us.len() && !superseded(us, i) && #[trigger] t.updated[a] == direct_edit(us[i])
        },
{
    law_collapse(us);
    let vs = collapse_of(us);
    assert forall|i: int| 0 <= i < vs.len() implies #[trigger] vs[i] is Direct by {
        let k = choose|k: int| 0 <= k < us.len() && !superseded(us, k) && #[trigger] vs[i] == us[k];
    }
    lemma_direct_run(es, anc, vs);
    if run_tx(es, anc, vs) is Ok {
        let t = run_tx(es, anc, vs)->Ok_0;
        assert forall|a: int| 0 <= a < t.updated.len() implies exists|i: int|
            0 <= i < us.len() && !superseded(us, i) && #[trigger] t.updated[a] == direct_edit(us[i]) by {
            let m = choose|m: int| 0 <= m < vs.len() && #[trigger] t.updated[a] == direct_edit(vs[m]);
            let k = choose|k: int| 0 <= k < us.len() && !superseded(us, k) && #[trigger] vs[m] == us[k];
            assert(t.updated[a] == direct_edit(us[k]));
        }
    }
}

proof fn lemma_lookup_concat(es: Seq<EntryView>, xs: Seq<EntryView>, n: Seq<Seq<char>>)
    ensures
        lookup(es + xs, n) == if lookup(xs, n) is Some {
            lookup(xs, n)
        } else {
            lookup(es, n)
        },
    decreases xs.len(),
{
    if xs.len() == 0 {
        assert(es + xs =~= es);
    } else {
        assert((es + xs).drop_last() =~= es + xs.drop_last());
        lemma_lookup_concat(es, xs.drop_last(), n);
    }
}

proof fn lemma_lookup_absent(xs: Seq<EntryView>, n: Seq<Seq<char>>)
    requires
        forall|a: int| 0 <= a < xs.len() ==> #[trigger] xs[a].name != n,
    ensures
        lookup(xs, n) is None,
    decreases xs.len(),
{
    if xs.len() > 0 {
        assert(xs[xs.len() - 1].name != n);
        let init = xs.drop_last();
        assert forall|a: int| 0 <= a < init.len() implies #[trigger] init[a].name != n by {
            assert(init[a] == xs[a]);
        }
        lemma_lookup_absent(init, n);
    }
}

proof fn lemma_lookup_unique(xs: Seq<EntryView>, n: Seq<Seq<char>>, a: int)
    requires
        0 <= a < xs.len(),
        xs[a].name == n,
        forall|b: int| 0 <= b < xs.len() && b != a ==> #[trigger] xs[b].name != n,
    ensures
        lookup(xs, n) == Some(xs[a].target),
    decreases xs.len(),
{
    if a < xs.len() - 1 {
        assert(xs[xs.len() - 1].name != n);
        let init = xs.drop_last();
        assert forall|b: int| 0 <= b < init.len() && b != a implies #[trigger] init[b].name != n by {
            assert(init[b] == xs[b]);
        }
        lemma_lookup_unique(init, n, a);
    }
}

/// For an update of a batch: a fast-forward of a missing or direct name is
/// written and not rejected; a non-fast-forward under [`Policy::Reject`]
/// is rejected and nothing of its name is written.
pub open spec fn batch_outcome(es: Seq<EntryView>, anc: Seq<(ObjectId, ObjectId)>, u: UpdateView, t: TxView) -> bool {
    match u {
        UpdateView::Direct { name, target, no_ff } => {
            &&& (lookup(es, name) is None || (lookup(es, name)->Some_0 is Direct && is_ff(
                anc,
                target,
                peel(es, name)->Some_0,
            ))) ==> t.updated.contains(direct_edit(u)) && !t.rejected.contains(u)
            &&& (lookup(es, name) is Some && lookup(es, name)->Some_0 is Direct && !is_ff(
                anc,
                target,
                peel(es, name)->Some_0,
            ) && no_ff == Policy::Reject) ==> t.rejected.contains(u) && forall|a: int|
                0 <= a < t.updated.len() ==> #[trigger] t.updated[a].name != name
        },
        _ => true,
    }
}

/// Where the outcome of [`batch_outcome`] holds, the tip each name is left
/// at: the target where the update is written, the old tip where it is
/// rejected.
pub open spec fn final_tip_outcome(es: Seq<EntryView>, anc: Seq<(ObjectId, ObjectId)>, u: UpdateView, t: TxView) -> bool {
    match u {
        UpdateView::Direct { name, target, no_ff } => {
            &&& (lookup(es, name) is None || (lookup(es, name)->Some_0 is Direct && is_ff(
                anc,
                target,
                peel(es, name)->Some_0,
            ))) ==> lookup(t.store, name) == Some(TargetView::Direct(target))
            &&& (lookup(es, name) is Some && lookup(es, name)->Some_0 is Direct && !is_ff(
                anc,
                target,
                peel(es, name)->Some_0,
            ) && no_ff == Policy::Reject) ==> lookup(t.store, name) == lookup(es, name)
        },
        _ => true,
    }
}

/// The edits planned for one update, with their preconditions: a direct
/// update of a missing name creates it, which must not exist yet; a forced
/// non-fast-forward must still find the previous tip; a symbolic update
/// whose target is missing creates the target and then the link, neither of
/// which may exist yet. Each reflog is forced exactly for identity-layer
/// names.
pub proof fn law_edit_preconditions(es: Seq<EntryView>, anc: Seq<(ObjectId, ObjectId)>, u: UpdateView)
    ensures
        match u {
            UpdateView::Direct { name, target, no_ff } => {
                let edit = EditView { name, target: TargetView::Direct(target) };
                &&& peel(es, name) is None ==> plan_of(es, anc, u) == Plan::Edits(seq![edit])
                    && guards_of(es, anc, u) == seq![
                    GuardView { expected: Expected::MustNotExist, force_reflog: force_reflog_of(name) },
                ]
                &&& (peel(es, name) is Some && !is_ff(anc, target, peel(es, name)->Some_0) && no_ff
                    == Policy::Allow) ==> plan_of(es, anc, u) == Plan::Edits(seq![edit])
                    && guards_of(es, anc, u) == seq![
                    GuardView {
                        expected: Expected::MustMatch(peel(es, name)->Some_0),
                        force_reflog: force_reflog_of(name),
                    },
                ]
            },
            UpdateView::Symbolic { name, sym_name, sym_target, type_change } => {
                (!(lookup(es, name) is Some && lookup(es, name)->Some_0 is Direct)
                    || type_change == Policy::Allow) && lookup(es, sym_name) is None ==> plan_of(
                    es,
                    anc,
                    u,
                ) == Plan::Edits(
                    seq![
                        EditView { name: sym_name, target: TargetView::Direct(sym_target) },
                        EditView { name, target: TargetView::Symbolic(sym_name) },
                    ],
                ) && guards_of(es, anc, u) == seq![
                    GuardView {
                        expected: Expected::MustNotExist,
                        force_reflog: force_reflog_of(sym_name),
                    },
                    GuardView { expected: Expected::MustNotExist, force_reflog: force_reflog_of(name) },
                ]
            },
        },
{
}

/// Whether an update writes `n`: its own name, or a symbolic update's
/// target.
pub open spec fn writes_name(v: UpdateView, n: Seq<Seq<char>>) -> bool {
    v.name() == n || match v {
        UpdateView::Symbolic { sym_name, .. } => sym_name == n,
        _ => false,
    }
}

proof fn lemma_plan_names(es: Seq<EntryView>, anc: Seq<(ObjectId, ObjectId)>, v: UpdateView, n: Seq<Seq<char>>)
    requires
        !writes_name(v, n),
    ensures
        match plan_of(es, anc, v) {
            Plan::Edits(ed) => forall|a: int| 0 <= a < ed.len() ==> #[trigger] ed[a].name != n,
            _ => true,
        },
{
}

proof fn lemma_run_at(es: Seq<EntryView>, anc: Seq<(ObjectId, ObjectId)>, vs: Seq<UpdateView>, u: UpdateView)
    requires
        u is Direct,
        forall|i: int| 0 <= i < vs.len() ==> #[trigger] vs[i] == u || !writes_name(vs[i], u.name()),
        forall|i: int, j: int| 0 <= i < j < vs.len() && #[trigger] vs[i] == u ==> #[trigger] vs[j] != u,
    ensures
        run_tx(es, anc, vs) is Ok ==> {
            let t = run_tx(es, anc, vs)->Ok_0;
            &&& t.store == es + entries_of(t.updated)
            &&& !vs.contains(u) ==> (forall|a: int| 0 <= a < t.updated.len() ==> #[trigger] t.updated[a].name
                != u.name()) && !t.rejected.contains(u)
            &&& vs.contains(u) ==> batch_outcome(es, anc, u, t) && final_tip_outcome(es, anc, u, t)
        },
    decreases vs.len(),
{
    let n = u.name();
    if vs.len() == 0 {
        return;
    }
    let init = vs.drop_last();
    let last = vs.last();
    assert forall|i: int| 0 <= i < init.len() implies #[trigger] init[i] == u || !writes_name(init[i], n) by {
        assert(init[i] == vs[i]);
    }
    assert forall|i: int, j: int| 0 <= i < j < init.len() && #[trigger] init[i] == u implies #[trigger] init[j] != u by {
        assert(init[i] == vs[i] && init[j] == vs[j]);
    }
    lemma_run_at(es, anc, init, u);
    if !(run_tx(es, anc, vs) is Ok) {
        return;
    }
    let t0 = run_tx(es, anc, init)->Ok_0;
    let t = run_tx(es, anc, vs)->Ok_0;
    assert(vs[vs.len() - 1] == last);
    let xs0 = entries_of(t0.updated);
    lemma_lookup_concat(es, xs0, n);
    if last == u {
        assert(!init.contains(u)) by {
            if init.contains(u) {
                let i = choose|i: int| 0 <= i < init.len() && init[i] == u;
                assert(vs[i] == u);
            }
        }
        assert forall|a: int| 0 <= a < xs0.len() implies #[trigger] xs0[a].name != n by {
            assert(xs0[a].name == t0.updated[a].name);
        }
        lemma_lookup_absent(xs0, n);
        assert(lookup(t0.store, n) == lookup(es, n));
        if lookup(es, n) is None || lookup(es, n)->Some_0 is Direct {
            assert(peel(t0.store, n) == peel(es, n));
        }
        assert(vs.contains(u)) by {
            assert(vs[vs.len() - 1] == u);
        }
        match plan_of(t0.store, anc, u) {
            Plan::Edits(ed) => {
                let e = direct_edit(u);
                assert(ed == seq![e]);
                assert(t.updated == t0.updated + ed);
                assert(t.updated[t0.updated.len() as int] == e);
                assert(t.rejected == t0.rejected);
                assert(entries_of(t0.updated + ed) =~= entries_of(t0.updated) + entries_of(ed));
                assert(t.store =~= es + entries_of(t.updated));
                assert(t.store.last() == EntryView { name: n, target: e.target });
                assert(t.store == t0.store.push(EntryView { name: n, target: e.target }));
                assert(t.store.drop_last() =~= t0.store);
            },
            Plan::Rejected => {
                assert(t.updated == t0.updated);
                assert(t.rejected == t0.rejected.push(u));
                assert(t.rejected[t0.rejected.len() as int] == u);
            },
            Plan::Failed(_) => {},
        }
    } else {
        assert(!writes_name(last, n));
        lemma_plan_names(t0.store, anc, last, n);
        assert(init.contains(u) == vs.contains(u)) by {
            if vs.contains(u) {
                let i = choose|i: int| 0 <= i < vs.len() && vs[i] == u;
                assert(i < init.len());
                assert(init[i] == u);
            }
            if init.contains(u) {
                let i = choose|i: int| 0 <= i < init.len() && init[i] == u;
                assert(vs[i] == u);
            }
        }
        match plan_of(t0.store, anc, last) {
            Plan::Edits(ed) => {
                assert(t.updated == t0.updated + ed);
                assert(t.rejected == t0.rejected);
                let xs = entries_of(ed);
                assert forall|a: int| 0 <= a < xs.len() implies #[trigger] xs[a].name != n by {
                    assert(xs[a].name == ed[a].name);
                }
                lemma_lookup_absent(xs, n);
                lemma_lookup_concat(t0.store, xs, n);
                assert(entries_of(t0.updated + ed) =~= entries_of(t0.updated) + xs);
                assert(t.store =~= es + entries_of(t.updated));
                assert(lookup(t.store, n) == lookup(t0.store, n));
                assert forall|a: int| 0 <= a < t0.updated.len() implies t.updated[a] == t0.updated[a] by {}
                assert forall|a: int| t0.updated.len() <= a < t.updated.len() implies #[trigger] t.updated[a].name != n by {
                    assert(t.updated[a] == ed[a - t0.updated.len()]);
                }
                if t0.updated.contains(direct_edit(u)) {
                    let a = choose|a: int| 0 <= a < t0.updated.len() && t0.updated[a] == direct_edit(u);
                    assert(t.updated[a] == direct_edit(u));
                }
            },
            Plan::Rejected => {
                assert(t.updated == t0.updated);
                assert(t.rejected == t0.rejected.push(last));
                assert(t.store == t0.store);
                if t0.rejected.contains(u) {
                    let a = choose|a: int| 0 <= a < t0.rejected.len() && t0.rejected[a] == u;
                    assert(t.rejected[a] == u);
                }
                if t.rejected.contains(u) {
                    let a = choose|a: int| 0 <= a < t.rejected.len() && t.rejected[a] == u;
                    if a < t0.rejected.len() {
                        assert(t0.rejected[a] == u);
                    }
                }
            },
            Plan::Failed(_) => {},
        }
    }
}

/// In any batch that commits, symbolic updates included: the last proposal
/// `us[k]` for a name, a direct update whose name no symbolic update of the
/// batch targets, is written where it creates its name or fast-forwards a
/// direct ref, whatever its policy, and the name ends at its target; under
/// [`Policy::Reject`] a non-fast-forward of a direct ref is rejected,
/// nothing of its name is written and it keeps its tip, while the rest of
/// the batch applies.
pub proof fn law_mixed_batch_policies(es: Seq<EntryView>, anc: Seq<(ObjectId, ObjectId)>, us: Seq<UpdateView>, k: int)
    requires
        0 <= k < us.len(),
        us[k] is Direct,
        !superseded(us, k),
        forall|i: int| 0 <= i < us.len() ==> !(#[trigger] us[i] matches UpdateView::Symbolic { sym_name, .. } && sym_name == us[k].name()),
    ensures
        run_tx(es, anc, collapse_of(us)) is Ok ==> batch_outcome(
            es,
            anc,
            us[k],
            run_tx(es, anc, collapse_of(us))->Ok_0,
        ) && final_tip_outcome(es, anc, us[k], run_tx(es, anc, collapse_of(us))->Ok_0),
{
    law_collapse(us);
    let vs = collapse_of(us);
    let u = us[k];
    let n = u.name();
    assert(vs.contains(u));
    assert forall|i: int| 0 <= i < vs.len() implies #[trigger] vs[i] == u || !writes_name(vs[i], n) by {
        let j = choose|j: int| 0 <= j < us.len() && !superseded(us, j) && #[trigger] vs[i] == us[j];
        if vs[i] != u {
            let m = choose|m: int| 0 <= m < vs.len() && vs[m] == u;
            if m < i {
                assert(vs[m].name() != vs[i].name());
            } else if i < m {
                assert(vs[i].name() != vs[m].name());
            }
            assert(!(us[j] matches UpdateView::Symbolic { sym_name, .. } && sym_name == n));
        }
    }
    assert forall|i: int, j: int| 0 <= i < j < vs.len() && #[trigger] vs[i] == u implies #[trigger] vs[j] != u by {
        assert(vs[i].name() != vs[j].name());
    }
    lemma_run_at(es, anc, vs, u);
}

/// A direct update that creates its name or fast-forwards it is written,
/// whatever its policy for non-fast-forwards.
pub proof fn law_fast_forward_commits(
    es: Seq<EntryView>,
    anc: Seq<(ObjectId, ObjectId)>,
    name: Seq<Seq<char>>,
    target: ObjectId,
    no_ff: Policy,
)
    requires
        peel(es, name) is None || is_ff(anc, target, peel(es, name)->Some_0),
    ensures
        ({
            let u = UpdateView::Direct { name, target, no_ff };
            let edit = EditView { name, target: TargetView::Direct(target) };
            &&& run_tx(es, anc, seq![u]) is Ok
            &&& run_tx(es, anc, seq![u])->Ok_0.updated == seq![edit]
            &&& run_tx(es, anc, seq![u])->Ok_0.rejected.len() == 0
            &&& lookup(run_tx(es, anc, seq![u])->Ok_0.store, name) == Some(
                TargetView::Direct(target),
            )
        }),
{
    let u = UpdateView::Direct { name, target, no_ff };
    let ups = seq![u];
    let edit = EditView { name, target: TargetView::Direct(target) };
    let entry = EntryView { name, target: TargetView::Direct(target) };
    assert(ups.drop_last() =~= Seq::<UpdateView>::empty());
    assert(ups.last() == u);
    let t0 = TxView { store: es, rejected: Seq::empty(), updated: Seq::empty(), guards: Seq::empty() };
    assert(run_tx(es, anc, Seq::<UpdateView>::empty()) == Ok::<TxView, TxErrorView>(t0));
    assert(plan_of(es, anc, u) == Plan::Edits(seq![edit]));
    assert(entries_of(seq![edit]) =~= seq![entry]);
    let store = es + seq![entry];
    assert(run_tx(es, anc, ups) == Ok::<TxView, TxErrorView>(
        TxView {
            store: es + entries_of(seq![edit]),
            updated: t0.updated + seq![edit],
            guards: t0.guards + guards_of(es, anc, u),
            ..t0
        },
    ));
    assert(t0.updated + seq![edit] =~= seq![edit]);
    assert(store.last() == entry);
    assert(lookup(store, name) == Some(TargetView::Direct(target)));
}

/// A direct update under [`Policy::Reject`] that is not a fast-forward of an
/// existing reference is rejected: it leaves the store as it was and writes
/// nothing.
pub proof fn law_reject_non_ff(
    es: Seq<EntryView>,
    anc: Seq<(ObjectId, ObjectId)>,
    name: Seq<Seq<char>>,
    target: ObjectId,
)
    requires
        peel(es, name) is Some,
        !is_ff(anc, target, peel(es, name)->Some_0),
    ensures
        ({
            let u = UpdateView::Direct { name, target, no_ff: Policy::Reject };
            &&& run_tx(es, anc, seq![u]) is Ok
            &&& run_tx(es, anc, seq![u])->Ok_0.rejected == seq![u]
            &&& run_tx(es, anc, seq![u])->Ok_0.updated.len() == 0
            &&& run_tx(es, anc, seq![u])->Ok_0.store == es
        }),
{
    let u = UpdateView::Direct { name, target, no_ff: Policy::Reject };
    let ups = seq![u];
    assert(ups.drop_last() =~= Seq::<UpdateView>::empty());
    assert(ups.last() == u);
    let t0 = TxView { store: es, rejected: Seq::empty(), updated: Seq::empty(), guards: Seq::empty() };
    assert(run_tx(es, anc, Seq::<UpdateView>::empty()) == Ok::<TxView, TxErrorView>(t0));
    assert(plan_of(es, anc, u) == Plan::Rejected);
    assert(run_tx(es, anc, ups) == Ok::<TxView, TxErrorView>(
        TxView { rejected: t0.rejected.push(u), ..t0 },
    ));
    assert(Seq::<UpdateView>::empty().push(u) =~= seq![u]);
}

} // verus!
