//! The organizer: owner of the current IR snapshot and of the reservations that
//! live edits hold.
use vstd::prelude::*;
use std::sync::Arc;
use crate::edit::{Edit, lemma_push_contains};
use crate::ir::{map_of, shared_seq, lemma_map_of_keys};
use crate::id::Id;
use crate::ir::HarvestIR;
use crate::repr::Representation;

verus! {

/// Why an edit could not be made.
#[derive(Clone, Copy, PartialEq, Eq, Structural, Debug)]
pub enum NewEditError {
    /// A requested id is reserved by another live edit.
    IdInUse,
    /// A requested id is neither in the current IR nor was it allocated through an
    /// edit of this organizer.
    UnknownId,
}

/// Why an edit could not be applied.
#[derive(Clone, Copy, PartialEq, Eq, Structural, Debug)]
pub enum ApplyError {
    /// The edit wrote an id that it neither allocated nor holds a reservation for.
    NotReserved,
}

/// Owns the current IR snapshot and the table of reserved ids.
#[derive(Debug)]
pub struct Organizer {
    snapshot: Arc<HarvestIR>,
    reservations: Vec<(Id, u64)>,
    handed_out: Vec<Id>,
    tokens: u64,
    versions: u64,
}

/// Whether `id` is reserved on behalf of the edit with token `t` in `res`.
pub open spec fn holds(res: Seq<(Id, u64)>, id: Id, t: u64) -> bool {
    exists|i: int| 0 <= i < res.len() && res[i] == (id, t)
}

/// Whether `id` is reserved on behalf of any edit in `res`.
pub open spec fn in_use(res: Seq<(Id, u64)>, id: Id) -> bool {
    exists|i: int| 0 <= i < res.len() && res[i].0 == id
}

impl Organizer {
    /// The current snapshot.
    pub closed spec fn ir(&self) -> HarvestIR {
        *self.snapshot
    }

    /// The table of reservations: (id, token of the edit that holds it).
    pub closed spec fn table(&self) -> Seq<(Id, u64)> {
        self.reservations@
    }

    /// The ids reserved on behalf of the edit with token `t`.
    pub open spec fn reserved_by(&self, t: u64) -> Set<Id> {
        Set::new(|id: Id| holds(self.table(), id, t))
    }

    /// The ids reserved on behalf of any live edit.
    pub open spec fn reserved(&self) -> Set<Id> {
        Set::new(|id: Id| in_use(self.table(), id))
    }

    /// The ids that applied edits of this organizer allocated, whether they wrote
    /// them or not.
    pub closed spec fn handed_out(&self) -> Set<Id> {
        self.handed_out@.to_set()
    }

    /// Whether `id` is in the current IR or was allocated through an edit.
    pub open spec fn known(&self, id: Id) -> bool {
        self.ir()@.contains_key(id) || self.handed_out().contains(id)
    }

    /// The number of edits made so far; each edit's token is its rank, from 1.
    pub closed spec fn tokens(&self) -> nat {
        self.tokens as nat
    }

    /// The number of edits applied so far, which is the number of the next version.
    pub closed spec fn versions(&self) -> nat {
        self.versions as nat
    }

    /// Every id is reserved for at most one edit, by an edit already made.
    pub open spec fn wf(&self) -> bool {
        &&& self.ir().wf()
        &&& forall|i: int, j: int|
            0 <= i < j < self.table().len() ==> (#[trigger] self.table()[i]).0 != (#[trigger] self.table()[j]).0
        &&& forall|i: int| 0 <= i < self.table().len() ==> 1 <= (#[trigger] self.table()[i]).1 <= self.tokens()
    }

    /// An organizer over an empty IR, with no edit made or applied.
    pub fn new() -> (r: Organizer)
        ensures
            r.wf(),
            r.ir()@ == Map::<Id, Representation>::empty(),
            r.reserved() == Set::<Id>::empty(),
            r.handed_out() == Set::<Id>::empty(),
            r.tokens() == 0,
            r.versions() == 0,
    {
        let r = Organizer {
            snapshot: Arc::new(HarvestIR::new()),
            reservations: Vec::new(),
            handed_out: Vec::new(),
            tokens: 0,
            versions: 0,
        };
        assert(r.reserved() =~= Set::<Id>::empty());
        assert(r.handed_out@.to_set() =~= Set::<Id>::empty());
        r
    }

    /// The current snapshot, shared.
    pub fn snapshot(&self) -> (r: Arc<HarvestIR>)
        ensures
            *r == self.ir(),
    {
        self.snapshot.clone()
    }

    /// The number of edits made so far.
    pub fn edits_made(&self) -> (r: u64)
        ensures
            r == self.tokens(),
    {
        self.tokens
    }

    /// The number of the next IR version.
    pub fn next_version(&self) -> (r: u64)
        ensures
            r == self.versions(),
    {
        self.versions
    }

    /// Releases every reservation held on behalf of the edit with token `t`.
    pub fn release(&mut self, t: u64)
        requires
            old(self).wf(),
        ensures
            final(self).wf(),
            final(self).ir() == old(self).ir(),
            final(self).handed_out() == old(self).handed_out(),
            final(self).tokens() == old(self).tokens(),
            final(self).versions() == old(self).versions(),
            final(self).reserved_by(t) == Set::<Id>::empty(),
            forall|u: u64| u != t ==> #[trigger] final(self).reserved_by(u) == old(self).reserved_by(u),
    {
        let ghost t0 = self.reservations@;
        let mut kept: Vec<(Id, u64)> = Vec::new();
        let mut i: usize = 0;
        while i < self.reservations.len()
            invariant
                i <= t0.len(),
                self.reservations@ == t0,
                old(self).wf(),
                t0 == old(self).table(),
                forall|a: int| 0 <= a < kept@.len() ==> (#[trigger] kept@[a]).1 != t,
                forall|a: int| 0 <= a < kept@.len() ==> exists|b: int| 0 <= b < i && t0[b] == #[trigger] kept@[a],
                forall|a: int, b: int| 0 <= a < b < kept@.len() ==> (#[trigger] kept@[a]).0 != (#[trigger] kept@[b]).0,
                forall|b: int| 0 <= b < i && (#[trigger] t0[b]).1 != t ==> kept@.contains(t0[b]),
                forall|a: int| 0 <= a < kept@.len() ==> forall|b: int| i <= b < t0.len() ==> (#[trigger] kept@[a]).0 != (#[trigger] t0[b]).0,
            decreases t0.len() - i,
        {
            let e = self.reservations[i];
            if e.1 != t {
                let ghost k0 = kept@;
                kept.push(e);
                proof {
                    assert forall|a: int| 0 <= a < kept@.len() implies exists|b: int| 0 <= b < i + 1 && t0[b] == #[trigger] kept@[a] by {
                        if a < k0.len() {
                            assert(kept@[a] == k0[a]);
                        } else {
                            assert(t0[i as int] == kept@[a]);
                        }
                    }
                    assert forall|b: int| 0 <= b < i + 1 && (#[trigger] t0[b]).1 != t implies kept@.contains(t0[b]) by {
                        if b < i {
                            let a = choose|a: int| 0 <= a < k0.len() && k0[a] == t0[b];
                            assert(kept@[a] == t0[b]);
                        } else {
                            assert(kept@[k0.len() as int] == t0[b]);
                        }
                    }
                    assert forall|a: int, c: int| 0 <= a < c < kept@.len() implies (#[trigger] kept@[a]).0 != (#[trigger] kept@[c]).0 by {
                        if c == k0.len() {
                            assert(kept@[a] == k0[a]);
                        } else {
                            assert(kept@[a] == k0[a] && kept@[c] == k0[c]);
                        }
                    }
                    assert forall|a: int| 0 <= a < kept@.len() implies forall|b: int| i + 1 <= b < t0.len() ==> (#[trigger] kept@[a]).0 != (#[trigger] t0[b]).0 by {
                        if a < k0.len() {
                            assert(kept@[a] == k0[a]);
                        } else {
                            assert forall|b: int| i + 1 <= b < t0.len() implies kept@[a].0 != (#[trigger] t0[b]).0 by {
                                assert(t0[i as int].0 != t0[b].0);
                            }
                        }
                    }
                }
            }
            i = i + 1;
        }
        self.reservations = kept;
        proof {
            assert forall|id: Id, u: u64| #[trigger] holds(self.table(), id, u) <==> (u != t && holds(t0, id, u)) by {
                if holds(self.table(), id, u) {
                    let a = choose|a: int| 0 <= a < kept@.len() && kept@[a] == (id, u);
                    let b = choose|b: int| 0 <= b < i && t0[b] == #[trigger] kept@[a];
                    assert(t0[b] == (id, u));
                }
                if u != t && holds(t0, id, u) {
                    let b = choose|b: int| 0 <= b < t0.len() && t0[b] == (id, u);
                    assert(kept@.contains(t0[b]));
                }
            }
            assert forall|a: int| 0 <= a < self.table().len() implies 1 <= (#[trigger] self.table()[a]).1 <= self.tokens() by {
                let b = choose|b: int| 0 <= b < i && t0[b] == #[trigger] kept@[a];
            }
            assert(self.reserved_by(t) =~= Set::<Id>::empty());
            assert forall|u: u64| u != t implies #[trigger] self.reserved_by(u) == old(self).reserved_by(u) by {
                assert(self.reserved_by(u) =~= old(self).reserved_by(u));
            }
        }
    }

    fn holds_reservation(&self, id: Id, t: u64) -> (r: bool)
        ensures
            r == holds(self.table(), id, t),
    {
        let mut i: usize = 0;
        while i < self.reservations.len()
            invariant
                i <= self.table().len(),
                self.reservations@ == self.table(),
                forall|j: int| 0 <= j < i ==> self.table()[j] != (id, t),
            decreases self.table().len() - i,
        {
            if self.reservations[i].0 == id && self.reservations[i].1 == t {
                return true;
            }
            i = i + 1;
        }
        false
    }

    /// Applies `edit`: publishes a new snapshot in which every representation the
    /// edit wrote replaces or joins those of the current one, and returns the number
    /// of the new version. Fails, leaving the snapshot as it is, when the edit wrote
    /// an id that it neither allocated nor holds a reservation for. Either way the
    /// edit's reservations are released.
    pub fn apply_edit(&mut self, edit: Edit) -> (r: Result<u64, ApplyError>)
        requires
            old(self).wf(),
            edit.wf(),
            old(self).versions() < u64::MAX,
        ensures
            final(self).wf(),
            final(self).tokens() == old(self).tokens(),
            r is Ok <==> forall|id: Id| #[trigger] edit.staged().contains_key(id) ==> edit.allocated().contains(id)
                || old(self).reserved_by(edit.token()).contains(id),
            r matches Ok(v) ==> {
                &&& v == old(self).versions()
                &&& final(self).versions() == old(self).versions() + 1
                &&& final(self).ir()@ == old(self).ir()@.union_prefer_right(edit.staged())
                &&& final(self).handed_out() == old(self).handed_out().union(edit.allocated())
            },
            r is Err ==> {
                &&& final(self).ir() == old(self).ir()
                &&& final(self).versions() == old(self).versions()
                &&& final(self).handed_out() == old(self).handed_out()
            },
            final(self).reserved_by(edit.token()) == Set::<Id>::empty(),
            forall|u: u64| u != edit.token() ==> #[trigger] final(self).reserved_by(u) == old(self).reserved_by(u),
    {
        let token = edit.token_value();
        let staged = edit.staged_entries();
        let allocated = edit.allocated_ids();
        let ghost s = shared_seq(staged@);
        proof {
            edit.lemma_staged_list();
            lemma_map_of_keys(s);
        }
        let mut valid = true;
        let mut i: usize = 0;
        while i < staged.len()
            invariant
                i <= staged@.len(),
                s == shared_seq(staged@),
                *self == *old(self),
                allocated@.to_set() == edit.allocated(),
                edit.staged() == map_of(s),
                valid <==> forall|j: int| 0 <= j < i ==> edit.allocated().contains(#[trigger] s[j].0)
                    || old(self).reserved_by(token).contains(s[j].0),
            decreases staged@.len() - i,
        {
            let id = staged[i].0;
            let mut ok = self.holds_reservation(id, token);
            let mut j: usize = 0;
            while j < allocated.len()
                invariant
                    j <= allocated@.len(),
                    ok ==> (holds(self.table(), id, token) || allocated@.contains(id)),
                    holds(self.table(), id, token) ==> ok,
                    forall|m: int| 0 <= m < j ==> allocated@[m] == id ==> ok,
                decreases allocated@.len() - j,
            {
                if allocated[j] == id {
                    ok = true;
                }
                j = j + 1;
            }
            proof {
                if allocated@.contains(id) {
                    let m = choose|m: int| 0 <= m < allocated@.len() && allocated@[m] == id;
                    assert(ok);
                }
                assert(s[i as int].0 == id);
                assert(edit.allocated().contains(id) ==> allocated@.contains(id));
                assert(old(self).reserved_by(token).contains(id) <==> holds(self.table(), id, token));
                assert(allocated@.contains(id) <==> edit.allocated().contains(id));
            }
            let ghost valid0 = valid;
            if !ok {
                valid = false;
            }
            proof {
                assert(ok <==> edit.allocated().contains(s[i as int].0) || old(self).reserved_by(token).contains(s[i as int].0));
                assert(valid <==> valid0 && ok);
            }
            i = i + 1;
        }
        proof {
            assert(valid <==> forall|id: Id| #[trigger] edit.staged().contains_key(id) ==> edit.allocated().contains(id)
                || old(self).reserved_by(token).contains(id)) by {
                if valid {
                    assert forall|id: Id| #[trigger] edit.staged().contains_key(id) implies edit.allocated().contains(id)
                        || old(self).reserved_by(token).contains(id) by {
                        let j = choose|j: int| 0 <= j < s.len() && s[j].0 == id;
                    }
                } else {
                    let j = choose|j: int| 0 <= j < s.len() && !(edit.allocated().contains(#[trigger] s[j].0)
                        || old(self).reserved_by(token).contains(s[j].0));
                    assert(edit.staged().contains_key(s[j].0));
                }
            }
        }
        if !valid {
            self.release(token);
            return Err(ApplyError::NotReserved);
        }
        let next = self.snapshot.with_changes(staged);
        let ghost h0 = self.handed_out@;
        let mut k: usize = 0;
        while k < allocated.len()
            invariant
                k <= allocated@.len(),
                self.handed_out@.to_set() == h0.to_set().union(allocated@.subrange(0, k as int).to_set()),
                h0 == old(self).handed_out@,
                self.versions == old(self).versions,
                self.tokens == old(self).tokens,
                self.reservations@ == old(self).reservations@,
                self.snapshot == old(self).snapshot,
            decreases allocated@.len() - k,
        {
            let ghost before = self.handed_out@;
            self.handed_out.push(allocated[k]);
            proof {
                lemma_push_contains(before, allocated@[k as int]);
                lemma_push_contains(allocated@.subrange(0, k as int), allocated@[k as int]);
                assert(allocated@.subrange(0, k + 1) =~= allocated@.subrange(0, k as int).push(allocated@[k as int]));
                assert(self.handed_out@.to_set() =~= h0.to_set().union(allocated@.subrange(0, k + 1).to_set()));
            }
            k = k + 1;
        }
        assert(allocated@.subrange(0, k as int) =~= allocated@);
        self.snapshot = Arc::new(next);
        let v = self.versions;
        self.versions = self.versions + 1;
        assert(self.ir() == next);
        assert(self.table() == old(self).table());
        assert(self.tokens() == old(self).tokens());
        self.release(token);
        Ok(v)
    }

    fn is_known(&self, id: Id) -> (r: bool)
        requires
            self.wf(),
        ensures
            r == self.known(id),
    {
        if self.snapshot.contains_id(id) {
            return true;
        }
        let mut i: usize = 0;
        while i < self.handed_out.len()
            invariant
                i <= self.handed_out@.len(),
                forall|j: int| 0 <= j < i ==> self.handed_out@[j] != id,
            decreases self.handed_out@.len() - i,
        {
            if self.handed_out[i] == id {
                assert(self.handed_out@.contains(id));
                return true;
            }
            i = i + 1;
        }
        false
    }

    fn is_in_use(&self, id: Id) -> (r: bool)
        ensures
            r == in_use(self.table(), id),
    {
        let mut i: usize = 0;
        while i < self.reservations.len()
            invariant
                i <= self.table().len(),
                self.reservations@ == self.table(),
                forall|j: int| 0 <= j < i ==> self.table()[j].0 != id,
            decreases self.table().len() - i,
        {
            if self.reservations[i].0 == id {
                return true;
            }
            i = i + 1;
        }
        false
    }

    /// Makes an edit that may write `ids`, reserving them for it. Fails with
    /// `IdInUse` when some id is reserved by a live edit, otherwise with `UnknownId`
    /// when some id is unknown; the organizer is then unchanged.
    pub fn new_edit(&mut self, ids: &Vec<Id>) -> (r: Result<Edit, NewEditError>)
        requires
            old(self).wf(),
            old(self).tokens() < u64::MAX,
        ensures
            final(self).wf(),
            final(self).ir() == old(self).ir(),
            final(self).handed_out() == old(self).handed_out(),
            final(self).versions() == old(self).versions(),
            r == Err::<Edit, NewEditError>(NewEditError::IdInUse) <==> exists|i: int|
                0 <= i < ids@.len() && old(self).reserved().contains(#[trigger] ids@[i]),
            r == Err::<Edit, NewEditError>(NewEditError::UnknownId) <==> (forall|i: int|
                0 <= i < ids@.len() ==> !old(self).reserved().contains(#[trigger] ids@[i])) && exists|i: int|
                0 <= i < ids@.len() && !old(self).known(#[trigger] ids@[i]),
            r is Err ==> *final(self) == *old(self),
            r matches Ok(e) ==> {
                &&& e.wf()
                &&& e.token() == final(self).tokens()
                &&& final(self).tokens() == old(self).tokens() + 1
                &&& e.reserved() == ids@.to_set()
                &&& e.allocated() == Set::<Id>::empty()
                &&& e.staged() == Map::<Id, Representation>::empty()
                &&& final(self).reserved_by(e.token()) == ids@.to_set()
                &&& forall|t: u64| t != e.token() ==> #[trigger] final(self).reserved_by(t) == old(self).reserved_by(t)
            },
    {
        let mut i: usize = 0;
        while i < ids.len()
            invariant
                self.wf(),
                *self == *old(self),
                i <= ids@.len(),
                forall|j: int| 0 <= j < i ==> !in_use(self.table(), #[trigger] ids@[j]),
            decreases ids@.len() - i,
        {
            if self.is_in_use(ids[i]) {
                assert(self.reserved().contains(ids@[i as int]));
                return Err(NewEditError::IdInUse);
            }
            i = i + 1;
        }
        assert forall|j: int| 0 <= j < ids@.len() implies !old(self).reserved().contains(#[trigger] ids@[j]) by {
            assert(!in_use(self.table(), ids@[j]));
        }
        let mut i: usize = 0;
        while i < ids.len()
            invariant
                self.wf(),
                *self == *old(self),
                i <= ids@.len(),
                forall|j: int| 0 <= j < ids@.len() ==> !old(self).reserved().contains(#[trigger] ids@[j]),
                forall|j: int| 0 <= j < i ==> self.known(#[trigger] ids@[j]),
            decreases ids@.len() - i,
        {
            if !self.is_known(ids[i]) {
                return Err(NewEditError::UnknownId);
            }
            i = i + 1;
        }
        assert forall|j: int| 0 <= j < ids@.len() implies !old(self).reserved().contains(#[trigger] ids@[j]) by {
            assert(!in_use(self.table(), ids@[j]));
        }
        let ghost pre = self.table();
        assert(self.wf());
        self.tokens = self.tokens + 1;
        let token = self.tokens;
        let ghost t0 = self.reservations@;
        assert(t0 == pre);
        assert forall|a: int| 0 <= a < t0.len() implies 1 <= (#[trigger] t0[a]).1 <= self.tokens() by {
            assert(1 <= pre[a].1 <= old(self).tokens());
        }
        assert forall|id: Id| !holds(t0, id, token) by {
            if holds(t0, id, token) {
                let a = choose|a: int| 0 <= a < t0.len() && t0[a] == (id, token);
                assert(t0[a].1 <= old(self).tokens());
            }
        }
        let mut i: usize = 0;
        while i < ids.len()
            invariant
                i <= ids@.len(),
                token == self.tokens,
                self.tokens() == old(self).tokens() + 1,
                self.ir() == old(self).ir(),
                self.handed_out() == old(self).handed_out(),
                self.versions() == old(self).versions(),
                self.wf(),
                forall|j: int| 0 <= j < ids@.len() ==> !in_use(t0, #[trigger] ids@[j]),
                forall|id: Id| #[trigger] holds(self.table(), id, token) <==> exists|j: int| 0 <= j < i && ids@[j] == id,
                forall|id: Id, t: u64| t != token ==> (#[trigger] holds(self.table(), id, t) <==> holds(t0, id, t)),
                forall|id: Id| #[trigger] in_use(self.table(), id) ==> in_use(t0, id) || holds(self.table(), id, token),
            decreases ids@.len() - i,
        {
            let id = ids[i];
            let ghost before = self.reservations@;
            if !self.is_in_use(id) {
                self.reservations.push((id, token));
                proof {
                    let after = self.reservations@;
                    assert forall|a: int, b: int| 0 <= a < b < after.len() implies (#[trigger] after[a]).0 != (#[trigger] after[b]).0 by {
                        if b == after.len() - 1 {
                            assert(before[a] == after[a]);
                        } else {
                            assert(before[a] == after[a] && before[b] == after[b]);
                        }
                    }
                    assert forall|a: int| 0 <= a < after.len() implies 1 <= (#[trigger] after[a]).1 <= self.tokens() by {
                        if a < before.len() {
                            assert(before[a] == after[a]);
                        }
                    }
                    assert forall|x: Id, t: u64| #[trigger] holds(after, x, t) <==> holds(before, x, t) || (x == id && t == token) by {
                        if holds(after, x, t) && !(x == id && t == token) {
                            let a = choose|a: int| 0 <= a < after.len() && after[a] == (x, t);
                            assert(before[a] == (x, t));
                        }
                        if holds(before, x, t) {
                            let a = choose|a: int| 0 <= a < before.len() && before[a] == (x, t);
                            assert(after[a] == (x, t));
                        }
                        if x == id && t == token {
                            assert(after[after.len() - 1] == (x, t));
                        }
                    }
                    assert forall|x: Id| #[trigger] in_use(after, x) implies in_use(before, x) || x == id by {
                        if in_use(after, x) && x != id {
                            let a = choose|a: int| 0 <= a < after.len() && after[a].0 == x;
                            assert(before[a].0 == x);
                        }
                    }
                    assert(holds(after, id, token));
                    assert forall|x: Id| #[trigger] holds(after, x, token) <==> exists|j: int| 0 <= j < i + 1 && ids@[j] == x by {
                        if x == id {
                            assert(ids@[i as int] == x);
                        }
                        if exists|j: int| 0 <= j < i + 1 && ids@[j] == x {
                            let j = choose|j: int| 0 <= j < i + 1 && ids@[j] == x;
                            if j < i {
                                assert(holds(before, x, token));
                            }
                        }
                    }
                    assert forall|x: Id| #[trigger] in_use(after, x) implies in_use(t0, x) || holds(after, x, token) by {
                        if x != id {
                            assert(in_use(before, x));
                            if !in_use(t0, x) {
                                assert(holds(before, x, token));
                            }
                        }
                    }
                }
            } else {
                proof {
                    assert(in_use(t0, id) || holds(self.table(), id, token));
                    assert(!in_use(t0, id));
                    assert forall|x: Id| #[trigger] holds(self.table(), x, token) <==> exists|j: int| 0 <= j < i + 1 && ids@[j] == x by {
                        if x == id {
                            assert(ids@[i as int] == x);
                        }
                    }
                }
            }
            i = i + 1;
        }
        let e = Edit::new_reserving(token, ids);
        proof {
            assert(self.reserved_by(token) =~= ids@.to_set()) by {
                assert forall|x: Id| self.reserved_by(token).contains(x) <==> ids@.to_set().contains(x) by {
                    assert(holds(self.table(), x, token) <==> exists|j: int| 0 <= j < ids@.len() && ids@[j] == x);
                }
            }
            assert forall|t: u64| t != token implies #[trigger] self.reserved_by(t) == old(self).reserved_by(t) by {
                assert(self.reserved_by(t) =~= old(self).reserved_by(t));
            }
        }
        Ok(e)
    }
}

/// Two live edits never share a pre-existing id: when organizer `o` still holds the
/// reservations of edits `a` and `b`, made with distinct tokens, their reserved
/// sets are disjoint.
pub proof fn lemma_live_edits_disjoint(o: &Organizer, a: &Edit, b: &Edit)
    requires
        o.wf(),
        a.token() != b.token(),
        a.reserved().subset_of(o.reserved_by(a.token())),
        b.reserved().subset_of(o.reserved_by(b.token())),
    ensures
        a.reserved().disjoint(b.reserved()),
{
    assert forall|id: Id| a.reserved().contains(id) implies !b.reserved().contains(id) by {
        if b.reserved().contains(id) {
            assert(o.reserved_by(a.token()).contains(id));
            assert(o.reserved_by(b.token()).contains(id));
            let i = choose|i: int| 0 <= i < o.table().len() && o.table()[i] == (id, a.token());
            let j = choose|j: int| 0 <= j < o.table().len() && o.table()[j] == (id, b.token());
            if i < j {
                assert(o.table()[i].0 != o.table()[j].0);
            } else if j < i {
                assert(o.table()[j].0 != o.table()[i].0);
            }
        }
    }
}

/// Any organizer, an empty one included, accepts an edit over no ids: neither
/// error condition of `new_edit` can hold for an empty request.
pub proof fn lemma_empty_request_accepted(o: &Organizer, ids: Seq<Id>)
    requires
        ids.len() == 0,
    ensures
        !exists|i: int| 0 <= i < ids.len() && !o.known(#[trigger] ids[i]),
        !exists|i: int| 0 <= i < ids.len() && o.reserved().contains(#[trigger] ids[i]),
{
}

/// An edit that wrote nothing leaves the contents of the IR as they were: the
/// version that applying it publishes equals the current one.
pub proof fn lemma_empty_edit_keeps_ir(o: &Organizer, e: &Edit)
    requires
        e.staged() == Map::<Id, Representation>::empty(),
    ensures
        o.ir()@.union_prefer_right(e.staged()) == o.ir()@,
{
    assert(o.ir()@.union_prefer_right(e.staged()) =~= o.ir()@);
}

/// Version numbers start at 0 and go up by one with each applied edit: when
/// `counts[k]` is the organizer's version count before the `k`-th successful
/// apply, `numbers[k]` what that apply returned, and the organizer started fresh,
/// then the `k`-th apply returned `k`.
pub proof fn lemma_versions_contiguous(counts: Seq<nat>, numbers: Seq<nat>)
    requires
        counts.len() == numbers.len() + 1,
        counts[0] == 0,
        forall|k: int| 0 <= k < numbers.len() ==> #[trigger] numbers[k] == counts[k] && counts[k + 1] == counts[k] + 1,
    ensures
        forall|k: int| 0 <= k < numbers.len() ==> #[trigger] numbers[k] == k,
{
    assert forall|k: int| 0 <= k < numbers.len() implies #[trigger] numbers[k] == k by {
        lemma_count_is_index(counts, numbers, k);
    }
}

proof fn lemma_count_is_index(counts: Seq<nat>, numbers: Seq<nat>, k: int)
    requires
        counts.len() == numbers.len() + 1,
        counts[0] == 0,
        forall|k: int| 0 <= k < numbers.len() ==> #[trigger] numbers[k] == counts[k] && counts[k + 1] == counts[k] + 1,
        0 <= k <= numbers.len(),
    ensures
        counts[k] == k,
    decreases k,
{
    if k > 0 {
        lemma_count_is_index(counts, numbers, k - 1);
        assert(numbers[k - 1] == counts[k - 1]);
    }
}

} // verus!
