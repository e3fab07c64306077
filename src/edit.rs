//! Edits: per-invocation staging areas, and the organizer that turns them into new
//! IR versions.
use vstd::prelude::*;
use std::sync::Arc;
use crate::id::{Id, IdAllocator};
use crate::ir::{map_of, shared_seq, lemma_map_of_keys};
use crate::repr::Representation;

verus! {

/// A write to an id that the edit may not write.
#[derive(Clone, Copy, PartialEq, Eq, Structural, Debug)]
pub struct NotWritable;

/// A staging area for the changes of one tool invocation.
#[derive(Debug)]
pub struct Edit {
    token: u64,
    reserved: Vec<Id>,
    allocated: Vec<Id>,
    staged: Vec<(Id, Arc<Representation>)>,
}

impl Edit {
    /// The organizer's handle of this edit's reservations (0: none).
    pub closed spec fn token(&self) -> u64 {
        self.token
    }

    /// The pre-existing ids reserved for this edit when it was made.
    pub closed spec fn reserved(&self) -> Set<Id> {
        self.reserved@.to_set()
    }

    /// The ids allocated through this edit.
    pub closed spec fn allocated(&self) -> Set<Id> {
        self.allocated@.to_set()
    }

    /// The ids this edit may write.
    pub open spec fn writable(&self) -> Set<Id> {
        self.reserved().union(self.allocated())
    }

    /// The representations written so far, by id.
    pub closed spec fn staged(&self) -> Map<Id, Representation> {
        map_of(shared_seq(self.staged@))
    }

    /// Whether every writable id is numbered at most `h`.
    pub open spec fn ids_below(&self, h: nat) -> bool {
        forall|id: Id| #[trigger] self.writable().contains(id) ==> id.spec_value() <= h
    }

    /// Whether only writable ids hold a representation.
    pub open spec fn wf(&self) -> bool {
        self.staged().dom().subset_of(self.writable())
    }

    /// An edit that may write exactly `ids`, with nothing written yet and no
    /// reservation held for it.
    pub fn new(ids: &Vec<Id>) -> (r: Edit)
        ensures
            r.wf(),
            r.token() == 0,
            r.reserved() == ids@.to_set(),
            r.allocated() == Set::<Id>::empty(),
            r.staged() == Map::<Id, Representation>::empty(),
    {
        Edit::with_token(0, ids)
    }

    /// An edit holding the reservation `token` of an organizer over `ids`.
    pub(crate) fn new_reserving(token: u64, ids: &Vec<Id>) -> (r: Edit)
        ensures
            r.wf(),
            r.token() == token,
            r.reserved() == ids@.to_set(),
            r.allocated() == Set::<Id>::empty(),
            r.staged() == Map::<Id, Representation>::empty(),
    {
        Edit::with_token(token, ids)
    }

    fn with_token(token: u64, ids: &Vec<Id>) -> (r: Edit)
        ensures
            r.wf(),
            r.token() == token,
            r.reserved() == ids@.to_set(),
            r.allocated() == Set::<Id>::empty(),
            r.staged() == Map::<Id, Representation>::empty(),
    {
        let r = Edit { token, reserved: ids.clone(), allocated: Vec::new(), staged: Vec::new() };
        assert(r.reserved@ =~= ids@);
        assert(r.allocated@.to_set() =~= Set::<Id>::empty());
        assert(r.staged() =~= Map::<Id, Representation>::empty());
        r
    }

    /// Allocates a fresh id, makes it writable and stores `representation` under it.
    pub fn add_representation(&mut self, ids: &mut IdAllocator, representation: Representation) -> (r: Id)
        requires
            old(self).wf(),
            old(ids).highest() < u64::MAX,
            old(self).ids_below(old(ids).highest()),
        ensures
            final(self).wf(),
            !old(self).writable().contains(r),
            final(self).ids_below(final(ids).highest()),
            r.spec_value() == old(ids).highest() + 1,
            final(ids).highest() == old(ids).highest() + 1,
            final(self).token() == old(self).token(),
            final(self).reserved() == old(self).reserved(),
            final(self).allocated() == old(self).allocated().insert(r),
            final(self).staged() == old(self).staged().insert(r, representation),
    {
        let id = ids.allocate_one();
        self.allocated.push(id);
        self.staged.push((id, Arc::new(representation)));
        proof {
            lemma_push_contains(old(self).allocated@, id);
            assert(self.writable() =~= old(self).writable().insert(id));
            assert(shared_seq(self.staged@).drop_last() =~= shared_seq(old(self).staged@));
            lemma_push_contains(old(self).allocated@, id);
        }
        id
    }

    /// Allocates a fresh id and makes it writable, without writing it.
    pub fn new_id(&mut self, ids: &mut IdAllocator) -> (r: Id)
        requires
            old(self).wf(),
            old(ids).highest() < u64::MAX,
            old(self).ids_below(old(ids).highest()),
        ensures
            final(self).wf(),
            !old(self).writable().contains(r),
            final(self).ids_below(final(ids).highest()),
            r.spec_value() == old(ids).highest() + 1,
            final(ids).highest() == old(ids).highest() + 1,
            final(self).token() == old(self).token(),
            final(self).reserved() == old(self).reserved(),
            final(self).allocated() == old(self).allocated().insert(r),
            final(self).staged() == old(self).staged(),
    {
        let id = ids.allocate_one();
        self.allocated.push(id);
        proof {
            lemma_push_contains(old(self).allocated@, id);
            assert(self.writable() =~= old(self).writable().insert(id));
        }
        id
    }

    /// A number that no writable id exceeds: the highest writable id, or 0.
    pub fn highest_id(&self) -> (r: u64)
        ensures
            self.ids_below(r as nat),
    {
        let mut r: u64 = 0;
        let mut i: usize = 0;
        while i < self.reserved.len()
            invariant
                i <= self.reserved@.len(),
                forall|j: int| 0 <= j < i ==> (#[trigger] self.reserved@[j]).spec_value() <= r,
            decreases self.reserved@.len() - i,
        {
            if self.reserved[i].get() > r {
                r = self.reserved[i].get();
            }
            i = i + 1;
        }
        let mut i: usize = 0;
        while i < self.allocated.len()
            invariant
                i <= self.allocated@.len(),
                forall|j: int| 0 <= j < self.reserved@.len() ==> (#[trigger] self.reserved@[j]).spec_value() <= r,
                forall|j: int| 0 <= j < i ==> (#[trigger] self.allocated@[j]).spec_value() <= r,
            decreases self.allocated@.len() - i,
        {
            if self.allocated[i].get() > r {
                r = self.allocated[i].get();
            }
            i = i + 1;
        }
        r
    }

    fn is_writable(&self, id: Id) -> (r: bool)
        ensures
            r == self.writable().contains(id),
    {
        let mut i: usize = 0;
        while i < self.reserved.len()
            invariant
                i <= self.reserved@.len(),
                forall|j: int| 0 <= j < i ==> self.reserved@[j] != id,
            decreases self.reserved@.len() - i,
        {
            if self.reserved[i] == id {
                assert(self.reserved@.contains(id));
                return true;
            }
            i = i + 1;
        }
        let mut i: usize = 0;
        while i < self.allocated.len()
            invariant
                i <= self.allocated@.len(),
                !self.reserved@.contains(id),
                forall|j: int| 0 <= j < i ==> self.allocated@[j] != id,
            decreases self.allocated@.len() - i,
        {
            if self.allocated[i] == id {
                assert(self.allocated@.contains(id));
                return true;
            }
            i = i + 1;
        }
        false
    }

    /// Stores `representation` under `id` if this edit may write `id`; fails, and
    /// changes nothing, otherwise.
    pub fn try_write_id(&mut self, id: Id, representation: Representation) -> (r: Result<(), NotWritable>)
        requires
            old(self).wf(),
        ensures
            final(self).wf(),
            r is Ok <==> old(self).writable().contains(id),
            final(self).token() == old(self).token(),
            final(self).reserved() == old(self).reserved(),
            final(self).allocated() == old(self).allocated(),
            r is Ok ==> final(self).staged() == old(self).staged().insert(id, representation),
            r is Err ==> final(self).staged() == old(self).staged(),
    {
        if self.is_writable(id) {
            self.staged.push((id, Arc::new(representation)));
            assert(shared_seq(self.staged@).drop_last() =~= shared_seq(old(self).staged@));
            Ok(())
        } else {
            Err(NotWritable)
        }
    }

    /// Stores `representation` under `id`, which this edit may write.
    pub fn write_id(&mut self, id: Id, representation: Representation)
        requires
            old(self).wf(),
            old(self).writable().contains(id),
        ensures
            final(self).wf(),
            final(self).token() == old(self).token(),
            final(self).reserved() == old(self).reserved(),
            final(self).allocated() == old(self).allocated(),
            final(self).staged() == old(self).staged().insert(id, representation),
    {
        let _ = self.try_write_id(id, representation);
    }

    /// The ids that hold a representation, each once.
    pub fn changed_ids(&self) -> (r: Vec<Id>)
        ensures
            r@.to_set() == self.staged().dom(),
            r@.no_duplicates(),
    {
        let ghost s = shared_seq(self.staged@);
        proof {
            lemma_map_of_keys(s);
        }
        let mut r: Vec<Id> = Vec::new();
        let mut i: usize = 0;
        while i < self.staged.len()
            invariant
                i <= self.staged@.len(),
                s == shared_seq(self.staged@),
                r@.no_duplicates(),
                forall|k: Id| r@.contains(k) <==> exists|j: int| 0 <= j < i && s[j].0 == k,
            decreases self.staged@.len() - i,
        {
            let id = self.staged[i].0;
            let mut seen = false;
            let mut j: usize = 0;
            while j < r.len()
                invariant
                    j <= r@.len(),
                    seen <==> exists|m: int| 0 <= m < j && r@[m] == id,
                decreases r@.len() - j,
            {
                if r[j] == id {
                    seen = true;
                }
                j = j + 1;
            }
            let ghost r0 = r@;
            if !seen {
                r.push(id);
                proof {
                    lemma_push_contains(r0, id);
                }
            }
            assert forall|k: Id| r@.contains(k) <==> exists|j: int| 0 <= j < i + 1 && s[j].0 == k by {
                assert(r@.contains(k) <==> r0.contains(k) || k == id);
                if k == id {
                    assert(s[i as int].0 == k);
                }
                if exists|j: int| 0 <= j < i + 1 && s[j].0 == k {
                    let j = choose|j: int| 0 <= j < i + 1 && s[j].0 == k;
                    if j < i {
                        assert(r0.contains(k));
                    }
                }
            }
            i = i + 1;
        }
        assert(r@.to_set() =~= self.staged().dom());
        r
    }

    /// The representations written so far, as (id, representation) pairs; where an
    /// id was written twice, its later write comes later.
    pub closed spec fn staged_list(&self) -> Seq<(Id, Arc<Representation>)> {
        self.staged@
    }

    pub(crate) proof fn lemma_staged_list(&self)
        ensures
            self.staged() == map_of(shared_seq(self.staged_list())),
    {
    }

    /// The written (id, representation) pairs, in the order they were written.
    pub(crate) fn staged_entries(&self) -> (r: &Vec<(Id, Arc<Representation>)>)
        ensures
            r@ == self.staged_list(),
    {
        &self.staged
    }

    /// The ids allocated through this edit.
    pub(crate) fn allocated_ids(&self) -> (r: &Vec<Id>)
        ensures
            r@.to_set() == self.allocated(),
    {
        &self.allocated
    }

    /// The organizer's handle of this edit's reservations.
    pub fn token_value(&self) -> (r: u64)
        ensures
            r == self.token(),
    {
        self.token
    }
}

pub(crate) proof fn lemma_push_contains(s: Seq<Id>, x: Id)
    ensures
        forall|k: Id| #[trigger] s.push(x).contains(k) <==> s.contains(k) || k == x,
        s.push(x).to_set() == s.to_set().insert(x),
{
    assert forall|k: Id| #[trigger] s.push(x).contains(k) <==> s.contains(k) || k == x by {
        if s.contains(k) {
            let m = choose|m: int| 0 <= m < s.len() && s[m] == k;
            assert(s.push(x)[m] == k);
        }
        if k == x {
            assert(s.push(x)[s.len() as int] == k);
        }
        if s.push(x).contains(k) && k != x {
            let m = choose|m: int| 0 <= m < s.len() + 1 && s.push(x)[m] == k;
            assert(s[m] == k);
        }
    }
    assert(s.push(x).to_set() =~= s.to_set().insert(x));
}

} // verus!
