//! Identifiers for representations and the allocator that hands them out.
use vstd::prelude::*;

verus! {

/// An opaque identifier of a representation. Identifiers are never zero.
#[derive(Clone, Copy, PartialEq, Eq, Structural, Hash, PartialOrd, Ord, Debug)]
pub struct Id {
    value: u64,
}

impl Id {
    /// The number behind this identifier.
    pub closed spec fn spec_value(&self) -> nat {
        self.value as nat
    }

    pub proof fn lemma_value_injective(a: Id, b: Id)
        ensures
            a.spec_value() == b.spec_value() <==> a == b,
    {
    }

    /// The number behind this identifier.
    pub fn get(&self) -> (r: u64)
        ensures
            r == self.spec_value(),
    {
        self.value
    }

    /// Returns one fresh identifier from `ids`.
    pub fn new(ids: &mut IdAllocator) -> (r: Id)
        requires
            old(ids).highest() < u64::MAX,
        ensures
            r.spec_value() == old(ids).highest() + 1,
            final(ids).highest() == old(ids).highest() + 1,
    {
        ids.allocate_one()
    }

    /// Returns `len` fresh, consecutive identifiers from `ids`.
    pub fn new_array(ids: &mut IdAllocator, len: u64) -> (r: Vec<Id>)
        requires
            old(ids).highest() + len <= u64::MAX,
        ensures
            final(ids).highest() == old(ids).highest() + len,
            r@.len() == len,
            forall|i: int| 0 <= i < len ==> #[trigger] r@[i].spec_value() == old(ids).highest() + 1 + i,
    {
        ids.allocate(len)
    }
}

/// The ids handed out by an allocator that starts at `highest` and then serves the
/// requests `sizes` in order: request `i` receives the ids numbered from
/// `allocation_start(highest, sizes, i) + 1` to `allocation_start(highest, sizes, i + 1)`.
pub open spec fn allocation_start(highest: nat, sizes: Seq<nat>, i: int) -> nat
    decreases i,
{
    if i <= 0 {
        highest
    } else {
        allocation_start(highest, sizes, i - 1) + sizes[i - 1]
    }
}

/// Whether the id numbered `v` was handed out by request `i`.
pub open spec fn allocated_by(highest: nat, sizes: Seq<nat>, i: int, v: nat) -> bool {
    allocation_start(highest, sizes, i) < v <= allocation_start(highest, sizes, i + 1)
}

/// Whether the id numbered `v` lies after `highest` and within the total of `sizes`.
pub open spec fn handed_out(highest: nat, sizes: Seq<nat>, v: nat) -> bool {
    highest < v <= allocation_start(highest, sizes, sizes.len() as int)
}

proof fn lemma_start_monotone(highest: nat, sizes: Seq<nat>, i: int, j: int)
    requires
        0 <= i <= j,
    ensures
        allocation_start(highest, sizes, i) <= allocation_start(highest, sizes, j),
    decreases j - i,
{
    if i < j {
        lemma_start_monotone(highest, sizes, i, j - 1);
    }
}

proof fn lemma_start_total(highest: nat, sizes: Seq<nat>, i: int, v: nat)
    requires
        0 <= i,
        highest < v <= allocation_start(highest, sizes, i),
    ensures
        exists|k: int| 0 <= k < i && allocated_by(highest, sizes, k, v),
    decreases i,
{
    if v <= allocation_start(highest, sizes, i - 1) {
        lemma_start_total(highest, sizes, i - 1, v);
        let k = choose|k: int| 0 <= k < i - 1 && allocated_by(highest, sizes, k, v);
        assert(0 <= k < i && allocated_by(highest, sizes, k, v));
    } else {
        assert(allocated_by(highest, sizes, i - 1, v));
    }
}

/// Every id is handed out at most once, whatever the sequence of requests: no id
/// is given by two different requests. Together the requests hand out exactly the
/// ids after `highest` up to the sum of their sizes, without gaps.
pub proof fn lemma_allocations_unique(highest: nat, sizes: Seq<nat>)
    ensures
        forall|i: int, j: int, v: nat|
            0 <= i < j < sizes.len() && #[trigger] allocated_by(highest, sizes, i, v)
                ==> !#[trigger] allocated_by(highest, sizes, j, v),
        forall|v: nat|
            #[trigger] handed_out(highest, sizes, v) <==> exists|i: int|
                0 <= i < sizes.len() && #[trigger] allocated_by(highest, sizes, i, v),
{
    assert forall|i: int, j: int, v: nat|
        0 <= i < j < sizes.len() && #[trigger] allocated_by(highest, sizes, i, v)
            implies !#[trigger] allocated_by(highest, sizes, j, v) by {
        lemma_start_monotone(highest, sizes, i + 1, j);
    }
    assert forall|v: nat|
        #[trigger] handed_out(highest, sizes, v) <==> exists|i: int|
            0 <= i < sizes.len() && #[trigger] allocated_by(highest, sizes, i, v) by {
        if highest < v <= allocation_start(highest, sizes, sizes.len() as int) {
            lemma_start_total(highest, sizes, sizes.len() as int, v);
        }
        if exists|i: int| 0 <= i < sizes.len() && #[trigger] allocated_by(highest, sizes, i, v) {
            let i = choose|i: int| 0 <= i < sizes.len() && #[trigger] allocated_by(highest, sizes, i, v);
            lemma_start_monotone(highest, sizes, 0, i);
            lemma_start_monotone(highest, sizes, i + 1, sizes.len() as int);
        }
    }
}

/// Ids handed out by one call come after every id handed out before it: when all
/// of `earlier` are numbered at most `h` (the allocator's highest before the later
/// call, which `allocate` only raises) and all of `later` above it, no id of one
/// equals an id of the other.
pub proof fn lemma_later_ids_fresh(earlier: Seq<Id>, later: Seq<Id>, h: nat)
    requires
        forall|i: int| 0 <= i < earlier.len() ==> (#[trigger] earlier[i]).spec_value() <= h,
        forall|j: int| 0 <= j < later.len() ==> (#[trigger] later[j]).spec_value() > h,
    ensures
        forall|i: int, j: int| 0 <= i < earlier.len() && 0 <= j < later.len() ==> #[trigger] earlier[i] != #[trigger] later[j],
{
}

/// A monotone source of identifiers: it hands out 1, 2, 3, ... in order, each once.
#[derive(Debug)]
pub struct IdAllocator {
    highest: u64,
}

impl IdAllocator {
    /// The highest id number handed out so far (0 when none was).
    pub closed spec fn highest(&self) -> nat {
        self.highest as nat
    }

    /// An allocator that has handed out nothing yet.
    pub fn new() -> (r: IdAllocator)
        ensures
            r.highest() == 0,
    {
        IdAllocator { highest: 0 }
    }

    /// The highest id number handed out so far.
    pub fn highest_allocated(&self) -> (r: u64)
        ensures
            r == self.highest(),
    {
        self.highest
    }

    /// Hands out the next id.
    pub fn allocate_one(&mut self) -> (r: Id)
        requires
            old(self).highest() < u64::MAX,
        ensures
            r.spec_value() == old(self).highest() + 1,
            final(self).highest() == old(self).highest() + 1,
    {
        self.highest = self.highest + 1;
        Id { value: self.highest }
    }

    /// Hands out the next `n` ids, in increasing order, in one step.
    pub fn allocate(&mut self, n: u64) -> (r: Vec<Id>)
        requires
            old(self).highest() + n <= u64::MAX,
        ensures
            final(self).highest() == old(self).highest() + n,
            r@.len() == n,
            forall|i: int| 0 <= i < n ==> #[trigger] r@[i].spec_value() == old(self).highest() + 1 + i,
            forall|i: int| 0 <= i < n ==> old(self).highest() < #[trigger] r@[i].spec_value() <= final(self).highest(),
    {
        let start = self.highest;
        let mut r: Vec<Id> = Vec::new();
        let mut k: u64 = 0;
        while k < n
            invariant
                start == old(self).highest(),
                start + n <= u64::MAX,
                k <= n,
                r@.len() == k,
                forall|i: int| 0 <= i < k ==> #[trigger] r@[i].spec_value() == start + 1 + i,
            decreases n - k,
        {
            r.push(Id { value: start + k + 1 });
            k = k + 1;
        }
        self.highest = start + n;
        r
    }
}

} // verus!
