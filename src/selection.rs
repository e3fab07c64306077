//! Choosing a Rust collection for a C data structure: a backend qualifies when it
//! offers every operation the structure uses, each at most as costly.
use vstd::prelude::*;

verus! {

/// Simplified big-O complexity: `N^time`, times `log N` when `has_log`.
#[derive(Clone, Copy, PartialEq, Eq, Structural, Hash, PartialOrd, Ord, Debug)]
pub struct Complexity {
    /// The exponent on N.
    pub time: u64,
    /// Whether a log N factor is present.
    pub has_log: bool,
}

/// The cost of an operation.
pub type Cost = Complexity;

impl Complexity {
    /// The complexity `N^time`, times `log N` when `has_log`.
    pub fn new(time: u64, has_log: bool) -> (r: Complexity)
        ensures
            r.time == time,
            r.has_log == has_log,
    {
        Complexity { time, has_log }
    }

    /// Whether `self` grows no faster than `other`: by exponent first, then by the
    /// log factor.
    pub open spec fn spec_at_most(self, other: Complexity) -> bool {
        self.time < other.time || (self.time == other.time && (!self.has_log || other.has_log))
    }

    /// Whether `self` grows no faster than `other`.
    pub fn at_most(&self, other: &Complexity) -> (r: bool)
        ensures
            r == self.spec_at_most(*other),
    {
        self.time < other.time || (self.time == other.time && (!self.has_log || other.has_log))
    }
}

/// Abstract operations, enough to describe stacks, queues and deques.
#[derive(Clone, Copy, PartialEq, Eq, Structural, Hash, Debug)]
pub enum AbstractOpLabel {
    PushFront,
    PushBack,
    PopFront,
    PopBack,
    Unsupported,
}

/// An operation together with its cost.
#[derive(Clone, Copy, PartialEq, Eq, Structural, Hash, Debug)]
pub struct AbstractOp {
    pub label: AbstractOpLabel,
    pub cost: Cost,
}

/// What the analysis of a C data structure found: its name and the operations
/// it uses.
#[derive(Debug)]
pub struct CAnalysisResult {
    pub name: String,
    pub ops: Vec<AbstractOp>,
}

/// The Rust collections that a structure can be translated to.
#[derive(Clone, Copy, PartialEq, Eq, Structural, Hash, Debug)]
pub enum RustBackendLabel {
    Vec,
    VecDeque,
}

/// A Rust collection and the operations it offers.
#[derive(Debug)]
pub struct RustBackend {
    pub label: RustBackendLabel,
    pub ops: Vec<AbstractOp>,
}

/// Whether `offered` has an operation labelled `label`.
pub open spec fn offers(offered: Seq<AbstractOp>, label: AbstractOpLabel) -> bool {
    exists|i: int| 0 <= i < offered.len() && offered[i].label == label
}

/// Whether `offered` has the operation `op` at no greater cost.
pub open spec fn offers_efficiently(offered: Seq<AbstractOp>, op: AbstractOp) -> bool {
    exists|i: int| 0 <= i < offered.len() && offered[i].label == op.label && offered[i].cost.spec_at_most(op.cost)
}

/// The labels, in order, of the backends that offer every operation of `ops`
/// at no greater cost.
pub open spec fn selected(backends: Seq<RustBackend>, ops: Seq<AbstractOp>) -> Seq<RustBackendLabel>
    decreases backends.len(),
{
    if backends.len() == 0 {
        Seq::empty()
    } else {
        let rest = selected(backends.drop_last(), ops);
        if forall|j: int| 0 <= j < ops.len() ==> offers_efficiently(backends.last().ops@, #[trigger] ops[j]) {
            rest.push(backends.last().label)
        } else {
            rest
        }
    }
}

fn copy_ops(ops: &[AbstractOp]) -> (r: Vec<AbstractOp>)
    ensures
        r@ == ops@,
{
    let mut r: Vec<AbstractOp> = Vec::new();
    let mut i: usize = 0;
    while i < ops.len()
        invariant
            i <= ops@.len(),
            r@ == ops@.subrange(0, i as int),
        decreases ops@.len() - i,
    {
        r.push(ops[i]);
        i = i + 1;
        assert(r@ =~= ops@.subrange(0, i as int));
    }
    assert(ops@.subrange(0, i as int) =~= ops@);
    r
}

impl RustBackend {
    /// Whether this backend offers every operation of `ops`, by label; costs are
    /// not considered.
    pub fn implements_all(&self, ops: &[AbstractOp]) -> (r: bool)
        ensures
            r == forall|j: int| 0 <= j < ops@.len() ==> offers(self.ops@, #[trigger] ops@[j].label),
    {
        let mut j: usize = 0;
        while j < ops.len()
            invariant
                j <= ops@.len(),
                forall|k: int| 0 <= k < j ==> offers(self.ops@, #[trigger] ops@[k].label),
            decreases ops@.len() - j,
        {
            let mut found = false;
            let mut i: usize = 0;
            while i < self.ops.len()
                invariant
                    i <= self.ops@.len(),
                    j < ops@.len(),
                    found ==> offers(self.ops@, ops@[j as int].label),
                    !found ==> forall|m: int| 0 <= m < i ==> self.ops@[m].label != ops@[j as int].label,
                decreases self.ops@.len() - i,
            {
                if self.ops[i].label == ops[j].label {
                    found = true;
                }
                i = i + 1;
            }
            if !found {
                return false;
            }
            j = j + 1;
        }
        true
    }

    /// Whether this backend offers every operation of `ops` at no greater cost.
    pub fn implements_all_efficiently(&self, ops: &[AbstractOp]) -> (r: bool)
        ensures
            r == forall|j: int| 0 <= j < ops@.len() ==> offers_efficiently(self.ops@, #[trigger] ops@[j]),
    {
        let mut j: usize = 0;
        while j < ops.len()
            invariant
                j <= ops@.len(),
                forall|k: int| 0 <= k < j ==> offers_efficiently(self.ops@, #[trigger] ops@[k]),
            decreases ops@.len() - j,
        {
            let mut found = false;
            let mut i: usize = 0;
            while i < self.ops.len()
                invariant
                    i <= self.ops@.len(),
                    j < ops@.len(),
                    found ==> offers_efficiently(self.ops@, ops@[j as int]),
                    !found ==> forall|m: int| 0 <= m < i ==> !(self.ops@[m].label == ops@[j as int].label
                        && self.ops@[m].cost.spec_at_most(ops@[j as int].cost)),
                decreases self.ops@.len() - i,
            {
                if self.ops[i].label == ops[j].label && self.ops[i].cost.at_most(&ops[j].cost) {
                    found = true;
                }
                i = i + 1;
            }
            if !found {
                assert(!offers_efficiently(self.ops@, ops@[j as int])) by {
                    if offers_efficiently(self.ops@, ops@[j as int]) {
                        let m = choose|m: int| 0 <= m < self.ops@.len() && self.ops@[m].label == ops@[j as int].label
                            && self.ops@[m].cost.spec_at_most(ops@[j as int].cost);
                        assert(!(self.ops@[m].label == ops@[j as int].label
                            && self.ops@[m].cost.spec_at_most(ops@[j as int].cost)));
                    }
                }
                return false;
            }
            j = j + 1;
        }
        true
    }

    /// `Vec`: push and pop at the back, in O(1).
    pub fn vec() -> (r: RustBackend)
        ensures
            r.label == RustBackendLabel::Vec,
            r.ops@ == seq![
                AbstractOp { label: AbstractOpLabel::PushBack, cost: Complexity { time: 0, has_log: false } },
                AbstractOp { label: AbstractOpLabel::PopBack, cost: Complexity { time: 0, has_log: false } },
            ],
    {
        let r = RustBackend {
            label: RustBackendLabel::Vec,
            ops: vec![
                AbstractOp { label: AbstractOpLabel::PushBack, cost: Complexity::new(0, false) },
                AbstractOp { label: AbstractOpLabel::PopBack, cost: Complexity::new(0, false) },
            ],
        };
        assert(r.ops@ =~= seq![
            AbstractOp { label: AbstractOpLabel::PushBack, cost: Complexity { time: 0, has_log: false } },
            AbstractOp { label: AbstractOpLabel::PopBack, cost: Complexity { time: 0, has_log: false } },
        ]);
        r
    }

    /// `VecDeque`: push and pop at both ends, in O(1).
    pub fn vecdeque() -> (r: RustBackend)
        ensures
            r.label == RustBackendLabel::VecDeque,
            r.ops@ == seq![
                AbstractOp { label: AbstractOpLabel::PushFront, cost: Complexity { time: 0, has_log: false } },
                AbstractOp { label: AbstractOpLabel::PushBack, cost: Complexity { time: 0, has_log: false } },
                AbstractOp { label: AbstractOpLabel::PopFront, cost: Complexity { time: 0, has_log: false } },
                AbstractOp { label: AbstractOpLabel::PopBack, cost: Complexity { time: 0, has_log: false } },
            ],
    {
        let r = RustBackend {
            label: RustBackendLabel::VecDeque,
            ops: vec![
                AbstractOp { label: AbstractOpLabel::PushFront, cost: Complexity::new(0, false) },
                AbstractOp { label: AbstractOpLabel::PushBack, cost: Complexity::new(0, false) },
                AbstractOp { label: AbstractOpLabel::PopFront, cost: Complexity::new(0, false) },
                AbstractOp { label: AbstractOpLabel::PopBack, cost: Complexity::new(0, false) },
            ],
        };
        assert(r.ops@ =~= seq![
            AbstractOp { label: AbstractOpLabel::PushFront, cost: Complexity { time: 0, has_log: false } },
            AbstractOp { label: AbstractOpLabel::PushBack, cost: Complexity { time: 0, has_log: false } },
            AbstractOp { label: AbstractOpLabel::PopFront, cost: Complexity { time: 0, has_log: false } },
            AbstractOp { label: AbstractOpLabel::PopBack, cost: Complexity { time: 0, has_log: false } },
        ]);
        r
    }

    /// A backend with the same label and operations.
    fn duplicate(&self) -> (r: RustBackend)
        ensures
            r.label == self.label,
            r.ops@ == self.ops@,
    {
        RustBackend { label: self.label, ops: copy_ops(self.ops.as_slice()) }
    }
}

/// The candidate backends that structures are matched against.
#[derive(Debug)]
pub struct TranslationCtx {
    backends: Vec<RustBackend>,
}

impl TranslationCtx {
    /// The candidate backends, in order.
    pub closed spec fn backends(&self) -> Seq<RustBackend> {
        self.backends@
    }

    /// The context with `Vec` and `VecDeque`, in that order.
    pub fn new() -> (r: TranslationCtx)
        ensures
            r.backends().len() == 2,
            r.backends()[0].label == RustBackendLabel::Vec,
            r.backends()[1].label == RustBackendLabel::VecDeque,
            r.backends()[0].ops@ == seq![
                AbstractOp { label: AbstractOpLabel::PushBack, cost: Complexity { time: 0, has_log: false } },
                AbstractOp { label: AbstractOpLabel::PopBack, cost: Complexity { time: 0, has_log: false } },
            ],
            r.backends()[1].ops@ == seq![
                AbstractOp { label: AbstractOpLabel::PushFront, cost: Complexity { time: 0, has_log: false } },
                AbstractOp { label: AbstractOpLabel::PushBack, cost: Complexity { time: 0, has_log: false } },
                AbstractOp { label: AbstractOpLabel::PopFront, cost: Complexity { time: 0, has_log: false } },
                AbstractOp { label: AbstractOpLabel::PopBack, cost: Complexity { time: 0, has_log: false } },
            ],
    {
        TranslationCtx { backends: vec![RustBackend::vec(), RustBackend::vecdeque()] }
    }

    /// The context with exactly the given backends, in order.
    pub fn from_rust_backends(backends: &[RustBackend]) -> (r: TranslationCtx)
        ensures
            r.backends().len() == backends@.len(),
            forall|i: int| 0 <= i < backends@.len() ==> (#[trigger] r.backends()[i]).label == backends@[i].label
                && r.backends()[i].ops@ == backends@[i].ops@,
    {
        let mut out: Vec<RustBackend> = Vec::new();
        let mut i: usize = 0;
        while i < backends.len()
            invariant
                i <= backends@.len(),
                out@.len() == i,
                forall|k: int| 0 <= k < i ==> (#[trigger] out@[k]).label == backends@[k].label
                    && out@[k].ops@ == backends@[k].ops@,
            decreases backends@.len() - i,
        {
            out.push(backends[i].duplicate());
            i = i + 1;
        }
        TranslationCtx { backends: out }
    }

    /// The labels, in order, of the backends that offer every operation of the
    /// structure at no greater cost.
    pub fn select_rust_struct(&self, c_analysis_result: CAnalysisResult) -> (r: Vec<RustBackendLabel>)
        ensures
            r@ == selected(self.backends(), c_analysis_result.ops@),
    {
        let ops = c_analysis_result.ops;
        let mut r: Vec<RustBackendLabel> = Vec::new();
        let mut i: usize = 0;
        while i < self.backends.len()
            invariant
                i <= self.backends@.len(),
                r@ == selected(self.backends@.subrange(0, i as int), ops@),
            decreases self.backends@.len() - i,
        {
            let b = &self.backends[i];
            assert(self.backends@.subrange(0, i + 1).drop_last() =~= self.backends@.subrange(0, i as int));
            if b.implements_all_efficiently(ops.as_slice()) {
                r.push(b.label);
            }
            i = i + 1;
        }
        assert(self.backends@.subrange(0, i as int) =~= self.backends@);
        r
    }
}

} // verus!
