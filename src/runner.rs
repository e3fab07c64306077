//! The scheduler's queue, the decision made for each pending invocation, and the
//! bookkeeping of running invocations.
use vstd::prelude::*;
use crate::edit::Edit;
use crate::id::Id;
use crate::organizer::{ApplyError, NewEditError, Organizer};

verus! {

/// What a tool reports about whether it can run against a snapshot.
#[derive(Debug)]
pub enum MightWriteOutcome {
    /// The tool will never be runnable: discard it.
    NotRunnable,
    /// The tool can run now and may overwrite these pre-existing ids.
    Runnable(Vec<Id>),
    /// The tool's prerequisites are missing: try again after the IR changes.
    TryAgain,
}

/// What the scheduler does with a tool it has just attempted.
#[derive(Debug)]
pub enum NextInvocationOutcome<T, E> {
    /// Put the tool back at the tail of the queue.
    TryLater(T),
    /// Drop the tool: it ran, or it never will.
    DontTryAgain,
    /// Abort the tick and report this error.
    Error(E),
}

/// The per-tool step of a scheduler tick, supplied by the main loop.
pub trait Attempt<T, E> {
    /// Tries to start `tool`: asks what it might write, reserves, and dispatches.
    fn attempt(&mut self, tool: T) -> NextInvocationOutcome<T, E>;
}

/// How one attempt of a walk was settled.
pub enum Settled<T> {
    /// The tool was put back at the tail of the queue.
    Kept(T),
    /// The tool was dropped.
    Dropped,
    /// The walk stopped on an error.
    Stopped,
}

/// What settling `outcome` records.
pub open spec fn settled_as<T, E>(outcome: NextInvocationOutcome<T, E>) -> Settled<T> {
    match outcome {
        NextInvocationOutcome::TryLater(t) => Settled::Kept(t),
        NextInvocationOutcome::DontTryAgain => Settled::Dropped,
        NextInvocationOutcome::Error(_) => Settled::Stopped,
    }
}

/// The tools put back by a sequence of settled attempts, in order.
pub open spec fn kept_of<T>(s: Seq<Settled<T>>) -> Seq<T>
    decreases s.len(),
{
    if s.len() == 0 {
        Seq::empty()
    } else {
        match s.last() {
            Settled::Kept(t) => kept_of(s.drop_last()).push(t),
            _ => kept_of(s.drop_last()),
        }
    }
}

/// A FIFO queue of pending tool invocations, with a record of its last walk.
pub struct Scheduler<T> {
    queued: Vec<T>,
    walked: Ghost<Seq<T>>,
    settled: Ghost<Seq<Settled<T>>>,
}

/// One walk over the queue: the invocations not yet handed out, oldest first,
/// those put back so far, and the record of what was handed out and how each
/// attempt was settled.
pub struct Tick<T> {
    pending: Vec<T>,
    kept: Vec<T>,
    handed: Ghost<Seq<T>>,
    settled: Ghost<Seq<Settled<T>>>,
}

impl<T> Tick<T> {
    /// The invocations not yet handed out, oldest first.
    pub closed spec fn pending(&self) -> Seq<T> {
        self.pending@
    }

    /// The invocations put back during this walk, in order.
    pub closed spec fn kept(&self) -> Seq<T> {
        self.kept@
    }

    /// The invocations handed out during this walk, in order.
    pub closed spec fn handed(&self) -> Seq<T> {
        self.handed@
    }

    /// How each attempt of this walk was settled, in order.
    pub closed spec fn settled(&self) -> Seq<Settled<T>> {
        self.settled@
    }

    /// Hands out the oldest invocation not yet handed out; `None` when the walk is
    /// over.
    pub fn next_tool(&mut self) -> (r: Option<T>)
        ensures
            old(self).pending().len() == 0 ==> r is None && final(self).pending() == old(self).pending()
                && final(self).kept() == old(self).kept() && final(self).handed() == old(self).handed()
                && final(self).settled() == old(self).settled(),
            old(self).pending().len() > 0 ==> r == Some(old(self).pending()[0])
                && final(self).pending() == old(self).pending().drop_first()
                && final(self).kept() == old(self).kept()
                && final(self).handed() == old(self).handed().push(old(self).pending()[0])
                && final(self).settled() == old(self).settled(),
    {
        if self.pending.len() == 0 {
            None
        } else {
            let t = self.pending.remove(0);
            assert(self.pending@ =~= old(self).pending().drop_first());
            self.handed = Ghost(self.handed@.push(t));
            Some(t)
        }
    }

    /// Applies the outcome of one attempt: `TryLater` puts its invocation back,
    /// `DontTryAgain` drops it, and `Error` hands the error back. The invocations
    /// not yet handed out are left as they are.
    pub fn settle<E>(&mut self, outcome: NextInvocationOutcome<T, E>) -> (r: Option<E>)
        ensures
            final(self).pending() == old(self).pending(),
            final(self).handed() == old(self).handed(),
            final(self).settled() == old(self).settled().push(settled_as(outcome)),
            match outcome {
                NextInvocationOutcome::TryLater(t) => final(self).kept() == old(self).kept().push(t) && r is None,
                NextInvocationOutcome::DontTryAgain => final(self).kept() == old(self).kept() && r is None,
                NextInvocationOutcome::Error(e) => final(self).kept() == old(self).kept() && r == Some(e),
            },
    {
        let ghost record = settled_as(outcome);
        self.settled = Ghost(self.settled@.push(record));
        match outcome {
            NextInvocationOutcome::TryLater(t) => {
                self.kept.push(t);
                None
            },
            NextInvocationOutcome::DontTryAgain => None,
            NextInvocationOutcome::Error(e) => Some(e),
        }
    }
}

impl<T> Scheduler<T> {
    /// The pending invocations, oldest first.
    pub closed spec fn queue(&self) -> Seq<T> {
        self.queued@
    }

    /// The invocations handed out by the last walk, in order.
    pub closed spec fn last_walked(&self) -> Seq<T> {
        self.walked@
    }

    /// How each attempt of the last walk was settled, in order.
    pub closed spec fn last_settled(&self) -> Seq<Settled<T>> {
        self.settled@
    }

    /// A scheduler with nothing queued.
    pub fn new() -> (r: Scheduler<T>)
        ensures
            r.queue().len() == 0,
    {
        Scheduler { queued: Vec::new(), walked: Ghost(Seq::empty()), settled: Ghost(Seq::empty()) }
    }

    /// Appends `invocation` to the queue.
    pub fn queue_invocation(&mut self, invocation: T)
        ensures
            final(self).queue() == old(self).queue().push(invocation),
            final(self).last_walked() == old(self).last_walked(),
            final(self).last_settled() == old(self).last_settled(),
    {
        self.queued.push(invocation);
    }

    /// The number of pending invocations.
    pub fn len(&self) -> (r: usize)
        ensures
            r == self.queue().len(),
    {
        self.queued.len()
    }

    /// Starts a walk: every queued invocation, oldest first, is pending in it,
    /// and the queue is empty until the walk ends.
    pub fn start_tick(&mut self) -> (r: Tick<T>)
        ensures
            r.pending() == old(self).queue(),
            r.kept().len() == 0,
            r.handed().len() == 0,
            r.settled().len() == 0,
            final(self).queue().len() == 0,
            final(self).last_walked() == old(self).last_walked(),
            final(self).last_settled() == old(self).last_settled(),
    {
        let mut pending: Vec<T> = Vec::new();
        std::mem::swap(&mut pending, &mut self.queued);
        Tick { pending, kept: Vec::new(), handed: Ghost(Seq::empty()), settled: Ghost(Seq::empty()) }
    }

    /// Ends a walk: after what was queued meanwhile come the invocations put back,
    /// then those never handed out. The walk's record becomes the last walk.
    pub fn finish_tick(&mut self, tick: Tick<T>)
        ensures
            final(self).queue() == old(self).queue() + tick.kept() + tick.pending(),
            final(self).last_walked() == tick.handed(),
            final(self).last_settled() == tick.settled(),
    {
        let mut tick = tick;
        let ghost kept = tick.kept@;
        let ghost pending = tick.pending@;
        self.walked = Ghost(tick.handed@);
        self.settled = Ghost(tick.settled@);
        self.queued.append(&mut tick.kept);
        self.queued.append(&mut tick.pending);
        assert(self.queued@ =~= old(self).queue() + kept + pending);
    }

    /// Walks the queue once: each invocation, oldest first, goes to `attempt` once;
    /// `TryLater` puts it back at the tail, `DontTryAgain` drops it, and `Error`
    /// stops the walk and returns the error, keeping the invocations not yet
    /// attempted after those put back. On an empty queue `attempt` is not touched.
    /// The walk is recorded in `last_walked` and `last_settled`.
    pub fn next_invocations<E, A: Attempt<T, E>>(&mut self, attempt: &mut A) -> (r: Result<(), E>)
        ensures
            ({
                let q = old(self).queue();
                let w = final(self).last_walked();
                let st = final(self).last_settled();
                &&& w.len() == st.len()
                &&& w.len() <= q.len()
                &&& w == q.subrange(0, w.len() as int)
                &&& forall|k: int| 0 <= k < st.len() - 1 ==> !(#[trigger] st[k] is Stopped)
                &&& (r is Ok <==> w.len() == q.len() && (st.len() == 0 || !(st.last() is Stopped)))
                &&& r is Err ==> st.len() > 0 && st.last() is Stopped
                &&& final(self).queue() == kept_of(st) + q.subrange(w.len() as int, q.len() as int)
            }),
            old(self).queue().len() == 0 ==> r is Ok && final(self).queue().len() == 0 && *final(attempt) == *old(attempt),
    {
        let ghost q = self.queue();
        let mut tick = self.start_tick();
        if tick.pending.len() == 0 {
            self.finish_tick(tick);
            assert(self.queue() =~= Seq::<T>::empty());
            assert(kept_of(self.last_settled()) =~= Seq::<T>::empty());
            return Ok(());
        }
        loop
            invariant
                self.queue().len() == 0,
                q == old(self).queue(),
                tick.handed().len() == tick.settled().len(),
                tick.handed().len() <= q.len(),
                tick.handed() == q.subrange(0, tick.handed().len() as int),
                tick.pending() == q.subrange(tick.handed().len() as int, q.len() as int),
                tick.kept() == kept_of(tick.settled()),
                forall|k: int| 0 <= k < tick.settled().len() ==> !(#[trigger] tick.settled()[k] is Stopped),
            ensures
                tick.pending().len() == 0,
                self.queue().len() == 0,
                tick.handed().len() == tick.settled().len(),
                tick.handed() == q.subrange(0, tick.handed().len() as int),
                tick.pending() == q.subrange(tick.handed().len() as int, q.len() as int),
                tick.kept() == kept_of(tick.settled()),
                forall|k: int| 0 <= k < tick.settled().len() ==> !(#[trigger] tick.settled()[k] is Stopped),
            decreases tick.pending().len(),
        {
            let ghost h: int = tick.handed().len() as int;
            let tool = match tick.next_tool() {
                Some(t) => t,
                None => {
                    break;
                },
            };
            assert(tick.handed() =~= q.subrange(0, h + 1));
            assert(tick.pending() =~= q.subrange(h + 1, q.len() as int));
            let ghost s0 = tick.settled();
            let outcome = attempt.attempt(tool);
            match tick.settle(outcome) {
                Some(e) => {
                    let ghost t = tick;
                    self.finish_tick(tick);
                    assert(t.settled().drop_last() == s0);
                    assert(kept_of(t.settled()) == kept_of(s0));
                    assert(self.queue() =~= kept_of(t.settled()) + q.subrange(t.handed().len() as int, q.len() as int));
                    return Err(e);
                },
                None => {
                    assert(tick.settled().drop_last() == s0);
                },
            }
        }
        let ghost t = tick;
        assert(t.pending().len() == 0);
        assert(t.handed().len() == q.len());
        assert(t.settled().len() > 0 ==> !(t.settled()[t.settled().len() - 1] is Stopped));
        self.finish_tick(tick);
        assert(self.queue() =~= kept_of(t.settled()) + q.subrange(t.handed().len() as int, q.len() as int));
        Ok(())
    }
}

/// What the main loop does with a tool after asking it what it might write.
#[derive(Debug)]
pub enum Dispatch {
    /// Run the tool with this edit, which holds the reservations it asked for.
    Spawn(Edit),
    /// Keep the tool queued and ask again on a later tick.
    Retry,
    /// Drop the tool.
    Drop,
}

/// Decides what to do with a tool given its answer to `might_write`: a tool that
/// is not runnable is dropped; one that must wait, or some of whose ids are in use
/// by a live edit, is retried; one that names an unknown id is dropped; otherwise
/// an edit reserving its ids is made for it.
pub fn plan_invocation(organizer: &mut Organizer, outcome: MightWriteOutcome) -> (r: Dispatch)
    requires
        old(organizer).wf(),
        old(organizer).tokens() < u64::MAX,
    ensures
        final(organizer).wf(),
        final(organizer).ir() == old(organizer).ir(),
        final(organizer).versions() == old(organizer).versions(),
        match outcome {
            MightWriteOutcome::NotRunnable => r is Drop && *final(organizer) == *old(organizer),
            MightWriteOutcome::TryAgain => r is Retry && *final(organizer) == *old(organizer),
            MightWriteOutcome::Runnable(ids) => {
                &&& (exists|i: int| 0 <= i < ids@.len() && old(organizer).reserved().contains(#[trigger] ids@[i]))
                    ==> (r is Retry && *final(organizer) == *old(organizer))
                &&& (forall|i: int| 0 <= i < ids@.len() ==> !old(organizer).reserved().contains(#[trigger] ids@[i])) ==> {
                    &&& (exists|i: int| 0 <= i < ids@.len() && !old(organizer).known(#[trigger] ids@[i]))
                        ==> (r is Drop && *final(organizer) == *old(organizer))
                    &&& (forall|i: int| 0 <= i < ids@.len() ==> old(organizer).known(#[trigger] ids@[i]))
                        ==> (r matches Dispatch::Spawn(e) && e.wf() && e.reserved() == ids@.to_set()
                        && e.allocated() == Set::<Id>::empty()
                        && e.staged() == Map::<Id, crate::repr::Representation>::empty()
                        && e.token() == final(organizer).tokens()
                        && final(organizer).tokens() == old(organizer).tokens() + 1
                        && final(organizer).handed_out() == old(organizer).handed_out()
                        && final(organizer).reserved_by(e.token()) == ids@.to_set()
                        && forall|t: u64| t != e.token() ==> #[trigger] final(organizer).reserved_by(t) == old(organizer).reserved_by(t))
                }
            },
        },
{
    match outcome {
        MightWriteOutcome::NotRunnable => Dispatch::Drop,
        MightWriteOutcome::TryAgain => Dispatch::Retry,
        MightWriteOutcome::Runnable(ids) => match organizer.new_edit(&ids) {
            Ok(e) => Dispatch::Spawn(e),
            Err(NewEditError::IdInUse) => Dispatch::Retry,
            Err(NewEditError::UnknownId) => Dispatch::Drop,
        },
    }
}

/// How a tool invocation failed.
#[derive(Clone, Debug)]
pub enum ToolFailure {
    /// The tool returned an error with this message.
    Error(String),
    /// The tool panicked with this message.
    Panic(String),
}

/// The record of one finished invocation: an applied edit's version, a failed
/// application, or the tool's failure.
#[derive(Clone, Debug)]
pub enum Reaped {
    Applied(u64),
    Rejected(ApplyError),
    Failed(ToolFailure),
}

/// The table of running invocations: each worker with the token of its edit.
#[derive(Debug)]
pub struct ToolRunner {
    running: Vec<(u64, u64)>,
}

impl ToolRunner {
    /// The running invocations: (worker, token of the edit it was given).
    pub closed spec fn running(&self) -> Seq<(u64, u64)> {
        self.running@
    }

    /// Whether each worker appears once.
    pub open spec fn wf(&self) -> bool {
        forall|i: int, j: int|
            0 <= i < j < self.running().len() ==> (#[trigger] self.running()[i]).0 != (#[trigger] self.running()[j]).0
    }

    /// Whether `worker` is running.
    pub open spec fn is_running(&self, worker: u64) -> bool {
        exists|i: int| 0 <= i < self.running().len() && (#[trigger] self.running()[i]).0 == worker
    }

    /// A runner with nothing running.
    pub fn new() -> (r: ToolRunner)
        ensures
            r.wf(),
            r.running().len() == 0,
    {
        ToolRunner { running: Vec::new() }
    }

    /// Records that `worker` runs with the edit of token `token`.
    pub fn register(&mut self, worker: u64, token: u64)
        requires
            old(self).wf(),
            !old(self).is_running(worker),
        ensures
            final(self).wf(),
            final(self).running() == old(self).running().push((worker, token)),
    {
        self.running.push((worker, token));
        assert forall|i: int, j: int|
            0 <= i < j < self.running().len() implies (#[trigger] self.running()[i]).0 != (#[trigger] self.running()[j]).0 by {
            assert(self.running()[i] == old(self).running()[i] || i == old(self).running().len());
            if j < old(self).running().len() {
                assert(self.running()[j] == old(self).running()[j]);
            } else {
                assert(self.running()[i] == old(self).running()[i]);
            }
        }
    }

    /// Whether `worker` is running.
    pub fn contains_worker(&self, worker: u64) -> (r: bool)
        ensures
            r == self.is_running(worker),
    {
        let mut i: usize = 0;
        while i < self.running.len()
            invariant
                i <= self.running@.len(),
                forall|j: int| 0 <= j < i ==> (#[trigger] self.running()[j]).0 != worker,
            decreases self.running@.len() - i,
        {
            if self.running[i].0 == worker {
                assert(self.running()[i as int].0 == worker);
                return true;
            }
            i = i + 1;
        }
        false
    }

    /// The number of running invocations.
    pub fn in_flight(&self) -> (r: usize)
        ensures
            r == self.running().len(),
    {
        self.running.len()
    }

    /// Takes `worker` out of the table and returns the token of its edit.
    fn take(&mut self, worker: u64) -> (r: Option<u64>)
        requires
            old(self).wf(),
        ensures
            final(self).wf(),
            match r {
                Some(t) => forall|i: int| 0 <= i < old(self).running().len() && (#[trigger] old(self).running()[i]).0 == worker
                    ==> old(self).running()[i].1 == t,
                None => forall|i: int| 0 <= i < old(self).running().len() ==> old(self).running()[i].0 != worker,
            },
            final(self).running().len() <= old(self).running().len(),
            !final(self).is_running(worker),
            forall|w: u64| #[trigger] final(self).is_running(w) ==> old(self).is_running(w),
            forall|x: (u64, u64)| old(self).running().contains(x) && x.0 != worker ==> #[trigger] final(self).running().contains(x),
    {
        let mut i: usize = 0;
        while i < self.running.len()
            invariant
                i <= self.running@.len(),
                *self == *old(self),
                old(self).wf(),
                forall|j: int| 0 <= j < i ==> self.running@[j].0 != worker,
            decreases self.running@.len() - i,
        {
            if self.running[i].0 == worker {
                let e = self.running.remove(i);
                assert(old(self).running()[i as int] == e);
                assert forall|a: int, b: int|
                    0 <= a < b < self.running().len() implies (#[trigger] self.running()[a]).0 != (#[trigger] self.running()[b]).0 by {
                    let a0 = if a < i { a } else { a + 1 };
                    let b0 = if b < i { b } else { b + 1 };
                    assert(self.running()[a] == old(self).running()[a0]);
                    assert(self.running()[b] == old(self).running()[b0]);
                    assert(old(self).running()[a0].0 != old(self).running()[b0].0);
                }
                assert forall|k: int| 0 <= k < old(self).running().len() && (#[trigger] old(self).running()[k]).0 == worker
                    implies old(self).running()[k].1 == e.1 by {
                    if k < i {
                        assert(old(self).running()[k].0 != old(self).running()[i as int].0);
                    } else if k > i {
                        assert(old(self).running()[i as int].0 != old(self).running()[k].0);
                    }
                }
                assert forall|k: int| 0 <= k < self.running().len() implies (#[trigger] self.running()[k]).0 != worker by {
                    let k0 = if k < i { k } else { k + 1 };
                    assert(self.running()[k] == old(self).running()[k0]);
                    if k0 < i {
                        assert(old(self).running()[k0].0 != old(self).running()[i as int].0);
                    } else {
                        assert(old(self).running()[i as int].0 != old(self).running()[k0].0);
                    }
                }
                assert forall|x: (u64, u64)| old(self).running().contains(x) && x.0 != worker implies #[trigger] self.running().contains(x) by {
                    let k0 = choose|k0: int| 0 <= k0 < old(self).running().len() && old(self).running()[k0] == x;
                    if k0 < i {
                        assert(self.running()[k0] == x);
                    } else {
                        assert(k0 != i);
                        assert(self.running()[k0 - 1] == x);
                    }
                }
                assert forall|w: u64| #[trigger] self.is_running(w) implies old(self).is_running(w) by {
                    let k = choose|k: int| 0 <= k < self.running().len() && (#[trigger] self.running()[k]).0 == w;
                    let k0 = if k < i { k } else { k + 1 };
                    assert(self.running()[k] == old(self).running()[k0]);
                }
                return Some(e.1);
            }
            i = i + 1;
        }
        None
    }

    /// Handles the end of `worker`: applies its edit when it succeeded, and in
    /// every case releases the reservations made for it. A failed invocation
    /// leaves the IR and its version number as they were.
    pub fn reap(&mut self, organizer: &mut Organizer, worker: u64, result: Result<Edit, ToolFailure>) -> (r: Reaped)
        requires
            old(self).wf(),
            old(organizer).wf(),
            old(organizer).versions() < u64::MAX,
            result matches Ok(e) ==> e.wf(),
        ensures
            final(self).wf(),
            final(organizer).wf(),
            !final(self).is_running(worker),
            forall|w: u64| #[trigger] final(self).is_running(w) ==> old(self).is_running(w),
            forall|x: (u64, u64)| old(self).running().contains(x) && x.0 != worker ==> #[trigger] final(self).running().contains(x),
            forall|u: u64| #[trigger] final(organizer).reserved_by(u).subset_of(old(organizer).reserved_by(u)),
            final(organizer).versions() <= old(organizer).versions() + 1,
            final(organizer).tokens() == old(organizer).tokens(),
            final(self).running().len() <= old(self).running().len(),
            result matches Ok(e) ==> {
                &&& final(organizer).reserved_by(e.token()) == Set::<Id>::empty()
                &&& !(r is Failed)
                &&& (r is Applied <==> forall|id: Id| #[trigger] e.staged().contains_key(id) ==> e.allocated().contains(id)
                    || old(organizer).reserved_by(e.token()).contains(id))
                &&& r matches Reaped::Applied(v) ==> final(organizer).versions() == old(organizer).versions() + 1
                &&& !(r is Applied) ==> final(organizer).versions() == old(organizer).versions()
                &&& r matches Reaped::Applied(v) ==> (v == old(organizer).versions()
                    && final(organizer).ir()@ == old(organizer).ir()@.union_prefer_right(e.staged()))
                &&& r is Rejected ==> final(organizer).ir() == old(organizer).ir()
            },
            result matches Err(f) ==> {
                &&& r == Reaped::Failed(f)
                &&& final(organizer).ir() == old(organizer).ir()
                &&& final(organizer).versions() == old(organizer).versions()
            },
            forall|i: int| 0 <= i < old(self).running().len() && (#[trigger] old(self).running()[i]).0 == worker
                ==> final(organizer).reserved_by(old(self).running()[i].1) == Set::<Id>::empty(),
    {
        let token = self.take(worker);
        let r = match result {
            Ok(edit) => match organizer.apply_edit(edit) {
                Ok(v) => Reaped::Applied(v),
                Err(e) => Reaped::Rejected(e),
            },
            Err(f) => Reaped::Failed(f),
        };
        match token {
            Some(t) => {
                organizer.release(t);
            },
            None => {},
        }
        r
    }

    /// Handles a batch of finished workers, in order, as `reap` does. With nothing
    /// in flight it returns `None` at once and changes nothing. Otherwise it returns
    /// one record per finished worker: the IR is then the old one with the edits
    /// that applied laid over it in order, one version per applied edit; a failed
    /// worker's record is `Failed`; an edit that wrote only ids it allocated is
    /// applied; and no reservation of a completed edit or worker is left.
    pub fn process_results(
        &mut self,
        organizer: &mut Organizer,
        completed: Vec<(u64, Result<Edit, ToolFailure>)>,
    ) -> (r: Option<Vec<Reaped>>)
        requires
            old(self).wf(),
            old(organizer).wf(),
            old(organizer).versions() + completed@.len() <= u64::MAX,
            forall|i: int| 0 <= i < completed@.len() ==> ((#[trigger] completed@[i]).1 matches Ok(e) ==> e.wf()),
        ensures
            final(self).wf(),
            final(organizer).wf(),
            final(organizer).tokens() == old(organizer).tokens(),
            old(self).running().len() == 0 ==> r is None && *final(self) == *old(self) && *final(organizer) == *old(organizer),
            old(self).running().len() > 0 ==> (r matches Some(v) && v@.len() == completed@.len()
                && final(organizer).ir()@ == applied_fold(old(organizer).ir()@, completed@, v@)
                && final(organizer).versions() == old(organizer).versions() + count_applied(v@)
                && forall|i: int| 0 <= i < completed@.len() ==> {
                    &&& ((#[trigger] completed@[i]).1 is Err ==> v@[i] is Failed)
                    &&& (completed@[i].1 matches Ok(e) ==> {
                        &&& !(v@[i] is Failed)
                        &&& (forall|id: Id| #[trigger] e.staged().contains_key(id) ==> e.allocated().contains(id)) ==> v@[i] is Applied
                        &&& final(organizer).reserved_by(e.token()) == Set::<Id>::empty()
                    })
                }),
            forall|i: int, j: int| 0 <= i < completed@.len() && 0 <= j < old(self).running().len()
                && (#[trigger] old(self).running()[j]).0 == (#[trigger] completed@[i]).0
                ==> final(organizer).reserved_by(old(self).running()[j].1) == Set::<Id>::empty(),
            forall|i: int| 0 <= i < completed@.len() ==> !final(self).is_running(#[trigger] completed@[i].0),
            forall|w: u64| #[trigger] final(self).is_running(w) ==> old(self).is_running(w),
    {
        if self.running.len() == 0 {
            return None;
        }
        let ghost all = completed@;
        let ghost orig = self.running();
        assert forall|j: int| 0 <= j < orig.len() implies #[trigger] self.running().contains(orig[j]) by {
            assert(self.running()[j] == orig[j]);
        }
        assert(all.subrange(0, 0) =~= Seq::<(u64, Result<Edit, ToolFailure>)>::empty());
        let mut completed = completed;
        let mut out: Vec<Reaped> = Vec::new();
        while completed.len() > 0
            invariant
                self.wf(),
                organizer.wf(),
                organizer.tokens() == old(organizer).tokens(),
                orig == old(self).running(),
                out@.len() + completed@.len() == all.len(),
                completed@ == all.subrange(out@.len() as int, all.len() as int),
                organizer.versions() + completed@.len() <= u64::MAX,
                organizer.ir()@ == applied_fold(old(organizer).ir()@, all.subrange(0, out@.len() as int), out@),
                organizer.versions() == old(organizer).versions() + count_applied(out@),
                forall|i: int| 0 <= i < completed@.len() ==> ((#[trigger] completed@[i]).1 matches Ok(e) ==> e.wf()),
                forall|i: int| 0 <= i < out@.len() ==> !self.is_running(#[trigger] all[i].0),
                forall|w: u64| #[trigger] self.is_running(w) ==> old(self).is_running(w),
                forall|i: int| 0 <= i < out@.len() ==> {
                    &&& ((#[trigger] all[i]).1 is Err ==> out@[i] is Failed)
                    &&& (all[i].1 matches Ok(e) ==> {
                        &&& !(out@[i] is Failed)
                        &&& (forall|id: Id| #[trigger] e.staged().contains_key(id) ==> e.allocated().contains(id)) ==> out@[i] is Applied
                        &&& organizer.reserved_by(e.token()) == Set::<Id>::empty()
                    })
                },
                forall|i: int, j: int| 0 <= i < out@.len() && 0 <= j < orig.len() && (#[trigger] orig[j]).0 == (#[trigger] all[i]).0
                    ==> organizer.reserved_by(orig[j].1) == Set::<Id>::empty(),
                forall|j: int| 0 <= j < orig.len() && (forall|i: int| 0 <= i < out@.len() ==> (#[trigger] all[i]).0 != orig[j].0)
                    ==> #[trigger] self.running().contains(orig[j]),
            decreases completed@.len(),
        {
            assert(completed@[0].1 matches Ok(e) ==> e.wf());
            let ghost first = completed@[0];
            let (worker, result) = completed.remove(0);
            assert((worker, result) == first);
            let ghost before = out@.len();
            let ghost self0 = *self;
            let ghost org0 = *organizer;
            let ghost out0 = out@;
            proof {
                assert(all[before as int] == first);
            }
            let rec = self.reap(organizer, worker, result);
            out.push(rec);
            proof {
                let k = before as int;
                assert(completed@ =~= all.subrange(out@.len() as int, all.len() as int));
                assert(all.subrange(0, k + 1).drop_last() =~= all.subrange(0, k));
                assert(out@.drop_last() =~= out0);
                assert(all.subrange(0, k + 1).last() == first);
                assert(out@.last() == rec);
                assert(organizer.ir()@ == applied_fold(old(organizer).ir()@, all.subrange(0, out@.len() as int), out@));
                assert(count_applied(out@) == count_applied(out0) + if rec is Applied { 1nat } else { 0nat });
                assert forall|i: int| 0 <= i < out@.len() implies !self.is_running(#[trigger] all[i].0) by {
                    if i < k {
                        assert(!self0.is_running(all[i].0));
                    } else {
                        assert(all[i].0 == worker);
                    }
                }
                assert forall|i: int| 0 <= i < out@.len() implies {
                    &&& ((#[trigger] all[i]).1 is Err ==> out@[i] is Failed)
                    &&& (all[i].1 matches Ok(e) ==> {
                        &&& !(out@[i] is Failed)
                        &&& (forall|id: Id| #[trigger] e.staged().contains_key(id) ==> e.allocated().contains(id)) ==> out@[i] is Applied
                        &&& organizer.reserved_by(e.token()) == Set::<Id>::empty()
                    })
                } by {
                    if i < k {
                        assert(out@[i] == out0[i]);
                        if let Ok(e) = all[i].1 {
                            assert(organizer.reserved_by(e.token()).subset_of(org0.reserved_by(e.token())));
                            assert(org0.reserved_by(e.token()) == Set::<Id>::empty());
                            assert(organizer.reserved_by(e.token()) =~= Set::<Id>::empty());
                        }
                    } else {
                        assert(all[i] == first);
                    }
                }
                assert forall|i: int, j: int| 0 <= i < out@.len() && 0 <= j < orig.len() && (#[trigger] orig[j]).0 == (#[trigger] all[i]).0
                    implies organizer.reserved_by(orig[j].1) == Set::<Id>::empty() by {
                    let u = orig[j].1;
                    assert(organizer.reserved_by(u).subset_of(org0.reserved_by(u)));
                    if exists|i2: int| 0 <= i2 < k && (#[trigger] all[i2]).0 == orig[j].0 {
                        let i2 = choose|i2: int| 0 <= i2 < k && (#[trigger] all[i2]).0 == orig[j].0;
                        assert(org0.reserved_by(u) == Set::<Id>::empty());
                        assert(organizer.reserved_by(u) =~= Set::<Id>::empty());
                    } else {
                        assert(all[i].0 == worker);
                        assert(self0.running().contains(orig[j]));
                        let idx = choose|idx: int| 0 <= idx < self0.running().len() && self0.running()[idx] == orig[j];
                        assert(self0.running()[idx].0 == worker);
                    }
                }
                assert forall|j: int| 0 <= j < orig.len() && (forall|i: int| 0 <= i < out@.len() ==> (#[trigger] all[i]).0 != orig[j].0)
                    implies #[trigger] self.running().contains(orig[j]) by {
                    assert(all[k].0 != orig[j].0);
                    assert forall|i: int| 0 <= i < k implies (#[trigger] all[i]).0 != orig[j].0 by {
                        assert(all[i].0 != orig[j].0);
                    }
                    assert(self0.running().contains(orig[j]));
                }
            }
        }
        assert(all.subrange(0, out@.len() as int) =~= all);
        Some(out)
    }
}

/// The IR after a batch: `m` with the staged representations of each completed
/// edit whose record says it was applied laid over it, in order.
pub open spec fn applied_fold(
    m: Map<Id, crate::repr::Representation>,
    cs: Seq<(u64, Result<Edit, ToolFailure>)>,
    rs: Seq<Reaped>,
) -> Map<Id, crate::repr::Representation>
    decreases cs.len(),
{
    if cs.len() == 0 || rs.len() != cs.len() {
        m
    } else {
        let prev = applied_fold(m, cs.drop_last(), rs.drop_last());
        match (cs.last().1, rs.last()) {
            (Ok(e), Reaped::Applied(_)) => prev.union_prefer_right(e.staged()),
            _ => prev,
        }
    }
}

/// How many records say an edit was applied.
pub open spec fn count_applied(rs: Seq<Reaped>) -> nat
    decreases rs.len(),
{
    if rs.len() == 0 {
        0
    } else {
        count_applied(rs.drop_last()) + if rs.last() is Applied { 1nat } else { 0nat }
    }
}

} // verus!
