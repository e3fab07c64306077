use harvest::edit::Edit;
use harvest::id::{Id, IdAllocator};
use harvest::organizer::{NewEditError, Organizer};
use harvest::repr::Representation;
use harvest::runner::{
    plan_invocation, Attempt, Dispatch, MightWriteOutcome, NextInvocationOutcome, Reaped, Scheduler,
    ToolFailure, ToolRunner,
};
use harvest::organizer::ApplyError;
use harvest::tree::RawDir;

fn raw() -> Representation {
    Representation::RawSource(RawDir::new())
}

fn spawn(org: &mut Organizer, runner: &mut ToolRunner, worker: u64, ids: Vec<Id>) -> Result<Edit, NewEditError> {
    let edit = org.new_edit(&ids)?;
    runner.register(worker, edit.token_value());
    Ok(edit)
}

#[test]
fn new_edit_errors() {
    let mut ids = IdAllocator::new();
    let mut org = Organizer::new();
    let mut edit = org.new_edit(&vec![]).unwrap();
    let [a, b, c] = [(); 3].map(|_| edit.add_representation(&mut ids, raw()));
    org.apply_edit(edit).expect("setup edit failed");
    let mut runner = ToolRunner::new();
    let unknown_id = Id::new(&mut ids);
    assert_eq!(spawn(&mut org, &mut runner, 1, vec![a, unknown_id]).err(), Some(NewEditError::UnknownId));
    let running = spawn(&mut org, &mut runner, 2, vec![a, b]).expect("spawn failed");
    assert_eq!(
        spawn(&mut org, &mut runner, 3, vec![b, c]).err(),
        Some(NewEditError::IdInUse),
        "spawned tool with in-use ID"
    );
    let done = runner.process_results(&mut org, vec![(2, Ok(running))]);
    assert!(done.is_some());
    assert!(spawn(&mut org, &mut runner, 4, vec![b, c]).is_ok());
}

#[test]
fn replaced_edit() {
    let mut ids = IdAllocator::new();
    let mut org = Organizer::new();
    let mut edit = org.new_edit(&vec![]).unwrap();
    let a = edit.add_representation(&mut ids, raw());
    org.apply_edit(edit).expect("setup edit failed");
    let mut runner = ToolRunner::new();
    let given = spawn(&mut org, &mut runner, 1, vec![a]).expect("tool spawn failed");
    assert!(org.new_edit(&vec![a]).err() == Some(NewEditError::IdInUse));
    let mut other = org.new_edit(&vec![]).unwrap();
    let b = other.add_representation(&mut ids, raw());
    drop(given);
    runner.process_results(&mut org, vec![(1, Ok(other))]);
    assert_eq!(org.snapshot().ids(), vec![a, b]);
    assert!(org.new_edit(&vec![a]).is_ok(), "reservation of the replaced edit kept");
}

#[test]
fn success() {
    let mut ids = IdAllocator::new();
    let mut org = Organizer::new();
    let mut runner = ToolRunner::new();
    let mut edit = spawn(&mut org, &mut runner, 7, vec![]).expect("tool spawn failed");
    edit.add_representation(&mut ids, raw());
    assert_eq!(org.snapshot().len(), 0, "edit applied early");
    let reaped = runner.process_results(&mut org, vec![(7, Ok(edit))]).unwrap();
    assert!(matches!(reaped[0], Reaped::Applied(0)));
    assert_eq!(org.snapshot().len(), 1, "edit not applied on success");
}

#[test]
fn tool_error() {
    let mut ids = IdAllocator::new();
    let mut org = Organizer::new();
    let mut runner = ToolRunner::new();
    let mut edit = spawn(&mut org, &mut runner, 1, vec![]).expect("tool spawn failed");
    edit.add_representation(&mut ids, raw());
    drop(edit);
    let reaped = runner.process_results(&mut org, vec![(1, Err(ToolFailure::Error("test error".to_string())))]);
    assert!(matches!(reaped.unwrap()[0], Reaped::Failed(ToolFailure::Error(_))));
    assert_eq!(org.snapshot().len(), 0, "edit applied when tool errored");
}

#[test]
fn tool_panic() {
    let mut org = Organizer::new();
    let mut runner = ToolRunner::new();
    let edit = spawn(&mut org, &mut runner, 1, vec![]).expect("tool spawn failed");
    drop(edit);
    runner.process_results(&mut org, vec![(1, Err(ToolFailure::Panic("test panic".to_string())))]);
    assert_eq!(org.snapshot().len(), 0, "edit applied when tool panicked");
}

#[test]
fn panicked_tool_releases_its_reservation() {
    let mut ids = IdAllocator::new();
    let mut org = Organizer::new();
    let mut seed = org.new_edit(&vec![]).unwrap();
    let a = seed.add_representation(&mut ids, raw());
    org.apply_edit(seed).unwrap();
    let mut runner = ToolRunner::new();
    let edit = spawn(&mut org, &mut runner, 1, vec![a]).expect("tool spawn failed");
    drop(edit);
    let reaped = runner.process_results(&mut org, vec![(1, Err(ToolFailure::Panic("test panic".to_string())))]);
    assert!(matches!(reaped.unwrap()[0], Reaped::Failed(ToolFailure::Panic(_))));
    assert_eq!(org.snapshot().ids(), vec![a], "edit applied when tool panicked");
    assert_eq!(org.next_version(), 1);
    assert!(org.new_edit(&vec![a]).is_ok(), "panicked tool kept its reservation");
}

#[test]
fn process_results_on_empty_runner() {
    let mut org = Organizer::new();
    let mut runner = ToolRunner::new();
    assert!(runner.process_results(&mut org, vec![]).is_none());
    assert_eq!(runner.in_flight(), 0);
    assert_eq!(org.next_version(), 0);
}

struct ByName<'a> {
    seen: &'a mut Vec<String>,
    keep: &'a [&'a str],
}

impl Attempt<String, String> for ByName<'_> {
    fn attempt(&mut self, tool: String) -> NextInvocationOutcome<String, String> {
        self.seen.push(tool.clone());
        if tool == "boom" {
            NextInvocationOutcome::Error("failed".to_string())
        } else if self.keep.contains(&tool.as_str()) {
            NextInvocationOutcome::TryLater(tool)
        } else {
            NextInvocationOutcome::DontTryAgain
        }
    }
}

#[test]
fn next_invocation() {
    let mut seen = Vec::new();
    let mut scheduler = Scheduler::new();
    scheduler.queue_invocation("a".to_string());
    scheduler.queue_invocation("b".to_string());
    assert!(scheduler.next_invocations(&mut ByName { seen: &mut seen, keep: &["b"] }).is_ok());
    assert_eq!(seen, vec!["a", "b"]);
    assert_eq!(scheduler.len(), 1);
    assert!(scheduler.next_invocations(&mut ByName { seen: &mut seen, keep: &[] }).is_ok());
    assert_eq!(seen, vec!["a", "b", "b"]);
    assert_eq!(scheduler.len(), 0);
    assert!(scheduler.next_invocations(&mut ByName { seen: &mut seen, keep: &[] }).is_ok());
    assert_eq!(seen.len(), 3);
}

#[test]
fn next_invocations_error_keeps_the_rest() {
    let mut seen = Vec::new();
    let mut scheduler = Scheduler::new();
    for name in ["a", "boom", "c"] {
        scheduler.queue_invocation(name.to_string());
    }
    let r = scheduler.next_invocations(&mut ByName { seen: &mut seen, keep: &["a"] });
    assert_eq!(r, Err("failed".to_string()));
    assert_eq!(seen, vec!["a", "boom"]);
    assert_eq!(scheduler.len(), 2);
}

#[test]
fn plan_invocation_decisions() {
    let mut ids = IdAllocator::new();
    let mut org = Organizer::new();
    let mut seed = org.new_edit(&vec![]).unwrap();
    let x = seed.add_representation(&mut ids, raw());
    org.apply_edit(seed).unwrap();
    assert!(matches!(plan_invocation(&mut org, MightWriteOutcome::NotRunnable), Dispatch::Drop));
    assert!(matches!(plan_invocation(&mut org, MightWriteOutcome::TryAgain), Dispatch::Retry));
    let first = plan_invocation(&mut org, MightWriteOutcome::Runnable(vec![x]));
    assert!(matches!(first, Dispatch::Spawn(_)));
    assert!(matches!(plan_invocation(&mut org, MightWriteOutcome::Runnable(vec![x])), Dispatch::Retry));
    let never = Id::new(&mut ids);
    assert!(matches!(plan_invocation(&mut org, MightWriteOutcome::Runnable(vec![never])), Dispatch::Drop));
}

#[test]
fn tick_steps_in_fifo_order() {
    let mut scheduler = Scheduler::new();
    for name in ["a", "b", "c"] {
        scheduler.queue_invocation(name.to_string());
    }
    let mut tick = scheduler.start_tick();
    assert_eq!(scheduler.len(), 0);
    assert_eq!(tick.next_tool().as_deref(), Some("a"));
    assert_eq!(tick.settle::<String>(NextInvocationOutcome::TryLater("a".to_string())), None);
    scheduler.queue_invocation("fresh".to_string());
    assert_eq!(tick.next_tool().as_deref(), Some("b"));
    assert_eq!(tick.settle::<String>(NextInvocationOutcome::DontTryAgain), None);
    assert_eq!(tick.next_tool().as_deref(), Some("c"));
    assert_eq!(tick.settle(NextInvocationOutcome::<String, String>::Error("e".to_string())), Some("e".to_string()));
    scheduler.finish_tick(tick);
    assert_eq!(scheduler.len(), 2);
    let mut order = Vec::new();
    let mut tick = scheduler.start_tick();
    while let Some(t) = tick.next_tool() {
        order.push(t);
    }
    assert_eq!(order, vec!["fresh", "a"]);
}

#[test]
fn empty_edit_applies_without_change() {
    let mut org = Organizer::new();
    let mut runner = ToolRunner::new();
    let edit = spawn(&mut org, &mut runner, 5, vec![]).expect("tool spawn failed");
    let reaped = runner.process_results(&mut org, vec![(5, Ok(edit))]).unwrap();
    assert!(matches!(reaped[0], Reaped::Applied(0)));
    assert_eq!(org.snapshot().len(), 0);
    assert_eq!(org.next_version(), 1);
}

#[test]
fn reap_rejects_a_stray_write() {
    let mut ids = IdAllocator::new();
    let mut org = Organizer::new();
    let mut seed = org.new_edit(&vec![]).unwrap();
    let a = seed.add_representation(&mut ids, raw());
    org.apply_edit(seed).unwrap();
    let mut runner = ToolRunner::new();
    let mut stray = Edit::new(&vec![a]);
    stray.write_id(a, raw());
    runner.register(9, 0);
    assert!(matches!(runner.reap(&mut org, 9, Ok(stray)), Reaped::Rejected(ApplyError::NotReserved)));
    assert_eq!(org.next_version(), 1);
    assert_eq!(runner.in_flight(), 0);
}

#[test]
fn next_invocation_on_empty_queue_makes_no_call() {
    let mut seen = Vec::new();
    let mut scheduler: Scheduler<String> = Scheduler::new();
    assert!(scheduler.next_invocations(&mut ByName { seen: &mut seen, keep: &[] }).is_ok());
    assert!(seen.is_empty());
    assert_eq!(scheduler.len(), 0);
}
