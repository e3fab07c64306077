use harvest::diagnostics::{index_text, ToolRuns};
use harvest::edit::Edit;
use harvest::id::{Id, IdAllocator};
use harvest::ir::HarvestIR;
use harvest::organizer::Organizer;
use harvest::repr::{Kind, Representation};
use harvest::runner::{
    plan_invocation, Attempt, Dispatch, MightWriteOutcome, NextInvocationOutcome, Reaped, Scheduler,
    ToolFailure, ToolRunner,
};
use harvest::tree::RawDir;

#[derive(Clone, Copy, PartialEq, Debug)]
enum Needs {
    Nothing,
    Kind(Kind),
    Never,
    Ids(&'static [u64]),
}

#[derive(Clone, Copy, PartialEq, Debug)]
enum Does {
    Add(Kind),
    Panic,
    Hold,
}

#[derive(Clone, Copy, Debug)]
struct Mock {
    name: &'static str,
    needs: Needs,
    does: Does,
}

fn rep(kind: Kind) -> Representation {
    match kind {
        Kind::RawSource => Representation::RawSource(RawDir::new()),
        Kind::CargoPackage => Representation::CargoPackage(RawDir::new()),
        Kind::CargoBuildResult => Representation::CargoBuildResult(Ok(vec!["bin".to_string()])),
        Kind::ProjectKind => Representation::ProjectKind(harvest::repr::ProjectKind::Executable),
    }
}

fn id_of(ir: &HarvestIR, n: u64) -> Option<Id> {
    ir.ids().into_iter().find(|i| i.get() == n)
}

impl Mock {
    fn might_write(&self, ir: &HarvestIR, ids: &mut IdAllocator) -> MightWriteOutcome {
        match self.needs {
            Needs::Nothing => MightWriteOutcome::Runnable(vec![]),
            Needs::Never => MightWriteOutcome::NotRunnable,
            Needs::Kind(k) if ir.get_by_kind(k).is_empty() => MightWriteOutcome::TryAgain,
            Needs::Kind(_) => MightWriteOutcome::Runnable(vec![]),
            Needs::Ids(ns) => MightWriteOutcome::Runnable(
                ns.iter().map(|&n| id_of(ir, n).unwrap_or_else(|| Id::new(ids))).collect(),
            ),
        }
    }
}

struct World {
    ids: IdAllocator,
    organizer: Organizer,
    runner: ToolRunner,
    runs: ToolRuns,
    steps: Vec<String>,
    finished: Vec<(u64, Result<Edit, ToolFailure>)>,
    held: Vec<(u64, Edit)>,
    next_worker: u64,
    spawned: Vec<&'static str>,
    log: Vec<String>,
    versions: Vec<(u64, String)>,
}

impl World {
    fn new() -> World {
        World {
            ids: IdAllocator::new(),
            organizer: Organizer::new(),
            runner: ToolRunner::new(),
            runs: ToolRuns::new(),
            steps: vec![],
            finished: vec![],
            held: vec![],
            next_worker: 1,
            spawned: vec![],
            log: vec![],
            versions: vec![],
        }
    }

    fn reap_all(&mut self) -> bool {
        let batch = std::mem::take(&mut self.finished);
        match self.runner.process_results(&mut self.organizer, vec![]) {
            None => return false,
            Some(_) => {}
        }
        for (worker, result) in batch {
            match self.runner.reap(&mut self.organizer, worker, result) {
                Reaped::Applied(v) => self.versions.push((v, index_text(&self.organizer.snapshot()))),
                Reaped::Failed(ToolFailure::Panic(m)) => self.log.push(format!("panic: {m}")),
                _ => {}
            }
        }
        true
    }

    fn release_held(&mut self) {
        for (worker, edit) in std::mem::take(&mut self.held) {
            self.finished.push((worker, Ok(edit)));
        }
    }
}

impl Attempt<Mock, String> for World {
    fn attempt(&mut self, tool: Mock) -> NextInvocationOutcome<Mock, String> {
        let snapshot = self.organizer.snapshot();
        let outcome = tool.might_write(&snapshot, &mut self.ids);
        match plan_invocation(&mut self.organizer, outcome) {
            Dispatch::Drop => NextInvocationOutcome::DontTryAgain,
            Dispatch::Retry => NextInvocationOutcome::TryLater(tool),
            Dispatch::Spawn(mut edit) => {
                self.steps.push(self.runs.start_tool_run(tool.name));
                let worker = self.next_worker;
                self.next_worker += 1;
                self.runner.register(worker, edit.token_value());
                self.spawned.push(tool.name);
                match tool.does {
                    Does::Add(k) => {
                        edit.add_representation(&mut self.ids, rep(k));
                        self.finished.push((worker, Ok(edit)));
                    }
                    Does::Panic => {
                        drop(edit);
                        self.finished.push((worker, Err(ToolFailure::Panic("boom".to_string()))));
                    }
                    Does::Hold => self.held.push((worker, edit)),
                }
                NextInvocationOutcome::DontTryAgain
            }
        }
    }
}

fn run_to_quiescence(world: &mut World, scheduler: &mut Scheduler<Mock>, max_ticks: usize) -> usize {
    for tick in 0..max_ticks {
        scheduler.next_invocations(world).unwrap();
        if !world.reap_all() {
            return tick;
        }
    }
    panic!("no quiescence");
}

#[test]
fn s1_happy_path() {
    let mut world = World::new();
    let mut scheduler = Scheduler::new();
    scheduler.queue_invocation(Mock { name: "L", needs: Needs::Nothing, does: Does::Add(Kind::RawSource) });
    scheduler.queue_invocation(Mock { name: "T", needs: Needs::Kind(Kind::RawSource), does: Does::Add(Kind::CargoPackage) });
    scheduler.queue_invocation(Mock { name: "B", needs: Needs::Kind(Kind::CargoPackage), does: Does::Add(Kind::CargoBuildResult) });
    run_to_quiescence(&mut world, &mut scheduler, 10);
    let ids: Vec<u64> = world.organizer.snapshot().ids().iter().map(|i| i.get()).collect();
    assert_eq!(ids, vec![1, 2, 3]);
    assert_eq!(
        world.versions,
        vec![
            (0, "001: RawSource\n".to_string()),
            (1, "001: RawSource\n002: CargoPackage\n".to_string()),
            (2, "001: RawSource\n002: CargoPackage\n003: CargoBuildResult\n".to_string()),
        ]
    );
    assert_eq!(world.steps, vec!["L_1", "T_1", "B_1"]);
}

#[test]
fn s2_tool_panic() {
    let mut world = World::new();
    let mut scheduler = Scheduler::new();
    scheduler.queue_invocation(Mock { name: "P", needs: Needs::Nothing, does: Does::Panic });
    scheduler.queue_invocation(Mock { name: "L", needs: Needs::Nothing, does: Does::Add(Kind::RawSource) });
    scheduler.next_invocations(&mut world).unwrap();
    assert!(world.reap_all());
    assert_eq!(world.organizer.snapshot().get_by_kind(Kind::RawSource).len(), 1);
    assert_eq!(world.organizer.snapshot().len(), 1);
    assert_eq!(world.log, vec!["panic: boom"]);
    assert_eq!(world.versions.len(), 1);
    assert!(world.steps.contains(&"P_1".to_string()));
}

#[test]
fn s3_id_conflict_defers() {
    let mut world = World::new();
    let mut seed = world.organizer.new_edit(&vec![]).unwrap();
    let x = seed.add_representation(&mut world.ids, rep(Kind::RawSource));
    world.organizer.apply_edit(seed).unwrap();
    assert_eq!(x.get(), 1);
    let mut scheduler = Scheduler::new();
    scheduler.queue_invocation(Mock { name: "A", needs: Needs::Ids(&[1]), does: Does::Hold });
    scheduler.queue_invocation(Mock { name: "B", needs: Needs::Ids(&[1]), does: Does::Add(Kind::ProjectKind) });
    scheduler.next_invocations(&mut world).unwrap();
    assert_eq!(world.spawned, vec!["A"]);
    assert_eq!(scheduler.len(), 1);
    world.release_held();
    assert!(world.reap_all());
    scheduler.next_invocations(&mut world).unwrap();
    assert_eq!(world.spawned, vec!["A", "B"]);
    assert_eq!(scheduler.len(), 0);
    assert!(world.reap_all());
    assert_eq!(world.organizer.snapshot().get_by_kind(Kind::ProjectKind).len(), 1);
}

#[test]
fn s4_unknown_id_drops_tool() {
    let mut world = World::new();
    let mut scheduler = Scheduler::new();
    scheduler.queue_invocation(Mock { name: "U", needs: Needs::Ids(&[999]), does: Does::Add(Kind::RawSource) });
    scheduler.queue_invocation(Mock { name: "L", needs: Needs::Nothing, does: Does::Add(Kind::RawSource) });
    scheduler.next_invocations(&mut world).unwrap();
    assert_eq!(world.spawned, vec!["L"]);
    assert_eq!(scheduler.len(), 0);
    assert!(world.reap_all());
    assert_eq!(world.organizer.snapshot().len(), 1);
}

#[test]
fn s5_never_runnable_is_not_retried() {
    let mut world = World::new();
    let mut scheduler = Scheduler::new();
    scheduler.queue_invocation(Mock { name: "N", needs: Needs::Never, does: Does::Add(Kind::RawSource) });
    scheduler.next_invocations(&mut world).unwrap();
    assert_eq!(scheduler.len(), 0);
    assert!(world.spawned.is_empty());
    assert!(world.steps.is_empty());
    assert!(!world.reap_all());
}

#[test]
fn s6_quiescence() {
    let mut world = World::new();
    let mut scheduler = Scheduler::new();
    scheduler.queue_invocation(Mock { name: "L", needs: Needs::Nothing, does: Does::Add(Kind::RawSource) });
    scheduler.queue_invocation(Mock { name: "W", needs: Needs::Kind(Kind::CargoPackage), does: Does::Add(Kind::RawSource) });
    let ticks = run_to_quiescence(&mut world, &mut scheduler, 10);
    assert_eq!(ticks, 1);
    assert_eq!(scheduler.len(), 1);
    assert_eq!(world.runner.in_flight(), 0);
}
