use tonks::mappings::Mappings;
use tonks::resources::{ResourceId, Resources};
use tonks::scheduler::builder::{declares_disjoint, PlannerError, SchedulerBuilder};
use tonks::scheduler::{
    DispatchError, Scheduler, StageId, Step, Task, TaskMessage, UsageError,
};
use tonks::system::{CachedSystem, Declared, RawSystem, SystemData, SystemId};

type Unit = CachedSystem<()>;

fn unit(ids: &mut Mappings, reads: &[usize], writes: &[usize]) -> Unit {
    let data = Declared {
        reads: reads.iter().map(|r| ResourceId(*r)).collect(),
        writes: writes.iter().map(|w| ResourceId(*w)).collect(),
    };
    CachedSystem::new((), &data, ids)
}

fn filled(slots: usize) -> Resources<u32> {
    let mut resources = Resources::new();
    for id in 0..slots {
        resources.insert(ResourceId(id), 0);
    }
    resources
}

fn ids(numbers: &[usize]) -> Vec<ResourceId> {
    numbers.iter().map(|n| ResourceId(*n)).collect()
}

fn stage(k: usize) -> Task {
    Task::Stage(StageId(k))
}

fn done(k: usize) -> TaskMessage {
    TaskMessage::StageComplete(StageId(k))
}

/// Stage 0 reads 0 and writes 1; stage 1 writes 0 and reads 1 and 2; stage 2
/// reads 1 and writes 2.
fn three_stages() -> Scheduler<Unit, u32> {
    let mut system_ids = Mappings::new();
    SchedulerBuilder::new()
        .with(unit(&mut system_ids, &[0], &[1]))
        .with(unit(&mut system_ids, &[], &[0]))
        .with(unit(&mut system_ids, &[1, 2], &[]))
        .with(unit(&mut system_ids, &[1], &[2]))
        .build(filled(3))
        .unwrap()
}

#[test]
fn built_scheduler_is_idle() {
    let scheduler = three_stages();
    assert!(scheduler.idle());
    assert_eq!(scheduler.running(), 0);
    assert_eq!(scheduler.system_count(), 4);
    assert_eq!(scheduler.stage_count(), 3);
    assert_eq!(scheduler.resources().len(), 3);
    assert_eq!(scheduler.systems().len(), 4);
    assert_eq!(scheduler.systems()[2].id(), SystemId(2));
    assert_eq!(scheduler.task_systems(stage(0)), vec![SystemId(0)]);
    assert_eq!(scheduler.task_systems(stage(1)), vec![SystemId(1), SystemId(2)]);
    assert_eq!(scheduler.task_systems(stage(2)), vec![SystemId(3)]);
    assert_eq!(
        scheduler.task_systems(Task::Oneshot(SystemId(3))),
        vec![SystemId(3)]
    );
    assert!(scheduler.has_task(stage(2)));
    assert!(!scheduler.has_task(stage(3)));
    assert!(scheduler.has_task(Task::Oneshot(SystemId(3))));
    assert!(!scheduler.has_task(Task::Oneshot(SystemId(4))));
}

#[test]
fn ledger_follows_the_dispatch() {
    let mut scheduler = three_stages();
    scheduler.begin();
    assert!(!scheduler.idle());

    // stage 0: reads 0, writes 1
    assert_eq!(scheduler.step(), Step::Spawn(stage(0)));
    assert_eq!(scheduler.running(), 1);
    assert_eq!(scheduler.readers(ResourceId(0)), 1);
    assert!(scheduler.writing(ResourceId(1)));
    assert!(!scheduler.writing(ResourceId(0)));

    // stage 1 writes 0, which stage 0 reads
    assert_eq!(scheduler.step(), Step::Wait);
    assert_eq!(scheduler.step(), Step::Wait);
    assert_eq!(scheduler.running(), 1);
    assert_eq!(scheduler.readers(ResourceId(0)), 1);

    assert_eq!(scheduler.complete(done(0)), Some(1));
    assert_eq!(scheduler.running(), 0);
    assert_eq!(scheduler.readers(ResourceId(0)), 0);
    assert!(!scheduler.writing(ResourceId(1)));

    // stage 1: writes 0; reads 1 and 2
    assert_eq!(scheduler.step(), Step::Spawn(stage(1)));
    assert_eq!(scheduler.running(), 2);
    assert!(scheduler.writing(ResourceId(0)));
    assert_eq!(scheduler.readers(ResourceId(0)), 0);
    assert_eq!(scheduler.readers(ResourceId(1)), 1);
    assert_eq!(scheduler.readers(ResourceId(2)), 1);

    // stage 2 writes 2, which stage 1 reads
    assert_eq!(scheduler.step(), Step::Wait);
    assert_eq!(scheduler.complete(done(1)), Some(2));
    assert_eq!(scheduler.step(), Step::Spawn(stage(2)));
    assert_eq!(scheduler.readers(ResourceId(1)), 1);
    assert!(scheduler.writing(ResourceId(2)));

    // nothing is queued, one task is in flight
    assert_eq!(scheduler.step(), Step::Wait);
    assert_eq!(scheduler.complete(done(2)), Some(1));
    assert_eq!(scheduler.step(), Step::Done);
    assert!(scheduler.idle());
    assert_eq!(scheduler.running(), 0);
    for id in 0..3 {
        assert_eq!(scheduler.readers(ResourceId(id)), 0);
        assert!(!scheduler.writing(ResourceId(id)));
    }
}

#[test]
fn a_stage_with_its_own_read_and_write_acquires_both() {
    // systems of one stage: one writes 0, the other reads 1 twice
    let mut system_ids = Mappings::new();
    let mut scheduler = SchedulerBuilder::new()
        .with(unit(&mut system_ids, &[], &[0]))
        .with(unit(&mut system_ids, &[1, 1], &[]))
        .build(filled(2))
        .unwrap();
    assert_eq!(scheduler.stage_count(), 1);
    scheduler.begin();
    assert_eq!(scheduler.step(), Step::Spawn(stage(0)));
    assert!(scheduler.writing(ResourceId(0)));
    assert_eq!(scheduler.readers(ResourceId(0)), 0);
    assert_eq!(scheduler.readers(ResourceId(1)), 2);
    assert!(!scheduler.writing(ResourceId(1)));
    assert_eq!(scheduler.complete(done(0)), Some(2));
    assert_eq!(scheduler.readers(ResourceId(1)), 0);
    assert!(!scheduler.writing(ResourceId(0)));
}

#[test]
fn readers_out_of_range_count_as_none() {
    let scheduler = three_stages();
    assert_eq!(scheduler.readers(ResourceId(17)), 0);
    assert!(!scheduler.writing(ResourceId(17)));
}

#[test]
fn a_stray_message_changes_nothing() {
    let mut scheduler = three_stages();
    assert_eq!(scheduler.complete(done(0)), None);
    scheduler.begin();
    assert_eq!(scheduler.complete(done(0)), None);
    assert_eq!(scheduler.step(), Step::Spawn(stage(0)));
    assert_eq!(scheduler.complete(done(1)), None);
    assert_eq!(scheduler.complete(done(9)), None);
    assert_eq!(
        scheduler.complete(TaskMessage::SystemComplete(SystemId(0))),
        None
    );
    assert_eq!(scheduler.running(), 1);
    assert_eq!(scheduler.readers(ResourceId(0)), 1);
    assert_eq!(scheduler.complete(done(0)), Some(1));
    assert_eq!(scheduler.complete(done(0)), None);
    assert_eq!(scheduler.running(), 0);
}

#[test]
fn independent_stages_are_in_flight_together() {
    // Built by hand: two stages that touch different resources.
    let stages: Vec<Vec<()>> = vec![vec![(), ()], vec![()]];
    let reads = vec![ids(&[0]), ids(&[0]), ids(&[])];
    let writes = vec![ids(&[]), ids(&[1]), ids(&[2])];
    let mut scheduler = Scheduler::new(stages, reads, writes, filled(3));
    assert_eq!(scheduler.stage_count(), 2);
    assert_eq!(scheduler.system_count(), 3);
    assert_eq!(scheduler.task_systems(stage(0)), vec![SystemId(0), SystemId(1)]);
    assert_eq!(scheduler.task_systems(stage(1)), vec![SystemId(2)]);
    scheduler.begin();
    assert_eq!(scheduler.step(), Step::Spawn(stage(0)));
    assert_eq!(scheduler.step(), Step::Spawn(stage(1)));
    assert_eq!(scheduler.running(), 3);
    assert_eq!(scheduler.readers(ResourceId(0)), 2);
    assert!(scheduler.writing(ResourceId(1)));
    assert!(scheduler.writing(ResourceId(2)));
    assert_eq!(scheduler.step(), Step::Wait);
    assert_eq!(scheduler.complete(done(1)), Some(1));
    assert!(!scheduler.writing(ResourceId(2)));
    assert!(scheduler.writing(ResourceId(1)));
    assert_eq!(scheduler.step(), Step::Wait);
    assert_eq!(scheduler.complete(done(0)), Some(2));
    assert_eq!(scheduler.step(), Step::Done);
}

#[test]
fn an_empty_stage_is_awaited_too() {
    let stages: Vec<Vec<()>> = vec![vec![], vec![()]];
    let mut scheduler = Scheduler::new(stages, vec![ids(&[0])], vec![ids(&[])], filled(1));
    scheduler.begin();
    assert_eq!(scheduler.step(), Step::Spawn(stage(0)));
    assert_eq!(scheduler.running(), 0);
    assert_eq!(scheduler.step(), Step::Spawn(stage(1)));
    assert_eq!(scheduler.complete(done(1)), Some(1));
    assert_eq!(scheduler.step(), Step::Wait);
    assert_eq!(scheduler.complete(done(0)), Some(0));
    assert_eq!(scheduler.step(), Step::Done);
}

#[test]
fn completions_add_up_to_the_number_of_systems() {
    let mut scheduler = three_stages();
    for _ in 0..3 {
        scheduler.begin();
        let mut spawned = Vec::new();
        let mut completed = 0;
        loop {
            match scheduler.step() {
                Step::Spawn(task) => spawned.push(task),
                Step::Wait => {
                    let message = match spawned.remove(0) {
                        Task::Stage(id) => TaskMessage::StageComplete(id),
                        Task::Oneshot(id) => TaskMessage::SystemComplete(id),
                    };
                    completed += scheduler.complete(message).unwrap();
                }
                Step::Done => break,
            }
        }
        assert_eq!(completed, 4);
        assert!(scheduler.idle());
    }
}

#[test]
fn abort_reconciles_the_ledger() {
    let mut scheduler = three_stages();
    scheduler.begin();
    assert_eq!(scheduler.step(), Step::Spawn(stage(0)));
    assert_eq!(scheduler.abort(), DispatchError::SystemPanic);
    assert!(scheduler.idle());
    assert_eq!(scheduler.running(), 0);
    for id in 0..3 {
        assert_eq!(scheduler.readers(ResourceId(id)), 0);
        assert!(!scheduler.writing(ResourceId(id)));
    }
    assert_eq!(scheduler.complete(done(0)), None);
    // the next dispatch runs as if nothing had happened
    scheduler.begin();
    assert_eq!(scheduler.step(), Step::Spawn(stage(0)));
    assert_eq!(scheduler.complete(done(0)), Some(1));
    assert_eq!(scheduler.step(), Step::Spawn(stage(1)));
}

#[test]
fn build_reports_a_missing_read() {
    let mut system_ids = Mappings::new();
    let built = SchedulerBuilder::new()
        .with(unit(&mut system_ids, &[0], &[1]))
        .with(unit(&mut system_ids, &[1, 5, 7], &[9]))
        .build(filled(3));
    assert_eq!(
        built.err(),
        Some(PlannerError::MissingResource(ResourceId(5)))
    );
}

#[test]
fn build_reports_a_missing_write() {
    let mut system_ids = Mappings::new();
    let built = SchedulerBuilder::new()
        .with(unit(&mut system_ids, &[0], &[1]))
        .with(unit(&mut system_ids, &[1, 2], &[0, 4, 3]))
        .with(unit(&mut system_ids, &[8], &[]))
        .build(filled(3));
    assert_eq!(
        built.err(),
        Some(PlannerError::MissingResource(ResourceId(4)))
    );
}

#[test]
fn build_reports_a_hole_in_the_store() {
    let mut resources = Resources::new();
    resources.insert(ResourceId(2), 0u32);
    let mut system_ids = Mappings::new();
    let built = SchedulerBuilder::new()
        .with(unit(&mut system_ids, &[2], &[]))
        .with(unit(&mut system_ids, &[2], &[1]))
        .build(resources);
    assert_eq!(
        built.err(),
        Some(PlannerError::MissingResource(ResourceId(1)))
    );
}

#[test]
fn build_keeps_the_store() {
    let mut resources = Resources::new();
    resources.insert(ResourceId(0), 11u32);
    resources.insert(ResourceId(1), 22u32);
    let mut system_ids = Mappings::new();
    let mut scheduler = SchedulerBuilder::new()
        .with(unit(&mut system_ids, &[0], &[1]))
        .build(resources)
        .unwrap();
    assert_eq!(scheduler.resources().get(ResourceId(0)), Ok(&11));
    assert_eq!(scheduler.resources().get(ResourceId(1)), Ok(&22));
    *scheduler.resources_mut().get_mut(ResourceId(1)).unwrap() = 23;
    assert_eq!(scheduler.resources().get(ResourceId(1)), Ok(&23));
}

#[test]
fn disjoint_declarations_are_told_apart() {
    let mut system_ids = Mappings::new();
    assert!(declares_disjoint(&unit(&mut system_ids, &[0, 1], &[2])));
    assert!(declares_disjoint(&unit(&mut system_ids, &[], &[])));
    assert!(!declares_disjoint(&unit(&mut system_ids, &[0, 1], &[2, 1])));
}

#[test]
fn cached_system_keeps_what_it_was_given() {
    let mut system_ids = Mappings::new();
    system_ids.allocate();
    let data = Declared {
        reads: ids(&[3, 1]),
        writes: ids(&[2]),
    };
    let mut cached = CachedSystem::new(5u8, &data, &mut system_ids);
    assert_eq!(cached.id(), SystemId(1));
    assert_eq!(cached.resource_reads(), &ids(&[3, 1])[..]);
    assert_eq!(cached.resource_writes(), &ids(&[2])[..]);
    assert_eq!(*cached.inner(), 5);
    *cached.inner_mut() = 6;
    assert_eq!(*cached.inner(), 6);
    assert_eq!(system_ids.len(), 2);
}

#[test]
fn access_is_checked_against_the_ledger() {
    let mut scheduler = three_stages();
    assert_eq!(
        scheduler.check_read(ResourceId(0)),
        Err(UsageError::AliasingViolation)
    );
    scheduler.begin();
    assert_eq!(scheduler.step(), Step::Spawn(stage(0)));
    // stage 0 reads 0 and writes 1
    assert_eq!(scheduler.check_read(ResourceId(0)), Ok(()));
    assert_eq!(
        scheduler.check_write(ResourceId(0)),
        Err(UsageError::AliasingViolation)
    );
    assert_eq!(scheduler.check_read(ResourceId(1)), Ok(()));
    assert_eq!(scheduler.check_write(ResourceId(1)), Ok(()));
    assert_eq!(
        scheduler.check_read(ResourceId(2)),
        Err(UsageError::AliasingViolation)
    );
    assert_eq!(
        scheduler.check_write(ResourceId(40)),
        Err(UsageError::AliasingViolation)
    );
    assert_eq!(
        scheduler.check_read(ResourceId(40)),
        Err(UsageError::AliasingViolation)
    );
}

#[test]
fn declared_lists_are_handles() {
    let data = Declared {
        reads: ids(&[4, 4, 1]),
        writes: ids(&[0]),
    };
    assert_eq!(data.reads(), ids(&[4, 4, 1]));
    assert_eq!(data.writes(), ids(&[0]));
    let pair = (data, ());
    assert_eq!(pair.reads(), ids(&[4, 4, 1]));
    assert_eq!(pair.writes(), ids(&[0]));
    assert_eq!(SystemId::from(7), SystemId(7));
}
