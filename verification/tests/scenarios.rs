use tonks::mappings::Mappings;
use tonks::resources::{ResourceId, Resources};
use tonks::scheduler::builder::SchedulerBuilder;
use tonks::scheduler::{Scheduler, StageId, Step, Task, TaskMessage};
use tonks::system::{CachedSystem, Declared, Read, SystemId, Write};

type Run = fn(&mut Resources<u32>);
type Sys = CachedSystem<Run>;

fn system(ids: &mut Mappings, reads: &[usize], writes: &[usize], run: Run) -> Sys {
    let data = Declared {
        reads: reads.iter().map(|r| ResourceId(*r)).collect(),
        writes: writes.iter().map(|w| ResourceId(*w)).collect(),
    };
    CachedSystem::new(run, &data, ids)
}

fn store(values: &[u32]) -> Resources<u32> {
    let mut resources = Resources::new();
    for (id, value) in values.iter().enumerate() {
        resources.insert(ResourceId(id), *value);
    }
    resources
}

fn value(scheduler: &Scheduler<Sys, u32>, id: usize) -> u32 {
    *scheduler.resources().get(ResourceId(id)).unwrap()
}

fn message(task: Task) -> TaskMessage {
    match task {
        Task::Stage(id) => TaskMessage::StageComplete(id),
        Task::Oneshot(id) => TaskMessage::SystemComplete(id),
    }
}

/// Runs one dispatch on this thread. A task runs when it is spawned and
/// reports only when the scheduler waits. Returns the number of systems
/// reported complete and the number of messages.
fn execute(scheduler: &mut Scheduler<Sys, u32>) -> (usize, usize) {
    assert!(scheduler.idle());
    scheduler.begin();
    let mut spawned: Vec<Task> = Vec::new();
    let mut systems = 0;
    let mut messages = 0;
    loop {
        match scheduler.step() {
            Step::Spawn(task) => {
                assert!(scheduler.has_task(task));
                for id in scheduler.task_systems(task) {
                    let run = *scheduler.systems()[id.0].inner();
                    run(scheduler.resources_mut());
                }
                spawned.push(task);
            }
            Step::Wait => {
                let task = spawned.remove(0);
                systems += scheduler.complete(message(task)).unwrap();
                messages += 1;
            }
            Step::Done => break,
        }
    }
    assert!(spawned.is_empty());
    (systems, messages)
}

fn stages(scheduler: &Scheduler<Sys, u32>) -> Vec<Vec<usize>> {
    (0..scheduler.stage_count())
        .map(|k| {
            scheduler
                .task_systems(Task::Stage(StageId(k)))
                .iter()
                .map(|id| id.0)
                .collect()
        })
        .collect()
}

pub struct Resource1;
pub struct Resource2;

fn sum(resources: &mut Resources<u32>) {
    let a = *resources.get(ResourceId(0)).unwrap();
    *resources.get_mut(ResourceId(1)).unwrap() += a;
}

#[test]
fn basic() {
    let mut resource_ids = Mappings::new();
    let mut system_ids = Mappings::new();
    let data = (
        Read::<Resource1>::new(&mut resource_ids),
        Write::<Resource2>::new(&mut resource_ids),
    );
    let r1 = data.0.id();
    let r2 = data.1.id();
    let mut resources = Resources::new();
    resources.insert(r1, 10u32);
    resources.insert(r2, 5u32);
    let sys: Sys = CachedSystem::new(sum as Run, &data, &mut system_ids);

    let mut scheduler = SchedulerBuilder::new().with(sys).build(resources).unwrap();

    execute(&mut scheduler);

    assert_eq!(*scheduler.resources().get(r2).unwrap(), 15);
}

fn is_send_and_sync<T: Send + Sync>() -> bool {
    true
}

#[test]
fn check_scheduler_traits() {
    assert!(is_send_and_sync::<Scheduler<Sys, u32>>());
}

#[test]
fn sum_of_two_resources() {
    let mut ids = Mappings::new();
    let sys = system(&mut ids, &[0], &[1], sum);
    let mut scheduler = SchedulerBuilder::new().with(sys).build(store(&[10, 5])).unwrap();
    assert_eq!(stages(&scheduler), vec![vec![0]]);
    assert_eq!(execute(&mut scheduler), (1, 1));
    assert_eq!(value(&scheduler, 0), 10);
    assert_eq!(value(&scheduler, 1), 15);
}

fn double_into_1(resources: &mut Resources<u32>) {
    let x = *resources.get(ResourceId(0)).unwrap();
    *resources.get_mut(ResourceId(1)).unwrap() = x * 2;
}

fn double_into_2(resources: &mut Resources<u32>) {
    let x = *resources.get(ResourceId(0)).unwrap();
    *resources.get_mut(ResourceId(2)).unwrap() = x * 2;
}

fn double_into_3(resources: &mut Resources<u32>) {
    let x = *resources.get(ResourceId(0)).unwrap();
    *resources.get_mut(ResourceId(3)).unwrap() = x * 2;
}

#[test]
fn parallel_readers_share_one_stage() {
    let mut ids = Mappings::new();
    let mut scheduler = SchedulerBuilder::new()
        .with(system(&mut ids, &[0], &[1], double_into_1))
        .with(system(&mut ids, &[0], &[2], double_into_2))
        .with(system(&mut ids, &[0], &[3], double_into_3))
        .build(store(&[7, 0, 0, 0]))
        .unwrap();
    assert_eq!(stages(&scheduler), vec![vec![0, 1, 2]]);
    assert_eq!(execute(&mut scheduler), (3, 1));
    assert_eq!(value(&scheduler, 1), 14);
    assert_eq!(value(&scheduler, 2), 14);
    assert_eq!(value(&scheduler, 3), 14);
    assert_eq!(value(&scheduler, 0), 7);
}

fn add_one(resources: &mut Resources<u32>) {
    *resources.get_mut(ResourceId(0)).unwrap() += 1;
}

fn times_two(resources: &mut Resources<u32>) {
    *resources.get_mut(ResourceId(0)).unwrap() *= 2;
}

#[test]
fn write_conflict_serializes() {
    let mut ids = Mappings::new();
    let mut scheduler = SchedulerBuilder::new()
        .with(system(&mut ids, &[], &[0], add_one))
        .with(system(&mut ids, &[], &[0], times_two))
        .build(store(&[0]))
        .unwrap();
    assert_eq!(stages(&scheduler), vec![vec![0], vec![1]]);
    assert_eq!(execute(&mut scheduler), (2, 2));
    assert_eq!(value(&scheduler, 0), 2);
    assert_eq!(execute(&mut scheduler), (2, 2));
    assert_eq!(value(&scheduler, 0), 6);
}

fn copy_p_to_q(resources: &mut Resources<u32>) {
    let p = *resources.get(ResourceId(0)).unwrap();
    *resources.get_mut(ResourceId(1)).unwrap() = p;
}

fn set_p_to_nine(resources: &mut Resources<u32>) {
    *resources.get_mut(ResourceId(0)).unwrap() = 9;
}

#[test]
fn read_then_write_takes_two_stages() {
    let mut ids = Mappings::new();
    let mut scheduler = SchedulerBuilder::new()
        .with(system(&mut ids, &[0], &[1], copy_p_to_q))
        .with(system(&mut ids, &[], &[0], set_p_to_nine))
        .build(store(&[3, 0]))
        .unwrap();
    assert_eq!(stages(&scheduler), vec![vec![0], vec![1]]);
    assert_eq!(execute(&mut scheduler), (2, 2));
    assert_eq!(value(&scheduler, 1), 3);
    assert_eq!(value(&scheduler, 0), 9);
}

fn nothing(_resources: &mut Resources<u32>) {}

#[test]
fn write_chain_takes_eight_stages() {
    let mut ids = Mappings::new();
    let mut builder = SchedulerBuilder::new();
    for _ in 0..8 {
        builder = builder.with(system(&mut ids, &[], &[0], add_one));
    }
    let mut scheduler = builder.build(store(&[0])).unwrap();
    assert_eq!(
        stages(&scheduler),
        vec![vec![0], vec![1], vec![2], vec![3], vec![4], vec![5], vec![6], vec![7]]
    );
    assert_eq!(execute(&mut scheduler), (8, 8));
    assert_eq!(value(&scheduler, 0), 8);
}

#[test]
fn systems_without_resources_share_stage_zero() {
    let mut ids = Mappings::new();
    let mut builder = SchedulerBuilder::new();
    for _ in 0..5 {
        builder = builder.with(system(&mut ids, &[], &[], nothing));
    }
    let mut scheduler = builder.build(store(&[])).unwrap();
    assert_eq!(stages(&scheduler), vec![vec![0, 1, 2, 3, 4]]);
    assert_eq!(execute(&mut scheduler), (5, 1));
}

#[test]
fn empty_plan_is_done_at_once() {
    let mut scheduler: Scheduler<Sys, u32> =
        SchedulerBuilder::new().build(store(&[1, 2])).unwrap();
    assert_eq!(scheduler.stage_count(), 0);
    assert_eq!(scheduler.system_count(), 0);
    scheduler.begin();
    assert!(scheduler.idle());
    assert_eq!(scheduler.step(), Step::Done);
    assert_eq!(execute(&mut scheduler), (0, 0));
}

#[test]
fn disjoint_readers_share_one_stage() {
    let mut ids = Mappings::new();
    let mut scheduler = SchedulerBuilder::new()
        .with(system(&mut ids, &[0], &[], nothing))
        .with(system(&mut ids, &[1], &[], nothing))
        .with(system(&mut ids, &[2], &[], nothing))
        .with(system(&mut ids, &[3], &[], nothing))
        .build(store(&[0, 0, 0, 0]))
        .unwrap();
    assert_eq!(stages(&scheduler), vec![vec![0, 1, 2, 3]]);
    assert_eq!(execute(&mut scheduler), (4, 1));
}

#[test]
fn no_op_dispatch_changes_nothing() {
    let mut ids = Mappings::new();
    let mut scheduler = SchedulerBuilder::new()
        .with(system(&mut ids, &[0], &[1], nothing))
        .with(system(&mut ids, &[1], &[0], nothing))
        .build(store(&[4, 6]))
        .unwrap();
    assert_eq!(execute(&mut scheduler), (2, 2));
    assert_eq!(value(&scheduler, 0), 4);
    assert_eq!(value(&scheduler, 1), 6);
    assert!(scheduler.idle());
    assert_eq!(scheduler.running(), 0);
    for id in 0..2 {
        assert_eq!(scheduler.readers(ResourceId(id)), 0);
        assert!(!scheduler.writing(ResourceId(id)));
    }
}

#[test]
fn rebuilding_gives_the_same_stages() {
    let mut plans = Vec::new();
    for _ in 0..2 {
        let mut ids = Mappings::new();
        let scheduler = SchedulerBuilder::new()
            .with(system(&mut ids, &[0], &[1], nothing))
            .with(system(&mut ids, &[0], &[2], nothing))
            .with(system(&mut ids, &[1], &[0], nothing))
            .with(system(&mut ids, &[], &[2], nothing))
            .build(store(&[0, 0, 0]))
            .unwrap();
        plans.push(stages(&scheduler));
    }
    assert_eq!(plans[0], plans[1]);
    assert_eq!(plans[0], vec![vec![0, 1], vec![2, 3]]);
}

#[test]
fn systems_get_ids_in_registration_order() {
    let mut ids = Mappings::new();
    let first = system(&mut ids, &[], &[], nothing);
    let second = system(&mut ids, &[], &[], nothing);
    assert_eq!(tonks::system::RawSystem::id(&first), SystemId(0));
    assert_eq!(tonks::system::RawSystem::id(&second), SystemId(1));
    assert_eq!(ids.len(), 2);
}

