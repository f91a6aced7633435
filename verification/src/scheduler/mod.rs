//! The dispatcher: it runs the stages of a plan, and lets a task start only
//! when its resources are free.
use crate::id_list::{id_list_items, IdList};
use crate::id_set::{id_set_members, IdSet};
use crate::ledger::{
    all_below, blocked, counted_in, empty_ledger, exclusive, insert_each, lemma_occurrences_bound,
    occurrences, release_resources, remove_each, try_obtain_resources,
};
use crate::resources::{indices, ResourceId, Resources};
use crate::access::writes_into;
use crate::scheduler::plan::{
    apart, gather, held_reads, holds_write, lemma_gather_step, lemma_held_reads_positive,
    lemma_held_reads_push, lemma_held_reads_remove, lemma_task_access, lemma_work_of_stages,
    lemma_consecutive_partitioned, lemma_offset_grows, lemma_work_push, lemma_work_remove,
    consecutive, offset, plan_from, stage_tasks, systems_in, work, Plan,
};
use crate::system::SystemId;
use std::collections::VecDeque;
use vstd::prelude::*;

pub mod builder;
pub mod plan;
pub mod planner;

verus! {

/// Id of a stage: its position in the plan.
#[derive(Debug, Clone, Copy, PartialEq, Eq, Default, Hash, Structural)]
pub struct StageId(pub usize);

/// What a running task reports to the scheduler.
#[derive(Debug, Clone, Copy, PartialEq, Eq, Hash, Structural)]
pub enum TaskMessage {
    /// The system has completed. Systems of a stage do not report one by
    /// one: their stage reports once for all of them.
    SystemComplete(SystemId),
    /// All systems of the stage have completed.
    StageComplete(StageId),
}

/// A task to run: a stage, whose systems run in parallel, or a single system.
#[derive(Debug, Clone, Copy, PartialEq, Eq, Hash, Structural)]
pub enum Task {
    Stage(StageId),
    Oneshot(SystemId),
}

/// What is to be done next in a dispatch.
#[derive(Debug, Clone, Copy, PartialEq, Eq, Structural)]
pub enum Step {
    /// The task has acquired its resources: run its systems, and report its
    /// completion when the last of them has returned.
    Spawn(Task),
    /// Nothing can start before a running task completes: wait for one
    /// completion message and hand it in.
    Wait,
    /// Every task of the dispatch has started and has completed.
    Done,
}

/// The task that a completion message speaks of.
pub open spec fn completed_task(message: TaskMessage) -> Task {
    match message {
        TaskMessage::SystemComplete(id) => Task::Oneshot(id),
        TaskMessage::StageComplete(id) => Task::Stage(id),
    }
}

/// The first position of `task` in `tasks`; the length of `tasks` if it is not there.
pub open spec fn position(tasks: Seq<Task>, task: Task) -> int
    decreases tasks.len(),
{
    if tasks.len() == 0 {
        0
    } else if tasks[0] == task {
        0
    } else {
        1 + position(tasks.skip(1), task)
    }
}

proof fn lemma_singleton_set(x: usize)
    ensures
        seq![x].to_set() == set![x],
{
    assert forall|y: usize| seq![x].to_set().contains(y) implies y == x by {
        let i = choose|i: int| 0 <= i < 1 && seq![x][i] == y;
    }
    assert(seq![x][0] == x);
    assert(seq![x].to_set() =~= set![x]);
}

/// Where `task` stands first, it is found.
proof fn lemma_position(tasks: Seq<Task>, task: Task, at: int)
    requires
        0 <= at < tasks.len(),
        tasks[at] == task,
        forall|j: int| 0 <= j < at ==> tasks[j] != task,
    ensures
        position(tasks, task) == at,
    decreases at,
{
    if at > 0 {
        assert(tasks[0] != task);
        lemma_position(tasks.skip(1), task, at - 1);
    }
}

/// An error that ends a dispatch before its time.
#[derive(Debug, Clone, Copy, PartialEq, Eq, Structural)]
pub enum DispatchError {
    /// A system panicked, or gave up in another way.
    SystemPanic,
}

/// A system reached for a resource that the scheduler has not lent to a
/// running task in that mode.
#[derive(Debug, Clone, Copy, PartialEq, Eq, Structural)]
pub enum UsageError {
    /// The ledger holds no borrow that covers the access.
    AliasingViolation,
}

/// The lists as sequences of their items.
pub open spec fn lists(v: Seq<IdList>) -> Seq<Seq<usize>> {
    Seq::new(v.len(), |i: int| id_list_items(v[i]))
}

proof fn lemma_lists_push(v: Seq<IdList>, x: IdList)
    ensures
        lists(v.push(x)) == lists(v).push(id_list_items(x)),
{
    assert(lists(v.push(x)) =~= lists(v).push(id_list_items(x)));
}

/// The sizes of the stages.
pub open spec fn sizes<S>(stages: Seq<Vec<S>>) -> Seq<nat> {
    Seq::new(stages.len(), |k: int| stages[k]@.len())
}

/// The systems of the first `k` stages, stage by stage.
pub open spec fn flat<S>(stages: Seq<Vec<S>>, k: int) -> Seq<S>
    decreases k,
{
    if k <= 0 {
        Seq::empty()
    } else {
        flat(stages, k - 1) + stages[k - 1]@
    }
}

/// The views of the lists.
pub open spec fn views(v: Seq<Vec<usize>>) -> Seq<Seq<usize>> {
    Seq::new(v.len(), |k: int| v[k]@)
}

/// The declarations as sequences of resource numbers.
pub open spec fn declared(deps: Seq<Vec<ResourceId>>) -> Seq<Seq<usize>> {
    Seq::new(deps.len(), |i: int| indices(deps[i]@))
}

/// The scheduler: an execution plan, the ledger of the borrows that running
/// tasks hold, and the queue of the tasks that are still to start. It keeps
/// the systems and the resource store of the plan, and hands them to whoever
/// runs the tasks.
pub struct Scheduler<S, V> {
    /// The resource store.
    resources: Resources<V>,
    /// Tasks to start during the current dispatch, first to last.
    task_queue: VecDeque<Task>,
    /// The queue that a dispatch starts with: one task for each stage.
    starting_queue: VecDeque<Task>,
    /// The resources that a running task writes.
    writes_held: IdSet,
    /// For each resource, how many reads running tasks hold on it.
    reads_held: Vec<usize>,
    /// The number of systems that are running.
    running_systems_count: usize,
    /// The systems that were started and have not been reported complete.
    running_systems: IdSet,
    /// The tasks that were started and have not reported completion.
    in_flight: Vec<Task>,
    /// The systems, by `SystemId`.
    systems: Vec<S>,
    /// The systems of each stage, by `StageId`.
    stages: Vec<IdList>,
    /// What each system reads, by `SystemId`.
    system_reads: Vec<IdList>,
    /// What each system writes, by `SystemId`.
    system_writes: Vec<IdList>,
    /// What each stage reads, by `StageId`.
    stage_reads: Vec<IdList>,
    /// What each stage writes, by `StageId`.
    stage_writes: Vec<IdList>,
}

/// The items of `ids` as a list.
fn list_of_indices(ids: &Vec<usize>) -> (list: IdList)
    ensures
        id_list_items(list) == ids@,
{
    let mut list = IdList::new();
    let mut i: usize = 0;
    while i < ids.len()
        invariant
            i <= ids.len(),
            id_list_items(list) == ids@.take(i as int),
        decreases ids.len() - i,
    {
        list.push(ids[i]);
        assert(ids@.take(i + 1) =~= ids@.take(i as int).push(ids@[i as int]));
        i += 1;
    }
    assert(ids@.take(ids@.len() as int) =~= ids@);
    list
}

/// The numbers of `ids` as a list.
fn list_of_resources(ids: &Vec<ResourceId>) -> (list: IdList)
    ensures
        id_list_items(list) == indices(ids@),
{
    let mut list = IdList::new();
    let mut i: usize = 0;
    while i < ids.len()
        invariant
            i <= ids.len(),
            id_list_items(list) == indices(ids@).take(i as int),
        decreases ids.len() - i,
    {
        list.push(ids[i].0);
        assert(indices(ids@).take(i + 1) =~= indices(ids@).take(i as int).push(ids@[i as int].0));
        i += 1;
    }
    assert(indices(ids@).take(ids@.len() as int) =~= indices(ids@));
    list
}

/// The lists of the `members`, one after the other.
fn gather_lists(members: &IdList, all: &Vec<IdList>) -> (gathered: IdList)
    requires
        all_below(id_list_items(*members), all@.len() as int),
    ensures
        id_list_items(gathered) == gather(id_list_items(*members), lists(all@)),
{
    let ghost ms = id_list_items(*members);
    let mut gathered = IdList::new();
    let n = members.len();
    let mut p: usize = 0;
    while p < n
        invariant
            p <= n == ms.len(),
            ms == id_list_items(*members),
            all_below(ms, all@.len() as int),
            id_list_items(gathered) == gather(ms.take(p as int), lists(all@)),
        decreases n - p,
    {
        let list = &all[members.get(p)];
        let ghost before = id_list_items(gathered);
        let m = list.len();
        let mut q: usize = 0;
        while q < m
            invariant
                q <= m == id_list_items(*list).len(),
                id_list_items(gathered) == before + id_list_items(*list).take(q as int),
            decreases m - q,
        {
            gathered.push(list.get(q));
            assert(id_list_items(*list).take(q + 1) =~= id_list_items(*list).take(q as int).push(
                id_list_items(*list)[q as int],
            ));
            q += 1;
        }
        proof {
            assert(id_list_items(*list).take(m as int) =~= id_list_items(*list));
            lemma_gather_step(ms, lists(all@), p as int);
        }
        p += 1;
    }
    assert(ms.take(n as int) =~= ms);
    gathered
}

/// What a task reads: the reads of its stage, or of its system.
fn reads_for_task<'a>(
    stage_reads: &'a Vec<IdList>,
    system_reads: &'a Vec<IdList>,
    task: &Task,
) -> (reads: &'a IdList)
    requires
        match *task {
            Task::Stage(id) => id.0 < stage_reads@.len(),
            Task::Oneshot(id) => id.0 < system_reads@.len(),
        },
    ensures
        *reads == match *task {
            Task::Stage(id) => stage_reads@[id.0 as int],
            Task::Oneshot(id) => system_reads@[id.0 as int],
        },
{
    match task {
        Task::Stage(id) => &stage_reads[id.0],
        Task::Oneshot(id) => &system_reads[id.0],
    }
}

/// What a task writes: the writes of its stage, or of its system.
fn writes_for_task<'a>(
    stage_writes: &'a Vec<IdList>,
    system_writes: &'a Vec<IdList>,
    task: &Task,
) -> (writes: &'a IdList)
    requires
        match *task {
            Task::Stage(id) => id.0 < stage_writes@.len(),
            Task::Oneshot(id) => id.0 < system_writes@.len(),
        },
    ensures
        *writes == match *task {
            Task::Stage(id) => stage_writes@[id.0 as int],
            Task::Oneshot(id) => system_writes@[id.0 as int],
        },
{
    match task {
        Task::Stage(id) => &stage_writes[id.0],
        Task::Oneshot(id) => &system_writes[id.0],
    }
}

/// Marks the systems of a task as running, and returns how many they are.
fn dispatch_task(stages: &Vec<IdList>, running_systems: &mut IdSet, task: Task) -> (systems: usize)
    requires
        match task {
            Task::Stage(id) => id.0 < stages@.len() && all_below(
                id_list_items(stages@[id.0 as int]),
                usize::MAX as int,
            ),
            Task::Oneshot(id) => id.0 < usize::MAX,
        },
    ensures
        systems == match task {
            Task::Stage(id) => id_list_items(stages@[id.0 as int]).len(),
            Task::Oneshot(_) => 1,
        },
        id_set_members(*final(running_systems)) == id_set_members(*old(running_systems)).union(
            match task {
                Task::Stage(id) => id_list_items(stages@[id.0 as int]).to_set(),
                Task::Oneshot(id) => set![id.0],
            },
        ),
{
    match task {
        Task::Stage(id) => {
            insert_each(running_systems, &stages[id.0]);
            stages[id.0].len()
        },
        Task::Oneshot(id) => {
            running_systems.insert(id.0);
            1
        },
    }
}

/// Gives back what a system borrowed as a task of its own.
fn release_resources_for_system(
    system_reads: &Vec<IdList>,
    system_writes: &Vec<IdList>,
    reads_held: &mut Vec<usize>,
    writes_held: &mut IdSet,
    id: SystemId,
)
    requires
        id.0 < system_reads@.len() == system_writes@.len(),
        all_below(id_list_items(system_reads@[id.0 as int]), old(reads_held)@.len() as int),
        forall|r: usize|
            r < old(reads_held)@.len() ==> #[trigger] occurrences(
                id_list_items(system_reads@[id.0 as int]),
                r,
            ) <= old(reads_held)@[r as int],
    ensures
        counted_in(
            final(reads_held)@,
            old(reads_held)@,
            id_list_items(system_reads@[id.0 as int]),
        ),
        id_set_members(*final(writes_held)) == id_set_members(*old(writes_held)).difference(
            id_list_items(system_writes@[id.0 as int]).to_set(),
        ),
{
    release_resources(&system_reads[id.0], &system_writes[id.0], reads_held, writes_held);
}

/// Gives back what a stage borrowed for all of its systems.
fn release_resources_for_stage(
    stage_reads: &Vec<IdList>,
    stage_writes: &Vec<IdList>,
    reads_held: &mut Vec<usize>,
    writes_held: &mut IdSet,
    id: StageId,
)
    requires
        id.0 < stage_reads@.len() == stage_writes@.len(),
        all_below(id_list_items(stage_reads@[id.0 as int]), old(reads_held)@.len() as int),
        forall|r: usize|
            r < old(reads_held)@.len() ==> #[trigger] occurrences(
                id_list_items(stage_reads@[id.0 as int]),
                r,
            ) <= old(reads_held)@[r as int],
    ensures
        counted_in(
            final(reads_held)@,
            old(reads_held)@,
            id_list_items(stage_reads@[id.0 as int]),
        ),
        id_set_members(*final(writes_held)) == id_set_members(*old(writes_held)).difference(
            id_list_items(stage_writes@[id.0 as int]).to_set(),
        ),
{
    release_resources(&stage_reads[id.0], &stage_writes[id.0], reads_held, writes_held);
}

impl<S, V> Scheduler<S, V> {
    /// The execution plan.
    pub closed spec fn plan(&self) -> Plan {
        Plan {
            stages: lists(self.stages@),
            system_reads: lists(self.system_reads@),
            system_writes: lists(self.system_writes@),
            stage_reads: lists(self.stage_reads@),
            stage_writes: lists(self.stage_writes@),
        }
    }

    /// The tasks that are still to start, first to last.
    pub closed spec fn queue(&self) -> Seq<Task> {
        self.task_queue@
    }

    /// The tasks that were started and have not reported completion.
    pub closed spec fn in_flight(&self) -> Seq<Task> {
        self.in_flight@
    }

    /// For each resource, the number of reads held on it.
    pub closed spec fn reads_held(&self) -> Seq<usize> {
        self.reads_held@
    }

    /// The resources on which a write is held.
    pub closed spec fn writes_held(&self) -> Set<usize> {
        id_set_members(self.writes_held)
    }

    /// The number of systems that are running.
    pub closed spec fn running_count(&self) -> nat {
        self.running_systems_count as nat
    }

    /// The systems that are marked as running.
    pub closed spec fn running_systems(&self) -> Set<usize> {
        id_set_members(self.running_systems)
    }

    /// The resource store.
    pub closed spec fn store(&self) -> Resources<V> {
        self.resources
    }

    /// The systems, by id.
    pub closed spec fn system_objects(&self) -> Seq<S> {
        self.systems@
    }

    /// The number of systems that the current dispatch has yet to report
    /// complete: those of the queued tasks and those of the tasks in flight.
    pub open spec fn outstanding(&self) -> nat {
        work(self.plan(), self.queue()) + work(self.plan(), self.in_flight())
    }

    /// No dispatch is under way: nothing is queued and nothing is in flight.
    pub open spec fn is_idle(&self) -> bool {
        self.queue().len() == 0 && self.in_flight().len() == 0
    }

    /// The state is consistent: the plan is sound, the ledger holds exactly
    /// what the tasks in flight borrow, and those tasks do not conflict.
    pub closed spec fn wf(&self) -> bool {
        let plan = self.plan();
        &&& plan.wf(self.reads_held@.len())
        &&& self.systems@.len() == plan.system_count()
        &&& self.starting_queue@ == stage_tasks(plan.stage_count())
        &&& forall|i: int|
            0 <= i < self.task_queue@.len() ==> plan.has_task(#[trigger] self.task_queue@[i])
        &&& forall|i: int|
            0 <= i < self.in_flight@.len() ==> plan.has_task(#[trigger] self.in_flight@[i])
        &&& forall|k: int|
            0 <= k < plan.stage_count() ==> (#[trigger] plan.stage_reads[k]).len() <= usize::MAX
        &&& forall|s: int|
            0 <= s < plan.system_count() ==> (#[trigger] plan.system_reads[s]).len() <= usize::MAX
        &&& forall|r: usize|
            r < self.reads_held@.len() ==> self.reads_held@[r as int] == #[trigger] held_reads(
                plan,
                self.in_flight@,
                r,
            )
        &&& forall|r: usize|
            id_set_members(self.writes_held).contains(r) <==> #[trigger] holds_write(
                plan,
                self.in_flight@,
                r,
            )
        &&& apart(plan, self.in_flight@)
        &&& self.running_systems_count == work(plan, self.in_flight@)
        &&& work(plan, self.task_queue@) + work(plan, self.in_flight@) <= plan.system_count()
    }

    /// What a dispatch never changes is the same in both: the plan, the
    /// store, the systems and the size of the ledger.
    pub open spec fn same_setup(&self, other: &Self) -> bool {
        &&& self.plan() == other.plan()
        &&& self.store() == other.store()
        &&& self.system_objects() == other.system_objects()
        &&& self.reads_held().len() == other.reads_held().len()
    }

    /// The dispatch stands at the same point in both: the same queue, the
    /// same tasks in flight, the same ledger.
    pub open spec fn same_progress(&self, other: &Self) -> bool {
        &&& self.queue() == other.queue()
        &&& self.in_flight() == other.in_flight()
        &&& self.reads_held() == other.reads_held()
        &&& self.writes_held() == other.writes_held()
        &&& self.running_count() == other.running_count()
        &&& self.running_systems() == other.running_systems()
    }

    /// The task cannot start now: the ledger is in its way.
    pub open spec fn blocks(&self, task: Task) -> bool {
        blocked(
            self.plan().access(task).reads,
            self.plan().access(task).writes,
            self.reads_held(),
            self.writes_held(),
        )
    }

    /// The task has started: it has left the front of the queue of `before`
    /// and is in flight here, with its borrows entered in the ledger.
    pub open spec fn started_from(&self, before: &Self, task: Task) -> bool {
        let plan = self.plan();
        &&& before.queue().len() > 0
        &&& before.queue()[0] == task
        &&& self.queue() == before.queue().skip(1)
        &&& self.in_flight() == before.in_flight().push(task)
        &&& counted_in(before.reads_held(), self.reads_held(), plan.access(task).reads)
        &&& self.writes_held() == before.writes_held().union(plan.access(task).writes.to_set())
        &&& self.running_count() == before.running_count() + plan.size(task)
        &&& self.running_systems() == before.running_systems().union(plan.members(task).to_set())
    }

    /// The task has completed: it has left the tasks in flight of `before`
    /// at position `at`, and its borrows have left the ledger.
    pub open spec fn completed_from(&self, before: &Self, task: Task, at: int) -> bool {
        let plan = self.plan();
        &&& self.queue() == before.queue()
        &&& self.in_flight() == before.in_flight().remove(at)
        &&& counted_in(self.reads_held(), before.reads_held(), plan.access(task).reads)
        &&& self.writes_held() == before.writes_held().difference(
            plan.access(task).writes.to_set(),
        )
        &&& self.running_count() + plan.size(task) == before.running_count()
        &&& self.running_systems() == before.running_systems().difference(
            plan.members(task).to_set(),
        )
    }

    /// Attempts to start `task`. If the ledger lets it, its borrows are
    /// entered, its systems are marked as running and it is in flight.
    /// Otherwise it goes back to the front of the queue.
    fn run_task(&mut self, task: Task) -> (started: bool)
        requires
            old(self).wf(),
            old(self).plan().has_task(task),
            old(self).outstanding() + old(self).plan().size(task) <= old(
                self,
            ).plan().system_count(),
        ensures
            final(self).wf(),
            final(self).same_setup(old(self)),
            started == !old(self).blocks(task),
            started ==> {
                &&& final(self).queue() == old(self).queue()
                &&& final(self).in_flight() == old(self).in_flight().push(task)
                &&& counted_in(
                    old(self).reads_held(),
                    final(self).reads_held(),
                    old(self).plan().access(task).reads,
                )
                &&& final(self).writes_held() == old(self).writes_held().union(
                    old(self).plan().access(task).writes.to_set(),
                )
                &&& final(self).running_count() == old(self).running_count() + old(
                    self,
                ).plan().size(task)
                &&& final(self).running_systems() == old(self).running_systems().union(
                    old(self).plan().members(task).to_set(),
                )
            },
            !started ==> {
                &&& final(self).queue() == seq![task] + old(self).queue()
                &&& final(self).in_flight() == old(self).in_flight()
                &&& final(self).reads_held() == old(self).reads_held()
                &&& final(self).writes_held() == old(self).writes_held()
                &&& final(self).running_count() == old(self).running_count()
                &&& final(self).running_systems() == old(self).running_systems()
                &&& old(self).in_flight().len() > 0
            },
    {
        let ghost plan = self.plan();
        let ghost flight = self.in_flight@;
        let ghost held = self.reads_held@;
        let ghost written = id_set_members(self.writes_held);
        let ghost access = plan.access(task);
        proof {
            lemma_task_access(plan, held.len(), task);
        }
        let n_systems = self.system_reads.len();
        let reads = reads_for_task(&self.stage_reads, &self.system_reads, &task);
        let writes = writes_for_task(&self.stage_writes, &self.system_writes, &task);
        assert(id_list_items(*reads) == access.reads);
        assert(id_list_items(*writes) == access.writes);
        match try_obtain_resources(reads, writes, &mut self.reads_held, &mut self.writes_held) {
            Ok(()) => {
                proof {
                    match task {
                        Task::Stage(id) => {
                            assert(all_below(plan.stages[id.0 as int], plan.system_count() as int));
                        },
                        Task::Oneshot(id) => {},
                    }
                }
                let systems = dispatch_task(&self.stages, &mut self.running_systems, task);
                proof {
                    lemma_work_push(plan, flight, task);
                }
                self.running_systems_count += systems;
                self.in_flight.push(task);
                proof {
                    let now = self.in_flight@;
                    assert(self.plan() == plan);
                    assert forall|r: usize| r < self.reads_held@.len() implies self.reads_held@[r as int]
                        == #[trigger] held_reads(plan, now, r) by {
                        lemma_held_reads_push(plan, flight, task, r);
                    }
                    assert forall|r: usize|
                        id_set_members(self.writes_held).contains(r) <==> #[trigger] holds_write(
                            plan,
                            now,
                            r,
                        ) by {
                        if id_set_members(self.writes_held).contains(r) {
                            if written.contains(r) {
                                assert(holds_write(plan, flight, r));
                                let i = choose|i: int|
                                    0 <= i < flight.len() && (#[trigger] plan.access(
                                        flight[i],
                                    )).writes.contains(r);
                                assert(plan.access(now[i]).writes.contains(r));
                            } else {
                                assert(access.writes.contains(r));
                                assert(plan.access(now[flight.len() as int]).writes.contains(r));
                            }
                        }
                        if holds_write(plan, now, r) {
                            let i = choose|i: int|
                                0 <= i < now.len() && (#[trigger] plan.access(
                                    now[i],
                                )).writes.contains(r);
                            if i < flight.len() {
                                assert(plan.access(flight[i]).writes.contains(r));
                                assert(holds_write(plan, flight, r));
                            }
                        }
                    }
                    assert forall|i: int, j: int|
                        0 <= i < now.len() && 0 <= j < now.len() && i != j implies !writes_into(
                        #[trigger] plan.access(now[i]),
                        #[trigger] plan.access(now[j]),
                    ) by {
                        let a = plan.access(now[i]);
                        let b = plan.access(now[j]);
                        if writes_into(a, b) {
                            let x = choose|x: usize| a.writes.contains(x) && b.touches(x);
                            if i < flight.len() && j < flight.len() {
                                assert(!writes_into(
                                    plan.access(flight[i]),
                                    plan.access(flight[j]),
                                ));
                            } else if i < flight.len() {
                                assert(plan.access(flight[i]).writes.contains(x));
                                assert(holds_write(plan, flight, x));
                                assert(written.contains(x));
                                if access.reads.contains(x) {
                                    let p = choose|p: int|
                                        0 <= p < access.reads.len() && access.reads[p] == x;
                                    assert(written.contains(access.reads[p]));
                                } else {
                                    let p = choose|p: int|
                                        0 <= p < access.writes.len() && access.writes[p] == x;
                                    assert(written.contains(access.writes[p]));
                                }
                                assert(false);
                            } else {
                                let p = choose|p: int|
                                    0 <= p < access.writes.len() && access.writes[p] == x;
                                if plan.access(flight[j]).reads.contains(x) {
                                    lemma_held_reads_positive(plan, flight, x);
                                    assert(held[access.writes[p] as int] > 0);
                                } else {
                                    assert(holds_write(plan, flight, x));
                                    assert(written.contains(access.writes[p]));
                                }
                                assert(false);
                            }
                        }
                    }
                    match task {
                        Task::Stage(id) => {},
                        Task::Oneshot(id) => {
                            lemma_singleton_set(id.0);
                        },
                    }
                }
                true
            },
            Err(()) => {
                self.task_queue.push_front(task);
                proof {
                    assert(self.task_queue@ =~= seq![task] + old(self).task_queue@);
                    if flight.len() == 0 {
                        assert forall|x: usize| !written.contains(x) by {
                            assert(!holds_write(plan, flight, x));
                        }
                        assert forall|r: usize| r < held.len() implies held[r as int] == 0 by {
                            assert(held_reads(plan, flight, r) == 0);
                        }
                        assert(access.reads.len() <= usize::MAX) by {
                            match task {
                                Task::Stage(id) => {
                                    assert(plan.stage_reads[id.0 as int].len() <= usize::MAX);
                                },
                                Task::Oneshot(id) => {
                                    assert(plan.system_reads[id.0 as int].len() <= usize::MAX);
                                },
                            }
                        }
                        assert(false);
                    }
                    assert(self.wf()) by {
                        let q = self.task_queue@;
                        assert forall|i: int| 0 <= i < q.len() implies plan.has_task(
                            #[trigger] q[i],
                        ) by {
                            if i > 0 {
                                assert(q[i] == old(self).task_queue@[i - 1]);
                            }
                        }
                        lemma_work_remove(plan, q, 0);
                        assert(q.remove(0) =~= old(self).task_queue@);
                    }
                }
                false
            },
        }
    }

    /// Starts a dispatch: every stage is queued, in plan order.
    pub fn begin(&mut self)
        requires
            old(self).wf(),
            old(self).is_idle(),
        ensures
            final(self).wf(),
            final(self).same_setup(old(self)),
            final(self).queue() == stage_tasks(old(self).plan().stage_count()),
            final(self).in_flight() == old(self).in_flight(),
            final(self).reads_held() == old(self).reads_held(),
            final(self).writes_held() == old(self).writes_held(),
            final(self).running_count() == old(self).running_count(),
            final(self).running_systems() == old(self).running_systems(),
            final(self).outstanding() == old(self).plan().system_count(),
            old(self).plan().stage_count() == 0 ==> final(self).is_idle(),
    {
        let ghost plan = self.plan();
        let n = self.starting_queue.len();
        let mut k: usize = 0;
        while k < n
            invariant
                k <= n == self.starting_queue@.len(),
                self.starting_queue@ == stage_tasks(plan.stage_count()),
                self.task_queue@ == stage_tasks(k as nat),
                self.plan() == plan,
                self.resources == old(self).resources,
                self.systems == old(self).systems,
                self.in_flight == old(self).in_flight,
                self.reads_held == old(self).reads_held,
                self.writes_held == old(self).writes_held,
                self.running_systems_count == old(self).running_systems_count,
                self.running_systems == old(self).running_systems,
            decreases n - k,
        {
            let task = self.starting_queue[k];
            self.task_queue.push_back(task);
            assert(self.task_queue@ =~= stage_tasks((k + 1) as nat));
            k += 1;
        }
        proof {
            assert(self.in_flight@.len() == 0);
            assert(plan.stages.len() == self.stages@.len());
            lemma_work_of_stages(plan, plan.stage_count());
        }
    }

    /// Takes the next decision of a dispatch. As long as a task is queued,
    /// the first one starts if the ledger lets it. When it cannot start, or
    /// when nothing is queued while tasks are in flight, a completion has to
    /// come first. The dispatch is done when nothing is queued and nothing is
    /// in flight.
    pub fn step(&mut self) -> (next: Step)
        requires
            old(self).wf(),
        ensures
            final(self).wf(),
            final(self).same_setup(old(self)),
            final(self).outstanding() == old(self).outstanding(),
            next is Done <==> old(self).is_idle(),
            next is Spawn <==> old(self).queue().len() > 0 && !old(self).blocks(
                old(self).queue()[0],
            ),
            match next {
                Step::Spawn(task) => {
                    &&& old(self).plan().has_task(task)
                    &&& !old(self).blocks(task)
                    &&& final(self).started_from(old(self), task)
                },
                Step::Wait => {
                    &&& final(self).same_progress(old(self))
                    &&& old(self).in_flight().len() > 0
                    &&& old(self).queue().len() > 0 ==> old(self).blocks(old(self).queue()[0])
                },
                Step::Done => {
                    &&& final(self).same_progress(old(self))
                    &&& old(self).is_idle()
                },
            },
    {
        let ghost plan = self.plan();
        let ghost queue = self.task_queue@;
        match self.task_queue.pop_front() {
            Some(task) => {
                proof {
                    assert(plan.has_task(queue[0]));
                    lemma_work_remove(plan, queue, 0);
                    assert(queue.remove(0) =~= queue.skip(1));
                    assert(self.task_queue@ == queue.skip(1));
                    assert forall|i: int| 0 <= i < self.task_queue@.len() implies plan.has_task(
                        #[trigger] self.task_queue@[i],
                    ) by {
                        assert(self.task_queue@[i] == queue[i + 1]);
                    }
                }
                if self.run_task(task) {
                    proof {
                        lemma_work_push(plan, old(self).in_flight@, task);
                    }
                    Step::Spawn(task)
                } else {
                    assert(self.task_queue@ =~= queue);
                    Step::Wait
                }
            },
            None => {
                if self.in_flight.len() > 0 {
                    Step::Wait
                } else {
                    Step::Done
                }
            },
        }
    }

    /// Takes in a completion message. If the task that it speaks of is in
    /// flight, the task leaves the ledger and the number of its systems is
    /// returned. Otherwise nothing changes.
    pub fn complete(&mut self, message: TaskMessage) -> (completed: Option<usize>)
        requires
            old(self).wf(),
        ensures
            final(self).wf(),
            final(self).same_setup(old(self)),
            match completed {
                Some(systems) => {
                    let task = completed_task(message);
                    let at = position(old(self).in_flight(), task);
                    &&& 0 <= at < old(self).in_flight().len()
                    &&& old(self).in_flight()[at] == task
                    &&& systems == old(self).plan().size(task)
                    &&& final(self).completed_from(old(self), task, at)
                    &&& final(self).outstanding() + systems == old(self).outstanding()
                },
                None => {
                    &&& !old(self).in_flight().contains(completed_task(message))
                    &&& final(self).same_progress(old(self))
                },
            },
    {
        let ghost plan = self.plan();
        let ghost flight = self.in_flight@;
        let ghost held = self.reads_held@;
        let ghost written = id_set_members(self.writes_held);
        let task = match message {
            TaskMessage::SystemComplete(id) => Task::Oneshot(id),
            TaskMessage::StageComplete(id) => Task::Stage(id),
        };
        let n = self.in_flight.len();
        let mut at: usize = 0;
        while at < n && self.in_flight[at] != task
            invariant
                at <= n == flight.len(),
                self.in_flight@ == flight,
                forall|j: int| 0 <= j < at ==> flight[j] != task,
            decreases n - at,
        {
            at += 1;
        }
        if at == n {
            return None;
        }
        let ghost access = plan.access(task);
        let ghost rest = flight.remove(at as int);
        proof {
            lemma_position(flight, task, at as int);
            assert(plan.has_task(flight[at as int]));
            lemma_task_access(plan, held.len(), task);
            lemma_work_remove(plan, flight, at as int);
            assert forall|r: usize| r < held.len() implies #[trigger] occurrences(access.reads, r)
                <= held[r as int] by {
                lemma_held_reads_remove(plan, flight, at as int, r);
                assert(held[r as int] == held_reads(plan, flight, r));
            }
        }
        self.in_flight.remove(at);
        let systems = match task {
            Task::Oneshot(id) => {
                release_resources_for_system(
                    &self.system_reads,
                    &self.system_writes,
                    &mut self.reads_held,
                    &mut self.writes_held,
                    id,
                );
                let ghost marked = id_set_members(self.running_systems);
                self.running_systems.remove(id.0);
                proof {
                    lemma_singleton_set(id.0);
                    assert(marked.remove(id.0) =~= marked.difference(set![id.0]));
                }
                1
            },
            Task::Stage(id) => {
                release_resources_for_stage(
                    &self.stage_reads,
                    &self.stage_writes,
                    &mut self.reads_held,
                    &mut self.writes_held,
                    id,
                );
                remove_each(&mut self.running_systems, &self.stages[id.0]);
                self.stages[id.0].len()
            },
        };
        self.running_systems_count -= systems;
        proof {
            assert(self.plan() == plan);
            assert(self.in_flight@ == rest);
            assert forall|i: int| 0 <= i < rest.len() implies plan.has_task(#[trigger] rest[i]) by {
                if i < at {
                    assert(rest[i] == flight[i]);
                } else {
                    assert(rest[i] == flight[i + 1]);
                }
            }
            assert forall|r: usize| r < self.reads_held@.len() implies self.reads_held@[r as int]
                == #[trigger] held_reads(plan, rest, r) by {
                lemma_held_reads_remove(plan, flight, at as int, r);
                assert(held[r as int] == held_reads(plan, flight, r));
                assert(held[r as int] == self.reads_held@[r as int] + occurrences(access.reads, r));
            }
            assert forall|r: usize|
                id_set_members(self.writes_held).contains(r) <==> #[trigger] holds_write(
                    plan,
                    rest,
                    r,
                ) by {
                if id_set_members(self.writes_held).contains(r) {
                    assert(written.contains(r) && !access.writes.contains(r));
                    assert(holds_write(plan, flight, r));
                    let i = choose|i: int|
                        0 <= i < flight.len() && (#[trigger] plan.access(flight[i])).writes.contains(
                            r,
                        );
                    if i < at {
                        assert(plan.access(rest[i]).writes.contains(r));
                    } else {
                        assert(i != at);
                        assert(plan.access(rest[i - 1]).writes.contains(r));
                    }
                }
                if holds_write(plan, rest, r) {
                    let i = choose|i: int|
                        0 <= i < rest.len() && (#[trigger] plan.access(rest[i])).writes.contains(r);
                    let j = if i < at {
                        i
                    } else {
                        i + 1
                    };
                    assert(rest[i] == flight[j]);
                    assert(plan.access(flight[j]).writes.contains(r));
                    assert(holds_write(plan, flight, r));
                    if access.writes.contains(r) {
                        assert(access.touches(r));
                        assert(writes_into(plan.access(flight[j]), plan.access(flight[at as int])));
                        assert(false);
                    }
                }
            }
            assert forall|i: int, j: int|
                0 <= i < rest.len() && 0 <= j < rest.len() && i != j implies !writes_into(
                #[trigger] plan.access(rest[i]),
                #[trigger] plan.access(rest[j]),
            ) by {
                let p = if i < at {
                    i
                } else {
                    i + 1
                };
                let q = if j < at {
                    j
                } else {
                    j + 1
                };
                assert(rest[i] == flight[p] && rest[j] == flight[q]);
                assert(!writes_into(plan.access(flight[p]), plan.access(flight[q])));
            }
        }
        Some(systems)
    }

    /// Gives up the dispatch that is under way, after a system has failed:
    /// the queue is dropped and every borrow leaves the ledger, so that the
    /// next dispatch finds no borrow left over.
    pub fn abort(&mut self) -> (error: DispatchError)
        requires
            old(self).wf(),
        ensures
            final(self).wf(),
            final(self).same_setup(old(self)),
            final(self).is_idle(),
            final(self).running_count() == 0,
            final(self).running_systems() == Set::<usize>::empty(),
            empty_ledger(final(self).reads_held(), final(self).writes_held()),
            error == DispatchError::SystemPanic,
    {
        let ghost plan = self.plan();
        self.task_queue.clear();
        self.in_flight.clear();
        self.writes_held = IdSet::new();
        self.running_systems = IdSet::new();
        self.running_systems_count = 0;
        let n = self.reads_held.len();
        let mut r: usize = 0;
        while r < n
            invariant
                r <= n == self.reads_held@.len() == old(self).reads_held@.len(),
                forall|i: int| 0 <= i < r ==> self.reads_held@[i] == 0,
                self.plan() == plan,
                self.resources == old(self).resources,
                self.systems == old(self).systems,
                self.starting_queue == old(self).starting_queue,
                self.task_queue@.len() == 0,
                self.in_flight@.len() == 0,
                self.running_systems_count == 0,
                id_set_members(self.writes_held) == Set::<usize>::empty(),
                id_set_members(self.running_systems) == Set::<usize>::empty(),
            decreases n - r,
        {
            self.reads_held.set(r, 0);
            r += 1;
        }
        DispatchError::SystemPanic
    }

    /// What a consistent state holds: a sound plan, tasks of that plan in
    /// the queue and in flight, and a ledger that holds exactly what the
    /// tasks in flight borrow, which never conflict with each other.
    pub proof fn lemma_invariant(&self)
        requires
            self.wf(),
        ensures
            self.plan().wf(self.reads_held().len()),
            self.system_objects().len() == self.plan().system_count(),
            forall|i: int|
                0 <= i < self.queue().len() ==> self.plan().has_task(#[trigger] self.queue()[i]),
            forall|i: int|
                0 <= i < self.in_flight().len() ==> self.plan().has_task(
                    #[trigger] self.in_flight()[i],
                ),
            forall|r: usize|
                r < self.reads_held().len() ==> self.reads_held()[r as int] == #[trigger] held_reads(
                    self.plan(),
                    self.in_flight(),
                    r,
                ),
            forall|r: usize|
                self.writes_held().contains(r) <==> #[trigger] holds_write(
                    self.plan(),
                    self.in_flight(),
                    r,
                ),
            apart(self.plan(), self.in_flight()),
            self.running_count() == work(self.plan(), self.in_flight()),
            self.outstanding() <= self.plan().system_count(),
    {
    }

    /// No resource is read-held and write-held at once.
    pub proof fn lemma_exclusive(&self)
        requires
            self.wf(),
        ensures
            exclusive(self.reads_held(), self.writes_held()),
    {
        let plan = self.plan();
        let flight = self.in_flight@;
        assert forall|r: usize|
            r < self.reads_held@.len() && id_set_members(self.writes_held).contains(
                r,
            ) implies self.reads_held@[r as int] == 0 by {
            assert(holds_write(plan, flight, r));
            let i = choose|i: int|
                0 <= i < flight.len() && (#[trigger] plan.access(flight[i])).writes.contains(r);
            assert(self.reads_held@[r as int] == held_reads(plan, flight, r));
            if held_reads(plan, flight, r) > 0 {
                lemma_held_reads_positive(plan, flight, r);
                let j = choose|j: int|
                    0 <= j < flight.len() && (#[trigger] plan.access(flight[j])).reads.contains(r);
                if i == j {
                    assert(plan.has_task(flight[i]));
                    lemma_task_access(plan, self.reads_held@.len(), flight[i]);
                } else {
                    assert(plan.access(flight[j]).touches(r));
                    assert(writes_into(plan.access(flight[i]), plan.access(flight[j])));
                }
            }
        }
    }

    /// Between dispatches nothing is held, nothing runs and nothing is owed.
    pub proof fn lemma_idle(&self)
        requires
            self.wf(),
            self.is_idle(),
        ensures
            empty_ledger(self.reads_held(), self.writes_held()),
            self.running_count() == 0,
            self.outstanding() == 0,
    {
        let plan = self.plan();
        let flight = self.in_flight@;
        assert forall|r: usize| r < self.reads_held@.len() implies self.reads_held@[r as int]
            == 0 by {
            assert(held_reads(plan, flight, r) == 0);
        }
        assert forall|r: usize| !id_set_members(self.writes_held).contains(r) by {
            assert(!holds_write(plan, flight, r));
        }
    }

    /// A dispatch leaves the ledger and the store as it found them, whatever
    /// ran in between, as long as nobody else changed the store.
    pub proof fn lemma_round_trip(&self, after: &Self)
        requires
            self.wf(),
            self.is_idle(),
            after.wf(),
            after.is_idle(),
            after.same_setup(self),
        ensures
            after.reads_held() == self.reads_held(),
            after.writes_held() == self.writes_held(),
            after.running_count() == self.running_count(),
            after.store() == self.store(),
    {
        self.lemma_idle();
        after.lemma_idle();
        assert forall|i: int| 0 <= i < self.reads_held@.len() implies after.reads_held@[i]
            == self.reads_held@[i] by {
            assert(self.reads_held@.len() == self.reads_held.len());
            let r = i as usize;
            assert(self.reads_held@[r as int] == 0);
            assert(after.reads_held@[r as int] == 0);
        }
        assert(after.reads_held() =~= self.reads_held());
        assert(after.writes_held() =~= self.writes_held());
    }

    /// The queue that a dispatch starts with: the stages in plan order.
    fn create_task_queue(stages: &Vec<IdList>) -> (queue: VecDeque<Task>)
        ensures
            queue@ == stage_tasks(stages@.len() as nat),
    {
        let mut queue: VecDeque<Task> = VecDeque::new();
        let mut id: usize = 0;
        while id < stages.len()
            invariant
                id <= stages.len(),
                queue@ == stage_tasks(id as nat),
            decreases stages.len() - id,
        {
            queue.push_back(Task::Stage(StageId(id)));
            assert(queue@ =~= stage_tasks((id + 1) as nat));
            id += 1;
        }
        queue
    }

    /// A scheduler for the given stages. The systems are numbered stage by
    /// stage, and `read_deps` and `write_deps` say by that number what each
    /// system reads and writes. The stages have to be assembled correctly:
    /// no two systems of a stage conflict.
    pub fn new(
        stages: Vec<Vec<S>>,
        read_deps: Vec<Vec<ResourceId>>,
        write_deps: Vec<Vec<ResourceId>>,
        resources: Resources<V>,
    ) -> (scheduler: Self)
        requires
            read_deps@.len() == offset(sizes(stages@), stages@.len() as int),
            plan_from(
                consecutive(sizes(stages@)),
                declared(read_deps@),
                declared(write_deps@),
            ).sound(resources@.len()),
        ensures
            scheduler.wf(),
            scheduler.is_idle(),
            scheduler.plan() == plan_from(
                consecutive(sizes(stages@)),
                declared(read_deps@),
                declared(write_deps@),
            ),
            scheduler.system_objects() == flat(stages@, stages@.len() as int),
            scheduler.store() == resources,
            scheduler.reads_held().len() == resources@.len(),
    {
        let ghost given = stages@;
        let ghost sz = sizes(given);
        let ghost target = plan_from(
            consecutive(sz),
            declared(read_deps@),
            declared(write_deps@),
        );
        let total = read_deps.len();
        let m = stages.len();
        let mut stages = stages;
        let mut systems: Vec<S> = Vec::new();
        let mut members: Vec<Vec<usize>> = Vec::new();
        let mut counter: usize = 0;
        let mut k: usize = 0;
        while k < m
            invariant
                k <= m == given.len() == stages@.len(),
                sz == sizes(given),
                total == offset(sz, m as int),
                counter == offset(sz, k as int),
                systems@ == flat(given, k as int),
                systems@.len() == counter,
                members@.len() == k,
                views(members@) == consecutive(sz).take(k as int),
                forall|j: int| k <= j < m ==> stages@[j] == given[j],
            decreases m - k,
        {
            let mut stage: Vec<S> = Vec::new();
            std::mem::swap(&mut stages[k], &mut stage);
            assert(stage == given[k as int]);
            let size = stage.len();
            proof {
                lemma_offset_grows(sz, k + 1, m as int);
                assert(sz[k as int] == size);
            }
            let mut ids: Vec<usize> = Vec::new();
            let mut p: usize = 0;
            while p < size
                invariant
                    p <= size,
                    counter + size <= usize::MAX,
                    ids@ == Seq::new(p as nat, |q: int| (counter + q) as usize),
                decreases size - p,
            {
                ids.push(counter + p);
                p += 1;
                assert(ids@ =~= Seq::new(p as nat, |q: int| (counter + q) as usize));
            }
            systems.append(&mut stage);
            proof {
                assert(ids@ =~= consecutive(sz)[k as int]);
                assert(views(members@.push(ids)) =~= consecutive(sz).take(k + 1));
            }
            members.push(ids);
            counter += size;
            k += 1;
        }
        proof {
            assert(consecutive(sz).take(m as int) =~= consecutive(sz));
            lemma_consecutive_partitioned(sz, target);
        }
        Self::from_plan(systems, &members, &read_deps, &write_deps, resources)
    }

    /// The resource store.
    pub fn resources(&self) -> (store: &Resources<V>)
        ensures
            *store == self.store(),
    {
        &self.resources
    }

    /// The resource store, to be changed between dispatches or by the
    /// systems of a running task.
    pub fn resources_mut(&mut self) -> (store: &mut Resources<V>)
        ensures
            *store == old(self).store(),
            final(self).store() == *final(store),
            final(self).plan() == old(self).plan(),
            final(self).system_objects() == old(self).system_objects(),
            final(self).same_progress(old(self)),
            old(self).wf() ==> final(self).wf(),
    {
        &mut self.resources
    }

    /// The systems, by id.
    pub fn systems(&self) -> (systems: &Vec<S>)
        ensures
            systems@ == self.system_objects(),
    {
        &self.systems
    }

    /// The number of stages of the plan.
    pub fn stage_count(&self) -> (stages: usize)
        ensures
            stages == self.plan().stage_count(),
    {
        self.stages.len()
    }

    /// The number of systems of the plan.
    pub fn system_count(&self) -> (systems: usize)
        ensures
            systems == self.plan().system_count(),
    {
        self.system_reads.len()
    }

    /// Whether the task names a stage or a system of the plan.
    pub fn has_task(&self, task: Task) -> (known: bool)
        ensures
            known == self.plan().has_task(task),
    {
        match task {
            Task::Stage(id) => id.0 < self.stages.len(),
            Task::Oneshot(id) => id.0 < self.system_reads.len(),
        }
    }

    /// The systems that a task runs, in the order of the plan.
    pub fn task_systems(&self, task: Task) -> (systems: Vec<SystemId>)
        requires
            self.plan().has_task(task),
        ensures
            systems@.len() == self.plan().members(task).len(),
            forall|p: int|
                0 <= p < systems@.len() ==> (#[trigger] systems@[p]).0 == self.plan().members(
                    task,
                )[p],
    {
        match task {
            Task::Oneshot(id) => {
                let mut systems: Vec<SystemId> = Vec::new();
                systems.push(id);
                systems
            },
            Task::Stage(id) => {
                let stage = &self.stages[id.0];
                let n = stage.len();
                let mut systems: Vec<SystemId> = Vec::new();
                let mut p: usize = 0;
                while p < n
                    invariant
                        p <= n == id_list_items(*stage).len(),
                        systems@.len() == p,
                        forall|q: int|
                            0 <= q < p ==> (#[trigger] systems@[q]).0 == id_list_items(*stage)[q],
                    decreases n - p,
                {
                    systems.push(SystemId(stage.get(p)));
                    p += 1;
                }
                systems
            },
        }
    }

    /// Whether no dispatch is under way.
    pub fn idle(&self) -> (idle: bool)
        ensures
            idle == self.is_idle(),
    {
        self.task_queue.len() == 0 && self.in_flight.len() == 0
    }

    /// The number of systems that are running.
    pub fn running(&self) -> (systems: usize)
        ensures
            systems == self.running_count(),
    {
        self.running_systems_count
    }

    /// Checks a shared access to a resource against the ledger: a running
    /// task has to hold a read or a write on it.
    pub fn check_read(&self, id: ResourceId) -> (checked: Result<(), UsageError>)
        ensures
            checked is Ok <==> self.writes_held().contains(id.0) || (id.0
                < self.reads_held().len() && self.reads_held()[id.0 as int] > 0),
    {
        if self.writes_held.contains(id.0) || (id.0 < self.reads_held.len()
            && self.reads_held[id.0] > 0) {
            Ok(())
        } else {
            Err(UsageError::AliasingViolation)
        }
    }

    /// Checks an exclusive access to a resource against the ledger: a
    /// running task has to hold a write on it.
    pub fn check_write(&self, id: ResourceId) -> (checked: Result<(), UsageError>)
        ensures
            checked is Ok <==> self.writes_held().contains(id.0),
    {
        if self.writes_held.contains(id.0) {
            Ok(())
        } else {
            Err(UsageError::AliasingViolation)
        }
    }

    /// The number of reads that are held on a resource; none on a resource
    /// without a slot.
    pub fn readers(&self, id: ResourceId) -> (count: usize)
        ensures
            count == if id.0 < self.reads_held().len() {
                self.reads_held()[id.0 as int]
            } else {
                0
            },
    {
        if id.0 < self.reads_held.len() {
            self.reads_held[id.0]
        } else {
            0
        }
    }

    /// Whether a write is held on a resource.
    pub fn writing(&self, id: ResourceId) -> (held: bool)
        ensures
            held == self.writes_held().contains(id.0),
    {
        self.writes_held.contains(id.0)
    }

    /// A scheduler for the given plan: `stages` lists the systems of each
    /// stage, and `read_deps` and `write_deps` say what each system reads and
    /// writes.
    pub(crate) fn from_plan(
        systems: Vec<S>,
        stages: &Vec<Vec<usize>>,
        read_deps: &Vec<Vec<ResourceId>>,
        write_deps: &Vec<Vec<ResourceId>>,
        resources: Resources<V>,
    ) -> (scheduler: Self)
        requires
            systems@.len() == read_deps@.len(),
            plan_from(views(stages@), declared(read_deps@), declared(write_deps@)).wf(
                resources@.len(),
            ),
        ensures
            scheduler.wf(),
            scheduler.is_idle(),
            scheduler.plan() == plan_from(
                views(stages@),
                declared(read_deps@),
                declared(write_deps@),
            ),
            scheduler.system_objects() == systems@,
            scheduler.store() == resources,
            scheduler.reads_held().len() == resources@.len(),
    {
        let ghost target = plan_from(
            views(stages@),
            declared(read_deps@),
            declared(write_deps@),
        );
        let n = read_deps.len();
        let mut system_reads: Vec<IdList> = Vec::new();
        let mut system_writes: Vec<IdList> = Vec::new();
        let mut s: usize = 0;
        while s < n
            invariant
                s <= n == read_deps@.len() == write_deps@.len(),
                system_reads@.len() == s,
                system_writes@.len() == s,
                lists(system_reads@) == declared(read_deps@).take(s as int),
                lists(system_writes@) == declared(write_deps@).take(s as int),
                forall|i: int|
                    0 <= i < s ==> id_list_items(#[trigger] system_reads@[i]).len() <= usize::MAX,
            decreases n - s,
        {
            let reads = list_of_resources(&read_deps[s]);
            let writes = list_of_resources(&write_deps[s]);
            let len = reads.len();
            proof {
                lemma_lists_push(system_reads@, reads);
                lemma_lists_push(system_writes@, writes);
                assert(declared(read_deps@).take(s + 1) =~= declared(read_deps@).take(
                    s as int,
                ).push(indices(read_deps@[s as int]@)));
                assert(declared(write_deps@).take(s + 1) =~= declared(write_deps@).take(
                    s as int,
                ).push(indices(write_deps@[s as int]@)));
            }
            system_reads.push(reads);
            system_writes.push(writes);
            s += 1;
        }
        assert(declared(read_deps@).take(n as int) =~= declared(read_deps@));
        assert(declared(write_deps@).take(n as int) =~= declared(write_deps@));

        let m = stages.len();
        let mut stage_systems: Vec<IdList> = Vec::new();
        let mut stage_reads: Vec<IdList> = Vec::new();
        let mut stage_writes: Vec<IdList> = Vec::new();
        let mut k: usize = 0;
        while k < m
            invariant
                k <= m == stages@.len(),
                target == plan_from(
                    views(stages@),
                    declared(read_deps@),
                    declared(write_deps@),
                ),
                target.wf(resources@.len()),
                lists(system_reads@) == target.system_reads,
                lists(system_writes@) == target.system_writes,
                stage_systems@.len() == k,
                stage_reads@.len() == k,
                stage_writes@.len() == k,
                lists(stage_systems@) == target.stages.take(k as int),
                lists(stage_reads@) == target.stage_reads.take(k as int),
                lists(stage_writes@) == target.stage_writes.take(k as int),
                forall|i: int|
                    0 <= i < k ==> id_list_items(#[trigger] stage_reads@[i]).len() <= usize::MAX,
            decreases m - k,
        {
            let members = list_of_indices(&stages[k]);
            assert(id_list_items(members) == target.stages[k as int]);
            assert(all_below(target.stages[k as int], target.system_count() as int));
            assert(system_reads@.len() == target.system_count()) by {
                assert(lists(system_reads@).len() == system_reads@.len());
            }
            assert(system_writes@.len() == target.system_count()) by {
                assert(lists(system_writes@).len() == system_writes@.len());
            }
            let reads = gather_lists(&members, &system_reads);
            let writes = gather_lists(&members, &system_writes);
            let len = reads.len();
            proof {
                lemma_lists_push(stage_systems@, members);
                lemma_lists_push(stage_reads@, reads);
                lemma_lists_push(stage_writes@, writes);
                assert(target.stages.take(k + 1) =~= target.stages.take(k as int).push(
                    target.stages[k as int],
                ));
                assert(target.stage_reads.take(k + 1) =~= target.stage_reads.take(k as int).push(
                    target.stage_reads[k as int],
                ));
                assert(target.stage_writes.take(k + 1) =~= target.stage_writes.take(
                    k as int,
                ).push(target.stage_writes[k as int]));
            }
            stage_systems.push(members);
            stage_reads.push(reads);
            stage_writes.push(writes);
            k += 1;
        }
        assert(target.stages.take(m as int) =~= target.stages);
        assert(target.stage_reads.take(m as int) =~= target.stage_reads);
        assert(target.stage_writes.take(m as int) =~= target.stage_writes);

        let slots = resources.len();
        let mut reads_held: Vec<usize> = Vec::new();
        let mut r: usize = 0;
        while r < slots
            invariant
                r <= slots,
                reads_held@.len() == r,
                forall|i: int| 0 <= i < r ==> reads_held@[i] == 0,
            decreases slots - r,
        {
            reads_held.push(0);
            r += 1;
        }
        let starting_queue = Self::create_task_queue(&stage_systems);
        let scheduler = Scheduler {
            resources,
            task_queue: VecDeque::new(),
            starting_queue,
            writes_held: IdSet::new(),
            reads_held,
            running_systems_count: 0,
            running_systems: IdSet::with_capacity(systems.len()),
            in_flight: Vec::new(),
            systems,
            stages: stage_systems,
            system_reads,
            system_writes,
            stage_reads,
            stage_writes,
        };
        assert(scheduler.plan() == target);
        scheduler
    }
}

} // verus!
