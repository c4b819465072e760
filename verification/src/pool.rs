//! The worker pool: the stages of a compilation, and what workers do while
//! there is nothing to do.

use crate::cache::{blake3_of, expr_bytes, hash_graph};
use crate::fuser::kernel::constants_measurable;
use crate::graph::ArenaGraph;
use crate::ir::share;
use crate::mode::ExecutionMode;
use crate::soft_float::{is_float_unit, FloatOp};
use std::sync::Arc;
use vstd::prelude::*;

verus! {

/// A stage of the compilation of a graph, with the graph's key.
#[derive(Debug)]
pub enum Task {
    Tile { graph: Arc<ArenaGraph>, hash: [u8; 32] },
    Fuse { graph: Arc<ArenaGraph>, hash: [u8; 32] },
    Assemble { graph: Arc<ArenaGraph>, hash: [u8; 32] },
}

impl Task {
    /// The graph of a task.
    pub open spec fn graph_of(&self) -> ArenaGraph {
        match *self {
            Task::Tile { graph, .. } => *graph,
            Task::Fuse { graph, .. } => *graph,
            Task::Assemble { graph, .. } => *graph,
        }
    }

    /// The key of a task.
    pub open spec fn key(&self) -> Seq<u8> {
        match *self {
            Task::Tile { hash, .. } => hash@,
            Task::Fuse { hash, .. } => hash@,
            Task::Assemble { hash, .. } => hash@,
        }
    }

    /// How many stages are left before the last one.
    pub open spec fn stages_left(&self) -> nat {
        match *self {
            Task::Tile { .. } => 3,
            Task::Fuse { graph, .. } => if graph.is_stabilized {
                1
            } else {
                2
            },
            Task::Assemble { .. } => 0,
        }
    }
}

impl Clone for Task {
    fn clone(&self) -> (r: Self)
        ensures
            r == *self,
    {
        match self {
            Task::Tile { graph, hash } => Task::Tile { graph: share(graph), hash: *hash },
            Task::Fuse { graph, hash } => Task::Fuse { graph: share(graph), hash: *hash },
            Task::Assemble { graph, hash } => Task::Assemble { graph: share(graph), hash: *hash },
        }
    }
}

/// What is to be done with a task.
#[derive(Debug)]
pub enum TaskStep {
    /// Put a task into the worker's own queue.
    Push(Task),
    /// Compile the graph and keep the kernel under the key.
    Compile { graph: Arc<ArenaGraph>, hash: [u8; 32] },
    /// Nothing: the kernel is there.
    Done,
}

/// Whether two graphs differ in their mark alone.
pub open spec fn same_but_stabilized(a: ArenaGraph, b: ArenaGraph) -> bool {
    &&& b.views() == a.views()
    &&& b.root == a.root
    &&& b.is_stabilized
}

/// The next step of a task: tiling leads to fusing, or straight to assembly in
/// the dedicated mode; fusing marks the graph once, then leads to assembly;
/// assembly compiles what is not cached.
pub fn process_task(task: Task, is_xtreme: bool, cached: bool) -> (r: TaskStep)
    ensures
        match (task, r) {
            (Task::Tile { graph, hash }, TaskStep::Push(t)) => if is_xtreme {
                t == (Task::Assemble { graph, hash })
            } else {
                t == (Task::Fuse { graph, hash })
            },
            (Task::Fuse { graph, hash }, TaskStep::Push(t)) => if graph.is_stabilized {
                t == (Task::Assemble { graph, hash })
            } else {
                t is Fuse && t.key() == hash@ && same_but_stabilized(*graph, t.graph_of())
            },
            (Task::Assemble { graph, hash }, TaskStep::Compile { graph: g, hash: h }) => !cached
                && g == graph && h == hash,
            (Task::Assemble { .. }, TaskStep::Done) => cached,
            _ => false,
        },
        r matches TaskStep::Push(t) ==> t.stages_left() < task.stages_left() && t.key()
            == task.key() && t.graph_of().views() == task.graph_of().views(),
{
    match task {
        Task::Tile { graph, hash } => {
            if is_xtreme {
                TaskStep::Push(Task::Assemble { graph, hash })
            } else {
                TaskStep::Push(Task::Fuse { graph, hash })
            }
        },
        Task::Fuse { graph, hash } => {
            if graph.is_stabilized {
                TaskStep::Push(Task::Assemble { graph, hash })
            } else {
                let mut new_graph: ArenaGraph = (*graph).clone();
                let ghost copied = new_graph.views();
                new_graph.is_stabilized = true;
                assert(new_graph.views() == copied);
                TaskStep::Push(Task::Fuse { graph: Arc::new(new_graph), hash })
            }
        },
        Task::Assemble { graph, hash } => {
            if cached {
                TaskStep::Done
            } else {
                TaskStep::Compile { graph, hash }
            }
        },
    }
}

/// The one step of a task in the dedicated mode: compile what is not cached.
pub fn xtreme_run_inline(task: Task, cached: bool) -> (r: TaskStep)
    ensures
        cached ==> r is Done,
        !cached ==> (r matches TaskStep::Compile { graph, hash } && *graph == task.graph_of()
            && hash@ == task.key()),
{
    if cached {
        return TaskStep::Done;
    }
    match task {
        Task::Tile { graph, hash } => TaskStep::Compile { graph, hash },
        Task::Fuse { graph, hash } => TaskStep::Compile { graph, hash },
        Task::Assemble { graph, hash } => TaskStep::Compile { graph, hash },
    }
}

/// Where a submitted graph goes.
#[derive(Debug)]
pub enum Submission {
    /// To the dedicated worker.
    Dedicated(Task),
    /// To the pool.
    Pool(Task),
    /// Nowhere: its kernel is there.
    Cached,
}

/// Submits a graph under its key: in the dedicated mode to the dedicated
/// worker, for assembly; else to the pool, from tiling on, unless it is cached.
/// Whether it is cached is asked of `cached`, by the key.
pub fn submit<F: Fn(FloatOp, u64, u64) -> u64, C: Fn(&[u8; 32]) -> bool>(
    graph: ArenaGraph,
    xtreme_active: bool,
    cached: &C,
    f: &F,
) -> (r: ([u8; 32], Submission))
    requires
        is_float_unit(*f),
        graph.wf(),
        constants_measurable(graph.tree()),
        forall|h: &[u8; 32]| #[trigger] cached.requires((h,)),
    ensures
        r.0@ == blake3_of(expr_bytes(*f, graph.tree())),
        match r.1 {
            Submission::Dedicated(t) => xtreme_active && t is Assemble && t.graph_of() == graph
                && t.key() == r.0@,
            Submission::Pool(t) => !xtreme_active && cached.ensures((&r.0,), false) && t is Tile
                && t.graph_of() == graph && t.key() == r.0@,
            Submission::Cached => !xtreme_active && cached.ensures((&r.0,), true),
        },
{
    let hash: [u8; 32] = hash_graph(&graph, f);
    if xtreme_active {
        return (hash, Submission::Dedicated(Task::Assemble { graph: Arc::new(graph), hash }));
    }
    if cached(&hash) {
        return (hash, Submission::Cached);
    }
    (hash, Submission::Pool(Task::Tile { graph: Arc::new(graph), hash }))
}

// ─── Workers ─────────────────────────────────────────────────────────────────

/// What a worker prefers to do.
#[derive(Debug, Clone, Copy, PartialEq, Eq, Structural)]
pub enum Role {
    Tiler,
    Fuser,
    /// Takes tasks from other workers too.
    Assembler,
}

/// At least one.
pub open spec fn at_least_one(n: nat) -> nat {
    if n < 1 {
        1
    } else {
        n
    }
}

/// The role of worker `i` of a pool on `cores` cores: a quarter tile, a half
/// fuse, the others assemble.
pub open spec fn role_of(i: nat, cores: nat) -> Role {
    let tilers = at_least_one(cores / 4);
    let fusers = at_least_one(cores / 2);
    if i < tilers {
        Role::Tiler
    } else if i < tilers + fusers {
        Role::Fuser
    } else {
        Role::Assembler
    }
}

/// The workers of a pool are shared out in order: a quarter of the cores tile, the next
/// half fuse, and the others assemble.
pub proof fn law_workers_are_shared_out(cores: nat) -> (r: (nat, nat))
    requires
        cores >= 4,
    ensures
        4 * r.0 <= cores < 4 * r.0 + 4,
        2 * r.1 <= cores < 2 * r.1 + 2,
        forall|i: nat|
            {
                &&& (#[trigger] role_of(i, cores) is Tiler) == (i < r.0)
                &&& (role_of(i, cores) is Fuser) == (r.0 <= i < r.0 + r.1)
                &&& (role_of(i, cores) is Assembler) == (r.0 + r.1 <= i)
            },
{
    (cores / 4, cores / 2)
}

/// The role of a worker.
pub fn worker_role(i: usize, cores: usize) -> (r: Role)
    ensures
        r == role_of(i as nat, cores as nat),
{
    let tilers: usize = if cores / 4 < 1 {
        1
    } else {
        cores / 4
    };
    let fusers: usize = if cores / 2 < 1 {
        1
    } else {
        cores / 2
    };
    if i < tilers {
        Role::Tiler
    } else if i - tilers < fusers {
        Role::Fuser
    } else {
        Role::Assembler
    }
}

/// Where a worker looks for a task.
#[derive(Debug, Clone, Copy, PartialEq, Eq, Structural)]
pub enum Source {
    /// In its own queue.
    Own,
    /// Among the submitted tasks.
    Submitted,
    /// In the queues of other workers.
    Peers,
}

/// Where a worker looks next, after it has found nothing in a place: first in its
/// own queue, then among the submitted tasks, and an assembler then in the queues
/// of other workers.
pub open spec fn source_after(role: Role, tried: Option<Source>) -> Option<Source> {
    match tried {
        None => Some(Source::Own),
        Some(Source::Own) => Some(Source::Submitted),
        Some(Source::Submitted) => if role is Assembler {
            Some(Source::Peers)
        } else {
            None
        },
        Some(Source::Peers) => None,
    }
}

/// Where a worker looks next. There is no place where it has looked everywhere.
pub fn next_source(role: Role, tried: Option<Source>) -> (r: Option<Source>)
    ensures
        r == source_after(role, tried),
{
    match tried {
        None => Some(Source::Own),
        Some(Source::Own) => Some(Source::Submitted),
        Some(Source::Submitted) => match role {
            Role::Assembler => Some(Source::Peers),
            _ => None,
        },
        Some(Source::Peers) => None,
    }
}

/// What a worker does while it waits.
#[derive(Debug, Clone, Copy, PartialEq, Eq, Structural)]
pub enum IdleAction {
    /// Spin once.
    Spin,
    /// Let other threads run.
    Yield,
    /// Sleep so many milliseconds.
    SleepMs(u64),
}

/// How many times a worker spins before it yields.
pub const SPIN_LIMIT: u64 = 200;

/// How many times a worker waits before it sleeps.
pub const YIELD_LIMIT: u64 = 400;

/// What a worker does at its `idle_count`-th wait in a row: in the dedicated
/// mode it sleeps a millisecond; else it spins, then yields, then sleeps ever
/// longer, up to 16 milliseconds. A worker that is to stay awake never sleeps.
pub open spec fn idle_action(idle_count: u64, is_hyper: bool, is_xtreme: bool) -> IdleAction {
    if is_xtreme {
        IdleAction::SleepMs(1)
    } else if idle_count < SPIN_LIMIT {
        IdleAction::Spin
    } else if is_hyper || idle_count < YIELD_LIMIT {
        IdleAction::Yield
    } else if idle_count == YIELD_LIMIT {
        IdleAction::SleepMs(1)
    } else if idle_count == YIELD_LIMIT + 1 {
        IdleAction::SleepMs(2)
    } else if idle_count == YIELD_LIMIT + 2 {
        IdleAction::SleepMs(4)
    } else if idle_count == YIELD_LIMIT + 3 {
        IdleAction::SleepMs(8)
    } else {
        IdleAction::SleepMs(16)
    }
}

/// What a worker does while it waits.
pub fn idle_backoff(idle_count: u64, is_hyper: bool, is_xtreme: bool) -> (r: IdleAction)
    ensures
        r == idle_action(idle_count, is_hyper, is_xtreme),
{
    if is_xtreme {
        IdleAction::SleepMs(1)
    } else if idle_count < SPIN_LIMIT {
        IdleAction::Spin
    } else if is_hyper || idle_count < YIELD_LIMIT {
        IdleAction::Yield
    } else {
        match idle_count - YIELD_LIMIT {
            0 => IdleAction::SleepMs(1),
            1 => IdleAction::SleepMs(2),
            2 => IdleAction::SleepMs(4),
            3 => IdleAction::SleepMs(8),
            _ => IdleAction::SleepMs(16),
        }
    }
}

/// A worker that stays awake never sleeps, and no worker sleeps longer than
/// 16 milliseconds.
pub proof fn law_idle_bounds(idle_count: u64, is_hyper: bool, is_xtreme: bool)
    ensures
        idle_action(idle_count, is_hyper, is_xtreme) matches IdleAction::SleepMs(ms) ==> 1 <= ms
            <= 16,
        is_hyper && !is_xtreme ==> !(idle_action(idle_count, is_hyper, is_xtreme) is SleepMs),
{
}

/// What a worker knows between two turns.
#[derive(Debug, Clone, Copy, PartialEq, Eq, Structural)]
pub struct WorkerState {
    /// How many turns in a row had no task.
    pub idle_count: u64,
    /// Whether the worker stays awake.
    pub is_hyper: bool,
}

impl WorkerState {
    /// A worker at its start.
    pub fn new() -> (r: Self)
        ensures
            r.idle_count == 0,
            !r.is_hyper,
    {
        WorkerState { idle_count: 0, is_hyper: false }
    }

    /// Begins a turn in a mode, and tells whether the worker's priority is to be
    /// changed.
    pub fn begin_turn(&mut self, mode: ExecutionMode) -> (changed: bool)
        ensures
            final(self).is_hyper == (mode is Hyper || mode is Xtreme),
            final(self).idle_count == old(self).idle_count,
            changed == (final(self).is_hyper != old(self).is_hyper),
    {
        let is_hyper: bool = match mode {
            ExecutionMode::Hyper => true,
            ExecutionMode::Xtreme => true,
            _ => false,
        };
        let changed: bool = is_hyper != self.is_hyper;
        self.is_hyper = is_hyper;
        changed
    }

    /// Ends a turn that had a task.
    pub fn found_task(&mut self)
        ensures
            final(self).idle_count == 0,
            final(self).is_hyper == old(self).is_hyper,
    {
        self.idle_count = 0;
    }

    /// Ends a turn that had no task, and tells how to wait.
    pub fn found_nothing(&mut self, is_xtreme: bool) -> (r: IdleAction)
        requires
            old(self).idle_count < u64::MAX,
        ensures
            final(self).idle_count == old(self).idle_count + 1,
            final(self).is_hyper == old(self).is_hyper,
            r == idle_action(final(self).idle_count, old(self).is_hyper, is_xtreme),
    {
        self.idle_count = self.idle_count + 1;
        idle_backoff(self.idle_count, self.is_hyper, is_xtreme)
    }
}

// ─── The dedicated worker ────────────────────────────────────────────────────

/// How long the dedicated worker sleeps while its mode is off, in milliseconds.
pub const DEDICATED_SLEEP_MS: u64 = 10;

/// What the dedicated worker does in a turn.
#[derive(Debug, Clone, Copy, PartialEq, Eq, Structural)]
pub enum DedicatedAction {
    /// Sleep so many milliseconds.
    SleepMs(u64),
    /// Take a task, and spin once where there is none.
    Take,
}

/// What the dedicated worker knows between two turns.
#[derive(Debug, Clone, Copy, PartialEq, Eq, Structural)]
pub struct DedicatedState {
    /// Whether its priority is raised.
    pub elevated: bool,
}

impl DedicatedState {
    /// The worker at its start.
    pub fn new() -> (r: Self)
        ensures
            !r.elevated,
    {
        DedicatedState { elevated: false }
    }

    /// Begins a turn: tells whether the priority is to be changed, and what to
    /// do. The worker takes tasks while its mode is on, and sleeps while it is
    /// off.
    pub fn begin_turn(&mut self, is_xtreme: bool) -> (r: (bool, DedicatedAction))
        ensures
            final(self).elevated == is_xtreme,
            r.0 == (is_xtreme != old(self).elevated),
            r.1 == if is_xtreme {
                DedicatedAction::Take
            } else {
                DedicatedAction::SleepMs(DEDICATED_SLEEP_MS)
            },
    {
        let changed: bool = is_xtreme != self.elevated;
        self.elevated = is_xtreme;
        if is_xtreme {
            (changed, DedicatedAction::Take)
        } else {
            (changed, DedicatedAction::SleepMs(DEDICATED_SLEEP_MS))
        }
    }
}

} // verus!
