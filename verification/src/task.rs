use vstd::prelude::*;

use std::collections::VecDeque;

use crate::highmap::OrthoHighMap;
use crate::maze::OrthoMaze;

verus! {

/// What a task reports after one tick.
#[derive(Debug, PartialEq)]
pub enum Status {
    Done,
    Continuing,
    Aborted(String),
}

/// A structured description of what one tick did, for a logging or
/// rendering collaborator; purely advisory.
#[derive(Debug, Clone, Copy, PartialEq, Eq, Structural)]
pub enum StepEvent {
    ForcedCarveRight,
    ForcedCarveDown,
    CarveRight,
    CarveDown,
    RunExtended,
    RunClosed,
    CarveToUnvisited,
    MoveWithoutCarve,
    WalkContinued,
    LoopErased,
    WalkCommitted,
    Relocated,
    Started,
    MazeComplete,
    NoNeighbours,
    NoUnvisitedCell,
    DepthMeasured,
}

/// The shared state handed to each task tick: the maze being carved and
/// the distance overlay computed over it.
pub struct Args {
    pub maze: OrthoMaze,
    pub highmap: OrthoHighMap,
}

impl Args {
    /// Both grids are well formed and congruent.
    pub open spec fn wf(&self) -> bool {
        &&& self.maze.wf()
        &&& self.highmap.wf()
        &&& self.highmap.spec_columns() == self.maze.spec_columns()
        &&& self.highmap.spec_lines() == self.maze.spec_lines()
    }
}

/// The resumable units of work the executor can drive: the four carving
/// strategies and the distance scan, as one closed sum so dispatch is
/// exhaustive.
pub enum Task {
    BinaryTree(crate::carving::BinaryTree),
    SideWinder(crate::carving::SideWinder),
    AldousBroder(crate::carving::AldousBroder),
    Wilson(crate::carving::Wilson),
    DijkstraWalk(crate::seeding::DijkstraWalk),
}

impl Task {
    pub open spec fn spec_name(&self) -> &'static str {
        match self {
            Task::BinaryTree(_) => "BinaryTree",
            Task::SideWinder(_) => "SideWinder",
            Task::AldousBroder(_) => "AldousBroder",
            Task::Wilson(_) => "Wilson",
            Task::DijkstraWalk(_) => "DijkstraWalk",
        }
    }

    /// The task's cursor state fits the grids it will be stepped on.
    pub open spec fn wf_for(&self, args: Args) -> bool {
        match self {
            Task::BinaryTree(t) => t.wf_for(args.maze),
            Task::SideWinder(t) => t.wf_for(args.maze),
            Task::AldousBroder(t) => t.wf_for(args.maze),
            Task::Wilson(t) => t.wf_for(args.maze),
            Task::DijkstraWalk(t) => t.wf_for(args.maze),
        }
    }

    pub fn name(&self) -> (r: &'static str)
        ensures
            r == self.spec_name(),
    {
        match self {
            Task::BinaryTree(_) => "BinaryTree",
            Task::SideWinder(_) => "SideWinder",
            Task::AldousBroder(_) => "AldousBroder",
            Task::Wilson(_) => "Wilson",
            Task::DijkstraWalk(_) => "DijkstraWalk",
        }
    }

    /// The advisory description of the last tick, per task kind.
    pub open spec fn spec_action(&self) -> Option<StepEvent> {
        match self {
            Task::BinaryTree(t) => t.spec_last_event(),
            Task::SideWinder(t) => t.spec_last_event(),
            Task::AldousBroder(t) => t.spec_last_event(),
            Task::Wilson(t) => t.spec_last_event(),
            Task::DijkstraWalk(t) => t.spec_last_event(),
        }
    }

    /// The advisory description of the last tick.
    pub fn action(&self) -> (r: Option<StepEvent>)
        ensures
            r == self.spec_action(),
    {
        match self {
            Task::BinaryTree(t) => t.action(),
            Task::SideWinder(t) => t.action(),
            Task::AldousBroder(t) => t.action(),
            Task::Wilson(t) => t.action(),
            Task::DijkstraWalk(t) => t.action(),
        }
    }

    /// One tick of the task: grid shapes are preserved, the task stays
    /// fit for the grids, and its kind never changes.
    pub fn execute_one(&mut self, args: &mut Args) -> (r: Status)
        requires
            old(args).wf(),
            old(self).wf_for(*old(args)),
        ensures
            final(args).wf(),
            old(args).maze.same_shape(&final(args).maze),
            final(args).highmap.spec_columns() == old(args).highmap.spec_columns(),
            final(args).highmap.spec_lines() == old(args).highmap.spec_lines(),
            final(self).wf_for(*final(args)),
            final(self).spec_name() == old(self).spec_name(),
            task_step_rel(*old(self), *old(args), *final(self), *final(args), r),
    {
        match self {
            Task::BinaryTree(t) => t.execute_one(args),
            Task::SideWinder(t) => t.execute_one(args),
            Task::AldousBroder(t) => t.execute_one(args),
            Task::Wilson(t) => t.execute_one(args),
            Task::DijkstraWalk(t) => t.execute_one(args),
        }
    }
}

/// Everything one tick of a task guarantees, dispatched on its kind: a
/// tick never changes the kind, and it relates the pre and post states
/// exactly by that kind's own step relation.
pub open spec fn task_step_rel(pre: Task, a0: Args, post: Task, a1: Args, r: Status) -> bool {
    match (pre, post) {
        (Task::BinaryTree(t0), Task::BinaryTree(t1)) => crate::carving::BinaryTree::step_rel(
            t0,
            a0,
            t1,
            a1,
            r,
        ),
        (Task::SideWinder(t0), Task::SideWinder(t1)) => crate::carving::SideWinder::step_rel(
            t0,
            a0,
            t1,
            a1,
            r,
        ),
        (Task::AldousBroder(t0), Task::AldousBroder(t1)) => crate::carving::AldousBroder::step_rel(
            t0,
            a0,
            t1,
            a1,
            r,
        ),
        (Task::Wilson(t0), Task::Wilson(t1)) => crate::carving::Wilson::step_rel(t0, a0, t1, a1, r),
        (Task::DijkstraWalk(t0), Task::DijkstraWalk(t1)) => crate::seeding::DijkstraWalk::step_rel(
            t0,
            a0,
            t1,
            a1,
            r,
        ),
        _ => false,
    }
}

/// A chain of `n` genuine Continuing ticks of one task, from state
/// `(t0, a0)` to state `(t1, a1)`.
pub open spec fn continuing_ticks(n: nat, t0: Task, a0: Args, t1: Task, a1: Args) -> bool
    decreases n,
{
    if n == 0 {
        t1 == t0 && a1 == a0
    } else {
        exists|tm: Task, am: Args|
            continuing_ticks((n - 1) as nat, t0, a0, tm, am) && #[trigger] task_step_rel(
                tm,
                am,
                t1,
                a1,
                Status::Continuing,
            )
    }
}

/// A task keeps fitting any same-shaped grids: its well-formedness reads
/// only the dimensions.
pub proof fn lemma_task_wf_same_shape(t: Task, a1: Args, a2: Args)
    requires
        t.wf_for(a1),
        a1.maze.spec_columns() == a2.maze.spec_columns(),
        a1.maze.spec_lines() == a2.maze.spec_lines(),
    ensures
        t.wf_for(a2),
{
    match t {
        Task::BinaryTree(w) => {},
        Task::SideWinder(w) => {},
        Task::AldousBroder(w) => {
            assert forall|k: int|
                0 <= k < w.spec_walk().len() implies (#[trigger] w.spec_walk()[k]).within(
                a2.maze,
            ) by {
                assert(w.spec_walk()[k].within(a1.maze));
            }
        },
        Task::Wilson(w) => {
            assert forall|k: int|
                0 <= k < w.spec_walk().len() implies (#[trigger] w.spec_walk()[k]).within(
                a2.maze,
            ) by {
                assert(w.spec_walk()[k].within(a1.maze));
            }
        },
        Task::DijkstraWalk(w) => {
            assert forall|k: int|
                0 <= k < w.spec_frontier().len() implies (#[trigger] w.spec_frontier()[k]).within(
                a2.maze,
            ) by {
                assert(w.spec_frontier()[k].within(a1.maze));
            }
        },
    }
}

/// The cooperative scheduler: a queue of pending tasks whose front alone
/// is ever stepped; later tasks wait inert until their predecessors
/// finish.
pub struct Executor {
    stack: VecDeque<Task>,
}

impl Executor {
    pub closed spec fn spec_queue(&self) -> Seq<Task> {
        self.stack@
    }

    /// Every queued task fits the grids it will be stepped on.
    pub open spec fn wf_for(&self, args: Args) -> bool {
        forall|k: int|
            0 <= k < self.spec_queue().len() ==> (#[trigger] self.spec_queue()[k]).wf_for(args)
    }

    pub fn new() -> (e: Executor)
        ensures
            e.spec_queue() =~= Seq::<Task>::empty(),
    {
        Executor { stack: VecDeque::new() }
    }

    /// Appends a task at the back of the queue.
    pub fn stack(&mut self, task: Task)
        ensures
            final(self).spec_queue() == old(self).spec_queue().push(task),
    {
        self.stack.push_back(task);
    }

    /// Empties the queue unconditionally.
    pub fn clear(&mut self)
        ensures
            final(self).spec_queue() =~= Seq::<Task>::empty(),
    {
        self.stack.clear();
    }

    /// How many tasks are pending.
    pub fn len(&self) -> (n: usize)
        ensures
            n == self.spec_queue().len(),
    {
        self.stack.len()
    }

    pub fn is_empty(&self) -> (b: bool)
        ensures
            b == (self.spec_queue().len() == 0),
    {
        self.stack.len() == 0
    }

    /// The name of the task that would be stepped next.
    pub fn front_name(&self) -> (r: Option<&'static str>)
        ensures
            match r {
                Some(name) => self.spec_queue().len() > 0 && name == self.spec_queue()[0].spec_name(),
                None => self.spec_queue().len() == 0,
            },
    {
        if self.stack.len() == 0 {
            None
        } else {
            Some(self.stack[0].name())
        }
    }

    /// One tick of the front task; Done or Aborted pops it. An empty
    /// queue reports Done and moves nothing.
    fn do_exec(&mut self, args: &mut Args) -> (r: Status)
        requires
            old(args).wf(),
            old(self).wf_for(*old(args)),
        ensures
            final(args).wf(),
            old(args).maze.same_shape(&final(args).maze),
            final(args).highmap.spec_columns() == old(args).highmap.spec_columns(),
            final(args).highmap.spec_lines() == old(args).highmap.spec_lines(),
            final(self).wf_for(*final(args)),
            old(self).spec_queue().len() == 0 ==> r is Done && final(self).spec_queue() == old(self).spec_queue()
                && *final(args) == *old(args),
            old(self).spec_queue().len() > 0 ==> exists|front1: Task|
                #[trigger] task_step_rel(old(self).spec_queue()[0], *old(args), front1, *final(args), r)
                    && (r is Continuing ==> final(self).spec_queue() == seq![front1]
                    + old(self).spec_queue().drop_first()) && (!(r is Continuing) ==> final(self).spec_queue()
                    == old(self).spec_queue().drop_first()),
    {
        let ghost args0 = *args;
        match self.stack.pop_front() {
            None => Status::Done,
            Some(mut task) => {
                let ghost tail = self.stack@;
                let status = task.execute_one(args);
                let ghost tfin = task;
                proof {
                    assert forall|k: int|
                        0 <= k < self.stack@.len() implies (#[trigger] self.stack@[k]).wf_for(
                        *args,
                    ) by {
                        assert(old(self).spec_queue()[k + 1] == self.stack@[k]);
                        lemma_task_wf_same_shape(self.stack@[k], args0, *args);
                    };
                    assert(task_step_rel(old(self).spec_queue()[0], args0, tfin, *args, status));
                }
                match status {
                    Status::Continuing => {
                        self.stack.push_front(task);
                        proof {
                            assert(self.stack@ =~= seq![tfin]
                                + old(self).spec_queue().drop_first());
                        }
                    },
                    _ => {
                        proof {
                            assert(self.stack@ =~= old(self).spec_queue().drop_first());
                        }
                    },
                }
                status
            },
        }
    }

    /// Ticks the front task exactly once; on Done or Aborted that task
    /// alone leaves the queue, on Continuing it stays at the front with
    /// its new state. An empty queue moves nothing.
    pub fn run_step(&mut self, args: &mut Args)
        requires
            old(args).wf(),
            old(self).wf_for(*old(args)),
        ensures
            final(args).wf(),
            old(args).maze.same_shape(&final(args).maze),
            final(self).wf_for(*final(args)),
            old(self).spec_queue().len() == 0 ==> final(self).spec_queue() == old(self).spec_queue()
                && *final(args) == *old(args),
            old(self).spec_queue().len() > 0 ==> exists|front1: Task, r0: Status|
                #[trigger] task_step_rel(old(self).spec_queue()[0], *old(args), front1, *final(args), r0)
                    && (r0 is Continuing ==> final(self).spec_queue() == seq![front1]
                    + old(self).spec_queue().drop_first()) && (!(r0 is Continuing)
                    ==> final(self).spec_queue() == old(self).spec_queue().drop_first()),
    {
        let status = self.do_exec(args);
        proof {
            if old(self).spec_queue().len() > 0 {
                let front1 = choose|f: Task|
                    #[trigger] task_step_rel(old(self).spec_queue()[0], *old(args), f, *args, status)
                        && (status is Continuing ==> self.spec_queue() == seq![f]
                        + old(self).spec_queue().drop_first()) && (!(status is Continuing)
                        ==> self.spec_queue() == old(self).spec_queue().drop_first());
                assert(task_step_rel(old(self).spec_queue()[0], *old(args), front1, *args, status));
            }
        }
    }

    /// Ticks the front task until it reports anything but Continuing,
    /// then pops that task alone: the final grids are reached from the
    /// initial ones by a chain of genuine front-task ticks, closed by the
    /// non-Continuing tick that popped it. An empty queue moves nothing.
    /// (An astronomically large tick budget stands in for the unbounded
    /// loop; on exhaustion the front task stays queued mid-chain.)
    pub fn run_task(&mut self, args: &mut Args)
        requires
            old(args).wf(),
            old(self).wf_for(*old(args)),
        ensures
            final(args).wf(),
            old(args).maze.same_shape(&final(args).maze),
            final(self).wf_for(*final(args)),
            old(self).spec_queue().len() == 0 ==> final(self).spec_queue() == old(self).spec_queue()
                && *final(args) == *old(args),
            old(self).spec_queue().len() > 0 ==> exists|n: nat, tm: Task, am: Args|
                #[trigger] continuing_ticks(n, old(self).spec_queue()[0], *old(args), tm, am)
                    && (((exists|tfin: Task, r0: Status|
                    #[trigger] task_step_rel(tm, am, tfin, *final(args), r0) && !(r0 is Continuing))
                    && final(self).spec_queue() == old(self).spec_queue().drop_first()) || (n >= 1
                    && am == *final(args) && final(self).spec_queue() == seq![tm]
                    + old(self).spec_queue().drop_first())),
    {
        let ghost q0 = self.spec_queue();
        let ghost a0 = *args;
        let mut fuel: u64 = u64::MAX;
        proof {
            if q0.len() > 0 {
                assert(continuing_ticks(0, q0[0], a0, q0[0], a0));
                assert(self.spec_queue() =~= seq![q0[0]] + q0.drop_first());
            }
        }
        loop
            invariant_except_break
                q0.len() > 0 ==> exists|n: nat, tm: Task, am: Args|
                    #[trigger] continuing_ticks(n, q0[0], a0, tm, am) && n == u64::MAX - fuel && tm
                        == self.spec_queue()[0] && am == *args && self.spec_queue() == seq![tm]
                        + q0.drop_first(),
            invariant
                args.wf(),
                self.wf_for(*args),
                old(args).maze.same_shape(&args.maze),
                old(args).maze.spec_columns() == args.maze.spec_columns(),
                old(args).maze.spec_lines() == args.maze.spec_lines(),
                q0 == old(self).spec_queue(),
                a0 == *old(args),
                q0.len() == 0 ==> self.spec_queue() == q0 && *args == a0,
            ensures
                args.wf(),
                self.wf_for(*args),
                old(args).maze.same_shape(&args.maze),
                q0.len() == 0 ==> self.spec_queue() == q0 && *args == a0,
                q0.len() > 0 ==> exists|n: nat, tm: Task, am: Args|
                    #[trigger] continuing_ticks(n, q0[0], a0, tm, am) && (((exists|
                        tfin: Task,
                        r0: Status,
                    |
                        #[trigger] task_step_rel(tm, am, tfin, *args, r0) && !(r0 is Continuing))
                        && self.spec_queue() == q0.drop_first()) || (n >= 1 && am == *args
                        && self.spec_queue() == seq![tm] + q0.drop_first())),
            decreases fuel,
        {
            if fuel == 0 {
                break ;
            }
            fuel = fuel - 1;
            let ghost qpre = self.spec_queue();
            let ghost apre = *args;
            let ghost (n0, tm0, am0): (nat, Task, Args) = if q0.len() > 0 {
                choose|n: nat, tm: Task, am: Args|
                    #[trigger] continuing_ticks(n, q0[0], a0, tm, am) && n == u64::MAX - (fuel + 1)
                        && tm == qpre[0] && am == apre && qpre == seq![tm] + q0.drop_first()
            } else {
                (arbitrary(), arbitrary(), arbitrary())
            };
            let status = self.do_exec(args);
            match status {
                Status::Continuing => {
                    proof {
                        assert(qpre.len() > 0);
                        let front1 = choose|f: Task|
                            #[trigger] task_step_rel(qpre[0], apre, f, *args, status) && (
                            status is Continuing ==> self.spec_queue() == seq![f]
                                + qpre.drop_first()) && (!(status is Continuing)
                                ==> self.spec_queue() == qpre.drop_first());
                        assert(task_step_rel(tm0, am0, front1, *args, Status::Continuing));
                        assert(continuing_ticks(n0 + 1, q0[0], a0, front1, *args));
                        assert(qpre.drop_first() =~= q0.drop_first());
                        assert(self.spec_queue() == seq![front1] + q0.drop_first());
                        assert(n0 + 1 == u64::MAX - fuel);
                    }
                },
                _ => {
                    proof {
                        if qpre.len() > 0 {
                            let front1 = choose|f: Task|
                                #[trigger] task_step_rel(qpre[0], apre, f, *args, status) && (
                                status is Continuing ==> self.spec_queue() == seq![f]
                                    + qpre.drop_first()) && (!(status is Continuing)
                                    ==> self.spec_queue() == qpre.drop_first());
                            assert(task_step_rel(tm0, am0, front1, *args, status));
                            assert(continuing_ticks(n0, q0[0], a0, tm0, am0));
                            assert(qpre.drop_first() =~= q0.drop_first());
                            assert(self.spec_queue() == q0.drop_first());
                        } else {
                            assert(q0.len() == 0);
                            assert(self.spec_queue() == qpre);
                        }
                    }
                    break ;
                },
            }
        }
    }

    /// Drains the queue, ticking only front tasks; stops the instant a
    /// task reports Aborted, leaving the rest of the queue intact, and
    /// hands that very signal back to the caller: the Aborted status is
    /// the one a genuine tick of the task that left last produced on the
    /// final grids. (The same astronomically large tick budget as
    /// `run_task` stands in for the unbounded loop.)
    pub fn run(&mut self, args: &mut Args) -> (r: Status)
        requires
            old(args).wf(),
            old(self).wf_for(*old(args)),
        ensures
            final(args).wf(),
            old(args).maze.same_shape(&final(args).maze),
            final(self).wf_for(*final(args)),
            old(self).spec_queue().len() == 0 ==> r is Done && final(self).spec_queue() == old(self).spec_queue()
                && *final(args) == *old(args),
            r is Done ==> final(self).spec_queue().len() == 0,
            r is Continuing ==> final(self).spec_queue().len() > 0,
            r is Aborted ==> exists|k: int|
                1 <= k <= old(self).spec_queue().len() && final(self).spec_queue() == #[trigger] old(self).spec_queue().skip(k)
                    && exists|a_entry: Args, n: nat, tm: Task, am: Args, tfin: Task|
                    #![trigger continuing_ticks(n, old(self).spec_queue()[k - 1], a_entry, tm, am), task_step_rel(tm, am, tfin, *final(args), r)]
                    continuing_ticks(n, old(self).spec_queue()[k - 1], a_entry, tm, am)
                        && task_step_rel(tm, am, tfin, *final(args), r),
    {
        let ghost q0 = self.spec_queue();
        let ghost a0 = *args;
        proof {
            assert(q0.skip(0) =~= q0);
            assert(q0.skip(0).drop_first() == q0.skip(0).drop_first());
            if q0.len() > 0 {
                assert(continuing_ticks(0, q0[0], a0, self.spec_queue()[0], *args));
                assert(self.spec_queue().drop_first() == q0.skip(0).drop_first());
                assert(0 <= 0 <= q0.len() && self.spec_queue().len() == q0.len() - 0 && (
                self.spec_queue().len() == 0 || (self.spec_queue().drop_first() == q0.skip(
                    0,
                ).drop_first() && exists|a_entry: Args, n: nat|
                    #[trigger] continuing_ticks(n, q0[0], a_entry, self.spec_queue()[0], *args))));
            }
            assert(exists|k: int|
                0 <= k <= q0.len() && self.spec_queue().len() == q0.len() - k && (
                self.spec_queue().len() == 0 || (self.spec_queue().drop_first() == #[trigger] q0.skip(
                    k,
                ).drop_first() && exists|a_entry: Args, n: nat|
                    #[trigger] continuing_ticks(n, q0[k], a_entry, self.spec_queue()[0], *args))));
        }
        let mut fuel: u64 = u64::MAX;
        loop
            invariant
                args.wf(),
                self.wf_for(*args),
                old(args).maze.same_shape(&args.maze),
                old(args).maze.spec_columns() == args.maze.spec_columns(),
                old(args).maze.spec_lines() == args.maze.spec_lines(),
                q0 == old(self).spec_queue(),
                a0 == *old(args),
                q0.len() == 0 ==> self.spec_queue() == q0 && *args == a0,
                exists|k: int|
                    0 <= k <= q0.len() && self.spec_queue().len() == q0.len() - k && (
                    self.spec_queue().len() == 0 || (self.spec_queue().drop_first() == #[trigger] q0.skip(
                        k,
                    ).drop_first() && exists|a_entry: Args, n: nat|
                        #[trigger] continuing_ticks(n, q0[k], a_entry, self.spec_queue()[0], *args))),
            decreases fuel,
        {
            if self.stack.len() == 0 {
                break ;
            }
            if fuel == 0 {
                break ;
            }
            fuel = fuel - 1;
            let ghost qpre = self.spec_queue();
            let ghost apre = *args;
            let ghost k0 = choose|k: int|
                0 <= k <= q0.len() && qpre.len() == q0.len() - k && (qpre.len() == 0 || (
                qpre.drop_first() == #[trigger] q0.skip(k).drop_first() && exists|
                    a_entry: Args,
                    n: nat,
                |
                    #[trigger] continuing_ticks(n, q0[k], a_entry, qpre[0], apre)));
            let ghost (ae0, n0): (Args, nat) = choose|a_entry: Args, n: nat|
                #[trigger] continuing_ticks(n, q0[k0], a_entry, qpre[0], apre);
            let status = self.do_exec(args);
            match status {
                Status::Aborted(why) => {
                    proof {
                        let front1 = choose|f: Task|
                            #[trigger] task_step_rel(qpre[0], apre, f, *args, status) && (
                            status is Continuing ==> self.spec_queue() == seq![f]
                                + qpre.drop_first()) && (!(status is Continuing)
                                ==> self.spec_queue() == qpre.drop_first());
                        assert(self.spec_queue() == qpre.drop_first());
                        assert(qpre.drop_first() == q0.skip(k0).drop_first());
                        assert(q0.skip(k0).drop_first() =~= q0.skip(k0 + 1));
                        assert(1 <= k0 + 1 <= old(self).spec_queue().len() && self.spec_queue()
                            == old(self).spec_queue().skip(k0 + 1));
                        assert(continuing_ticks(n0, old(self).spec_queue()[k0 + 1 - 1], ae0, qpre[0], apre));
                        assert(task_step_rel(qpre[0], apre, front1, *args, status));
                        assert(exists|a_entry: Args, n: nat, tm: Task, am: Args, tfin: Task|
                            #![trigger continuing_ticks(n, old(self).spec_queue()[k0 + 1 - 1], a_entry, tm, am), task_step_rel(tm, am, tfin, *args, status)]
                            continuing_ticks(n, old(self).spec_queue()[k0 + 1 - 1], a_entry, tm, am)
                                && task_step_rel(tm, am, tfin, *args, status));
                    }
                    return Status::Aborted(why);
                },
                _ => {
                    proof {
                        let front1 = choose|f: Task|
                            #[trigger] task_step_rel(qpre[0], apre, f, *args, status) && (
                            status is Continuing ==> self.spec_queue() == seq![f]
                                + qpre.drop_first()) && (!(status is Continuing)
                                ==> self.spec_queue() == qpre.drop_first());
                        if status is Continuing {
                            assert(task_step_rel(qpre[0], apre, front1, *args, Status::Continuing));
                            assert(continuing_ticks(n0 + 1, q0[k0], ae0, front1, *args));
                            assert(self.spec_queue().len() == q0.len() - k0);
                            assert(self.spec_queue().drop_first() =~= qpre.drop_first());
                            assert(self.spec_queue()[0] == front1);
                            assert(continuing_ticks(n0 + 1, q0[k0], ae0, self.spec_queue()[0], *args));
                            assert(0 <= k0 <= q0.len() && self.spec_queue().len() == q0.len() - k0
                                && (self.spec_queue().len() == 0 || (self.spec_queue().drop_first()
                                == q0.skip(k0).drop_first() && exists|a_entry: Args, n: nat|
                                    #[trigger] continuing_ticks(
                                    n,
                                    q0[k0],
                                    a_entry,
                                    self.spec_queue()[0],
                                    *args,
                                ))));
                        } else {
                            assert(self.spec_queue() == qpre.drop_first());
                            assert(qpre.drop_first() == q0.skip(k0).drop_first());
                            assert(q0.skip(k0).drop_first() =~= q0.skip(k0 + 1));
                            if self.spec_queue().len() > 0 {
                                assert(self.spec_queue().drop_first() =~= q0.skip(
                                    k0 + 1,
                                ).drop_first());
                                assert(self.spec_queue()[0] == q0.skip(k0 + 1)[0]);
                                assert(q0.skip(k0 + 1)[0] == q0[k0 + 1]);
                                assert(continuing_ticks(0, q0[k0 + 1], *args, self.spec_queue()[0], *args));
                            }
                            assert(0 <= k0 + 1 <= q0.len() && self.spec_queue().len() == q0.len() - (
                            k0 + 1) && (self.spec_queue().len() == 0 || (
                            self.spec_queue().drop_first() == q0.skip(k0 + 1).drop_first() && exists|
                                a_entry: Args,
                                n: nat,
                            |
                                #[trigger] continuing_ticks(
                                    n,
                                    q0[k0 + 1],
                                    a_entry,
                                    self.spec_queue()[0],
                                    *args,
                                ))));
                        }
                    }
                },
            }
        }
        if self.stack.len() == 0 {
            Status::Done
        } else {
            Status::Continuing
        }
    }
}

} // verus!
