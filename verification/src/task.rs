//! The queue of tasks and the decisions of a worker.

use vstd::prelude::*;
use std::collections::VecDeque;
use crate::eval::{EvalError, Task, TaskView, run_view};
use crate::heap::{Heap, dump_page, run_gc, set_singal_run, singal_running};
use crate::symbol::Dict;
use crate::term::TermRef;

verus! {

/// The number of workers of the pool.
pub const THREAD_MAX: usize = 8;

/// The number of steps a worker gives a task before it puts it back.
pub const TIME_SLICE: i32 = 1024;

/// The tasks that wait for a worker, first in first out, and the number of
/// workers alive.
pub struct TaskPool {
    queue: VecDeque<Task>,
    live: usize,
}

/// What a worker did in one turn of its loop.
#[derive(Clone, Copy, PartialEq, Eq, Structural, Debug)]
pub enum Turn {
    /// The flag was cleared: the worker leaves its loop.
    Stop,
    /// No task was waiting: the worker sleeps.
    Idle,
    /// A task ran to its end, with this literal.
    Finished(TermRef),
    /// A task failed, with this error.
    Failed(EvalError),
    /// A task ran out of its slice and went back to the end of the queue.
    Requeued,
}

impl TaskPool {
    /// The waiting tasks, the next to run first.
    pub closed spec fn tasks(&self) -> Seq<Task> {
        self.queue@
    }

    /// The number of workers alive.
    pub closed spec fn live(&self) -> nat {
        self.live as nat
    }

    /// Every waiting task is well formed in `heap`.
    pub open spec fn wf(&self, heap: &Heap) -> bool {
        forall|i: int| 0 <= i < self.tasks().len() ==> (#[trigger] self.tasks()[i]).wf(heap)
    }

    /// The states of the waiting tasks.
    pub open spec fn views(&self, heap: &Heap) -> Seq<TaskView> {
        self.tasks().map_values(|t: Task| t.view(heap))
    }

    /// In a store that keeps the meaning of every handle of `old`, the
    /// waiting tasks keep their states.
    pub proof fn lemma_extends(&self, old: &Heap, new: &Heap)
        requires
            self.wf(old),
            new.preserves(old),
        ensures
            self.wf(new),
            self.views(new) == self.views(old),
    {
        assert forall|i: int| 0 <= i < self.tasks().len() implies (#[trigger] self.tasks()[i]).wf(
            new,
        ) && self.tasks()[i].view(new) == self.tasks()[i].view(old) by {
            self.tasks()[i].lemma_extends(old, new);
        }
        assert(self.views(new) =~= self.views(old));
    }

    /// A pool with no task and no worker.
    pub fn new() -> (p: TaskPool)
        ensures
            p.tasks() == Seq::<Task>::empty(),
            p.live() == 0,
    {
        TaskPool { queue: VecDeque::new(), live: 0 }
    }

    /// The number of waiting tasks.
    pub fn waiting(&self) -> (n: usize)
        ensures
            n == self.tasks().len(),
    {
        self.queue.len()
    }

    /// The number of workers alive.
    pub fn workers(&self) -> (n: usize)
        ensures
            n == self.live(),
    {
        self.live
    }
}

/// Takes the task at the front of the queue, if there is one.
pub fn fetch_task(pool: &mut TaskPool) -> (t: Option<Task>)
    ensures
        final(pool).live() == old(pool).live(),
        match t {
            Some(task) => old(pool).tasks().len() > 0 && task == old(pool).tasks()[0] && final(
                pool
            ).tasks() == old(pool).tasks().drop_first(),
            None => old(pool).tasks().len() == 0 && final(pool).tasks() == old(pool).tasks(),
        },
{
    let t = pool.queue.pop_front();
    proof {
        if t is Some {
            assert(pool.queue@ =~= old(pool).queue@.drop_first());
        }
    }
    t
}

/// Puts a task at the back of the queue.
pub fn send_task(pool: &mut TaskPool, task: Task)
    ensures
        final(pool).live() == old(pool).live(),
        final(pool).tasks() == old(pool).tasks().push(task),
{
    pool.queue.push_back(task);
}

/// Empties the queue and returns its tasks, the front first.
pub fn drain_task(pool: &mut TaskPool) -> (v: Vec<Task>)
    ensures
        final(pool).live() == old(pool).live(),
        v@ == old(pool).tasks(),
        final(pool).tasks() == Seq::<Task>::empty(),
{
    let mut v: Vec<Task> = Vec::new();
    let ghost all = pool.queue@;
    loop
        invariant
            pool.live == old(pool).live,
            all == old(pool).queue@,
            v@ + pool.queue@ == all,
        ensures
            v@ == all,
            pool.queue@.len() == 0,
        decreases pool.queue@.len(),
    {
        match pool.queue.pop_front() {
            Some(task) => {
                let ghost rest = pool.queue@;
                let ghost before = v@;
                v.push(task);
                assert(v@ + rest =~= before + (seq![task] + rest));
                assert(seq![task] + rest =~= old(pool).queue@.subrange(
                    before.len() as int,
                    all.len() as int,
                )) by {
                    assert((before + (seq![task] + rest)) =~= all) by {
                        assert(seq![task] + rest =~= seq![task].add(rest));
                    }
                }
            },
            None => {
                assert(v@ + pool.queue@ =~= v@);
                break ;
            },
        }
    }
    assert(pool.queue@ =~= Seq::<Task>::empty());
    v
}

/// Starts the pool: sets the flag and counts `THREAD_MAX` workers alive.
/// Returns the number of workers that the caller is to launch.
pub fn thread_init(pool: &mut TaskPool, heap: &mut Heap) -> (n: usize)
    requires
        old(pool).live() == 0,
    ensures
        n == THREAD_MAX,
        final(pool).live() == THREAD_MAX,
        final(pool).tasks() == old(pool).tasks(),
        final(heap).running(),
        final(heap).same_store(old(heap)),
        final(heap).dumped() == old(heap).dumped(),
        old(heap).wf() ==> final(heap).wf(),
{
    set_singal_run(heap);
    pool.live = THREAD_MAX;
    THREAD_MAX
}

/// One turn of a worker's loop.
///
/// With the flag cleared the worker stops, and with no task waiting it
/// idles; nothing changes in either case.  Otherwise the task at the front
/// of the queue runs for `TIME_SLICE` steps: a task that completes or fails
/// leaves the pool, and one that runs out of its slice goes to the back of
/// the queue in the state it has reached.
pub fn worker_turn(pool: &mut TaskPool, heap: &mut Heap, dict: &Dict) -> (turn: Turn)
    requires
        old(heap).wf(),
        old(pool).wf(old(heap)),
        dict.wf(old(heap)),
    ensures
        final(heap).wf(),
        final(heap).extends(old(heap)),
        final(pool).wf(final(heap)),
        final(pool).live() == old(pool).live(),
        dict.wf(final(heap)),
        dict.defs(final(heap)) == dict.defs(old(heap)),
        if !old(heap).running() {
            turn == Turn::Stop && final(pool).tasks() == old(pool).tasks() && *final(heap) == *old(
                heap,
            )
        } else if old(pool).tasks().len() == 0 {
            turn == Turn::Idle && final(pool).tasks() == old(pool).tasks() && *final(heap) == *old(
                heap,
            )
        } else {
            let run = run_view(
                dict.defs(old(heap)),
                old(pool).tasks()[0].view(old(heap)),
                TIME_SLICE as nat,
            );
            let rest = old(pool).views(old(heap)).drop_first();
            match run.halt {
                Some(Ok(v)) => turn matches Turn::Finished(r) && final(heap).valid(r) && final(
                    heap
                ).tree(r) == v && final(pool).views(final(heap)) == rest,
                Some(Err(e)) => turn == Turn::Failed(e) && final(pool).views(final(heap)) == rest,
                None => turn == Turn::Requeued && final(pool).views(final(heap)) == rest.push(
                    run.state,
                ),
            }
        },
{
    if !singal_running(heap) {
        return Turn::Stop;
    }
    match fetch_task(pool) {
        None => Turn::Idle,
        Some(mut task) => {
            let ghost rest_tasks = pool.tasks();
            assert(old(pool).tasks()[0].wf(old(heap)));
            let out = task.eval(heap, dict, TIME_SLICE);
            proof {
                dict.lemma_extends(old(heap), heap);
                assert forall|i: int| 0 <= i < rest_tasks.len() implies (#[trigger] rest_tasks[i]).wf(
                    heap,
                ) && rest_tasks[i].view(heap) == rest_tasks[i].view(old(heap)) by {
                    assert(rest_tasks[i] == old(pool).tasks()[i + 1]);
                    rest_tasks[i].lemma_extends(old(heap), heap);
                }
                assert(pool.views(heap) =~= old(pool).views(old(heap)).drop_first());
            }
            match out {
                Some(Ok(r)) => Turn::Finished(r),
                Some(Err(e)) => Turn::Failed(e),
                None => {
                    let ghost state = task.view(heap);
                    send_task(pool, task);
                    proof {
                        assert(pool.views(heap) =~= old(pool).views(old(heap)).drop_first().push(
                            state,
                        ));
                    }
                    Turn::Requeued
                },
            }
        },
    }
}

/// What a worker does when it has left its loop.
///
/// It retires its page and is counted out.  The last worker out runs a
/// collection and starts the pool again; every worker then leaves the
/// sentinel page behind.  Returns the number of workers that the caller is
/// to launch: `THREAD_MAX` from the last worker out, none from the others.
pub fn worker_exit(pool: &mut TaskPool, heap: &mut Heap, dict: &mut Dict) -> (spawn: usize)
    requires
        old(heap).wf(),
        old(pool).wf(old(heap)),
        old(dict).wf(old(heap)),
        old(pool).live() >= 1,
    ensures
        final(heap).wf(),
        final(pool).wf(final(heap)),
        final(dict).wf(final(heap)),
        final(dict).symbols() == old(dict).symbols(),
        final(dict).view(final(heap)) == old(dict).view(old(heap)),
        final(dict).defs(final(heap)) == old(dict).defs(old(heap)),
        if old(pool).live() == 1 {
            &&& spawn == THREAD_MAX
            &&& final(pool).live() == THREAD_MAX
            &&& final(heap).running()
            &&& final(pool).views(final(heap)) == old(pool).views(old(heap)).reverse()
            &&& forall|r: TermRef| #[trigger]
                final(heap).valid(r) ==> r.fresh(old(heap).page_count() + 1)
        } else {
            &&& spawn == 0
            &&& final(pool).live() == old(pool).live() - 1
            &&& final(heap).running() == old(heap).running()
            &&& final(heap).extends(old(heap))
            &&& final(pool).tasks() == old(pool).tasks()
            &&& *final(dict) == *old(dict)
        },
{
    dump_page(heap);
    let ghost h1 = *heap;
    proof {
        pool.lemma_extends(old(heap), heap);
        dict.lemma_extends(old(heap), heap);
    }
    let old_count = pool.live;
    pool.live = pool.live - 1;
    let mut spawn: usize = 0;
    if old_count == 1 {
        run_gc(heap, pool, dict);
        let ghost h_gc = *heap;
        let ghost pool_gc = *pool;
        spawn = thread_init(pool, heap);
        proof {
            assert(pool.tasks() == pool_gc.tasks());
            pool_gc.lemma_extends(&h_gc, heap);
            assert(pool.wf(heap));
            assert(pool.views(heap) =~= pool_gc.views(heap));
            dict.lemma_extends(&h_gc, heap);
        }
    }
    let ghost h2 = *heap;
    dump_page(heap);
    proof {
        pool.lemma_extends(&h2, heap);
        dict.lemma_extends(&h2, heap);
        if old_count == 1 {
            assert forall|r: TermRef| #[trigger] heap.valid(r) implies r.fresh(
                old(heap).page_count() + 1,
            ) by {
                assert(h2.valid(r));
            }
        }
    }
    spawn
}

} // verus!
