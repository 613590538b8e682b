use vstd::prelude::*;

verus! {

/// Error returned by `submit`: the work queue no longer accepts tasks, either
/// because the producer side was closed or because every consumer is gone.
/// Always recoverable: the caller simply stops submitting.
#[derive(Clone, Copy, Debug, PartialEq, Eq, Structural)]
pub struct Closed;

/// Error produced by a handler that could not transform its task. Isolated at
/// the worker boundary; it never crosses a queue.
#[derive(Clone, Copy, Debug, PartialEq, Eq, Structural)]
pub struct HandlerFailure;

/// What a worker does after its handler fails on a task.
#[derive(Clone, Copy, Debug, PartialEq, Eq, Structural)]
pub enum Policy {
    /// Drop the failed task and continue with the next one.
    DropTask,
    /// Terminate the worker, shrinking the pool.
    StopWorker,
}

/// The task-transformation function each worker applies: the one place the
/// embedding application plugs its own domain logic into the pipeline. It
/// must be pure: `succeeds` and `transformed` fix its behaviour on every
/// task.
pub trait Handler<T, R>: Sized {
    /// Whether the handler succeeds on a given task.
    spec fn succeeds(&self, task: T) -> bool;

    /// The result produced for a task the handler succeeds on.
    spec fn transformed(&self, task: T) -> R;

    /// Transform one task, or report failure.
    fn apply(&self, task: &T) -> (out: Result<R, HandlerFailure>)
        ensures
            out is Ok <==> self.succeeds(*task),
            out matches Ok(r) ==> r == self.transformed(*task),
    ;
}

/// What one worker step did: the structured events the pipeline emits in
/// place of direct console output. The embedding application decides where
/// they go.
#[derive(Clone, Copy, Debug, PartialEq, Eq, Structural)]
pub enum StepEvent {
    /// The worker pulled a task off the work queue.
    TaskReceived,
    /// The worker published a result to the result queue.
    ResultProduced,
    /// The handler failed on the held task.
    HandlerFailed,
    /// The worker terminated: end-of-stream, lost consumer, or stop policy.
    WorkerTerminated,
    /// The queue was empty but not yet closed; the worker would block.
    WouldBlock,
    /// The worker had already terminated.
    AlreadyDone,
}

/// One worker's phase. A worker is either waiting to pull a task, holding a
/// pulled task it has not finished, or terminated. The ghost index of a held
/// task records which submission the task was.
pub enum WorkerPhase<T> {
    /// Waiting at `next()` for a task or for end-of-stream.
    Idle,
    /// Pulled a task and not yet published its outcome.
    Holding(T, Ghost<int>),
    /// Observed end-of-stream, lost its consumer, or was stopped by policy.
    Done,
}

pub open spec fn is_holding<T>(ph: WorkerPhase<T>) -> bool {
    ph is Holding
}

/// The submission index a holding worker is working on (meaningless otherwise).
pub open spec fn held_ix<T>(ph: WorkerPhase<T>) -> int {
    match ph {
        WorkerPhase::Holding(_t, g) => g@,
        _ => -1,
    }
}

/// Progress still owed by one worker: two steps for a held task, one for an
/// idle worker, none once it is done.
pub open spec fn phase_weight<T>(ph: WorkerPhase<T>) -> int {
    match ph {
        WorkerPhase::Idle => 1,
        WorkerPhase::Holding(_t, _g) => 2,
        WorkerPhase::Done => 0,
    }
}

/// Progress still owed by the whole pool.
pub open spec fn weight_sum<T>(ws: Seq<WorkerPhase<T>>) -> int
    decreases ws.len(),
{
    if ws.len() == 0 {
        0
    } else {
        weight_sum(ws.drop_last()) + phase_weight(ws.last())
    }
}

/// How many workers hold a task right now.
pub open spec fn holding_count<T>(ws: Seq<WorkerPhase<T>>) -> int
    decreases ws.len(),
{
    if ws.len() == 0 {
        0
    } else {
        holding_count(ws.drop_last()) + if is_holding(ws.last()) {
            1int
        } else {
            0int
        }
    }
}

proof fn lemma_counts_push<T>(ws: Seq<WorkerPhase<T>>, ph: WorkerPhase<T>)
    ensures
        weight_sum(ws.push(ph)) == weight_sum(ws) + phase_weight(ph),
        holding_count(ws.push(ph)) == holding_count(ws) + if is_holding(ph) {
            1int
        } else {
            0int
        },
{
    assert(ws.push(ph).drop_last() =~= ws);
    assert(ws.push(ph).last() == ph);
}

proof fn lemma_counts_update<T>(ws: Seq<WorkerPhase<T>>, w: int, ph: WorkerPhase<T>)
    requires
        0 <= w < ws.len(),
    ensures
        weight_sum(ws.update(w, ph)) == weight_sum(ws) - phase_weight(ws[w]) + phase_weight(ph),
        holding_count(ws.update(w, ph)) == holding_count(ws) - (if is_holding(ws[w]) {
            1int
        } else {
            0int
        }) + (if is_holding(ph) {
            1int
        } else {
            0int
        }),
    decreases ws.len(),
{
    if w == ws.len() - 1 {
        assert(ws.update(w, ph).drop_last() =~= ws.drop_last());
        assert(ws.update(w, ph).last() == ph);
    } else {
        lemma_counts_update(ws.drop_last(), w, ph);
        assert(ws.update(w, ph).drop_last() =~= ws.drop_last().update(w, ph));
        assert(ws.update(w, ph).last() == ws.last());
    }
}

proof fn lemma_counts_bounds<T>(ws: Seq<WorkerPhase<T>>)
    ensures
        0 <= weight_sum(ws),
        0 <= holding_count(ws),
        holding_count(ws) <= weight_sum(ws),
        (forall|w: int| 0 <= w < ws.len() ==> #[trigger] is_holding(ws[w]) == false) ==> holding_count(
            ws,
        ) == 0,
        (forall|w: int| 0 <= w < ws.len() ==> (#[trigger] ws[w]) is Done) ==> weight_sum(ws) == 0,
    decreases ws.len(),
{
    if ws.len() > 0 {
        lemma_counts_bounds(ws.drop_last());
        assert(ws.last() == ws[ws.len() - 1]);
        assert(forall|w: int| 0 <= w < ws.len() - 1 ==> ws.drop_last()[w] == ws[w]);
    }
}

/// The whole pipeline: both queues, the worker pool, the handler they share,
/// and ghost accounting that ties every buffered value to the submission it
/// came from.
///
/// The two queues and the pool form a strict DAG (orchestrator -> workers ->
/// orchestrator); nothing feeds back into the work queue, so the unbounded
/// queues cannot deadlock.
pub struct Pipeline<T, R, H: Handler<T, R>> {
    /// The handler shared by every worker of the pool.
    pub handler: H,
    /// Buffered tasks of the work queue, oldest first.
    pub queue: Vec<T>,
    /// The producer side of the work queue has been closed.
    pub closed: bool,
    /// The consumer of the result queue is still attached.
    pub output_open: bool,
    /// The policy applied when the handler fails.
    pub policy: Policy,
    /// The worker pool.
    pub workers: Vec<WorkerPhase<T>>,
    /// Buffered results of the result queue, oldest first.
    pub results: Vec<R>,
    /// How many tasks were submitted; equals `submitted` in length.
    pub submitted_count: usize,
    /// How many tasks a handler failed on.
    pub failures: usize,
    /// Every task ever submitted, in submission order.
    pub submitted: Ghost<Seq<T>>,
    /// For each buffered result, the submission index it came from.
    pub origin: Ghost<Seq<int>>,
    /// Submission indices whose handler failed.
    pub failed: Ghost<Seq<int>>,
    /// Submission indices consumed after the result consumer left.
    pub discarded: Ghost<Seq<int>>,
}

impl<T, R, H: Handler<T, R>> Pipeline<T, R, H> {
    /// How many tasks have been pulled off the work queue so far.
    pub open spec fn pulled(&self) -> int {
        self.submitted@.len() - self.queue@.len()
    }

    /// The task a holding worker is working on.
    pub open spec fn held_task_of(&self, w: int) -> T {
        self.submitted@[held_ix(self.workers@[w])]
    }

    /// The submission index is recorded as consumed: it produced a buffered
    /// result, its handler failed, or its result was discarded.
    pub open spec fn resolved(&self, j: int) -> bool {
        self.origin@.contains(j) || self.failed@.contains(j) || self.discarded@.contains(j)
    }

    /// Some worker currently holds the task of this submission index.
    pub open spec fn held_by_some(&self, j: int) -> bool {
        exists|w: int|
            0 <= w < self.workers@.len() && is_holding(#[trigger] self.workers@[w]) && held_ix(
                self.workers@[w],
            ) == j
    }

    /// Some worker has not terminated yet.
    pub open spec fn some_live(&self) -> bool {
        exists|w: int| 0 <= w < self.workers@.len() && !((#[trigger] self.workers@[w]) is Done)
    }

    /// Every worker has terminated.
    pub open spec fn all_done(&self) -> bool {
        forall|w: int| 0 <= w < self.workers@.len() ==> (#[trigger] self.workers@[w]) is Done
    }

    /// Every submitted task is one the handler succeeds on.
    pub open spec fn none_failing(&self) -> bool {
        forall|j: int|
            0 <= j < self.submitted@.len() ==> self.handler.succeeds(#[trigger] self.submitted@[j])
    }

    /// Work remaining, the pipeline's termination measure: two steps for each
    /// queued task, plus what each worker still owes.
    pub open spec fn measure(&self) -> int {
        2 * self.queue@.len() + weight_sum(self.workers@)
    }

    /// The pipeline invariant. Every operation preserves it.
    pub open spec fn wf(&self) -> bool {
        // the pool
        &&& self.workers@.len() >= 1
        // the work queue buffers exactly the not-yet-pulled suffix of the submissions
        &&& self.queue@.len() <= self.submitted@.len()
        &&& self.queue@ == self.submitted@.skip(self.pulled())
        &&& self.submitted_count == self.submitted@.len()
        // a holding worker holds the task of its recorded submission index
        &&& forall|w: int|
            0 <= w < self.workers@.len() ==> ((#[trigger] self.workers@[w]) matches
            WorkerPhase::Holding(t, g) ==> 0 <= g@ < self.pulled() && t == self.submitted@[g@])
        // competing consumers: two workers never hold the same submission
        &&& forall|w1: int, w2: int|
            0 <= w1 < self.workers@.len() && 0 <= w2 < self.workers@.len() && w1 != w2 && is_holding(
                #[trigger] self.workers@[w1],
            ) && is_holding(#[trigger] self.workers@[w2]) ==> held_ix(self.workers@[w1])
                != held_ix(self.workers@[w2])
        // a held submission has not been consumed before
        &&& forall|w: int|
            0 <= w < self.workers@.len() && is_holding(#[trigger] self.workers@[w])
                ==> !self.resolved(held_ix(self.workers@[w]))
        // each buffered result is the transform of its distinct origin
        &&& self.origin@.len() == self.results@.len()
        &&& forall|i: int|
            0 <= i < self.origin@.len() ==> 0 <= #[trigger] self.origin@[i] < self.pulled()
                && self.handler.succeeds(self.submitted@[self.origin@[i]]) && self.results@[i]
                == self.handler.transformed(self.submitted@[self.origin@[i]])
        &&& forall|i1: int, i2: int|
            0 <= i1 < self.origin@.len() && 0 <= i2 < self.origin@.len() && i1 != i2 ==> #[trigger] self.origin@[i1]
                != #[trigger] self.origin@[i2]
        // failed and discarded record consumed submissions of the right kind
        &&& forall|i: int|
            0 <= i < self.failed@.len() ==> 0 <= #[trigger] self.failed@[i] < self.pulled()
                && !self.handler.succeeds(self.submitted@[self.failed@[i]])
        &&& forall|i: int|
            0 <= i < self.discarded@.len() ==> 0 <= #[trigger] self.discarded@[i] < self.pulled()
                && self.handler.succeeds(self.submitted@[self.discarded@[i]])
        // every pulled submission is consumed or held, and the counts agree
        &&& forall|j: int|
            0 <= j < self.pulled() ==> #[trigger] self.resolved(j) || self.held_by_some(j)
        &&& self.origin@.len() + self.failed@.len() + self.discarded@.len() + holding_count(
            self.workers@,
        ) == self.pulled()
        &&& self.failures == self.failed@.len()
        // results are only discarded once the consumer is gone
        &&& self.output_open ==> self.discarded@.len() == 0
        // while tasks are queued and results wanted, the pool cannot have died
        // of natural causes: under DropTask, or with no failing task at all,
        // a worker only terminates once the queue is closed and empty
        &&& (self.output_open && self.queue@.len() > 0 && (self.policy == Policy::DropTask
            || self.none_failing())) ==> self.some_live()
    }
}

proof fn lemma_holding_at<T>(ws: Seq<WorkerPhase<T>>, w: int)
    requires
        0 <= w < ws.len(),
        is_holding(ws[w]),
    ensures
        holding_count(ws) >= 1,
    decreases ws.len(),
{
    lemma_counts_bounds(ws.drop_last());
    if w < ws.len() - 1 {
        lemma_holding_at(ws.drop_last(), w);
    }
}

impl<T, R, H: Handler<T, R>> Pipeline<T, R, H> {
    /// Accounting facts carry over between two states that agree on every
    /// field the accounting reads.
    proof fn lemma_same_accounting(&self, pre: Self)
        requires
            self.queue@ == pre.queue@,
            self.submitted@ == pre.submitted@,
            self.workers@.len() == pre.workers@.len(),
            forall|v: int|
                0 <= v < pre.workers@.len() && is_holding(#[trigger] pre.workers@[v])
                    ==> self.workers@[v] == pre.workers@[v],
            self.origin@ == pre.origin@,
            self.failed@ == pre.failed@,
            self.discarded@ == pre.discarded@,
            forall|j: int|
                0 <= j < pre.pulled() ==> #[trigger] pre.resolved(j) || pre.held_by_some(j),
        ensures
            forall|j: int|
                0 <= j < self.pulled() ==> #[trigger] self.resolved(j) || self.held_by_some(j),
    {
        assert forall|j: int| 0 <= j < self.pulled() implies #[trigger] self.resolved(j)
            || self.held_by_some(j) by {
            assert(pre.resolved(j) || pre.held_by_some(j));
            if pre.held_by_some(j) {
                let w = choose|w: int|
                    0 <= w < pre.workers@.len() && is_holding(#[trigger] pre.workers@[w]) && held_ix(
                        pre.workers@[w],
                    ) == j;
                assert(is_holding(self.workers@[w]) && held_ix(self.workers@[w]) == j);
            }
        }
    }

    /// Start a pool of `num_workers` idle workers around empty queues.
    pub fn new(handler: H, num_workers: usize, policy: Policy) -> (p: Self)
        requires
            num_workers >= 1,
        ensures
            p.wf(),
            p.handler == handler,
            p.policy == policy,
            p.workers@.len() == num_workers,
            !p.closed,
            p.output_open,
            p.queue@.len() == 0,
            p.submitted@.len() == 0,
            p.results@.len() == 0,
            p.failures == 0,
            p.origin@.len() == 0,
            p.failed@.len() == 0,
            p.discarded@.len() == 0,
            forall|w: int| 0 <= w < num_workers ==> (#[trigger] p.workers@[w]) is Idle,
    {
        let mut workers: Vec<WorkerPhase<T>> = Vec::new();
        let mut w: usize = 0;
        while w < num_workers
            invariant
                w <= num_workers,
                workers@.len() == w,
                holding_count(workers@) == 0,
                weight_sum(workers@) == w,
                forall|k: int| 0 <= k < w ==> (#[trigger] workers@[k]) is Idle,
            decreases num_workers - w,
        {
            proof {
                lemma_counts_push(workers@, WorkerPhase::Idle);
            }
            workers.push(WorkerPhase::Idle);
            w += 1;
        }
        let p = Pipeline {
            handler,
            queue: Vec::new(),
            closed: false,
            output_open: true,
            policy,
            workers,
            results: Vec::new(),
            submitted_count: 0,
            failures: 0,
            submitted: Ghost(Seq::empty()),
            origin: Ghost(Seq::empty()),
            failed: Ghost(Seq::empty()),
            discarded: Ghost(Seq::empty()),
        };
        proof {
            assert(p.queue@ =~= p.submitted@.skip(0));
        }
        p
    }

    /// Some worker has not terminated yet (the work queue still has a
    /// consumer attached).
    fn some_live_worker(&self) -> (live: bool)
        ensures
            live == self.some_live(),
    {
        let mut w: usize = 0;
        while w < self.workers.len()
            invariant
                w <= self.workers@.len(),
                forall|k: int| 0 <= k < w ==> (#[trigger] self.workers@[k]) is Done,
            decreases self.workers@.len() - w,
        {
            match &self.workers[w] {
                WorkerPhase::Done => {},
                _ => {
                    return true;
                },
            }
            w += 1;
        }
        false
    }

    /// Enqueue one task, without blocking: the work queue is unbounded. Fails
    /// with `Closed` once the producer side is closed, once every worker has
    /// terminated, or once the submission counter would overflow.
    pub fn submit(&mut self, task: T) -> (out: Result<(), Closed>)
        requires
            old(self).wf(),
        ensures
            final(self).wf(),
            final(self).handler == old(self).handler,
            final(self).policy == old(self).policy,
            final(self).closed == old(self).closed,
            final(self).output_open == old(self).output_open,
            final(self).workers@ == old(self).workers@,
            final(self).results@ == old(self).results@,
            final(self).failures == old(self).failures,
            final(self).origin == old(self).origin,
            final(self).failed == old(self).failed,
            final(self).discarded == old(self).discarded,
            out is Ok <==> (!old(self).closed && old(self).some_live() && old(self).submitted@.len() < usize::MAX),
            out is Ok ==> final(self).submitted@ == old(self).submitted@.push(task)
                && final(self).queue@ == old(self).queue@.push(task),
            out is Err ==> final(self).submitted@ == old(self).submitted@ && final(self).queue@
                == old(self).queue@,
    {
        if self.closed {
            return Err(Closed);
        }
        if !self.some_live_worker() {
            return Err(Closed);
        }
        if self.submitted_count == usize::MAX {
            return Err(Closed);
        }
        self.queue.push(task);
        self.submitted_count = self.submitted_count + 1;
        proof {
            self.submitted@ = self.submitted@.push(task);
            let pre = old(self);
            assert(self.pulled() == pre.pulled());
            assert(self.queue@ =~= self.submitted@.skip(self.pulled()));
            assert forall|j: int| 0 <= j < self.pulled() implies #[trigger] self.resolved(j)
                || self.held_by_some(j) by {
                assert(pre.resolved(j) || pre.held_by_some(j));
                if pre.held_by_some(j) {
                    let w = choose|w: int|
                        0 <= w < pre.workers@.len() && is_holding(#[trigger] pre.workers@[w])
                            && held_ix(pre.workers@[w]) == j;
                    assert(is_holding(self.workers@[w]));
                }
            }
        }
        Ok(())
    }

    /// Close the producer side of the work queue: no more input will come.
    /// Idempotent; observed by every current and future consumer, which will
    /// see end-of-stream once the buffered tasks are drained.
    pub fn close(&mut self)
        requires
            old(self).wf(),
        ensures
            final(self).wf(),
            final(self).closed,
            *final(self) == (Pipeline { closed: true, ..*old(self) }),
    {
        self.closed = true;
        proof {
            self.lemma_same_accounting(*old(self));
        }
    }

    /// Detach the consumer of the result queue: nobody is interested in
    /// results any more. Workers that try to publish afterwards terminate
    /// early, without error.
    pub fn drop_consumer(&mut self)
        requires
            old(self).wf(),
        ensures
            final(self).wf(),
            !final(self).output_open,
            *final(self) == (Pipeline { output_open: false, ..*old(self) }),
    {
        self.output_open = false;
        proof {
            self.lemma_same_accounting(*old(self));
        }
    }
}

proof fn lemma_push_contains(s: Seq<int>, x: int, y: int)
    ensures
        s.push(x).contains(y) <==> (s.contains(y) || y == x),
{
    if s.push(x).contains(y) {
        let i = choose|i: int| 0 <= i < s.push(x).len() && s.push(x)[i] == y;
        if i < s.len() {
            assert(s[i] == y);
        }
    }
    if s.contains(y) {
        let i = choose|i: int| 0 <= i < s.len() && s[i] == y;
        assert(s.push(x)[i] == y);
    }
    if y == x {
        assert(s.push(x)[s.len() as int] == y);
    }
}

impl<T, R, H: Handler<T, R>> Pipeline<T, R, H> {
    /// Let worker `w` take one step: pull a task, finish a held task, observe
    /// end-of-stream, or report that it would block. Every transition of the
    /// pool is one of these; the returned event is the observability hook.
    #[verifier::rlimit(60)]
    pub fn worker_step(&mut self, w: usize) -> (ev: StepEvent)
        requires
            old(self).wf(),
            w < old(self).workers@.len(),
        ensures
            final(self).wf(),
            // frame: what no step changes
            final(self).handler == old(self).handler,
            final(self).policy == old(self).policy,
            final(self).closed == old(self).closed,
            final(self).output_open == old(self).output_open,
            final(self).submitted == old(self).submitted,
            final(self).workers@.len() == old(self).workers@.len(),
            forall|v: int|
                0 <= v < old(self).workers@.len() && v != w ==> final(self).workers@[v] == old(self).workers@[v],
            // progress: a step never creates work, and consumes some whenever
            // the queue is closed and the worker is live
            final(self).measure() <= old(self).measure(),
            old(self).closed && !(old(self).workers@[w as int] is Done) ==> final(self).measure()
                < old(self).measure(),
            // a terminated worker stays terminated and nothing moves
            old(self).workers@[w as int] is Done ==> final(self).workers@ == old(self).workers@
                && final(self).queue@ == old(self).queue@ && final(self).results@ == old(self).results@ && final(self).failures == old(self).failures && final(self).origin == old(self).origin && final(self).failed == old(self).failed && final(self).discarded == old(self).discarded && ev == StepEvent::AlreadyDone,
            // competing consumers: the worker pulls the oldest queued task,
            // which leaves the queue for good
            old(self).workers@[w as int] is Idle && old(self).queue@.len() > 0 ==> final(self).queue@ == old(self).queue@.skip(1) && is_holding(final(self).workers@[w as int])
                && held_ix(final(self).workers@[w as int]) == old(self).pulled()
                && final(self).held_task_of(w as int) == old(self).queue@[0]
                && final(self).results@ == old(self).results@ && final(self).failures == old(self).failures && final(self).origin == old(self).origin && final(self).failed == old(self).failed && final(self).discarded == old(self).discarded && ev
                == StepEvent::TaskReceived,
            // end-of-stream: closed and drained, so the worker terminates
            old(self).workers@[w as int] is Idle && old(self).queue@.len() == 0 && old(self).closed
                ==> final(self).workers@[w as int] is Done && final(self).queue@ == old(self).queue@ && final(self).results@ == old(self).results@ && final(self).failures == old(self).failures && final(self).origin == old(self).origin && final(self).failed == old(self).failed && final(self).discarded == old(self).discarded && ev
                == StepEvent::WorkerTerminated,
            // not closed yet: the worker blocks rather than terminates
            old(self).workers@[w as int] is Idle && old(self).queue@.len() == 0 && !old(self).closed ==> final(self).workers@ == old(self).workers@ && final(self).queue@ == old(self).queue@ && final(self).results@ == old(self).results@ && final(self).failures == old(self).failures && final(self).origin == old(self).origin && final(self).failed == old(self).failed && final(self).discarded == old(self).discarded && ev == StepEvent::WouldBlock,
            // the handler succeeded and the consumer is attached: publish
            is_holding(old(self).workers@[w as int]) && old(self).handler.succeeds(old(self).held_task_of(w as int)) && old(self).output_open ==> final(self).results@ == old(self).results@.push(old(self).handler.transformed(old(self).held_task_of(w as int))) && final(self).origin@ == old(self).origin@.push(held_ix(old(self).workers@[w as int])) && final(self).workers@[w as int] is Idle && final(self).queue@ == old(self).queue@ && final(self).failures == old(self).failures && final(self).failed == old(self).failed && final(self).discarded == old(self).discarded && ev == StepEvent::ResultProduced,
            // the handler succeeded but nobody wants the result: terminate
            // early, without treating it as an error
            is_holding(old(self).workers@[w as int]) && old(self).handler.succeeds(old(self).held_task_of(w as int)) && !old(self).output_open ==> final(self).workers@[w as int] is Done && final(self).results@ == old(self).results@ && final(self).discarded@ == old(self).discarded@.push(held_ix(old(self).workers@[w as int]))
                && final(self).queue@ == old(self).queue@ && final(self).failures == old(self).failures && final(self).origin == old(self).origin && final(self).failed == old(self).failed && ev == StepEvent::WorkerTerminated,
            // the handler failed: count it, record it, apply the policy
            is_holding(old(self).workers@[w as int]) && !old(self).handler.succeeds(old(self).held_task_of(w as int)) ==> final(self).failures == old(self).failures + 1 && final(self).failed@ == old(self).failed@.push(held_ix(old(self).workers@[w as int])) && final(self).workers@[w as int] == (if old(self).policy == Policy::DropTask {
                WorkerPhase::<T>::Idle
            } else {
                WorkerPhase::<T>::Done
            }) && final(self).results@ == old(self).results@ && final(self).queue@ == old(self).queue@ && final(self).origin == old(self).origin && final(self).discarded == old(self).discarded && ev == StepEvent::HandlerFailed,
    {
        let ghost pre = *old(self);
        match &self.workers[w] {
            WorkerPhase::Done => {
                return StepEvent::AlreadyDone;
            },
            WorkerPhase::Idle => {
                if self.queue.len() == 0 && !self.closed {
                    return StepEvent::WouldBlock;
                }
            },
            WorkerPhase::Holding(_held, _gix) => {},
        }
        let ph = self.workers.remove(w);
        match ph {
            WorkerPhase::Done => {
                // cannot happen: a terminated worker returned above
                self.workers.insert(w, WorkerPhase::Done);
                proof {
                    assert(false);
                }
                StepEvent::AlreadyDone
            },
            WorkerPhase::Idle => {
                if self.queue.len() > 0 {
                    let t = self.queue.remove(0);
                    let ghost j = pre.pulled();
                    self.workers.insert(w, WorkerPhase::Holding(t, Ghost(j)));
                    proof {
                        assert(self.workers@ =~= pre.workers@.update(
                            w as int,
                            WorkerPhase::Holding(t, Ghost(j)),
                        ));
                        lemma_counts_update(
                            pre.workers@,
                            w as int,
                            WorkerPhase::Holding(t, Ghost(j)),
                        );
                        assert(self.queue@ =~= pre.queue@.skip(1));
                        assert(self.pulled() == pre.pulled() + 1);
                        assert(self.queue@ =~= self.submitted@.skip(self.pulled()));
                        assert(t == pre.queue@[0]);
                        assert(t == pre.submitted@[j]);
                        // the fresh index j was never seen before
                        assert(forall|i: int|
                            0 <= i < pre.origin@.len() ==> #[trigger] pre.origin@[i] != j);
                        assert(forall|i: int|
                            0 <= i < pre.failed@.len() ==> #[trigger] pre.failed@[i] != j);
                        assert(forall|i: int|
                            0 <= i < pre.discarded@.len() ==> #[trigger] pre.discarded@[i] != j);
                        assert(!self.resolved(j));
                        assert forall|jj: int| 0 <= jj < self.pulled() implies #[trigger] self.resolved(jj)
                            || self.held_by_some(jj) by {
                            if jj == j {
                                assert(is_holding(self.workers@[w as int]));
                                assert(self.held_by_some(jj));
                            } else {
                                assert(pre.resolved(jj) || pre.held_by_some(jj));
                                if pre.held_by_some(jj) {
                                    let v = choose|v: int|
                                        0 <= v < pre.workers@.len() && is_holding(
                                            #[trigger] pre.workers@[v],
                                        ) && held_ix(pre.workers@[v]) == jj;
                                    assert(v != w);
                                    assert(is_holding(self.workers@[v]));
                                }
                            }
                        }
                    }
                    StepEvent::TaskReceived
                } else if self.closed {
                    self.workers.insert(w, WorkerPhase::Done);
                    proof {
                        assert(self.workers@ =~= pre.workers@.update(
                            w as int,
                            WorkerPhase::<T>::Done,
                        ));
                        lemma_counts_update(pre.workers@, w as int, WorkerPhase::<T>::Done);
                        self.lemma_same_accounting(pre);
                    }
                    StepEvent::WorkerTerminated
                } else {
                    // cannot happen: a worker that would block returned above
                    self.workers.insert(w, WorkerPhase::Idle);
                    proof {
                        assert(false);
                    }
                    StepEvent::WouldBlock
                }
            },
            WorkerPhase::Holding(t, g) => {
                let ghost j = g@;
                proof {
                    assert(is_holding(pre.workers@[w as int]));
                    assert(held_ix(pre.workers@[w as int]) == j);
                    assert(t == pre.submitted@[j]);
                    assert(!pre.resolved(j));
                    lemma_holding_at(pre.workers@, w as int);
                }
                let applied = self.handler.apply(&t);
                match applied {
                    Ok(r) => {
                        if self.output_open {
                            self.results.push(r);
                            self.workers.insert(w, WorkerPhase::Idle);
                            proof {
                                self.origin@ = self.origin@.push(j);
                                assert(self.workers@ =~= pre.workers@.update(
                                    w as int,
                                    WorkerPhase::<T>::Idle,
                                ));
                                lemma_counts_update(pre.workers@, w as int, WorkerPhase::<T>::Idle);
                                assert forall|jj: int|
                                    0 <= jj < self.pulled() implies #[trigger] self.resolved(jj)
                                    || self.held_by_some(jj) by {
                                    lemma_push_contains(pre.origin@, j, jj);
                                    if jj != j {
                                        assert(pre.resolved(jj) || pre.held_by_some(jj));
                                        if pre.held_by_some(jj) {
                                            let v = choose|v: int|
                                                0 <= v < pre.workers@.len() && is_holding(
                                                    #[trigger] pre.workers@[v],
                                                ) && held_ix(pre.workers@[v]) == jj;
                                            assert(v != w);
                                            assert(is_holding(self.workers@[v]));
                                        }
                                    }
                                }
                                assert forall|v: int|
                                    0 <= v < self.workers@.len() && is_holding(
                                        #[trigger] self.workers@[v],
                                    ) implies !self.resolved(held_ix(self.workers@[v])) by {
                                    assert(v != w);
                                    assert(is_holding(pre.workers@[v]));
                                    assert(held_ix(pre.workers@[v]) != j);
                                    lemma_push_contains(pre.origin@, j, held_ix(self.workers@[v]));
                                }
                                assert(forall|i: int|
                                    0 <= i < pre.origin@.len() ==> #[trigger] pre.origin@[i] != j);
                            }
                            StepEvent::ResultProduced
                        } else {
                            self.workers.insert(w, WorkerPhase::Done);
                            proof {
                                self.discarded@ = self.discarded@.push(j);
                                assert(self.workers@ =~= pre.workers@.update(
                                    w as int,
                                    WorkerPhase::<T>::Done,
                                ));
                                lemma_counts_update(pre.workers@, w as int, WorkerPhase::<T>::Done);
                                assert forall|jj: int|
                                    0 <= jj < self.pulled() implies #[trigger] self.resolved(jj)
                                    || self.held_by_some(jj) by {
                                    lemma_push_contains(pre.discarded@, j, jj);
                                    if jj != j {
                                        assert(pre.resolved(jj) || pre.held_by_some(jj));
                                        if pre.held_by_some(jj) {
                                            let v = choose|v: int|
                                                0 <= v < pre.workers@.len() && is_holding(
                                                    #[trigger] pre.workers@[v],
                                                ) && held_ix(pre.workers@[v]) == jj;
                                            assert(v != w);
                                            assert(is_holding(self.workers@[v]));
                                        }
                                    }
                                }
                                assert forall|v: int|
                                    0 <= v < self.workers@.len() && is_holding(
                                        #[trigger] self.workers@[v],
                                    ) implies !self.resolved(held_ix(self.workers@[v])) by {
                                    assert(v != w);
                                    assert(is_holding(pre.workers@[v]));
                                    assert(held_ix(pre.workers@[v]) != j);
                                    lemma_push_contains(
                                        pre.discarded@,
                                        j,
                                        held_ix(self.workers@[v]),
                                    );
                                }
                            }
                            StepEvent::WorkerTerminated
                        }
                    },
                    Err(_failure) => {
                        proof {
                            // the failure counter cannot overflow: this
                            // worker's held task is still unaccounted
                            assert(pre.failed@.len() + 1 <= pre.pulled());
                            assert(pre.pulled() <= pre.submitted@.len());
                        }
                        self.failures = self.failures + 1;
                        let next_phase = match self.policy {
                            Policy::DropTask => WorkerPhase::Idle,
                            Policy::StopWorker => WorkerPhase::Done,
                        };
                        self.workers.insert(w, next_phase);
                        proof {
                            self.failed@ = self.failed@.push(j);
                            assert(self.workers@ =~= pre.workers@.update(w as int, next_phase));
                            lemma_counts_update(pre.workers@, w as int, next_phase);
                            assert forall|jj: int| 0 <= jj < self.pulled() implies #[trigger] self.resolved(
                                jj,
                            ) || self.held_by_some(jj) by {
                                lemma_push_contains(pre.failed@, j, jj);
                                if jj != j {
                                    assert(pre.resolved(jj) || pre.held_by_some(jj));
                                    if pre.held_by_some(jj) {
                                        let v = choose|v: int|
                                            0 <= v < pre.workers@.len() && is_holding(
                                                #[trigger] pre.workers@[v],
                                            ) && held_ix(pre.workers@[v]) == jj;
                                        assert(v != w);
                                        assert(is_holding(self.workers@[v]));
                                    }
                                }
                            }
                            assert forall|v: int|
                                0 <= v < self.workers@.len() && is_holding(
                                    #[trigger] self.workers@[v],
                                ) implies !self.resolved(held_ix(self.workers@[v])) by {
                                assert(v != w);
                                assert(is_holding(pre.workers@[v]));
                                assert(held_ix(pre.workers@[v]) != j);
                                lemma_push_contains(pre.failed@, j, held_ix(self.workers@[v]));
                            }
                        }
                        StepEvent::HandlerFailed
                    },
                }
            },
        }
    }
}

/// What one orchestrated run produced.
pub struct RunReport<T, R> {
    /// Results drained from the result queue, in arrival order.
    pub results: Vec<R>,
    /// How many tasks a handler failed on.
    pub failures: usize,
    /// Tasks never pulled: nonempty only when the stop policy emptied the pool.
    pub leftover: Vec<T>,
    /// For each result, the submission index it came from.
    pub origin: Ghost<Seq<int>>,
}

impl<T, R, H: Handler<T, R>> Pipeline<T, R, H> {
    /// The index of some worker that has not terminated, if any.
    fn first_live_worker(&self) -> (found: Option<usize>)
        ensures
            found matches Some(w) ==> w < self.workers@.len() && !(self.workers@[w as int]
                is Done),
            found is None ==> self.all_done(),
    {
        let mut w: usize = 0;
        while w < self.workers.len()
            invariant
                w <= self.workers@.len(),
                forall|k: int| 0 <= k < w ==> (#[trigger] self.workers@[k]) is Done,
            decreases self.workers@.len() - w,
        {
            match &self.workers[w] {
                WorkerPhase::Done => {},
                _ => {
                    return Some(w);
                },
            }
            w += 1;
        }
        None
    }

    /// Let the pool run under an arbitrary interleaving: the schedule names,
    /// in order, the worker that takes the next step. Any schedule is sound;
    /// with competing consumers the arrival order of results depends on it,
    /// which is why no contract of the pipeline promises an order.
    pub fn step_many(&mut self, schedule: &Vec<usize>)
        requires
            old(self).wf(),
            forall|i: int|
                0 <= i < schedule@.len() ==> #[trigger] schedule@[i] < old(self).workers@.len(),
        ensures
            final(self).wf(),
            final(self).handler == old(self).handler,
            final(self).policy == old(self).policy,
            final(self).closed == old(self).closed,
            final(self).output_open == old(self).output_open,
            final(self).submitted == old(self).submitted,
            final(self).workers@.len() == old(self).workers@.len(),
            !old(self).output_open ==> final(self).results@ == old(self).results@ && final(self).origin == old(self).origin,
    {
        let mut i: usize = 0;
        while i < schedule.len()
            invariant
                self.wf(),
                i <= schedule@.len(),
                self.handler == old(self).handler,
                self.policy == old(self).policy,
                self.closed == old(self).closed,
                self.output_open == old(self).output_open,
                self.submitted == old(self).submitted,
                self.workers@.len() == old(self).workers@.len(),
                forall|k: int|
                    0 <= k < schedule@.len() ==> #[trigger] schedule@[k] < old(
                        self,
                    ).workers@.len(),
                !old(self).output_open ==> self.results@ == old(self).results@ && self.origin
                    == old(self).origin,
            decreases schedule@.len() - i,
        {
            let w = schedule[i];
            self.worker_step(w);
            i += 1;
        }
    }

    /// Step live workers until the whole pool has terminated. Closing the
    /// work queue first is what makes this terminate: the loop measure is
    /// proportional to the tasks still queued plus what workers still hold.
    ///
    /// This never returns an error. In particular, when the result consumer
    /// was dropped, the remaining workers all terminate and the buffered
    /// results are untouched.
    pub fn drain_workers(&mut self)
        requires
            old(self).wf(),
            old(self).closed,
        ensures
            final(self).wf(),
            final(self).all_done(),
            final(self).handler == old(self).handler,
            final(self).policy == old(self).policy,
            final(self).closed,
            final(self).output_open == old(self).output_open,
            final(self).submitted == old(self).submitted,
            final(self).workers@.len() == old(self).workers@.len(),
            !old(self).output_open ==> final(self).results@ == old(self).results@ && final(self).origin == old(self).origin,
            old(self).output_open && (old(self).policy == Policy::DropTask || final(self).none_failing()) ==> final(self).queue@.len() == 0,
    {
        loop
            invariant
                self.wf(),
                self.closed,
                self.handler == old(self).handler,
                self.policy == old(self).policy,
                self.output_open == old(self).output_open,
                self.submitted == old(self).submitted,
                self.workers@.len() == old(self).workers@.len(),
                !old(self).output_open ==> self.results@ == old(self).results@ && self.origin
                    == old(self).origin,
            decreases self.measure(),
        {
            proof {
                lemma_counts_bounds(self.workers@);
            }
            match self.first_live_worker() {
                None => {
                    return ;
                },
                Some(w) => {
                    self.worker_step(w);
                    proof {
                        lemma_counts_bounds(self.workers@);
                    }
                },
            }
        }
    }

    /// The orchestrator: submit the whole batch, close the producer side,
    /// let the pool run under the given interleaving, then drain the workers
    /// to completion and report what happened.
    ///
    /// The contract ties every produced result to a distinct submitted task
    /// (no duplication), counts every submitted task exactly once across
    /// results, failures and leftover (no loss), and promises in particular:
    /// with no failing task, exactly one result per task; with every task
    /// failing under the drop policy, no results and every task counted
    /// failed; with an empty batch, an immediately empty outcome.
    #[verifier::rlimit(60)]
    pub fn run_batch(
        handler: H,
        tasks: Vec<T>,
        num_workers: usize,
        policy: Policy,
        schedule: &Vec<usize>,
    ) -> (report: RunReport<T, R>)
        requires
            num_workers >= 1,
            forall|i: int| 0 <= i < schedule@.len() ==> #[trigger] schedule@[i] < num_workers,
        ensures
            report.results@.len() == report.origin@.len(),
            forall|i: int|
                0 <= i < report.origin@.len() ==> 0 <= #[trigger] report.origin@[i]
                    < tasks@.len() && handler.succeeds(tasks@[report.origin@[i]])
                    && report.results@[i] == handler.transformed(tasks@[report.origin@[i]]),
            forall|i1: int, i2: int|
                0 <= i1 < report.origin@.len() && 0 <= i2 < report.origin@.len() && i1 != i2
                    ==> #[trigger] report.origin@[i1] != #[trigger] report.origin@[i2],
            report.failures + report.results@.len() + report.leftover@.len() == tasks@.len(),
            report.leftover@ == tasks@.skip(tasks@.len() - report.leftover@.len()),
            forall|k: int|
                0 <= k < tasks@.len() - report.leftover@.len() && handler.succeeds(
                    #[trigger] tasks@[k],
                ) ==> report.origin@.contains(k),
            policy == Policy::DropTask ==> report.leftover@.len() == 0,
            (forall|k: int| 0 <= k < tasks@.len() ==> handler.succeeds(#[trigger] tasks@[k]))
                ==> report.results@.len() == tasks@.len() && report.failures == 0
                && report.leftover@.len() == 0,
            (forall|k: int| 0 <= k < tasks@.len() ==> !handler.succeeds(#[trigger] tasks@[k]))
                && policy == Policy::DropTask ==> report.results@.len() == 0 && report.failures
                == tasks@.len(),
            tasks@.len() == 0 ==> report.results@.len() == 0 && report.failures == 0
                && report.leftover@.len() == 0,
    {
        let mut p = Pipeline::<T, R, H>::new(handler, num_workers, policy);
        proof {
            assert(p.queue@ =~= p.submitted@);
        }
        let mut rest = tasks;
        let total: usize = rest.len();
        while rest.len() > 0
            invariant
                p.wf(),
                !p.closed,
                p.output_open,
                p.policy == policy,
                p.handler == handler,
                p.workers@.len() == num_workers,
                num_workers >= 1,
                forall|w: int| 0 <= w < num_workers ==> (#[trigger] p.workers@[w]) is Idle,
                p.results@.len() == 0,
                p.failures == 0,
                p.origin@.len() == 0,
                p.failed@.len() == 0,
                p.discarded@.len() == 0,
                p.submitted@ + rest@ == tasks@,
                total == tasks@.len(),
                p.queue@ == p.submitted@,
            decreases rest@.len(),
        {
            let t = rest.remove(0);
            proof {
                assert(p.submitted@.len() < tasks@.len());
                assert(p.workers@[0] is Idle);
                assert(p.some_live());
            }
            let out = p.submit(t);
            proof {
                assert(out is Ok);
                assert(p.submitted@ + rest@ =~= tasks@);
                assert(p.queue@ =~= p.submitted@);
            }
        }
        proof {
            assert(p.submitted@ =~= tasks@);
        }
        p.close();
        p.step_many(schedule);
        p.drain_workers();
        proof {
            assert(forall|w: int|
                0 <= w < p.workers@.len() ==> #[trigger] is_holding(p.workers@[w]) == false);
            lemma_counts_bounds(p.workers@);
            assert(holding_count(p.workers@) == 0);
            assert(p.queue@ == tasks@.skip(p.pulled()));
            // every pulled task that the handler succeeds on produced a result
            assert forall|k: int|
                0 <= k < p.pulled() && p.handler.succeeds(#[trigger] p.submitted@[k]) implies p.origin@.contains(
                k,
            ) by {
                assert(p.resolved(k) || p.held_by_some(k));
                if p.held_by_some(k) {
                    let v = choose|v: int|
                        0 <= v < p.workers@.len() && is_holding(#[trigger] p.workers@[v])
                            && held_ix(p.workers@[v]) == k;
                    assert(false);
                }
                if p.failed@.contains(k) {
                    let i = choose|i: int| 0 <= i < p.failed@.len() && p.failed@[i] == k;
                    assert(!p.handler.succeeds(p.submitted@[p.failed@[i]]));
                    assert(false);
                }
                assert(p.discarded@.len() == 0);
                assert(!p.discarded@.contains(k));
            }
            // under the drop policy, or with no failing task, nothing is left
            if p.policy == Policy::DropTask || p.none_failing() {
                assert(p.queue@.len() == 0);
            }
            // with every task failing under the drop policy, no results
            if (forall|k: int| 0 <= k < tasks@.len() ==> !p.handler.succeeds(#[trigger] tasks@[k]))
                && p.policy == Policy::DropTask {
                assert(p.origin@.len() == 0) by {
                    if p.origin@.len() > 0 {
                        assert(p.handler.succeeds(p.submitted@[p.origin@[0]]));
                    }
                }
            }
            // with no failing task, no failures are recorded
            if forall|k: int| 0 <= k < tasks@.len() ==> p.handler.succeeds(#[trigger] tasks@[k]) {
                assert(p.failed@.len() == 0) by {
                    if p.failed@.len() > 0 {
                        assert(!p.handler.succeeds(p.submitted@[p.failed@[0]]));
                    }
                }
            }
        }
        let Pipeline { results, failures, queue, origin, .. } = p;
        RunReport { results, failures, leftover: queue, origin }
    }
}

/// Competing consumers, never broadcast: two workers never hold the same
/// task instance, and no worker holds an instance that was already consumed.
/// So no two concurrent `next()` calls ever receive the same instance.
pub proof fn lemma_no_duplicate_delivery<T, R, H: Handler<T, R>>(p: &Pipeline<T, R, H>)
    requires
        p.wf(),
    ensures
        forall|w1: int, w2: int|
            0 <= w1 < p.workers@.len() && 0 <= w2 < p.workers@.len() && w1 != w2 && is_holding(
                #[trigger] p.workers@[w1],
            ) && is_holding(#[trigger] p.workers@[w2]) ==> held_ix(p.workers@[w1]) != held_ix(
                p.workers@[w2],
            ),
        forall|w: int|
            0 <= w < p.workers@.len() && is_holding(#[trigger] p.workers@[w]) ==> !p.resolved(
                held_ix(p.workers@[w]),
            ),
{
}

} // verus!
