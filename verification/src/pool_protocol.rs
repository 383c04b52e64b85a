//! What holds of a pool however its dispatcher and its workers interleave.
//!
//! A [`PoolRun`] is everything that matters of a pool at one moment: the shared state,
//! how far each worker is, whether a dispatcher is waiting, and the rows that the workers
//! work on. An [`Event`] is one step of the dispatcher or of a worker, taken while it
//! holds the shared state. The steps are those of `ReplayPoolState`.
//!
//! A worker that finishes may write its columns over the rows at once, or hand in its
//! chunk for the dispatcher to write back. `rows` follows the first way, `arrivals` the
//! second, and both end in the same rows.
//!
//! One dispatcher is at work at a time, and a pool hands out fewer jobs than there are
//! generation numbers.

use crate::model::{apply_ops, Op};
use crate::replay_pool::{
    law_all_workers_complete_replay, law_no_worker_leaves_rows, law_worker_adds_its_columns,
    law_write_back_completes_replay, written_back, ReplayJob, ReplayPoolState, WorkerAction,
};
use vstd::prelude::*;
use vstd::set_lib::{lemma_int_range, lemma_len_subset, lemma_subset_equality, set_int_range};

verus! {

/// A pool at one moment.
pub struct PoolRun {
    /// The state that the dispatcher and the workers share.
    pub shared: ReplayPoolState,
    /// The generation that each worker last took part in.
    pub last: Seq<u64>,
    /// The job and the generation that each worker is busy with, if any.
    pub busy: Seq<Option<(ReplayJob, u64)>>,
    /// The generation that a dispatcher waits for, if one does.
    pub dispatcher: Option<u64>,
    /// The workers that have finished that generation.
    pub done: Set<int>,
    /// Those among them that have columns, in the order in which they have finished.
    pub arrivals: Seq<int>,
    /// The operations that are replayed.
    pub ops: Seq<Op>,
    /// The rows when the job was handed out.
    pub start: Seq<Seq<u8>>,
    /// The rows now.
    pub rows: Seq<Seq<u8>>,
}

/// A step of a pool.
pub enum Event {
    /// The dispatcher hands out a job on `rows`.
    Dispatch { job: ReplayJob, ops: Seq<Op>, rows: Seq<Seq<u8>> },
    /// A worker finds a generation that is new to it.
    Wake { worker: int },
    /// A worker has done its part of the job.
    Finish { worker: int },
    /// The dispatcher stops waiting.
    Return,
    /// The workers are told to leave.
    Shutdown,
}

impl PoolRun {
    /// A pool that has handed out no job.
    pub open spec fn fresh(self) -> bool {
        &&& self.last.len() > 0
        &&& self.busy.len() == self.last.len()
        &&& self.shared == ReplayPoolState::initial()
        &&& self.dispatcher is None
        &&& forall|i: int| 0 <= i < self.last.len() ==> #[trigger] self.last[i] == 0
        &&& forall|i: int| 0 <= i < self.busy.len() ==> #[trigger] self.busy[i] is None
    }

    /// Whether the step can be taken.
    pub open spec fn enabled(self, event: Event) -> bool {
        match event {
            Event::Dispatch { job, ops, rows } => {
                &&& self.dispatcher is None
                &&& !self.shared.shutdown
                &&& self.shared.generation < u64::MAX
                &&& job.active_workers <= self.last.len()
                &&& job.describes(rows, ops)
            },
            Event::Wake { worker } => {
                &&& 0 <= worker < self.last.len()
                &&& self.busy[worker] is None
                &&& self.shared.action(self.last[worker]) is Run
            },
            Event::Finish { worker } => {
                &&& 0 <= worker < self.last.len()
                &&& self.busy[worker] is Some
            },
            Event::Return => {
                &&& self.dispatcher is Some
                &&& !self.shared.dispatcher_waits(self.dispatcher->0)
            },
            Event::Shutdown => self.dispatcher is None,
        }
    }

    /// The pool after the step.
    pub open spec fn after(self, event: Event) -> PoolRun {
        match event {
            Event::Dispatch { job, ops, rows } => PoolRun {
                shared: self.shared.dispatched(job),
                dispatcher: Some(self.shared.dispatched(job).generation),
                done: Set::empty(),
                arrivals: Seq::empty(),
                ops,
                start: rows,
                rows,
                ..self
            },
            Event::Wake { worker } => match self.shared.action(self.last[worker]) {
                WorkerAction::Run { job, generation } => PoolRun {
                    last: self.last.update(worker, generation),
                    busy: self.busy.update(
                        worker,
                        if worker < job.active_workers {
                            Some((job, generation))
                        } else {
                            None
                        },
                    ),
                    ..self
                },
                _ => self,
            },
            Event::Finish { worker } => match self.busy[worker] {
                Some((job, generation)) => PoolRun {
                    shared: self.shared.finished(generation),
                    busy: self.busy.update(worker, None),
                    done: self.done.insert(worker),
                    arrivals: if job.has_columns(worker) {
                        self.arrivals.push(worker)
                    } else {
                        self.arrivals
                    },
                    rows: job.worker_done(self.rows, self.ops, worker),
                    ..self
                },
                None => self,
            },
            Event::Return => PoolRun { dispatcher: None, ..self },
            Event::Shutdown => PoolRun { shared: self.shared.shut_down(), ..self },
        }
    }

    /// Whether the events can be taken one after the other.
    pub open spec fn all_enabled(self, events: Seq<Event>) -> bool
        decreases events.len(),
    {
        events.len() == 0 || (self.all_enabled(events.drop_last()) && self.after_all(
            events.drop_last(),
        ).enabled(events.last()))
    }

    /// The pool after the events.
    pub open spec fn after_all(self, events: Seq<Event>) -> PoolRun
        decreases events.len(),
    {
        if events.len() == 0 {
            self
        } else {
            self.after_all(events.drop_last()).after(events.last())
        }
    }

    /// A worker is busy with the current job alone, and only while a dispatcher waits.
    pub open spec fn worker_in_step(self, i: int) -> bool {
        &&& self.last[i] <= self.shared.generation
        &&& self.busy[i] is Some ==> {
            &&& self.dispatcher is Some
            &&& self.shared.job is Some
            &&& self.busy[i] == Some((self.shared.job->0, self.shared.generation))
            &&& i < self.shared.job->0.active_workers
            &&& self.last[i] == self.shared.generation
            &&& !self.done.contains(i)
        }
    }

    /// What holds while a dispatcher waits for the job `job`.
    pub open spec fn job_under_way(self, job: ReplayJob) -> bool {
        &&& self.dispatcher == Some(self.shared.generation)
        &&& !self.shared.shutdown
        &&& job.active_workers <= self.last.len()
        &&& job.describes(self.start, self.ops)
        &&& job.partly_replayed(self.rows, self.start, self.ops, self.done)
        &&& self.done.finite()
        &&& forall|i: int| #[trigger]
            self.done.contains(i) ==> 0 <= i < job.active_workers && self.last[i]
                == self.shared.generation
        &&& forall|n: int|
            0 <= n < self.arrivals.len() ==> self.done.contains(#[trigger] self.arrivals[n])
                && job.has_columns(self.arrivals[n])
        &&& forall|i: int|
            #[trigger] self.done.contains(i) && job.has_columns(i) ==> self.arrivals.contains(i)
        &&& self.shared.remaining + self.done.len() == job.active_workers
        &&& forall|i: int|
            0 <= i < job.active_workers && #[trigger] self.last[i] == self.shared.generation
                ==> self.busy[i] is Some || self.done.contains(i)
    }

    /// What holds of a pool at every moment.
    pub open spec fn inv(self) -> bool {
        &&& self.last.len() > 0
        &&& self.busy.len() == self.last.len()
        &&& self.shared.job is None ==> self.shared.generation == 0
        &&& forall|i: int| 0 <= i < self.last.len() ==> #[trigger] self.worker_in_step(i)
        &&& self.dispatcher is Some ==> self.shared.job is Some && self.job_under_way(
            self.shared.job->0,
        )
        &&& self.dispatcher is None ==> self.shared.remaining == 0
        &&& self.dispatcher is None && self.shared.job is Some ==> forall|i: int|
            0 <= i < self.last.len() && i < self.shared.job->0.active_workers
                ==> #[trigger] self.last[i] == self.shared.generation
    }
}

/// Of a fresh pool the invariant holds.
pub proof fn law_fresh_pool_invariant(run: PoolRun)
    requires
        run.fresh(),
    ensures
        run.inv(),
{
    assert forall|i: int| 0 <= i < run.last.len() implies #[trigger] run.worker_in_step(i) by {
        assert(run.last[i] == 0);
        assert(run.busy[i] is None);
    }
}

/// Every step keeps the invariant.
pub proof fn law_step_keeps_invariant(run: PoolRun, event: Event)
    requires
        run.inv(),
        run.enabled(event),
    ensures
        run.after(event).inv(),
{
    let next = run.after(event);
    match event {
        Event::Dispatch { job, ops, rows } => {
            law_no_worker_leaves_rows(job, rows, ops);
            assert forall|i: int| 0 <= i < next.last.len() implies #[trigger] next.worker_in_step(
                i,
            ) by {
                assert(run.worker_in_step(i));
            }
            assert forall|i: int|
                0 <= i < job.active_workers && #[trigger] next.last[i]
                    == next.shared.generation implies next.busy[i] is Some || next.done.contains(
                i,
            ) by {
                assert(run.worker_in_step(i));
            }
        },
        Event::Wake { worker } => {
            assert(run.worker_in_step(worker));
            assert forall|i: int| 0 <= i < next.last.len() implies #[trigger] next.worker_in_step(
                i,
            ) by {
                assert(run.worker_in_step(i));
            }
            lemma_wake(run, worker);
        },
        Event::Finish { worker } => {
            assert(run.worker_in_step(worker));
            let job = run.shared.job->0;
            law_worker_adds_its_columns(job, run.rows, run.start, run.ops, run.done, worker);
            lemma_remaining(run, job);
            lemma_arrival(run, worker);
            assert forall|i: int| 0 <= i < next.last.len() implies #[trigger] next.worker_in_step(
                i,
            ) by {
                assert(run.worker_in_step(i));
            }
        },
        Event::Return => {
            law_dispatcher_returns_when_done(run);
            assert forall|i: int| 0 <= i < next.last.len() && i
                < next.shared.job->0.active_workers implies #[trigger] next.last[i]
                == next.shared.generation by {
                assert(run.done.contains(i));
            }
            assert forall|i: int| 0 <= i < next.last.len() implies #[trigger] next.worker_in_step(
                i,
            ) by {
                assert(run.worker_in_step(i));
                assert(run.busy[i] is None);
            }
        },
        Event::Shutdown => {
            assert forall|i: int| 0 <= i < next.last.len() implies #[trigger] next.worker_in_step(
                i,
            ) by {
                assert(run.worker_in_step(i));
            }
        },
    }
}

/// When a dispatcher need not wait any longer, every active worker has finished, none is
/// busy, and the rows are those after replaying the operations on the rows handed out.
pub proof fn law_dispatcher_returns_when_done(run: PoolRun)
    requires
        run.inv(),
        run.enabled(Event::Return),
    ensures
        forall|i: int|
            0 <= i < run.shared.job->0.active_workers ==> #[trigger] run.done.contains(i),
        forall|i: int| 0 <= i < run.busy.len() ==> #[trigger] run.busy[i] is None,
        run.shared.remaining == 0,
        run.rows == apply_ops(run.start, run.ops),
{
    let job = run.shared.job->0;
    let all = set_int_range(0, job.active_workers as int);
    lemma_int_range(0, job.active_workers as int);
    lemma_subset_equality(run.done, all);
    assert forall|i: int| 0 <= i < job.active_workers implies #[trigger] run.done.contains(i) by {
        assert(all.contains(i));
    }
    assert forall|i: int| 0 <= i < run.busy.len() implies #[trigger] run.busy[i] is None by {
        assert(run.worker_in_step(i));
    }
    law_all_workers_complete_replay(job, run.rows, run.start, run.ops, run.done);
}

/// When a dispatcher need not wait any longer, it can put the result together itself: the
/// chunks that the workers have replayed on the rows handed out, written over those rows in
/// the order in which they have arrived, give the rows after replaying the operations.
pub proof fn law_arrived_chunks_complete_replay(run: PoolRun)
    requires
        run.inv(),
        run.enabled(Event::Return),
    ensures
        written_back(
            run.start,
            run.shared.job->0.final_chunks(run.start, run.ops, run.arrivals),
        ) == apply_ops(run.start, run.ops),
{
    let job = run.shared.job->0;
    law_dispatcher_returns_when_done(run);
    assert forall|i: int|
        0 <= i < job.active_workers && job.has_columns(i) implies #[trigger] run.arrivals.contains(
        i,
    ) by {
        assert(run.done.contains(i));
    }
    law_write_back_completes_replay(job, run.start, run.ops, run.arrivals);
}

/// A worker that wakes up leaves the job under way as it is.
proof fn lemma_wake(run: PoolRun, worker: int)
    requires
        run.inv(),
        run.enabled(Event::Wake { worker }),
    ensures
        run.dispatcher is Some ==> run.after(Event::Wake { worker }).job_under_way(
            run.shared.job->0,
        ),
{
    let next = run.after(Event::Wake { worker });
    if run.dispatcher is Some {
        let job = run.shared.job->0;
        assert forall|i: int|
            0 <= i < job.active_workers && #[trigger] next.last[i]
                == next.shared.generation implies next.busy[i] is Some || next.done.contains(i) by {
            if i != worker {
                assert(next.last[i] == run.last[i]);
            }
        }
    }
}

/// The arrivals name the workers that have finished and have columns.
proof fn lemma_arrival(run: PoolRun, worker: int)
    requires
        run.inv(),
        run.dispatcher is Some,
        run.enabled(Event::Finish { worker }),
    ensures
        ({
            let job = run.shared.job->0;
            let next = run.after(Event::Finish { worker });
            &&& forall|n: int|
                0 <= n < next.arrivals.len() ==> next.done.contains(#[trigger] next.arrivals[n])
                    && job.has_columns(next.arrivals[n])
            &&& forall|i: int|
                #[trigger] next.done.contains(i) && job.has_columns(i) ==> next.arrivals.contains(i)
        }),
{
    assert(run.worker_in_step(worker));
    let job = run.shared.job->0;
    let next = run.after(Event::Finish { worker });
    assert forall|i: int| #[trigger]
        next.done.contains(i) && job.has_columns(i) implies next.arrivals.contains(i) by {
        if i == worker {
            assert(next.arrivals[next.arrivals.len() - 1] == worker);
        } else {
            assert(run.done.contains(i));
            let n = choose|n: int| 0 <= n < run.arrivals.len() && run.arrivals[n] == i;
            assert(next.arrivals[n] == i);
        }
    }
}

/// While a worker is busy, the workers that have finished are fewer than the active ones.
proof fn lemma_remaining(run: PoolRun, job: ReplayJob)
    requires
        run.inv(),
        run.dispatcher is Some,
        job == run.shared.job->0,
        exists|i: int|
            0 <= i < run.busy.len() && #[trigger] run.busy[i] is Some,
    ensures
        run.shared.remaining > 0,
{
    let worker = choose|i: int| 0 <= i < run.busy.len() && #[trigger] run.busy[i] is Some;
    assert(run.worker_in_step(worker));
    let all = set_int_range(0, job.active_workers as int);
    lemma_int_range(0, job.active_workers as int);
    assert(run.done.insert(worker).subset_of(all));
    lemma_len_subset(run.done.insert(worker), all);
}

/// Whatever steps a pool has taken, in whatever order, the invariant holds.
pub proof fn law_invariant_of_every_run(run: PoolRun, events: Seq<Event>)
    requires
        run.fresh(),
        run.all_enabled(events),
    ensures
        run.after_all(events).inv(),
    decreases events.len(),
{
    if events.len() == 0 {
        law_fresh_pool_invariant(run);
    } else {
        law_invariant_of_every_run(run, events.drop_last());
        law_step_keeps_invariant(run.after_all(events.drop_last()), events.last());
    }
}

/// A worker takes part in a job once: when it has finished, it has nothing to do until
/// the next job or the end of the pool.
pub proof fn law_worker_takes_part_once(run: PoolRun, worker: int)
    requires
        run.inv(),
        run.dispatcher is Some,
        run.done.contains(worker),
    ensures
        run.shared.action(run.last[worker]) == WorkerAction::Park,
        run.busy[worker] is None,
{
    assert(run.worker_in_step(worker));
}

/// No worker ever finds a generation without a job.
pub proof fn law_job_never_missing(run: PoolRun, worker: int)
    requires
        run.inv(),
        0 <= worker < run.last.len(),
    ensures
        run.shared.action(run.last[worker]) != WorkerAction::MissingJob,
{
    assert(run.worker_in_step(worker));
}

/// A dispatcher does not wait in vain: while it has to wait, an active worker is busy or
/// has the job before it.
pub proof fn law_waiting_is_never_stuck(run: PoolRun)
    requires
        run.inv(),
        run.dispatcher is Some,
        run.shared.dispatcher_waits(run.dispatcher->0),
    ensures
        exists|i: int|
            0 <= i < run.shared.job->0.active_workers && (#[trigger] run.enabled(
                Event::Wake { worker: i },
            ) || run.enabled(Event::Finish { worker: i })),
{
    let job = run.shared.job->0;
    let all = set_int_range(0, job.active_workers as int);
    lemma_int_range(0, job.active_workers as int);
    if forall|i: int| 0 <= i < job.active_workers ==> #[trigger] run.done.contains(i) {
        assert(all.subset_of(run.done));
        lemma_len_subset(all, run.done);
    }
    let i = choose|i: int| 0 <= i < job.active_workers && !#[trigger] run.done.contains(i);
    assert(run.worker_in_step(i));
    assert(run.enabled(Event::Wake { worker: i }) || run.enabled(Event::Finish { worker: i }));
}

/// A pool that shuts down sends every worker away, and none is busy then.
pub proof fn law_shutdown_sends_workers_away(run: PoolRun, worker: int)
    requires
        run.inv(),
        run.shared.shutdown,
        0 <= worker < run.last.len(),
    ensures
        run.shared.action(run.last[worker]) == WorkerAction::Exit,
        run.busy[worker] is None,
{
    assert(run.worker_in_step(worker));
}

} // verus!
