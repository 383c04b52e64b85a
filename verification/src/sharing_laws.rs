//! When a replay is shared out, how its columns are cut up, and how a pool keeps count.
//!
//! The laws say in terms of operations, columns, octets and numbers what the functions of
//! [`crate::operation_vector`] and [`crate::replay_pool`] amount to.

use crate::model::{
    apply_op, apply_ops, law_replay_shape, op_views, rows_sized, with_columns, Op,
};
use crate::octets::runs_apart;
use crate::operation_laws::{law_columns_cut_out, law_columns_written};
use crate::operation_vector::{
    adds_to_itself, all_indices_fit, before_reorder, indices_fit, planned_job, pool_after_replay,
    shared_out, workers_for, worth_sharing, SymbolOps,
};
use crate::replay_pool::{
    chunk_views, div_ceil_spec, lemma_no_reorder_count, next_generation, no_reorder, written_back,
    ReplayJob, ReplayPoolState, WorkerAction,
};
use crate::symbol_slab::SymbolSlab;
use vstd::prelude::*;

verus! {

/// A schedule can hold an operation when the rows that it adds or multiplies are named in
/// 32 bits, and only then; a reordering always.
pub proof fn law_when_indices_fit(op: SymbolOps)
    ensures
        indices_fit(op@) <==> match op {
            SymbolOps::AddAssign { dest, src } => dest <= 0xffff_ffff && src <= 0xffff_ffff,
            SymbolOps::MulAssign { dest, .. } => dest <= 0xffff_ffff,
            SymbolOps::FMA { dest, src, .. } => dest <= 0xffff_ffff && src <= 0xffff_ffff,
            SymbolOps::Reorder { .. } => true,
        },
{
}

/// A schedule can hold a list when it can hold each operation of it, and only then.
pub proof fn law_when_all_indices_fit(ops: Seq<SymbolOps>)
    ensures
        all_indices_fit(op_views(ops)) <==> forall|i: int|
            0 <= i < ops.len() ==> indices_fit((#[trigger] ops[i])@),
{
    let views = op_views(ops);
    if all_indices_fit(views) {
        assert forall|i: int| 0 <= i < ops.len() implies indices_fit((#[trigger] ops[i])@) by {
            assert(views[i] == ops[i]@);
        }
    }
    if forall|i: int| 0 <= i < ops.len() ==> indices_fit((#[trigger] ops[i])@) {
        assert forall|i: int| 0 <= i < views.len() implies indices_fit(#[trigger] views[i]) by {
            assert(views[i] == ops[i]@);
        }
    }
}

/// Work is worth sharing from 30000 operations on 4000 symbols of 1024 octets on.
pub proof fn law_when_worth_sharing(op_count: int, symbol_count: int, symbol_size: int)
    ensures
        worth_sharing(op_count, symbol_count, symbol_size) <==> op_count >= 30_000 && symbol_count
            >= 4_000 && symbol_size >= 1_024,
{
}

/// An operation adds a row to itself when it is an addition whose two rows are one row, and
/// only then.
pub proof fn law_when_added_to_itself(dest: int, src: int, scalar: u8, order: Seq<int>)
    ensures
        adds_to_itself(Op::AddAssign { dest, src }) <==> dest == src,
        adds_to_itself(Op::FMA { dest, src, scalar }) <==> dest == src,
        !adds_to_itself(Op::MulAssign { dest, scalar }),
        !adds_to_itself(Op::Reorder { order }),
{
}

/// A replay is shared out when there are two workers or more, no operation but the last
/// reorders, none adds a row to itself, and there is enough to do apart from a reordering
/// at the end; and only then.
pub proof fn law_when_shared_out(
    ops: Seq<Op>,
    symbol_count: nat,
    symbol_size: nat,
    available: nat,
)
    ensures
        shared_out(ops, symbol_count, symbol_size, available) <==> {
            &&& available >= 2
            &&& symbol_count >= 4_000
            &&& symbol_size >= 1_024
            &&& ops.len() >= 30_000
            &&& ops.len() == 30_000 ==> !(ops[29_999] is Reorder)
            &&& forall|i: int| 0 <= i < ops.len() - 1 ==> !(#[trigger] ops[i] is Reorder)
            &&& forall|i: int|
                0 <= i < ops.len() ==> match #[trigger] ops[i] {
                    Op::AddAssign { dest, src } => dest != src,
                    Op::FMA { dest, src, .. } => dest != src,
                    _ => true,
                }
        },
{
    let before = before_reorder(ops);
    if shared_out(ops, symbol_count, symbol_size, available) {
        assert forall|i: int| 0 <= i < ops.len() implies match #[trigger] ops[i] {
            Op::AddAssign { dest, src } => dest != src,
            Op::FMA { dest, src, .. } => dest != src,
            _ => true,
        } by {
            if i < before.len() {
                assert(before[i] == ops[i]);
                assert(!adds_to_itself(before[i]));
            }
        }
    }
    if forall|i: int|
        0 <= i < ops.len() ==> match #[trigger] ops[i] {
            Op::AddAssign { dest, src } => dest != src,
            Op::FMA { dest, src, .. } => dest != src,
            _ => true,
        } {
        assert forall|i: int| 0 <= i < before.len() implies !adds_to_itself(
            #[trigger] before[i],
        ) by {
            assert(before[i] == ops[i]);
        }
    }
}

/// The operations that workers share are all of them but for a reordering at the end, and
/// that reordering after them completes the replay.
pub proof fn law_reordering_set_apart(rows: Seq<Seq<u8>>, ops: Seq<Op>)
    ensures
        ops.len() == 0 ==> before_reorder(ops) == ops,
        ops.len() > 0 && !(ops[ops.len() - 1] is Reorder) ==> before_reorder(ops) == ops,
        ops.len() > 0 && ops[ops.len() - 1] is Reorder ==> {
            &&& before_reorder(ops).push(ops[ops.len() - 1]) == ops
            &&& apply_op(apply_ops(rows, before_reorder(ops)), ops[ops.len() - 1]) == apply_ops(
                rows,
                ops,
            )
        },
{
    if ops.len() > 0 && ops[ops.len() - 1] is Reorder {
        assert(before_reorder(ops).push(ops[ops.len() - 1]) =~= ops);
    }
}

/// A quotient rounded up is the least number whose multiple reaches the dividend.
pub proof fn law_quotient_rounded_up(a: int, b: int)
    requires
        0 <= a,
        0 < b,
    ensures
        a <= div_ceil_spec(a, b) * b < a + b,
{
    let q = div_ceil_spec(a, b);
    let r = (a + b - 1) % b;
    vstd::arithmetic::div_mod::lemma_fundamental_div_mod(a + b - 1, b);
    vstd::arithmetic::mul::lemma_mul_is_commutative(b, q);
}

/// At least `n` workers share a replay when there are `n` of them, and one fewer would
/// leave columns and operations over at 256 columns and 12000 operations each; and only
/// then.
pub proof fn law_number_of_workers(op_count: int, symbol_size: int, available: int, n: int)
    requires
        0 <= op_count,
        0 <= symbol_size,
        1 <= n,
    ensures
        n <= workers_for(op_count, symbol_size, available) <==> n <= available && (n - 1) * 256
            < symbol_size && (n - 1) * 12_000 < op_count,
{
}

/// As many workers share a replay as there are, or as its columns or its operations allow,
/// and never more than any of these.
pub proof fn law_workers_within_bounds(op_count: int, symbol_size: int, available: int)
    requires
        0 <= op_count,
        0 <= symbol_size,
        0 <= available,
    ensures
        0 <= workers_for(op_count, symbol_size, available) <= available,
        symbol_size > 0 && op_count > 0 && available > 0 ==> workers_for(
            op_count,
            symbol_size,
            available,
        ) > 0,
{
}

/// A job is well formed when it has a worker, and its workers with equal chunks just reach
/// the last column: with chunks of one column fewer they would not.
pub proof fn law_when_job_is_well_formed(job: ReplayJob)
    ensures
        job.wf() <==> {
            &&& job.active_workers > 0
            &&& job.symbol_size <= job.chunk_size * job.active_workers
            &&& job.chunk_size * job.active_workers < job.symbol_size + job.active_workers
        },
{
    let size = job.symbol_size as int;
    let workers = job.active_workers as int;
    let chunk = job.chunk_size as int;
    if workers > 0 {
        let ceil = div_ceil_spec(size, workers);
        law_quotient_rounded_up(size, workers);
        if size <= chunk * workers < size + workers {
            assert(chunk == ceil) by (nonlinear_arith)
                requires
                    workers > 0,
                    size <= chunk * workers < size + workers,
                    size <= ceil * workers < size + workers,
            ;
        }
    }
}

/// A planned job is well formed and about as many symbols, octets and operations as it was
/// planned for.
pub proof fn law_planned_job(symbol_count: nat, symbol_size: nat, ops_len: nat, worker_count: nat)
    requires
        symbol_count <= usize::MAX,
        symbol_size <= usize::MAX,
        ops_len <= usize::MAX,
        0 < worker_count <= usize::MAX,
    ensures
        ({
            let job = ReplayJob::planned(symbol_count, symbol_size, ops_len, worker_count);
            &&& job.symbol_count == symbol_count
            &&& job.symbol_size == symbol_size
            &&& job.ops_len == ops_len
            &&& job.active_workers == worker_count
            &&& symbol_size <= job.chunk_size * worker_count
            &&& job.chunk_size * worker_count < symbol_size + worker_count
        }),
{
    let size = symbol_size as int;
    let workers = worker_count as int;
    let chunk = div_ceil_spec(size, workers);
    law_quotient_rounded_up(size, workers);
    assert(0 <= chunk <= size) by (nonlinear_arith)
        requires
            workers > 0,
            0 <= size,
            size <= chunk * workers < size + workers,
    ;
}

/// The job of a shared replay is about the operations before a reordering at the end, and
/// about as many workers as share the replay.
pub proof fn law_job_of_shared_replay(
    ops: Seq<Op>,
    symbol_count: nat,
    symbol_size: nat,
    available: nat,
)
    requires
        symbol_count <= usize::MAX,
        symbol_size <= usize::MAX,
        ops.len() <= usize::MAX,
        available <= usize::MAX,
        shared_out(ops, symbol_count, symbol_size, available),
    ensures
        ({
            let job = planned_job(ops, symbol_count, symbol_size, available);
            &&& job.symbol_count == symbol_count
            &&& job.symbol_size == symbol_size
            &&& job.ops_len == (if ops[ops.len() - 1] is Reorder {
                ops.len() - 1
            } else {
                ops.len() as int
            })
            &&& job.active_workers == workers_for(
                job.ops_len as int,
                symbol_size as int,
                available as int,
            )
            &&& 2 <= job.active_workers <= available
            &&& symbol_size <= job.chunk_size * job.active_workers
            &&& job.chunk_size * job.active_workers < symbol_size + job.active_workers
        }),
{
    let len = before_reorder(ops).len();
    let workers = workers_for(len as int, symbol_size as int, available as int);
    law_number_of_workers(len as int, symbol_size as int, available as int, 2);
    law_workers_within_bounds(len as int, symbol_size as int, available as int);
    law_planned_job(symbol_count, symbol_size, len, workers as nat);
}

/// The chunks follow each other from the first column on: each starts where the one before
/// it ends, has the job's chunk size, and is cut short at the last column alone. A worker
/// has columns when its chunk starts before the last column ends.
pub proof fn law_chunks_follow_each_other(job: ReplayJob, worker_idx: int, k: int)
    requires
        0 <= worker_idx,
    ensures
        job.chunk_start(0) == 0,
        job.chunk_start(worker_idx + 1) == job.chunk_start(worker_idx) + job.chunk_size,
        job.has_columns(worker_idx) <==> job.chunk_start(worker_idx) < job.symbol_size,
        job.has_columns(worker_idx + 1) ==> job.chunk_end(worker_idx) == job.chunk_start(
            worker_idx + 1,
        ),
        !job.has_columns(worker_idx + 1) ==> job.chunk_end(worker_idx) == job.symbol_size,
        job.covers(worker_idx, k) <==> job.chunk_start(worker_idx) <= k && k < job.chunk_start(
            worker_idx,
        ) + job.chunk_size && k < job.symbol_size,
{
    let chunk = job.chunk_size as int;
    assert((worker_idx + 1) * chunk == worker_idx * chunk + chunk) by (nonlinear_arith);
    assert(0 * chunk == 0) by (nonlinear_arith);
}

/// A worker takes the octets of its own columns to where the replay takes them, and leaves
/// every other octet as it was.
pub proof fn law_worker_writes_its_octets(
    job: ReplayJob,
    rows: Seq<Seq<u8>>,
    ops: Seq<Op>,
    worker_idx: int,
)
    requires
        job.describes(rows, ops),
        0 <= worker_idx,
    ensures
        ({
            let after = job.worker_done(rows, ops, worker_idx);
            &&& after.len() == rows.len()
            &&& rows_sized(after, job.symbol_size as nat)
            &&& forall|r: int, k: int|
                0 <= r < rows.len() && 0 <= k < job.symbol_size ==> #[trigger] after[r][k] == (if {
                    &&& worker_idx < job.active_workers
                    &&& worker_idx * job.chunk_size <= k
                    &&& k < worker_idx * job.chunk_size + job.chunk_size
                } {
                    apply_ops(rows, ops)[r][k]
                } else {
                    rows[r][k]
                })
        }),
{
    let size = job.symbol_size as nat;
    let lo = job.chunk_start(worker_idx);
    let hi = job.chunk_end(worker_idx);
    let replayed = apply_ops(rows, ops);
    let chunk = job.final_chunk(rows, ops, worker_idx);
    assert(0 <= worker_idx * job.chunk_size) by (nonlinear_arith)
        requires
            0 <= worker_idx,
    ;
    if worker_idx < job.active_workers && job.has_columns(worker_idx) {
        law_replay_shape(rows, ops, size);
        lemma_no_reorder_count(rows.len(), ops);
        law_columns_cut_out(replayed, size, lo, hi);
        assert(rows_sized(chunk, (hi - lo) as nat));
        law_columns_written(rows, size, lo, chunk, (hi - lo) as nat);
        let after = job.worker_done(rows, ops, worker_idx);
        assert forall|r: int, k: int|
            0 <= r < rows.len() && 0 <= k < size && lo <= k < hi implies #[trigger] after[r][k]
            == replayed[r][k] by {
            assert(after[r][k] == chunk[r][k - lo]);
            assert(chunk[r][k - lo] == replayed[r][lo + (k - lo)]);
        }
    }
}

/// The chunk that a worker hands in holds the octets of its columns after the replay, and
/// comes with the first of those columns.
pub proof fn law_chunk_handed_in(
    job: ReplayJob,
    start: Seq<Seq<u8>>,
    ops: Seq<Op>,
    workers: Seq<int>,
    n: int,
)
    requires
        job.describes(start, ops),
        0 <= n < workers.len(),
        0 <= workers[n],
        job.has_columns(workers[n]),
    ensures
        job.final_chunks(start, ops, workers).len() == workers.len(),
        ({
            let lo = workers[n] * job.chunk_size;
            let (first, chunk) = job.final_chunks(start, ops, workers)[n];
            &&& first == lo
            &&& chunk.len() == start.len()
            &&& forall|r: int, k: int|
                0 <= r < start.len() && 0 <= k < job.chunk_size && lo + k < job.symbol_size
                    ==> #[trigger] chunk[r][k] == apply_ops(start, ops)[r][lo + k]
        }),
{
    let size = job.symbol_size as nat;
    let lo = job.chunk_start(workers[n]);
    let hi = job.chunk_end(workers[n]);
    let worker_idx = workers[n];
    assert(0 <= worker_idx * job.chunk_size) by (nonlinear_arith)
        requires
            0 <= worker_idx,
    ;
    law_replay_shape(start, ops, size);
    lemma_no_reorder_count(start.len(), ops);
    law_columns_cut_out(apply_ops(start, ops), size, lo, hi);
}

/// Writing back no chunk changes nothing. One more chunk at the end goes over what the
/// others leave: its octets are there afterwards, and every other octet stays.
pub proof fn law_one_more_chunk_written_back(
    rows: Seq<Seq<u8>>,
    symbol_size: nat,
    chunks: Seq<(int, Seq<Seq<u8>>)>,
    first: int,
    chunk: Seq<Seq<u8>>,
    width: nat,
)
    requires
        rows_sized(written_back(rows, chunks), symbol_size),
        chunk.len() == written_back(rows, chunks).len(),
        rows_sized(chunk, width),
        0 <= first,
        first + width <= symbol_size,
    ensures
        written_back(rows, Seq::empty()) == rows,
        ({
            let before = written_back(rows, chunks);
            let after = written_back(rows, chunks.push((first, chunk)));
            &&& after.len() == before.len()
            &&& rows_sized(after, symbol_size)
            &&& forall|r: int, k: int|
                0 <= r < before.len() && 0 <= k < symbol_size ==> #[trigger] after[r][k] == (
                if first <= k < first + width {
                    chunk[r][k - first]
                } else {
                    before[r][k]
                })
        }),
{
    let before = written_back(rows, chunks);
    let more = chunks.push((first, chunk));
    assert(more.drop_last() =~= chunks);
    assert(more.last() == (first, chunk));
    assert(written_back(rows, more) == with_columns(before, first, chunk));
    law_columns_written(before, symbol_size, first, chunk, width);
}

/// Chunks stand for their rows and the columns that they come with, one by one.
pub proof fn law_chunks_one_by_one(chunks: Seq<(usize, SymbolSlab)>)
    ensures
        chunk_views(chunks).len() == chunks.len(),
        forall|i: int|
            0 <= i < chunks.len() ==> #[trigger] chunk_views(chunks)[i] == (
                chunks[i].0 as int,
                chunks[i].1@,
            ),
{
}

/// Operations hold no reordering when none of them is one.
pub proof fn law_when_no_reorder(ops: Seq<Op>)
    ensures
        no_reorder(ops) <==> forall|i: int|
            0 <= i < ops.len() ==> !(#[trigger] ops[i] is Reorder),
{
}

/// Two runs are apart when they are one run or no octet is in both, and only then.
pub proof fn law_when_runs_are_apart(dest: int, src: int, width: int)
    requires
        0 < width,
    ensures
        runs_apart(dest, src, width) <==> dest == src || forall|j: int|
            !(#[trigger] in_run(j, dest, width) && in_run(j, src, width)),
{
    if !runs_apart(dest, src, width) {
        let j = if dest < src {
            src
        } else {
            dest
        };
        assert(in_run(j, dest, width) && in_run(j, src, width));
    }
}

/// Whether place `j` is in the run of `width` places at `first`.
pub open spec fn in_run(j: int, first: int, width: int) -> bool {
    first <= j < first + width
}

/// Generations count up by one, and start anew at zero after the largest number.
pub proof fn law_generations_count_up(generation: u64)
    ensures
        next_generation(generation) == (generation + 1) % 0x1_0000_0000_0000_0000,
        next_generation(generation) != generation,
{
}

/// A fresh pool has handed out no job: its generation is zero, and none remains.
pub proof fn law_fresh_state()
    ensures
        ReplayPoolState::initial().generation == 0,
        ReplayPoolState::initial().remaining == 0,
        !ReplayPoolState::initial().shutdown,
        ReplayPoolState::initial().job is None,
{
}

/// Handing out a job begins the next generation, in which every active worker remains.
pub proof fn law_dispatched_state(state: ReplayPoolState, job: ReplayJob)
    ensures
        state.dispatched(job).generation == (state.generation + 1) % 0x1_0000_0000_0000_0000,
        state.dispatched(job).remaining == job.active_workers,
        state.dispatched(job).shutdown == state.shutdown,
        state.dispatched(job).job == Some(job),
{
}

/// The state after `count` active workers have finished `generation`.
pub open spec fn finished_times(
    state: ReplayPoolState,
    generation: u64,
    count: nat,
) -> ReplayPoolState
    decreases count,
{
    if count == 0 {
        state
    } else {
        finished_times(state, generation, (count - 1) as nat).finished(generation)
    }
}

/// Of the workers that finish the current generation, each counts for one, until none
/// remains; nothing else changes.
pub proof fn law_workers_finish_one_by_one(state: ReplayPoolState, count: nat)
    requires
        count <= state.remaining,
    ensures
        finished_times(state, state.generation, count) == (ReplayPoolState {
            remaining: (state.remaining - count) as usize,
            ..state
        }),
    decreases count,
{
    if count > 0 {
        law_workers_finish_one_by_one(state, (count - 1) as nat);
    }
}

/// A worker that finishes counts when its generation is the current one and some worker
/// remains; otherwise nothing changes.
pub proof fn law_finished_state(state: ReplayPoolState, generation: u64)
    ensures
        state.generation == generation && state.remaining > 0 ==> state.finished(
            generation,
        ).remaining == state.remaining - 1,
        state.generation != generation || state.remaining == 0 ==> state.finished(generation)
            == state,
        state.finished(generation).generation == state.generation,
        state.finished(generation).shutdown == state.shutdown,
        state.finished(generation).job == state.job,
{
}

/// A completed job is one that was handed out and that every active worker has finished.
pub proof fn law_completed_state(state: ReplayPoolState, job: ReplayJob)
    ensures
        state.completed(job) == finished_times(
            state.dispatched(job),
            state.dispatched(job).generation,
            job.active_workers as nat,
        ),
        state.completed(job).generation == (state.generation + 1) % 0x1_0000_0000_0000_0000,
        state.completed(job).remaining == 0,
        state.completed(job).shutdown == state.shutdown,
        state.completed(job).job == Some(job),
{
    law_workers_finish_one_by_one(state.dispatched(job), job.active_workers as nat);
}

/// A dispatcher waits while its generation is the current one and some worker remains, and
/// only then. So it waits until all active workers have finished, and not after.
pub proof fn law_when_dispatcher_waits(
    state: ReplayPoolState,
    job: ReplayJob,
    expected: u64,
    count: nat,
)
    requires
        count <= job.active_workers,
    ensures
        state.dispatcher_waits(expected) <==> state.generation == expected && state.remaining > 0,
        ({
            let handed_out = state.dispatched(job);
            finished_times(handed_out, handed_out.generation, count).dispatcher_waits(
                handed_out.generation,
            ) <==> count < job.active_workers
        }),
{
    law_workers_finish_one_by_one(state.dispatched(job), count);
}

/// What a worker does: it leaves when the pool shuts down, waits when it has taken part in
/// the current generation, and otherwise takes part in the job, if there is one.
pub proof fn law_worker_actions(state: ReplayPoolState, last_generation: u64)
    ensures
        state.action(last_generation) is Exit <==> state.shutdown,
        state.action(last_generation) is Park <==> !state.shutdown && state.generation
            == last_generation,
        state.action(last_generation) is MissingJob <==> !state.shutdown && state.generation
            != last_generation && state.job is None,
        state.action(last_generation) matches WorkerAction::Run { job, generation } ==> {
            &&& state.job == Some(job)
            &&& generation == state.generation
        },
{
}

/// Telling the workers to leave changes nothing else.
pub proof fn law_shut_down_state(state: ReplayPoolState)
    ensures
        state.shut_down().shutdown,
        state.shut_down().generation == state.generation,
        state.shut_down().remaining == state.remaining,
        state.shut_down().job == state.job,
{
}

/// A replay leaves its mark on a pool when it is hinted that it may be shared out, and it
/// is: then one more job has been handed out and completed. Otherwise the pool is as it
/// was.
pub proof fn law_pool_after_replay(
    shared: ReplayPoolState,
    parallel_hint: bool,
    ops: Seq<Op>,
    symbol_count: nat,
    symbol_size: nat,
    available: nat,
)
    ensures
        ({
            let after = pool_after_replay(
                shared,
                parallel_hint,
                ops,
                symbol_count,
                symbol_size,
                available,
            );
            if parallel_hint && shared_out(ops, symbol_count, symbol_size, available) {
                &&& after.generation == (shared.generation + 1) % 0x1_0000_0000_0000_0000
                &&& after.remaining == 0
                &&& after.shutdown == shared.shutdown
                &&& after.job == Some(planned_job(ops, symbol_count, symbol_size, available))
            } else {
                after == shared
            }
        }),
{
}

} // verus!
