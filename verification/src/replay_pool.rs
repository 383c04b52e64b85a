//! A pool of workers that replay a list of operations side by side.
//!
//! Each worker replays the whole list on a run of columns of its own, so that the
//! workers share no octet. The pool hands out a job under a generation number, and its
//! dispatcher waits until every active worker has finished that generation. Who runs a
//! worker's steps is left open: [`ReplayPool`] runs them in turn on the calling thread,
//! and a caller that has threads runs them on those.

use crate::model::{
    applicable_at, apply_ops, columns_of, count_after, law_columns_replay_alone, law_replay_shape,
    lemma_applicable_narrower, lemma_replay_step, op_views, ops_applicable, rows_sized,
    with_columns, Op,
};
use crate::operation_vector::ReplayOp;
use crate::symbol_slab::SymbolSlab;
use vstd::prelude::*;

verus! {

/// The most workers that a pool sized after the machine has.
pub const MAX_POOL_WORKERS: usize = 16;

/// `a / b`, rounded up.
pub open spec fn div_ceil_spec(a: int, b: int) -> int {
    (a + b - 1) / b
}

/// `a / b`, rounded up.
pub fn div_ceil(a: usize, b: usize) -> (res: usize)
    requires
        b > 0,
    ensures
        res == div_ceil_spec(a as int, b as int),
{
    let quotient: usize = a / b;
    let rest: usize = a % b;
    proof {
        lemma_div_ceil(a as int, b as int);
    }
    if rest > 0 {
        quotient + 1
    } else {
        quotient
    }
}

/// Rounding up adds one to the quotient when there is a rest.
proof fn lemma_div_ceil(a: int, b: int)
    requires
        0 <= a,
        0 < b,
    ensures
        div_ceil_spec(a, b) == a / b + (if a % b > 0 {
            1int
        } else {
            0
        }),
        a % b > 0 ==> a / b < a,
        0 <= div_ceil_spec(a, b) <= a,
        a <= div_ceil_spec(a, b) * b < a + b,
{
    let q = a / b;
    let r = a % b;
    vstd::arithmetic::div_mod::lemma_fundamental_div_mod(a, b);
    vstd::arithmetic::mul::lemma_mul_is_commutative(b, q);
    assert(q >= 0) by (nonlinear_arith)
        requires
            q * b + r == a,
            0 <= r < b,
            0 <= a,
    ;
    assert(q <= q * b) by (nonlinear_arith)
        requires
            q >= 0,
            b > 0,
    ;
    if r > 0 {
        assert((a + b - 1) / b == q + 1) by {
            assert(a + b - 1 == (q + 1) * b + (r - 1)) by (nonlinear_arith)
                requires
                    q * b + r == a,
            ;
            vstd::arithmetic::div_mod::lemma_fundamental_div_mod_converse(
                a + b - 1,
                b,
                q + 1,
                r - 1,
            );
        }
        assert((q + 1) * b == q * b + b) by (nonlinear_arith);
    } else {
        assert((a + b - 1) / b == q) by {
            vstd::arithmetic::div_mod::lemma_fundamental_div_mod_converse(a + b - 1, b, q, b - 1);
        }
    }
}

/// How many workers a pool has on a machine that runs `available` threads at once, or
/// on one that does not tell.
pub fn pool_size(available: Option<usize>) -> (res: usize)
    ensures
        res == (match available {
            Some(n) => if n < 1 {
                1
            } else if n > MAX_POOL_WORKERS {
                MAX_POOL_WORKERS
            } else {
                n
            },
            None => 1,
        }),
        1 <= res <= 16,
        available matches Some(n) ==> (1 <= n <= 16 <==> res == n) && (n >= 16 ==> res == 16),
        available is None || available == Some(0usize) ==> res == 1,
{
    let n: usize = match available {
        Some(n) => n,
        None => 1,
    };
    if n < 1 {
        1
    } else if n > MAX_POOL_WORKERS {
        MAX_POOL_WORKERS
    } else {
        n
    }
}

/// What the workers of a pool have to do: a list of operations on the symbols of a slab,
/// whose columns are shared out among the first `active_workers` of them.
#[derive(Clone, Copy, Debug, PartialEq, Eq)]
pub struct ReplayJob {
    pub symbol_count: usize,
    pub symbol_size: usize,
    pub ops_len: usize,
    pub chunk_size: usize,
    pub active_workers: usize,
}

impl ReplayJob {
    /// The columns are cut into chunks of equal size, but for the last ones.
    pub open spec fn wf(self) -> bool {
        &&& self.active_workers > 0
        &&& self.chunk_size == div_ceil_spec(
            self.symbol_size as int,
            self.active_workers as int,
        )
    }

    /// The job of replaying `ops_len` operations with `worker_count` workers.
    pub open spec fn planned(
        symbol_count: nat,
        symbol_size: nat,
        ops_len: nat,
        worker_count: nat,
    ) -> ReplayJob {
        ReplayJob {
            symbol_count: symbol_count as usize,
            symbol_size: symbol_size as usize,
            ops_len: ops_len as usize,
            chunk_size: div_ceil_spec(symbol_size as int, worker_count as int) as usize,
            active_workers: worker_count as usize,
        }
    }

    /// The first column of the chunk of worker `worker_idx`.
    pub open spec fn chunk_start(self, worker_idx: int) -> int {
        worker_idx * self.chunk_size
    }

    /// The column after the last one of the chunk of worker `worker_idx`.
    pub open spec fn chunk_end(self, worker_idx: int) -> int {
        if worker_idx * self.chunk_size + self.chunk_size <= self.symbol_size {
            worker_idx * self.chunk_size + self.chunk_size
        } else {
            self.symbol_size as int
        }
    }

    /// Whether the workers before `worker_idx` leave columns to it.
    pub open spec fn has_columns(self, worker_idx: int) -> bool {
        self.chunk_start(worker_idx) < self.symbol_size
    }

    /// Whether column `k` is in the chunk of worker `worker_idx`.
    pub open spec fn covers(self, worker_idx: int, k: int) -> bool {
        self.chunk_start(worker_idx) <= k < self.chunk_end(worker_idx)
    }

    /// The job of replaying `ops_len` operations with `worker_count` workers.
    pub fn new(
        symbol_count: usize,
        symbol_size: usize,
        ops_len: usize,
        worker_count: usize,
    ) -> (res: ReplayJob)
        requires
            worker_count > 0,
        ensures
            res.wf(),
            res == ReplayJob::planned(
                symbol_count as nat,
                symbol_size as nat,
                ops_len as nat,
                worker_count as nat,
            ),
    {
        ReplayJob {
            symbol_count,
            symbol_size,
            ops_len,
            chunk_size: div_ceil(symbol_size, worker_count),
            active_workers: worker_count,
        }
    }

    /// The columns of worker `worker_idx`, from the first up to the second number. A
    /// worker gets none when those before it cover all columns.
    pub fn chunk_range(&self, worker_idx: usize) -> (res: Option<(usize, usize)>)
        ensures
            res is Some <==> self.has_columns(worker_idx as int),
            res matches Some(range) ==> {
                &&& range.0 == self.chunk_start(worker_idx as int)
                &&& range.1 == self.chunk_end(worker_idx as int)
            },
    {
        let start: usize = match worker_idx.checked_mul(self.chunk_size) {
            Some(start) => start,
            None => {
                return None;
            },
        };
        if start < self.symbol_size {
            if self.symbol_size - start <= self.chunk_size {
                Some((start, self.symbol_size))
            } else {
                Some((start, start + self.chunk_size))
            }
        } else {
            None
        }
    }
}

/// Every column is in the chunk of exactly one active worker, and a chunk holds columns
/// of the slab only.
pub proof fn law_chunks_partition_columns(job: ReplayJob, k: int)
    requires
        job.wf(),
    ensures
        0 <= k < job.symbol_size ==> exists|i: int|
            0 <= i < job.active_workers && job.covers(i, k),
        forall|i: int, j: int|
            0 <= i && 0 <= j && #[trigger] job.covers(i, k) && #[trigger] job.covers(j, k) ==> i
                == j,
        forall|i: int| 0 <= i && #[trigger] job.covers(i, k) ==> 0 <= k < job.symbol_size,
{
    let size = job.symbol_size as int;
    let chunk = job.chunk_size as int;
    let workers = job.active_workers as int;
    lemma_div_ceil(size, workers);
    if 0 <= k < size {
        let i = k / chunk;
        assert(chunk > 0) by (nonlinear_arith)
            requires
                size <= chunk * workers,
                0 < size,
                0 < workers,
        ;
        vstd::arithmetic::div_mod::lemma_fundamental_div_mod(k, chunk);
        vstd::arithmetic::mul::lemma_mul_is_commutative(chunk, i);
        assert(0 <= i < workers) by (nonlinear_arith)
            requires
                i * chunk <= k < i * chunk + chunk,
                0 <= k < size,
                size <= chunk * workers,
                chunk > 0,
        ;
        assert(job.covers(i, k));
    }
    assert forall|i: int, j: int|
        0 <= i && 0 <= j && #[trigger] job.covers(i, k) && #[trigger] job.covers(j, k) implies i
        == j by {
        assert(i == j) by (nonlinear_arith)
            requires
                i * chunk <= k < i * chunk + chunk,
                j * chunk <= k < j * chunk + chunk,
        ;
    }
    assert forall|i: int| 0 <= i && #[trigger] job.covers(i, k) implies 0 <= k
        < job.symbol_size by {
        assert(0 <= i * chunk) by (nonlinear_arith)
            requires
                0 <= i,
                0 <= chunk,
        ;
    }
}

/// What a worker does next.
#[derive(Clone, Copy, Debug, PartialEq, Eq)]
pub enum WorkerAction {
    /// Nothing yet: wait until the pool's state changes.
    Park,
    /// Leave: the pool shuts down.
    Exit,
    /// Take part in the job of this generation.
    Run { job: ReplayJob, generation: u64 },
    /// There is a generation to take part in, and no job.
    MissingJob,
}

/// What the dispatcher and the workers of a pool share.
#[derive(Clone, Copy, Debug, PartialEq, Eq)]
pub struct ReplayPoolState {
    /// Counts the jobs handed out, and starts anew after the largest number.
    pub generation: u64,
    /// How many active workers have not finished the job.
    pub remaining: usize,
    /// Whether the workers are to leave.
    pub shutdown: bool,
    /// The job handed out last.
    pub job: Option<ReplayJob>,
}

/// The generation after `generation`.
pub open spec fn next_generation(generation: u64) -> u64 {
    if generation == u64::MAX {
        0
    } else {
        (generation + 1) as u64
    }
}

impl ReplayPoolState {
    /// The state of a pool that has handed out no job.
    pub open spec fn initial() -> ReplayPoolState {
        ReplayPoolState { generation: 0, remaining: 0, shutdown: false, job: None }
    }

    /// The state once `job` is handed out.
    pub open spec fn dispatched(self, job: ReplayJob) -> ReplayPoolState {
        ReplayPoolState {
            generation: next_generation(self.generation),
            remaining: job.active_workers,
            shutdown: self.shutdown,
            job: Some(job),
        }
    }

    /// The state once `job` is handed out and every active worker has finished it.
    pub open spec fn completed(self, job: ReplayJob) -> ReplayPoolState {
        ReplayPoolState { remaining: 0, ..self.dispatched(job) }
    }

    /// Whether the dispatcher of generation `expected` has to wait.
    pub open spec fn dispatcher_waits(self, expected: u64) -> bool {
        self.generation == expected && self.remaining > 0
    }

    /// What a worker does next that last took part in `last_generation`.
    pub open spec fn action(self, last_generation: u64) -> WorkerAction {
        if self.shutdown {
            WorkerAction::Exit
        } else if self.generation == last_generation {
            WorkerAction::Park
        } else {
            match self.job {
                Some(job) => WorkerAction::Run { job, generation: self.generation },
                None => WorkerAction::MissingJob,
            }
        }
    }

    /// The state once an active worker has finished `generation`. A generation that is
    /// over counts for nothing.
    pub open spec fn finished(self, generation: u64) -> ReplayPoolState {
        if self.generation == generation && self.remaining > 0 {
            ReplayPoolState { remaining: (self.remaining - 1) as usize, ..self }
        } else {
            self
        }
    }

    /// The state once the workers are told to leave.
    pub open spec fn shut_down(self) -> ReplayPoolState {
        ReplayPoolState { shutdown: true, ..self }
    }

    /// The state of a pool that has handed out no job.
    pub fn new() -> (res: ReplayPoolState)
        ensures
            res == ReplayPoolState::initial(),
    {
        ReplayPoolState { generation: 0, remaining: 0, shutdown: false, job: None }
    }

    /// Hands out `job`, and returns the generation to wait for.
    pub fn dispatch(&mut self, job: ReplayJob) -> (expected: u64)
        ensures
            *final(self) == old(self).dispatched(job),
            expected == final(self).generation,
    {
        self.job = Some(job);
        self.remaining = job.active_workers;
        self.generation = self.generation.wrapping_add(1);
        self.generation
    }

    /// Whether the dispatcher of generation `expected` has to wait.
    pub fn must_wait(&self, expected: u64) -> (res: bool)
        ensures
            res == self.dispatcher_waits(expected),
    {
        self.generation == expected && self.remaining > 0
    }

    /// What a worker does next that last took part in `last_generation`.
    pub fn next_action(&self, last_generation: u64) -> (res: WorkerAction)
        ensures
            res == self.action(last_generation),
    {
        if self.shutdown {
            WorkerAction::Exit
        } else if self.generation == last_generation {
            WorkerAction::Park
        } else {
            match self.job {
                Some(job) => WorkerAction::Run { job, generation: self.generation },
                None => WorkerAction::MissingJob,
            }
        }
    }

    /// Counts an active worker that has finished `generation`, and returns whether the
    /// dispatcher is to be woken: when the generation is still on and no worker remains.
    pub fn finish(&mut self, generation: u64) -> (wake_dispatcher: bool)
        ensures
            *final(self) == old(self).finished(generation),
            wake_dispatcher <==> old(self).generation == generation && final(self).remaining == 0,
    {
        if self.generation == generation {
            self.remaining = self.remaining.saturating_sub(1);
            self.remaining == 0
        } else {
            false
        }
    }

    /// Tells the workers to leave.
    pub fn begin_shutdown(&mut self)
        ensures
            *final(self) == old(self).shut_down(),
    {
        self.shutdown = true;
    }
}

impl Default for ReplayPoolState {
    fn default() -> (res: ReplayPoolState)
        ensures
            res == ReplayPoolState::initial(),
    {
        ReplayPoolState::new()
    }
}

/// Whether no operation of `ops` reorders the rows.
pub open spec fn no_reorder(ops: Seq<Op>) -> bool {
    forall|i: int| 0 <= i < ops.len() ==> !(#[trigger] ops[i] is Reorder)
}

/// Operations that do not reorder leave as many rows as there were.
pub proof fn lemma_no_reorder_count(count: nat, ops: Seq<Op>)
    requires
        no_reorder(ops),
    ensures
        count_after(count, ops) == count,
    decreases ops.len(),
{
    if ops.len() > 0 {
        assert(!(ops[ops.len() - 1] is Reorder));
        assert(no_reorder(ops.drop_last())) by {
            assert forall|i: int| 0 <= i < ops.drop_last().len() implies !(
            #[trigger] ops.drop_last()[i] is Reorder) by {
                assert(!(ops[i] is Reorder));
            }
        }
        lemma_no_reorder_count(count, ops.drop_last());
    }
}

/// What one worker does of a job: replays `ops` on the octets of every symbol from
/// `chunk_start` up to `chunk_end`, and returns those octets.
pub fn replay_ops_chunk(
    ops: &[ReplayOp],
    symbols: &SymbolSlab,
    chunk_start: usize,
    chunk_end: usize,
) -> (chunk: SymbolSlab)
    requires
        symbols.wf(),
        chunk_start <= chunk_end <= symbols.size(),
        no_reorder(op_views(ops@)),
        ops_applicable(op_views(ops@), symbols@.len(), symbols.size()),
    ensures
        chunk.wf(),
        chunk.size() == chunk_end - chunk_start,
        chunk@ == columns_of(
            apply_ops(symbols@, op_views(ops@)),
            chunk_start as int,
            chunk_end as int,
        ),
{
    let ghost views = op_views(ops@);
    let width: usize = chunk_end - chunk_start;
    let mut chunk = symbols.columns(chunk_start, chunk_end);
    let ghost rows = chunk@;
    proof {
        law_columns_replay_alone(
            symbols@,
            views,
            symbols.size(),
            chunk_start as int,
            chunk_end as int,
        );
        lemma_applicable_narrower(views, rows.len(), symbols.size(), width as nat);
    }
    if width == 0 {
        proof {
            law_replay_shape(rows, views, 0);
            lemma_no_reorder_count(rows.len(), views);
            assert forall|i: int| 0 <= i < rows.len() implies rows[i] == apply_ops(
                rows,
                views,
            )[i] by {
                assert(rows[i] =~= apply_ops(rows, views)[i]);
            }
            assert(rows =~= apply_ops(rows, views));
        }
        return chunk;
    }
    for i in 0..ops.len()
        invariant
            views == op_views(ops@),
            no_reorder(views),
            ops_applicable(views, rows.len(), width as nat),
            chunk.wf(),
            chunk.size() == width,
            chunk@ == apply_ops(rows, views.take(i as int)),
            chunk@.len() == count_after(rows.len(), views.take(i as int)),
    {
        proof {
            lemma_replay_step(rows, views, i as int);
            assert(applicable_at(views, i as int, rows.len(), width as nat));
            assert(views[i as int] == ops@[i as int]@);
            assert(!(views[i as int] is Reorder));
        }
        match &ops[i] {
            ReplayOp::AddAssign { dest, src } => {
                chunk.add_assign(*dest as usize, *src as usize);
            },
            ReplayOp::MulAssign { dest, scalar } => {
                chunk.mulassign_scalar(*dest as usize, scalar);
            },
            ReplayOp::FMA { dest, src, scalar } => {
                chunk.fma(*dest as usize, *src as usize, scalar);
            },
            ReplayOp::Reorder { .. } => {
                assert(false);
            },
        }
    }
    assert(views.take(ops.len() as int) =~= views);
    chunk
}

/// `rows` with their columns from `lo` up to `hi` replaced by those after `ops`.
pub open spec fn chunk_replayed(
    rows: Seq<Seq<u8>>,
    ops: Seq<Op>,
    lo: int,
    hi: int,
) -> Seq<Seq<u8>> {
    with_columns(rows, lo, columns_of(apply_ops(rows, ops), lo, hi))
}

impl ReplayJob {
    /// The rows once worker `worker_idx` has done its part of replaying `ops`.
    pub open spec fn worker_done(
        self,
        rows: Seq<Seq<u8>>,
        ops: Seq<Op>,
        worker_idx: int,
    ) -> Seq<Seq<u8>> {
        if worker_idx < self.active_workers && self.has_columns(worker_idx) {
            chunk_replayed(rows, ops, self.chunk_start(worker_idx), self.chunk_end(worker_idx))
        } else {
            rows
        }
    }

    /// The columns of worker `worker_idx` after replaying `ops` on the rows `start`.
    pub open spec fn final_chunk(
        self,
        start: Seq<Seq<u8>>,
        ops: Seq<Op>,
        worker_idx: int,
    ) -> Seq<Seq<u8>> {
        columns_of(
            apply_ops(start, ops),
            self.chunk_start(worker_idx),
            self.chunk_end(worker_idx),
        )
    }

    /// The replayed chunks of the given workers, each with its first column.
    pub open spec fn final_chunks(
        self,
        start: Seq<Seq<u8>>,
        ops: Seq<Op>,
        workers: Seq<int>,
    ) -> Seq<(int, Seq<Seq<u8>>)> {
        workers.map_values(|i: int| (self.chunk_start(i), self.final_chunk(start, ops, i)))
    }

    /// Whether one of the workers in `done` has column `k` in its chunk.
    pub open spec fn covered_by(self, done: Set<int>, k: int) -> bool {
        exists|i: int| #[trigger] done.contains(i) && self.covers(i, k)
    }

    /// Whether `rows` are `start` with the columns of the workers in `done`, and no
    /// others, brought to where replaying `ops` on `start` brings them.
    pub open spec fn partly_replayed(
        self,
        rows: Seq<Seq<u8>>,
        start: Seq<Seq<u8>>,
        ops: Seq<Op>,
        done: Set<int>,
    ) -> bool {
        &&& rows.len() == start.len()
        &&& rows_sized(rows, self.symbol_size as nat)
        &&& forall|r: int, k: int|
            0 <= r < rows.len() && 0 <= k < self.symbol_size ==> #[trigger] rows[r][k] == (
            if self.covered_by(done, k) {
                apply_ops(start, ops)[r][k]
            } else {
                start[r][k]
            })
    }

    /// Whether `rows` and `ops` are what this job is about.
    pub open spec fn describes(self, rows: Seq<Seq<u8>>, ops: Seq<Op>) -> bool {
        &&& self.wf()
        &&& rows.len() == self.symbol_count
        &&& rows_sized(rows, self.symbol_size as nat)
        &&& ops.len() == self.ops_len
        &&& no_reorder(ops)
        &&& ops_applicable(ops, rows.len(), self.symbol_size as nat)
    }
}

/// What a worker replays does not depend on the others: whichever of them have done their
/// parts, it brings its own columns to where replaying `ops` on the rows handed out brings
/// them.
pub proof fn law_chunk_independent_of_others(
    job: ReplayJob,
    rows: Seq<Seq<u8>>,
    start: Seq<Seq<u8>>,
    ops: Seq<Op>,
    done: Set<int>,
    worker_idx: int,
)
    requires
        job.describes(start, ops),
        job.partly_replayed(rows, start, ops, done),
        forall|i: int| done.contains(i) ==> 0 <= i,
        0 <= worker_idx < job.active_workers,
        job.has_columns(worker_idx),
        !done.contains(worker_idx),
    ensures
        columns_of(
            apply_ops(rows, ops),
            job.chunk_start(worker_idx),
            job.chunk_end(worker_idx),
        ) == job.final_chunk(start, ops, worker_idx),
{
    let size = job.symbol_size as nat;
    let lo = job.chunk_start(worker_idx);
    let hi = job.chunk_end(worker_idx);
    lemma_chunk_bounds(job, worker_idx);
    assert forall|r: int| 0 <= r < rows.len() implies rows[r].subrange(lo, hi)
        == start[r].subrange(lo, hi) by {
        assert forall|k: int| lo <= k < hi implies rows[r][k] == start[r][k] by {
            if job.covered_by(done, k) {
                let i = choose|i: int| #[trigger] done.contains(i) && job.covers(i, k);
                law_chunks_partition_columns(job, k);
                assert(job.covers(worker_idx, k));
                assert(i == worker_idx);
            }
        }
        assert(rows[r].subrange(lo, hi) =~= start[r].subrange(lo, hi));
    }
    assert(columns_of(rows, lo, hi) =~= columns_of(start, lo, hi));
    law_columns_replay_alone(rows, ops, size, lo, hi);
    law_columns_replay_alone(start, ops, size, lo, hi);
}

/// The chunk of a worker that has columns lies inside the slab.
proof fn lemma_chunk_bounds(job: ReplayJob, worker_idx: int)
    requires
        0 <= worker_idx,
        job.has_columns(worker_idx),
    ensures
        0 <= job.chunk_start(worker_idx) <= job.chunk_end(worker_idx) <= job.symbol_size,
{
    assert(0 <= worker_idx * job.chunk_size) by (nonlinear_arith)
        requires
            0 <= worker_idx,
    ;
}

/// Writing a worker's replayed chunk over rows that are partly replayed adds its columns
/// to those that are.
proof fn lemma_chunk_written(
    job: ReplayJob,
    rows: Seq<Seq<u8>>,
    start: Seq<Seq<u8>>,
    ops: Seq<Op>,
    done: Set<int>,
    worker_idx: int,
)
    requires
        job.describes(start, ops),
        job.partly_replayed(rows, start, ops, done),
        0 <= worker_idx < job.active_workers,
        job.has_columns(worker_idx),
    ensures
        job.partly_replayed(
            with_columns(
                rows,
                job.chunk_start(worker_idx),
                job.final_chunk(start, ops, worker_idx),
            ),
            start,
            ops,
            done.insert(worker_idx),
        ),
{
    let size = job.symbol_size as nat;
    let lo = job.chunk_start(worker_idx);
    let hi = job.chunk_end(worker_idx);
    let chunk = job.final_chunk(start, ops, worker_idx);
    let after = with_columns(rows, lo, chunk);
    lemma_chunk_bounds(job, worker_idx);
    law_replay_shape(start, ops, size);
    lemma_no_reorder_count(start.len(), ops);
    assert forall|r: int, k: int| 0 <= r < after.len() && 0 <= k < size implies #[trigger] after[r][k]
        == (if job.covered_by(done.insert(worker_idx), k) {
        apply_ops(start, ops)[r][k]
    } else {
        start[r][k]
    }) by {
        assert(rows[r].len() == size);
        if lo <= k < hi {
            assert(done.insert(worker_idx).contains(worker_idx) && job.covers(worker_idx, k));
            assert(job.covered_by(done.insert(worker_idx), k));
            assert(after[r][k] == chunk[r][k - lo]);
        } else {
            assert(after[r][k] == rows[r][k]);
            assert(!job.covers(worker_idx, k));
            lemma_covered_by_insert(job, done, worker_idx, k);
        }
    }
    assert forall|i: int| 0 <= i < after.len() implies (#[trigger] after[i]).len() == size by {
        assert(rows[i].len() == size);
    }
}

/// A worker adds the columns of its chunk, and no others, to those that are covered.
proof fn lemma_covered_by_insert(job: ReplayJob, done: Set<int>, worker_idx: int, k: int)
    ensures
        job.covered_by(done.insert(worker_idx), k) <==> job.covered_by(done, k) || job.covers(
            worker_idx,
            k,
        ),
{
    if job.covered_by(done, k) {
        let i = choose|i: int| #[trigger] done.contains(i) && job.covers(i, k);
        assert(done.insert(worker_idx).contains(i) && job.covers(i, k));
    }
    if job.covers(worker_idx, k) {
        assert(done.insert(worker_idx).contains(worker_idx));
    }
    if job.covered_by(done.insert(worker_idx), k) {
        let i = choose|i: int| #[trigger]
            done.insert(worker_idx).contains(i) && job.covers(i, k);
        assert(i == worker_idx || done.contains(i));
    }
}

/// Whatever other workers have done before it, a worker brings its own columns to where
/// replaying `ops` on all rows brings them, and leaves the other columns alone.
pub proof fn law_worker_adds_its_columns(
    job: ReplayJob,
    rows: Seq<Seq<u8>>,
    start: Seq<Seq<u8>>,
    ops: Seq<Op>,
    done: Set<int>,
    worker_idx: int,
)
    requires
        job.describes(start, ops),
        job.partly_replayed(rows, start, ops, done),
        forall|i: int| done.contains(i) ==> 0 <= i,
        0 <= worker_idx < job.active_workers,
        !done.contains(worker_idx),
    ensures
        job.partly_replayed(
            job.worker_done(rows, ops, worker_idx),
            start,
            ops,
            done.insert(worker_idx),
        ),
{
    if job.has_columns(worker_idx) {
        law_chunk_independent_of_others(job, rows, start, ops, done, worker_idx);
        lemma_chunk_written(job, rows, start, ops, done, worker_idx);
    } else {
        assert forall|k: int| 0 <= k < job.symbol_size implies #[trigger] job.covered_by(
            done.insert(worker_idx),
            k,
        ) == job.covered_by(done, k) by {
            lemma_covered_by_insert(job, done, worker_idx, k);
        }
    }
}

/// Once every active worker that has columns has done its part, the rows are those after replaying `ops`
/// on all of them, in whatever order the workers went.
pub proof fn law_all_workers_complete_replay(
    job: ReplayJob,
    rows: Seq<Seq<u8>>,
    start: Seq<Seq<u8>>,
    ops: Seq<Op>,
    done: Set<int>,
)
    requires
        job.describes(start, ops),
        job.partly_replayed(rows, start, ops, done),
        forall|i: int|
            0 <= i < job.active_workers && job.has_columns(i) ==> #[trigger] done.contains(i),
    ensures
        rows == apply_ops(start, ops),
{
    let size = job.symbol_size as nat;
    let target = apply_ops(start, ops);
    law_replay_shape(start, ops, size);
    lemma_no_reorder_count(start.len(), ops);
    assert forall|r: int| 0 <= r < rows.len() implies rows[r] == target[r] by {
        assert(rows[r].len() == size && target[r].len() == size);
        assert forall|k: int| 0 <= k < size implies rows[r][k] == target[r][k] by {
            law_chunks_partition_columns(job, k);
            let i = choose|i: int| 0 <= i < job.active_workers && job.covers(i, k);
            assert(job.has_columns(i));
            assert(done.contains(i) && job.covers(i, k));
            assert(job.covered_by(done, k));
        }
        assert(rows[r] =~= target[r]);
    }
    assert(rows =~= target);
}

/// Before any worker has done its part, the rows are those that the job started with.
pub proof fn law_no_worker_leaves_rows(job: ReplayJob, start: Seq<Seq<u8>>, ops: Seq<Op>)
    requires
        job.describes(start, ops),
    ensures
        job.partly_replayed(start, start, ops, Set::empty()),
{
}

/// `rows` with chunks written over them, first to last. Each chunk comes with the column
/// at which it starts.
pub open spec fn written_back(
    rows: Seq<Seq<u8>>,
    chunks: Seq<(int, Seq<Seq<u8>>)>,
) -> Seq<Seq<u8>>
    decreases chunks.len(),
{
    if chunks.len() == 0 {
        rows
    } else {
        with_columns(
            written_back(rows, chunks.drop_last()),
            chunks.last().0,
            chunks.last().1,
        )
    }
}

/// The rows of chunks, each with the column at which it starts.
pub open spec fn chunk_views(chunks: Seq<(usize, SymbolSlab)>) -> Seq<(int, Seq<Seq<u8>>)> {
    chunks.map_values(|chunk: (usize, SymbolSlab)| (chunk.0 as int, chunk.1@))
}

/// Writes chunks over `symbols`, first to last, each from the column that it comes with.
pub fn write_back(symbols: &mut SymbolSlab, chunks: &[(usize, SymbolSlab)])
    requires
        old(symbols).wf(),
        forall|i: int|
            0 <= i < chunks.len() ==> {
                &&& (#[trigger] chunks[i]).1.wf()
                &&& chunks[i].1@.len() == old(symbols)@.len()
                &&& chunks[i].0 + chunks[i].1.size() <= old(symbols).size()
            },
    ensures
        final(symbols).wf(),
        final(symbols).size() == old(symbols).size(),
        final(symbols)@ == written_back(old(symbols)@, chunk_views(chunks@)),
{
    let ghost rows = symbols@;
    let ghost views = chunk_views(chunks@);
    for i in 0..chunks.len()
        invariant
            rows == old(symbols)@,
            views == chunk_views(chunks@),
            symbols.wf(),
            symbols.size() == old(symbols).size(),
            symbols@.len() == rows.len(),
            forall|i: int|
                0 <= i < chunks.len() ==> {
                    &&& (#[trigger] chunks[i]).1.wf()
                    &&& chunks[i].1@.len() == rows.len()
                    &&& chunks[i].0 + chunks[i].1.size() <= symbols.size()
                },
            symbols@ == written_back(rows, views.take(i as int)),
    {
        let chunk = &chunks[i];
        symbols.set_columns(chunk.0, &chunk.1);
        proof {
            assert(views.take(i + 1).drop_last() =~= views.take(i as int));
            assert(views.take(i + 1).last() == views[i as int]);
        }
    }
    assert(views.take(chunks.len() as int) =~= views);
}

/// Writing back what the workers have replayed completes the replay: when every active
/// worker that has columns has replayed them on the rows handed out, writing those chunks
/// over the rows handed out, in any order, gives the rows after replaying `ops` on all of
/// them.
pub proof fn law_write_back_completes_replay(
    job: ReplayJob,
    start: Seq<Seq<u8>>,
    ops: Seq<Op>,
    workers: Seq<int>,
)
    requires
        job.describes(start, ops),
        forall|n: int|
            0 <= n < workers.len() ==> 0 <= #[trigger] workers[n] < job.active_workers
                && job.has_columns(workers[n]),
        forall|i: int|
            0 <= i < job.active_workers && job.has_columns(i) ==> #[trigger] workers.contains(i),
    ensures
        written_back(start, job.final_chunks(start, ops, workers)) == apply_ops(start, ops),
{
    let rows = written_back(start, job.final_chunks(start, ops, workers));
    lemma_write_back_partly(job, start, ops, workers);
    assert forall|i: int|
        0 <= i < job.active_workers && job.has_columns(i) implies #[trigger] workers.to_set().contains(
        i,
    ) by {
        assert(workers.contains(i));
    }
    law_all_workers_complete_replay(job, rows, start, ops, workers.to_set());
}

/// Writing back the chunks of some workers replays their columns.
proof fn lemma_write_back_partly(
    job: ReplayJob,
    start: Seq<Seq<u8>>,
    ops: Seq<Op>,
    workers: Seq<int>,
)
    requires
        job.describes(start, ops),
        forall|n: int|
            0 <= n < workers.len() ==> 0 <= #[trigger] workers[n] < job.active_workers
                && job.has_columns(workers[n]),
    ensures
        job.partly_replayed(
            written_back(start, job.final_chunks(start, ops, workers)),
            start,
            ops,
            workers.to_set(),
        ),
    decreases workers.len(),
{
    let chunks = job.final_chunks(start, ops, workers);
    if workers.len() == 0 {
        law_no_worker_leaves_rows(job, start, ops);
        assert(workers.to_set() =~= Set::empty());
    } else {
        let fewer = workers.drop_last();
        let last = workers.last();
        assert(last == workers[workers.len() - 1]);
        assert forall|n: int| 0 <= n < fewer.len() implies 0 <= #[trigger] fewer[n]
            < job.active_workers && job.has_columns(fewer[n]) by {
            assert(fewer[n] == workers[n]);
        }
        lemma_write_back_partly(job, start, ops, fewer);
        assert(chunks.drop_last() =~= job.final_chunks(start, ops, fewer));
        lemma_chunk_written(
            job,
            written_back(start, chunks.drop_last()),
            start,
            ops,
            fewer.to_set(),
            last,
        );
        assert(workers.to_set() =~= fewer.to_set().insert(last)) by {
            assert(workers =~= fewer.push(last));
            assert forall|i: int| workers.to_set().contains(i) <==> fewer.to_set().insert(
                last,
            ).contains(i) by {
                if fewer.contains(i) {
                    let n = choose|n: int| 0 <= n < fewer.len() && fewer[n] == i;
                    assert(workers[n] == i);
                }
                if workers.contains(i) {
                    let n = choose|n: int| 0 <= n < workers.len() && workers[n] == i;
                    if n < fewer.len() {
                        assert(fewer[n] == i);
                    }
                }
            }
        }
    }
}

/// A pool whose workers take their turns on the calling thread.
#[derive(Debug)]
pub struct ReplayPool {
    state: ReplayPoolState,
    /// The generation that each worker last took part in.
    last_generations: Vec<u64>,
}

impl ReplayPool {
    /// The number of workers.
    pub closed spec fn workers(&self) -> nat {
        self.last_generations@.len()
    }

    /// The state that the dispatcher and the workers share.
    pub closed spec fn shared(&self) -> ReplayPoolState {
        self.state
    }

    /// There is a worker, no job is under way, and every worker is up to date.
    pub closed spec fn wf(&self) -> bool {
        &&& self.last_generations@.len() > 0
        &&& !self.state.shutdown
        &&& self.state.remaining == 0
        &&& forall|i: int|
            0 <= i < self.last_generations@.len() ==> #[trigger] self.last_generations@[i]
                == self.state.generation
    }

    /// A pool of `worker_count` workers.
    pub fn new(worker_count: usize) -> (res: ReplayPool)
        requires
            worker_count > 0,
        ensures
            res.wf(),
            res.workers() == worker_count,
            res.shared() == ReplayPoolState::initial(),
    {
        let mut last_generations: Vec<u64> = Vec::with_capacity(worker_count);
        for i in 0..worker_count
            invariant
                last_generations.len() == i,
                forall|j: int| 0 <= j < i ==> #[trigger] last_generations@[j] == 0,
        {
            last_generations.push(0);
        }
        ReplayPool { state: ReplayPoolState::new(), last_generations }
    }

    /// The number of workers.
    pub fn max_workers(&self) -> (res: usize)
        ensures
            res == self.workers(),
    {
        self.last_generations.len()
    }

    /// One turn of worker `worker_idx`: it looks at the pool's state, and takes part in
    /// a job that is new to it.
    fn worker_turn(&mut self, worker_idx: usize, ops: &[ReplayOp], symbols: &mut SymbolSlab)
        requires
            worker_idx < old(self).last_generations@.len(),
            old(symbols).wf(),
            old(self).state.job matches Some(job) ==> {
                &&& job.describes(old(symbols)@, op_views(ops@))
                &&& job.symbol_size == old(symbols).size()
            },
        ensures
            final(symbols).wf(),
            final(symbols).size() == old(symbols).size(),
            final(self).last_generations@.len() == old(self).last_generations@.len(),
            match old(self).state.action(old(self).last_generations@[worker_idx as int]) {
                WorkerAction::Run { job, generation } => {
                    &&& final(self).last_generations@ == old(self).last_generations@.update(
                        worker_idx as int,
                        generation,
                    )
                    &&& final(self).state == (if worker_idx < job.active_workers {
                        old(self).state.finished(generation)
                    } else {
                        old(self).state
                    })
                    &&& final(symbols)@ == job.worker_done(
                        old(symbols)@,
                        op_views(ops@),
                        worker_idx as int,
                    )
                },
                _ => {
                    &&& *final(self) == *old(self)
                    &&& *final(symbols) == *old(symbols)
                },
            },
    {
        match self.state.next_action(self.last_generations[worker_idx]) {
            WorkerAction::Run { job, generation } => {
                self.last_generations[worker_idx] = generation;
                if worker_idx < job.active_workers {
                    if let Some((chunk_start, chunk_end)) = job.chunk_range(worker_idx) {
                        let chunk = replay_ops_chunk(ops, symbols, chunk_start, chunk_end);
                        proof {
                            law_replay_shape(symbols@, op_views(ops@), symbols.size());
                            lemma_no_reorder_count(symbols@.len(), op_views(ops@));
                        }
                        symbols.set_columns(chunk_start, &chunk);
                    }
                    let _ = self.state.finish(generation);
                }
            },
            WorkerAction::Park => {},
            WorkerAction::Exit => {},
            WorkerAction::MissingJob => {},
        }
    }

    /// Replays `ops` on `symbols`, whose columns are shared out among the first
    /// `worker_count` workers. The workers take their turns until the dispatcher need not
    /// wait, and those that have no part in the job then take note of it.
    pub fn replay_ops_chunked(
        &mut self,
        ops: &[ReplayOp],
        symbols: &mut SymbolSlab,
        worker_count: usize,
    )
        requires
            old(self).wf(),
            0 < worker_count <= old(self).workers(),
            old(symbols).wf(),
            no_reorder(op_views(ops@)),
            ops_applicable(op_views(ops@), old(symbols)@.len(), old(symbols).size()),
        ensures
            final(symbols).wf(),
            final(symbols).size() == old(symbols).size(),
            final(symbols)@ == apply_ops(old(symbols)@, op_views(ops@)),
            final(self).wf(),
            final(self).workers() == old(self).workers(),
            final(self).shared() == old(self).shared().completed(
                ReplayJob::planned(
                    old(symbols)@.len(),
                    old(symbols).size(),
                    ops@.len(),
                    worker_count as nat,
                ),
            ),
    {
        let job = ReplayJob::new(symbols.len(), symbols.symbol_size(), ops.len(), worker_count);
        let ghost start = symbols@;
        let ghost views = op_views(ops@);
        let ghost mut done: Set<int> = Set::empty();
        let expected: u64 = self.state.dispatch(job);
        let pool_workers: usize = self.last_generations.len();
        let ghost generation = self.state.generation;
        let ghost last_generation = old(self).state.generation;
        proof {
            law_no_worker_leaves_rows(job, start, views);
        }
        let mut turn: usize = 0;
        while self.state.must_wait(expected)
            invariant
                turn <= worker_count <= pool_workers,
                pool_workers == self.last_generations@.len(),
                views == op_views(ops@),
                symbols.wf(),
                symbols.size() == old(symbols).size(),
                job.describes(start, views),
                job.symbol_size == symbols.size(),
                job.active_workers == worker_count,
                expected == generation,
                generation != last_generation,
                self.state == (ReplayPoolState {
                    generation,
                    remaining: (worker_count - turn) as usize,
                    shutdown: false,
                    job: Some(job),
                }),
                forall|j: int| 0 <= j < turn ==> #[trigger] self.last_generations@[j] == generation,
                forall|j: int|
                    turn <= j < pool_workers ==> #[trigger] self.last_generations@[j]
                        == last_generation,
                forall|j: int| #[trigger] done.contains(j) <==> 0 <= j < turn,
                job.partly_replayed(symbols@, start, views, done),
            decreases worker_count - turn,
        {
            proof {
                lemma_describes_partly(job, symbols@, start, views, done);
                law_worker_adds_its_columns(job, symbols@, start, views, done, turn as int);
                done = done.insert(turn as int);
            }
            self.worker_turn(turn, ops, symbols);
            turn = turn + 1;
        }
        proof {
            law_all_workers_complete_replay(job, symbols@, start, views, done);
            lemma_describes_partly(job, symbols@, start, views, done);
        }
        while turn < pool_workers
            invariant
                worker_count <= turn <= pool_workers,
                pool_workers == self.last_generations@.len(),
                views == op_views(ops@),
                symbols.wf(),
                symbols.size() == old(symbols).size(),
                symbols@ == apply_ops(start, views),
                job.describes(symbols@, views),
                job.symbol_size == symbols.size(),
                job.active_workers == worker_count,
                generation != last_generation,
                self.state == (ReplayPoolState {
                    generation,
                    remaining: 0,
                    shutdown: false,
                    job: Some(job),
                }),
                forall|j: int| 0 <= j < turn ==> #[trigger] self.last_generations@[j] == generation,
                forall|j: int|
                    turn <= j < pool_workers ==> #[trigger] self.last_generations@[j]
                        == last_generation,
            decreases pool_workers - turn,
        {
            self.worker_turn(turn, ops, symbols);
            turn = turn + 1;
        }
    }
}

/// A job that describes the rows that it started with describes them at every stage.
proof fn lemma_describes_partly(
    job: ReplayJob,
    rows: Seq<Seq<u8>>,
    start: Seq<Seq<u8>>,
    ops: Seq<Op>,
    done: Set<int>,
)
    requires
        job.describes(start, ops),
        job.partly_replayed(rows, start, ops, done),
    ensures
        job.describes(rows, ops),
{
}

} // verus!
