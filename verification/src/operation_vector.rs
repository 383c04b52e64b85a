//! Recorded symbol operations, and how they are performed on a slab of symbols.

use crate::model::{
    applicable_at, apply_op, apply_ops, count_after, law_replay_shape, lemma_applicable_drop_last,
    lemma_count_step, lemma_replay_step, op_applicable, op_views, ops_applicable, Op,
};
use crate::octet::Octet;
use crate::replay_pool::{
    div_ceil, div_ceil_spec, no_reorder, ReplayJob, ReplayPool, ReplayPoolState,
};
use crate::symbol_slab::SymbolSlab;
use vstd::prelude::*;
use vstd::slice::slice_subrange;

verus! {

/// An operation on symbols, as an encoder or a decoder records it.
#[derive(Clone, Debug, PartialEq, PartialOrd, Eq, Ord, Hash)]
#[allow(clippy::upper_case_acronyms)]
pub enum SymbolOps {
    AddAssign { dest: usize, src: usize },
    MulAssign { dest: usize, scalar: Octet },
    FMA { dest: usize, src: usize, scalar: Octet },
    Reorder { order: Vec<usize> },
}

impl View for SymbolOps {
    type V = Op;

    open spec fn view(&self) -> Op {
        match *self {
            SymbolOps::AddAssign { dest, src } => Op::AddAssign {
                dest: dest as int,
                src: src as int,
            },
            SymbolOps::MulAssign { dest, scalar } => Op::MulAssign {
                dest: dest as int,
                scalar: scalar@,
            },
            SymbolOps::FMA { dest, src, scalar } => Op::FMA {
                dest: dest as int,
                src: src as int,
                scalar: scalar@,
            },
            SymbolOps::Reorder { order } => Op::Reorder {
                order: order@.map_values(|i: usize| i as int),
            },
        }
    }
}

/// Performs one operation.
pub fn perform_op(op: &SymbolOps, symbols: &mut SymbolSlab)
    requires
        old(symbols).wf(),
        op_applicable(op@, old(symbols)@.len(), old(symbols).size()),
    ensures
        final(symbols).wf(),
        final(symbols).size() == old(symbols).size(),
        final(symbols)@ == apply_op(old(symbols)@, op@),
{
    match op {
        SymbolOps::AddAssign { dest, src } => {
            symbols.add_assign(*dest, *src);
        },
        SymbolOps::MulAssign { dest, scalar } => {
            symbols.mulassign_scalar(*dest, scalar);
        },
        SymbolOps::FMA { dest, src, scalar } => {
            symbols.fma(*dest, *src, scalar);
        },
        SymbolOps::Reorder { order } => {
            proof {
                lemma_order_in_range(order@, symbols@.len(), symbols.size());
            }
            symbols.reorder(order.as_slice());
        },
    }
}

/// An applicable order names rows.
proof fn lemma_order_in_range(order: Seq<usize>, count: nat, symbol_size: nat)
    requires
        op_applicable(
            Op::Reorder { order: order.map_values(|i: usize| i as int) },
            count,
            symbol_size,
        ),
    ensures
        forall|i: int| 0 <= i < order.len() ==> #[trigger] order[i] < count,
        order.len() * symbol_size <= usize::MAX,
{
    let indices = order.map_values(|i: usize| i as int);
    assert forall|i: int| 0 <= i < order.len() implies #[trigger] order[i] < count by {
        assert(indices[i] == order[i]);
    }
}

/// Performs operations one after the other.
pub fn perform_symbol_ops_sequential(ops: &[SymbolOps], symbols: &mut SymbolSlab)
    requires
        old(symbols).wf(),
        ops_applicable(op_views(ops@), old(symbols)@.len(), old(symbols).size()),
    ensures
        final(symbols).wf(),
        final(symbols).size() == old(symbols).size(),
        final(symbols)@ == apply_ops(old(symbols)@, op_views(ops@)),
{
    let ghost rows = symbols@;
    let ghost views = op_views(ops@);
    for i in 0..ops.len()
        invariant
            views == op_views(ops@),
            rows == old(symbols)@,
            ops_applicable(views, rows.len(), symbols.size()),
            symbols.wf(),
            symbols.size() == old(symbols).size(),
            symbols@ == apply_ops(rows, views.take(i as int)),
            symbols@.len() == count_after(rows.len(), views.take(i as int)),
    {
        proof {
            lemma_replay_step(rows, views, i as int);
            assert(applicable_at(views, i as int, rows.len(), symbols.size()));
            assert(views[i as int] == ops@[i as int]@);
        }
        perform_op(&ops[i], symbols);
    }
    assert(views.take(ops.len() as int) =~= views);
}

/// An operation of a schedule. The rows that it adds or scales are named in 32 bits.
#[derive(Clone, Debug, PartialEq, Eq)]
pub enum ReplayOp {
    AddAssign { dest: u32, src: u32 },
    MulAssign { dest: u32, scalar: Octet },
    FMA { dest: u32, src: u32, scalar: Octet },
    Reorder { order: Vec<usize> },
}

impl View for ReplayOp {
    type V = Op;

    open spec fn view(&self) -> Op {
        match *self {
            ReplayOp::AddAssign { dest, src } => Op::AddAssign {
                dest: dest as int,
                src: src as int,
            },
            ReplayOp::MulAssign { dest, scalar } => Op::MulAssign {
                dest: dest as int,
                scalar: scalar@,
            },
            ReplayOp::FMA { dest, src, scalar } => Op::FMA {
                dest: dest as int,
                src: src as int,
                scalar: scalar@,
            },
            ReplayOp::Reorder { order } => Op::Reorder {
                order: order@.map_values(|i: usize| i as int),
            },
        }
    }
}

/// Operations made ready to be replayed.
#[derive(Clone, Debug, PartialEq, Eq)]
pub struct ReplaySchedule {
    ops: Vec<ReplayOp>,
}

impl View for ReplaySchedule {
    type V = Seq<Op>;

    closed spec fn view(&self) -> Seq<Op> {
        op_views(self.ops@)
    }
}

/// Whether a schedule can hold `op`: the rows that it adds or multiplies have indices
/// of 32 bits.
pub open spec fn indices_fit(op: Op) -> bool {
    match op {
        Op::AddAssign { dest, src } => dest <= u32::MAX && src <= u32::MAX,
        Op::MulAssign { dest, .. } => dest <= u32::MAX,
        Op::FMA { dest, src, .. } => dest <= u32::MAX && src <= u32::MAX,
        Op::Reorder { .. } => true,
    }
}

/// Whether a schedule can hold `ops`.
pub open spec fn all_indices_fit(ops: Seq<Op>) -> bool {
    forall|i: int| 0 <= i < ops.len() ==> indices_fit(#[trigger] ops[i])
}

impl ReplaySchedule {
    /// The schedule of the given operations.
    pub fn from_symbol_ops(ops: &[SymbolOps]) -> (res: Self)
        requires
            all_indices_fit(op_views(ops@)),
        ensures
            res@ == op_views(ops@),
    {
        let ghost views = op_views(ops@);
        let mut replay_ops: Vec<ReplayOp> = Vec::with_capacity(ops.len());
        for i in 0..ops.len()
            invariant
                views == op_views(ops@),
                all_indices_fit(views),
                op_views(replay_ops@) == views.take(i as int),
        {
            let ghost before = replay_ops@;
            assert(views[i as int] == ops@[i as int]@);
            assert(indices_fit(views[i as int]));
            match &ops[i] {
                SymbolOps::AddAssign { dest, src } => replay_ops.push(
                    ReplayOp::AddAssign { dest: *dest as u32, src: *src as u32 },
                ),
                SymbolOps::MulAssign { dest, scalar } => replay_ops.push(
                    ReplayOp::MulAssign { dest: *dest as u32, scalar: *scalar },
                ),
                SymbolOps::FMA { dest, src, scalar } => replay_ops.push(
                    ReplayOp::FMA { dest: *dest as u32, src: *src as u32, scalar: *scalar },
                ),
                SymbolOps::Reorder { order } => {
                    let order_copy = order.clone();
                    assert(order_copy@ =~= order@);
                    replay_ops.push(ReplayOp::Reorder { order: order_copy })
                },
            }
            proof {
                let added = replay_ops@.last();
                assert(added@ == views[i as int]);
                assert(replay_ops@ =~= before.push(added));
                assert(op_views(replay_ops@) =~= op_views(before).push(added@));
                assert(views.take(i + 1) =~= views.take(i as int).push(views[i as int]));
            }
        }
        assert(views.take(ops.len() as int) =~= views);
        ReplaySchedule { ops: replay_ops }
    }

    /// The operations of the schedule.
    pub fn as_slice(&self) -> (res: &[ReplayOp])
        ensures
            op_views(res@) == self@,
    {
        self.ops.as_slice()
    }
}

/// An operation of a schedule does what the recorded operation at its place does: it can be
/// performed on the same rows, and leaves the same rows. `replay_ops` are the operations of
/// the schedule made from `ops`.
pub proof fn law_schedule_acts_as_recorded(
    ops: Seq<SymbolOps>,
    schedule: ReplaySchedule,
    replay_ops: Seq<ReplayOp>,
    i: int,
    rows: Seq<Seq<u8>>,
    symbol_size: nat,
)
    requires
        schedule@ == op_views(ops),
        op_views(replay_ops) == schedule@,
        0 <= i < ops.len(),
    ensures
        replay_ops.len() == ops.len(),
        op_applicable(replay_ops[i]@, rows.len(), symbol_size) == op_applicable(
            ops[i]@,
            rows.len(),
            symbol_size,
        ),
        apply_op(rows, replay_ops[i]@) == apply_op(rows, ops[i]@),
{
    assert(op_views(replay_ops).len() == replay_ops.len());
    assert(op_views(replay_ops)[i] == replay_ops[i]@);
    assert(op_views(ops)[i] == ops[i]@);
}

/// Performs one operation of a schedule.
pub fn perform_replay_op(op: &ReplayOp, symbols: &mut SymbolSlab)
    requires
        old(symbols).wf(),
        op_applicable(op@, old(symbols)@.len(), old(symbols).size()),
    ensures
        final(symbols).wf(),
        final(symbols).size() == old(symbols).size(),
        final(symbols)@ == apply_op(old(symbols)@, op@),
{
    match op {
        ReplayOp::AddAssign { dest, src } => {
            symbols.add_assign(*dest as usize, *src as usize);
        },
        ReplayOp::MulAssign { dest, scalar } => {
            symbols.mulassign_scalar(*dest as usize, scalar);
        },
        ReplayOp::FMA { dest, src, scalar } => {
            symbols.fma(*dest as usize, *src as usize, scalar);
        },
        ReplayOp::Reorder { order } => {
            proof {
                lemma_order_in_range(order@, symbols@.len(), symbols.size());
            }
            symbols.reorder(order.as_slice());
        },
    }
}

/// Performs a schedule's operations one after the other.
pub fn perform_replay_schedule_sequential(schedule: &ReplaySchedule, symbols: &mut SymbolSlab)
    requires
        old(symbols).wf(),
        ops_applicable(schedule@, old(symbols)@.len(), old(symbols).size()),
    ensures
        final(symbols).wf(),
        final(symbols).size() == old(symbols).size(),
        final(symbols)@ == apply_ops(old(symbols)@, schedule@),
{
    let ghost rows = symbols@;
    let ghost views = schedule@;
    let ops = schedule.as_slice();
    for i in 0..ops.len()
        invariant
            views == op_views(ops@),
            rows == old(symbols)@,
            ops_applicable(views, rows.len(), symbols.size()),
            symbols.wf(),
            symbols.size() == old(symbols).size(),
            symbols@ == apply_ops(rows, views.take(i as int)),
            symbols@.len() == count_after(rows.len(), views.take(i as int)),
    {
        proof {
            lemma_replay_step(rows, views, i as int);
            assert(applicable_at(views, i as int, rows.len(), symbols.size()));
            assert(views[i as int] == ops@[i as int]@);
        }
        perform_replay_op(&ops[i], symbols);
    }
    assert(views.take(ops.len() as int) =~= views);
}

/// Whether `order` names rows among `count` ones of `symbol_size` octets, and the rows
/// that it leaves fit in memory.
fn order_applicable(order: &[usize], count: usize, symbol_size: usize) -> (res: bool)
    ensures
        res == op_applicable(
            Op::Reorder { order: order@.map_values(|i: usize| i as int) },
            count as nat,
            symbol_size as nat,
        ),
{
    let ghost indices = order@.map_values(|i: usize| i as int);
    for i in 0..order.len()
        invariant
            indices == order@.map_values(|i: usize| i as int),
            forall|j: int| 0 <= j < i ==> 0 <= #[trigger] indices[j] < count,
    {
        assert(indices[i as int] == order@[i as int]);
        if order[i] >= count {
            return false;
        }
    }
    order.len().checked_mul(symbol_size).is_some()
}

/// Whether `ops` can be performed in turn on `symbol_count` symbols of `symbol_size`
/// octets.
pub fn symbol_ops_applicable(ops: &[SymbolOps], symbol_count: usize, symbol_size: usize) -> (res:
    bool)
    ensures
        res == ops_applicable(op_views(ops@), symbol_count as nat, symbol_size as nat),
{
    let ghost views = op_views(ops@);
    let mut count: usize = symbol_count;
    for i in 0..ops.len()
        invariant
            views == op_views(ops@),
            count == count_after(symbol_count as nat, views.take(i as int)),
            forall|j: int|
                0 <= j < i ==> #[trigger] applicable_at(
                    views,
                    j,
                    symbol_count as nat,
                    symbol_size as nat,
                ),
    {
        proof {
            lemma_count_step(symbol_count as nat, views, i as int);
            assert(views[i as int] == ops@[i as int]@);
        }
        let (applicable, left): (bool, usize) = match &ops[i] {
            SymbolOps::AddAssign { dest, src } => (*dest < count && *src < count, count),
            SymbolOps::MulAssign { dest, .. } => (*dest < count, count),
            SymbolOps::FMA { dest, src, .. } => (*dest < count && *src < count, count),
            SymbolOps::Reorder { order } => (
                order_applicable(order.as_slice(), count, symbol_size),
                order.len(),
            ),
        };
        assert(applicable == applicable_at(
            views,
            i as int,
            symbol_count as nat,
            symbol_size as nat,
        ));
        if !applicable {
            return false;
        }
        count = left;
    }
    true
}

/// Whether a schedule can hold `ops`.
pub fn symbol_indices_fit(ops: &[SymbolOps]) -> (res: bool)
    ensures
        res == all_indices_fit(op_views(ops@)),
{
    let ghost views = op_views(ops@);
    for i in 0..ops.len()
        invariant
            views == op_views(ops@),
            forall|j: int| 0 <= j < i ==> indices_fit(#[trigger] views[j]),
    {
        let fits: bool = match &ops[i] {
            SymbolOps::AddAssign { dest, src } => index_fits(*dest) && index_fits(*src),
            SymbolOps::MulAssign { dest, .. } => index_fits(*dest),
            SymbolOps::FMA { dest, src, .. } => index_fits(*dest) && index_fits(*src),
            SymbolOps::Reorder { .. } => true,
        };
        assert(views[i as int] == ops@[i as int]@);
        if !fits {
            return false;
        }
    }
    true
}

/// Whether a row index has 32 bits.
fn index_fits(index: usize) -> (res: bool)
    ensures
        res == (index <= u32::MAX),
{
    index as u64 <= u32::MAX as u64
}

impl ReplaySchedule {
    /// Whether the schedule can be performed on `symbol_count` symbols of `symbol_size`
    /// octets.
    pub fn applicable(&self, symbol_count: usize, symbol_size: usize) -> (res: bool)
        ensures
            res == ops_applicable(self@, symbol_count as nat, symbol_size as nat),
    {
        let ops = self.as_slice();
        let ghost views = op_views(ops@);
        let mut count: usize = symbol_count;
        for i in 0..ops.len()
            invariant
                views == op_views(ops@),
                views == self@,
                count == count_after(symbol_count as nat, views.take(i as int)),
                forall|j: int|
                    0 <= j < i ==> #[trigger] applicable_at(
                        views,
                        j,
                        symbol_count as nat,
                        symbol_size as nat,
                    ),
        {
            proof {
                lemma_count_step(symbol_count as nat, views, i as int);
                assert(views[i as int] == ops@[i as int]@);
            }
            let (applicable, left): (bool, usize) = match &ops[i] {
                ReplayOp::AddAssign { dest, src } => (
                    (*dest as usize) < count && (*src as usize) < count,
                    count,
                ),
                ReplayOp::MulAssign { dest, .. } => ((*dest as usize) < count, count),
                ReplayOp::FMA { dest, src, .. } => (
                    (*dest as usize) < count && (*src as usize) < count,
                    count,
                ),
                ReplayOp::Reorder { order } => (
                    order_applicable(order.as_slice(), count, symbol_size),
                    order.len(),
                ),
            };
            assert(applicable == applicable_at(
                views,
                i as int,
                symbol_count as nat,
                symbol_size as nat,
            ));
            if !applicable {
                return false;
            }
            count = left;
        }
        true
    }
}

/// The fewest operations for which workers pay off.
pub const MIN_PARALLEL_OPS: usize = 30_000;

/// The fewest symbols for which workers pay off.
pub const MIN_PARALLEL_SYMBOLS: usize = 4_000;

/// The smallest symbols for which workers pay off.
pub const MIN_PARALLEL_SYMBOL_SIZE: usize = 1_024;

/// The columns that each worker is to have: there is at most one worker for each run of
/// this many columns, one that is cut short counted too.
pub const COLUMNS_PER_WORKER: usize = 256;

/// The operations that each worker is to have: there is at most one worker for each run
/// of this many operations, one that is cut short counted too.
pub const OPS_PER_WORKER: usize = 12_000;

/// Whether the work is large enough to be worth sharing out.
///
/// All but very large workloads stay with one worker: for medium sizes, setting up and
/// synchronizing the workers costs more than they save.
pub fn should_parallelize(op_count: usize, symbol_count: usize, symbol_size: usize) -> (res: bool)
    ensures
        res == worth_sharing(op_count as int, symbol_count as int, symbol_size as int),
{
    op_count >= MIN_PARALLEL_OPS && symbol_count >= MIN_PARALLEL_SYMBOLS && symbol_size
        >= MIN_PARALLEL_SYMBOL_SIZE
}

/// Whether the work is large enough to be worth sharing out.
pub open spec fn worth_sharing(op_count: int, symbol_count: int, symbol_size: int) -> bool {
    op_count >= MIN_PARALLEL_OPS && symbol_count >= MIN_PARALLEL_SYMBOLS && symbol_size
        >= MIN_PARALLEL_SYMBOL_SIZE
}

/// Whether no operation of `ops` but the last one reorders the rows.
pub open spec fn reorder_only_last(ops: Seq<Op>) -> bool {
    forall|i: int| 0 <= i < ops.len() - 1 ==> !(#[trigger] ops[i] is Reorder)
}

/// The operations of `ops` without a reordering at their end.
pub open spec fn before_reorder(ops: Seq<Op>) -> Seq<Op> {
    if ops.len() > 0 && ops.last() is Reorder {
        ops.drop_last()
    } else {
        ops
    }
}

/// Whether `op` adds a row, or a multiple of it, to itself.
pub open spec fn adds_to_itself(op: Op) -> bool {
    match op {
        Op::AddAssign { dest, src } => dest == src,
        Op::FMA { dest, src, .. } => dest == src,
        _ => false,
    }
}

/// Whether the replay of `ops` is shared out among workers, of which there are
/// `available`: only a reordering at the end, no row added to itself, and enough to do.
pub open spec fn shared_out(
    ops: Seq<Op>,
    symbol_count: nat,
    symbol_size: nat,
    available: nat,
) -> bool {
    &&& available > 1
    &&& reorder_only_last(ops)
    &&& forall|i: int|
        0 <= i < before_reorder(ops).len() ==> !adds_to_itself(#[trigger] before_reorder(ops)[i])
    &&& worth_sharing(
        before_reorder(ops).len() as int,
        symbol_count as int,
        symbol_size as int,
    )
}

/// The smaller of two numbers.
pub open spec fn smaller(a: int, b: int) -> int {
    if a <= b {
        a
    } else {
        b
    }
}

/// How many of `available` workers share `op_count` operations on symbols of
/// `symbol_size` octets.
pub open spec fn workers_for(op_count: int, symbol_size: int, available: int) -> int {
    smaller(
        smaller(available, div_ceil_spec(symbol_size, COLUMNS_PER_WORKER as int)),
        div_ceil_spec(op_count, OPS_PER_WORKER as int),
    )
}

/// How a replay is shared out.
#[derive(Clone, Copy, Debug, PartialEq, Eq)]
pub struct ReplayPlan {
    /// How many operations the workers replay: all but a reordering at the end.
    pub replay_len: usize,
    /// How many workers take part.
    pub worker_count: usize,
}

/// Decides whether and how to share out the replay of `ops` on `symbol_count` symbols of
/// `symbol_size` octets among at most `available_parallelism` workers.
pub fn plan_parallel_replay(
    ops: &[ReplayOp],
    symbol_count: usize,
    symbol_size: usize,
    available_parallelism: usize,
) -> (res: Option<ReplayPlan>)
    ensures
        res is Some <==> shared_out(
            op_views(ops@),
            symbol_count as nat,
            symbol_size as nat,
            available_parallelism as nat,
        ),
        res matches Some(plan) ==> {
            &&& plan.replay_len == before_reorder(op_views(ops@)).len()
            &&& plan.worker_count == workers_for(
                plan.replay_len as int,
                symbol_size as int,
                available_parallelism as int,
            )
            &&& 1 < plan.worker_count <= available_parallelism
        },
{
    let ghost views = op_views(ops@);
    if available_parallelism <= 1 {
        return None;
    }
    let mut replay_len: usize = 0;
    while replay_len < ops.len() && !matches!(ops[replay_len], ReplayOp::Reorder { .. })
        invariant
            replay_len <= ops.len(),
            views == op_views(ops@),
            forall|i: int| 0 <= i < replay_len ==> !(#[trigger] views[i] is Reorder),
        ensures
            replay_len <= ops.len(),
            forall|i: int| 0 <= i < replay_len ==> !(#[trigger] views[i] is Reorder),
            replay_len < ops.len() ==> views[replay_len as int] is Reorder,
        decreases ops.len() - replay_len,
    {
        assert(views[replay_len as int] == ops@[replay_len as int]@);
        replay_len = replay_len + 1;
    }
    if replay_len < ops.len() && replay_len + 1 != ops.len() {
        return None;
    }
    assert(reorder_only_last(views));
    assert(before_reorder(views) =~= views.take(replay_len as int));
    for i in 0..replay_len
        invariant
            replay_len <= ops.len(),
            views == op_views(ops@),
            before_reorder(views) == views.take(replay_len as int),
            forall|j: int| 0 <= j < i ==> !adds_to_itself(#[trigger] before_reorder(views)[j]),
    {
        let to_itself: bool = match &ops[i] {
            ReplayOp::AddAssign { dest, src } => *dest == *src,
            ReplayOp::FMA { dest, src, .. } => *dest == *src,
            _ => false,
        };
        assert(before_reorder(views)[i as int] == ops@[i as int]@);
        if to_itself {
            return None;
        }
    }
    if !should_parallelize(replay_len, symbol_count, symbol_size) {
        return None;
    }
    let max_workers_by_chunk: usize = div_ceil(symbol_size, COLUMNS_PER_WORKER);
    let max_workers_by_ops: usize = div_ceil(replay_len, OPS_PER_WORKER);
    let mut worker_count: usize = available_parallelism;
    if max_workers_by_chunk < worker_count {
        worker_count = max_workers_by_chunk;
    }
    if max_workers_by_ops < worker_count {
        worker_count = max_workers_by_ops;
    }
    Some(ReplayPlan { replay_len, worker_count })
}

/// Shares out the replay of a schedule among the workers of `pool`, if that pays off.
/// Returns whether it has done so; otherwise nothing is changed. A schedule that is not
/// shared out need not fit the symbols.
pub fn perform_replay_schedule_parallel(
    schedule: &ReplaySchedule,
    symbols: &mut SymbolSlab,
    pool: &mut ReplayPool,
) -> (done: bool)
    requires
        old(symbols).wf(),
        old(pool).wf(),
        shared_out(
            schedule@,
            old(symbols)@.len(),
            old(symbols).size(),
            old(pool).workers(),
        ) ==> ops_applicable(schedule@, old(symbols)@.len(), old(symbols).size()),
    ensures
        done == shared_out(
            schedule@,
            old(symbols)@.len(),
            old(symbols).size(),
            old(pool).workers(),
        ),
        done ==> {
            &&& final(symbols).wf()
            &&& final(symbols).size() == old(symbols).size()
            &&& final(symbols)@ == apply_ops(old(symbols)@, schedule@)
            &&& final(pool).wf()
            &&& final(pool).workers() == old(pool).workers()
            &&& final(pool).shared() == old(pool).shared().completed(
                planned_job(
                    schedule@,
                    old(symbols)@.len(),
                    old(symbols).size(),
                    old(pool).workers(),
                ),
            )
        },
        !done ==> *final(symbols) == *old(symbols) && *final(pool) == *old(pool),
{
    let ghost rows = symbols@;
    let ghost views = schedule@;
    let ops = schedule.as_slice();
    let plan = match plan_parallel_replay(
        ops,
        symbols.len(),
        symbols.symbol_size(),
        pool.max_workers(),
    ) {
        Some(plan) => plan,
        None => {
            return false;
        },
    };
    let replay_len: usize = plan.replay_len;
    let replay_ops = slice_subrange(ops, 0, replay_len);
    proof {
        assert(op_views(replay_ops@) =~= before_reorder(views));
        if before_reorder(views) != views {
            lemma_applicable_drop_last(views, rows.len(), symbols.size());
        }
        assert(no_reorder(before_reorder(views)));
        law_replay_shape(rows, before_reorder(views), symbols.size());
    }
    pool.replay_ops_chunked(replay_ops, symbols, plan.worker_count);
    perform_reorder_at_end(ops, symbols);
    true
}

/// Performs the reordering at the end of `ops`, if there is one.
pub fn perform_reorder_at_end(ops: &[ReplayOp], symbols: &mut SymbolSlab)
    requires
        old(symbols).wf(),
        before_reorder(op_views(ops@)) != op_views(ops@) ==> op_applicable(
            op_views(ops@).last(),
            old(symbols)@.len(),
            old(symbols).size(),
        ),
    ensures
        final(symbols).wf(),
        final(symbols).size() == old(symbols).size(),
        final(symbols)@ == (if before_reorder(op_views(ops@)) == op_views(ops@) {
            old(symbols)@
        } else {
            apply_op(old(symbols)@, op_views(ops@).last())
        }),
{
    let ghost views = op_views(ops@);
    if ops.len() > 0 {
        let last = &ops[ops.len() - 1];
        assert(views.last() == last@);
        if matches!(last, ReplayOp::Reorder { .. }) {
            assert(before_reorder(views).len() != views.len());
            perform_replay_op(last, symbols);
        }
    }
}

/// Operations with a reordering before their last one are never shared out.
pub proof fn law_earlier_reorder_is_not_shared_out(
    ops: Seq<Op>,
    i: int,
    symbol_count: nat,
    symbol_size: nat,
    available: nat,
)
    requires
        0 <= i < ops.len() - 1,
        ops[i] is Reorder,
    ensures
        !shared_out(ops, symbol_count, symbol_size, available),
{
}

/// The job that the workers get when the replay of `ops` is shared out.
pub open spec fn planned_job(
    ops: Seq<Op>,
    symbol_count: nat,
    symbol_size: nat,
    available: nat,
) -> ReplayJob {
    ReplayJob::planned(
        symbol_count,
        symbol_size,
        before_reorder(ops).len(),
        workers_for(
            before_reorder(ops).len() as int,
            symbol_size as int,
            available as int,
        ) as nat,
    )
}

/// The state of a pool of `available` workers after a replay of `ops`, which they have
/// had a part in if the replay was to be shared out.
pub open spec fn pool_after_replay(
    shared: ReplayPoolState,
    parallel_hint: bool,
    ops: Seq<Op>,
    symbol_count: nat,
    symbol_size: nat,
    available: nat,
) -> ReplayPoolState {
    if parallel_hint && shared_out(ops, symbol_count, symbol_size, available) {
        shared.completed(planned_job(ops, symbol_count, symbol_size, available))
    } else {
        shared
    }
}

/// Performs a schedule's operations. With `parallel_hint` the workers of `pool` share
/// them if that pays off. What becomes of the symbols does not depend on it.
pub fn perform_replay_schedule_with_parallel_hint(
    schedule: &ReplaySchedule,
    symbols: &mut SymbolSlab,
    parallel_hint: bool,
    pool: &mut ReplayPool,
)
    requires
        old(symbols).wf(),
        old(pool).wf(),
        ops_applicable(schedule@, old(symbols)@.len(), old(symbols).size()),
    ensures
        final(symbols).wf(),
        final(symbols).size() == old(symbols).size(),
        final(symbols)@ == apply_ops(old(symbols)@, schedule@),
        final(pool).wf(),
        final(pool).workers() == old(pool).workers(),
        final(pool).shared() == pool_after_replay(
            old(pool).shared(),
            parallel_hint,
            schedule@,
            old(symbols)@.len(),
            old(symbols).size(),
            old(pool).workers(),
        ),
{
    if parallel_hint && perform_replay_schedule_parallel(schedule, symbols, pool) {
        return ;
    }
    perform_replay_schedule_sequential(schedule, symbols);
}

/// Performs recorded operations. With `parallel_hint` they are made into a schedule,
/// which the workers of `pool` share if that pays off. What becomes of the symbols does
/// not depend on it.
pub fn perform_ops_with_parallel_hint(
    ops: &[SymbolOps],
    symbols: &mut SymbolSlab,
    parallel_hint: bool,
    pool: &mut ReplayPool,
)
    requires
        old(symbols).wf(),
        old(pool).wf(),
        ops_applicable(op_views(ops@), old(symbols)@.len(), old(symbols).size()),
        parallel_hint ==> all_indices_fit(op_views(ops@)),
    ensures
        final(symbols).wf(),
        final(symbols).size() == old(symbols).size(),
        final(symbols)@ == apply_ops(old(symbols)@, op_views(ops@)),
        final(pool).wf(),
        final(pool).workers() == old(pool).workers(),
        final(pool).shared() == pool_after_replay(
            old(pool).shared(),
            parallel_hint,
            op_views(ops@),
            old(symbols)@.len(),
            old(symbols).size(),
            old(pool).workers(),
        ),
{
    if !parallel_hint {
        perform_symbol_ops_sequential(ops, symbols);
        return ;
    }
    let schedule = ReplaySchedule::from_symbol_ops(ops);
    perform_replay_schedule_with_parallel_hint(&schedule, symbols, true, pool);
}

/// Performs recorded operations, shared out among the workers of `pool` if that pays
/// off.
pub fn perform_ops(ops: &[SymbolOps], symbols: &mut SymbolSlab, pool: &mut ReplayPool)
    requires
        old(symbols).wf(),
        old(pool).wf(),
        ops_applicable(op_views(ops@), old(symbols)@.len(), old(symbols).size()),
        all_indices_fit(op_views(ops@)),
    ensures
        final(symbols).wf(),
        final(symbols).size() == old(symbols).size(),
        final(symbols)@ == apply_ops(old(symbols)@, op_views(ops@)),
        final(pool).wf(),
        final(pool).workers() == old(pool).workers(),
        final(pool).shared() == pool_after_replay(
            old(pool).shared(),
            true,
            op_views(ops@),
            old(symbols)@.len(),
            old(symbols).size(),
            old(pool).workers(),
        ),
{
    perform_ops_with_parallel_hint(ops, symbols, true, pool);
}

} // verus!
