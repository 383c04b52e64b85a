//! What the operations mean: functions on rows of octets.
//!
//! A slab of symbols is a sequence of rows of equal length, one row per symbol. An
//! operation takes rows to rows, and a list of operations is applied from its first
//! to its last.

use crate::octet::{
    gf_mul, law_mul_associative, law_mul_distributive, law_mul_inverse, law_mul_one_zero,
};
use vstd::prelude::*;

verus! {

/// A symbol operation, apart from how its indices are stored.
pub enum Op {
    /// Adds row `src` to row `dest`.
    AddAssign { dest: int, src: int },
    /// Multiplies row `dest` by `scalar`.
    MulAssign { dest: int, scalar: u8 },
    /// Adds row `src` times `scalar` to row `dest`.
    FMA { dest: int, src: int, scalar: u8 },
    /// Puts row `order[i]` at place `i`, for each place of `order`.
    Reorder { order: Seq<int> },
}

/// The operations that `ops` stands for.
pub open spec fn op_views<T: View<V = Op>>(ops: Seq<T>) -> Seq<Op> {
    ops.map_values(|op: T| op@)
}

/// The sum of two rows.
pub open spec fn add_rows(dest: Seq<u8>, src: Seq<u8>) -> Seq<u8> {
    Seq::new(dest.len(), |k: int| dest[k] ^ src[k])
}

/// A row times a scalar.
pub open spec fn scale_row(row: Seq<u8>, scalar: u8) -> Seq<u8> {
    Seq::new(row.len(), |k: int| gf_mul(row[k], scalar))
}

/// The rows of `rows` that `order` names, in its order.
pub open spec fn gather_rows(rows: Seq<Seq<u8>>, order: Seq<int>) -> Seq<Seq<u8>> {
    Seq::new(order.len(), |i: int| rows[order[i]])
}

/// The rows after one operation.
pub open spec fn apply_op(rows: Seq<Seq<u8>>, op: Op) -> Seq<Seq<u8>> {
    match op {
        Op::AddAssign { dest, src } => rows.update(dest, add_rows(rows[dest], rows[src])),
        Op::MulAssign { dest, scalar } => rows.update(dest, scale_row(rows[dest], scalar)),
        Op::FMA { dest, src, scalar } => rows.update(
            dest,
            add_rows(rows[dest], scale_row(rows[src], scalar)),
        ),
        Op::Reorder { order } => gather_rows(rows, order),
    }
}

/// The rows after the operations `ops`, first to last.
pub open spec fn apply_ops(rows: Seq<Seq<u8>>, ops: Seq<Op>) -> Seq<Seq<u8>>
    decreases ops.len(),
{
    if ops.len() == 0 {
        rows
    } else {
        apply_op(apply_ops(rows, ops.drop_last()), ops.last())
    }
}

/// The octets at `lo` and on, up to `hi`, of every row.
pub open spec fn columns_of(rows: Seq<Seq<u8>>, lo: int, hi: int) -> Seq<Seq<u8>> {
    Seq::new(rows.len(), |i: int| rows[i].subrange(lo, hi))
}

/// `rows` with the rows of `chunk` written over theirs, from column `lo` on.
pub open spec fn with_columns(rows: Seq<Seq<u8>>, lo: int, chunk: Seq<Seq<u8>>) -> Seq<Seq<u8>> {
    Seq::new(
        rows.len(),
        |i: int|
            Seq::new(
                rows[i].len(),
                |k: int|
                    if lo <= k < lo + chunk[i].len() {
                        chunk[i][k - lo]
                    } else {
                        rows[i][k]
                    },
            ),
    )
}

/// How many of `count` rows there are after one operation.
pub open spec fn count_after_op(count: nat, op: Op) -> nat {
    match op {
        Op::Reorder { order } => order.len(),
        _ => count,
    }
}

/// How many of `count` rows there are after the operations `ops`.
pub open spec fn count_after(count: nat, ops: Seq<Op>) -> nat
    decreases ops.len(),
{
    if ops.len() == 0 {
        count
    } else {
        count_after_op(count_after(count, ops.drop_last()), ops.last())
    }
}

/// Whether `op` can be performed on `count` rows of `symbol_size` octets: its indices
/// name rows, and the rows that it leaves fit in memory.
pub open spec fn op_applicable(op: Op, count: nat, symbol_size: nat) -> bool {
    match op {
        Op::AddAssign { dest, src } => 0 <= dest < count && 0 <= src < count,
        Op::MulAssign { dest, .. } => 0 <= dest < count,
        Op::FMA { dest, src, .. } => 0 <= dest < count && 0 <= src < count,
        Op::Reorder { order } => {
            &&& forall|i: int| 0 <= i < order.len() ==> 0 <= #[trigger] order[i] < count
            &&& order.len() * symbol_size <= usize::MAX
        },
    }
}

/// Whether the operation at `i` of `ops` can be performed once those before it have
/// been, on `count` rows of `symbol_size` octets.
pub open spec fn applicable_at(ops: Seq<Op>, i: int, count: nat, symbol_size: nat) -> bool {
    op_applicable(ops[i], count_after(count, ops.take(i)), symbol_size)
}

/// Whether `ops` can be performed in turn on `count` rows of `symbol_size` octets.
pub open spec fn ops_applicable(ops: Seq<Op>, count: nat, symbol_size: nat) -> bool {
    forall|i: int| 0 <= i < ops.len() ==> #[trigger] applicable_at(ops, i, count, symbol_size)
}

/// Whether every row has `symbol_size` octets.
pub open spec fn rows_sized(rows: Seq<Seq<u8>>, symbol_size: nat) -> bool {
    forall|i: int| 0 <= i < rows.len() ==> (#[trigger] rows[i]).len() == symbol_size
}

/// An operation leaves as many rows as `count_after_op` says, all of the size that
/// they had.
pub proof fn lemma_apply_op_shape(rows: Seq<Seq<u8>>, op: Op, symbol_size: nat)
    requires
        rows_sized(rows, symbol_size),
        op_applicable(op, rows.len(), symbol_size),
    ensures
        apply_op(rows, op).len() == count_after_op(rows.len(), op),
        rows_sized(apply_op(rows, op), symbol_size),
{
}

/// The operations before the last of an applicable list are applicable, and the last
/// one is applicable to the rows that they leave.
pub proof fn lemma_applicable_drop_last(ops: Seq<Op>, count: nat, symbol_size: nat)
    requires
        ops.len() > 0,
        ops_applicable(ops, count, symbol_size),
    ensures
        ops_applicable(ops.drop_last(), count, symbol_size),
        op_applicable(ops.last(), count_after(count, ops.drop_last()), symbol_size),
{
    assert(ops.take(ops.len() - 1) =~= ops.drop_last());
    assert(applicable_at(ops, ops.len() - 1, count, symbol_size));
    assert forall|i: int| 0 <= i < ops.drop_last().len() implies #[trigger] applicable_at(
        ops.drop_last(),
        i,
        count,
        symbol_size,
    ) by {
        assert(ops.drop_last().take(i) =~= ops.take(i));
        assert(applicable_at(ops, i, count, symbol_size));
    }
}

/// What replaying a list of operations leaves: as many rows as `count_after` says, all
/// of the size that they had.
pub proof fn law_replay_shape(rows: Seq<Seq<u8>>, ops: Seq<Op>, symbol_size: nat)
    requires
        rows_sized(rows, symbol_size),
        ops_applicable(ops, rows.len(), symbol_size),
    ensures
        apply_ops(rows, ops).len() == count_after(rows.len(), ops),
        rows_sized(apply_ops(rows, ops), symbol_size),
    decreases ops.len(),
{
    if ops.len() > 0 {
        lemma_applicable_drop_last(ops, rows.len(), symbol_size);
        law_replay_shape(rows, ops.drop_last(), symbol_size);
        lemma_apply_op_shape(apply_ops(rows, ops.drop_last()), ops.last(), symbol_size);
    }
}

/// One more operation of a list: how many rows it leaves.
pub proof fn lemma_count_step(count: nat, ops: Seq<Op>, i: int)
    requires
        0 <= i < ops.len(),
    ensures
        count_after(count, ops.take(i + 1)) == count_after_op(
            count_after(count, ops.take(i)),
            ops[i],
        ),
{
    assert(ops.take(i + 1).drop_last() =~= ops.take(i));
    assert(ops.take(i + 1).last() == ops[i]);
}

/// One more operation of a list: the prefix through `i` is the prefix before `i`, then
/// the operation at `i`.
pub proof fn lemma_replay_step(rows: Seq<Seq<u8>>, ops: Seq<Op>, i: int)
    requires
        0 <= i < ops.len(),
    ensures
        apply_ops(rows, ops.take(i + 1)) == apply_op(apply_ops(rows, ops.take(i)), ops[i]),
        count_after(rows.len(), ops.take(i + 1)) == count_after_op(
            count_after(rows.len(), ops.take(i)),
            ops[i],
        ),
{
    assert(ops.take(i + 1).drop_last() =~= ops.take(i));
    assert(ops.take(i + 1).last() == ops[i]);
}

/// Operations that fit rows of `symbol_size` octets fit shorter rows.
pub proof fn lemma_applicable_narrower(ops: Seq<Op>, count: nat, symbol_size: nat, width: nat)
    requires
        ops_applicable(ops, count, symbol_size),
        width <= symbol_size,
    ensures
        ops_applicable(ops, count, width),
{
    assert forall|i: int| 0 <= i < ops.len() implies #[trigger] applicable_at(
        ops,
        i,
        count,
        width,
    ) by {
        assert(applicable_at(ops, i, count, symbol_size));
        if let Op::Reorder { order } = ops[i] {
            assert(order.len() * width <= order.len() * symbol_size) by (nonlinear_arith)
                requires
                    width <= symbol_size,
            ;
        }
    }
}

/// An operation acts on each column alone: cutting columns out of its result is
/// performing it on the columns cut out.
pub proof fn lemma_columns_of_op(rows: Seq<Seq<u8>>, op: Op, symbol_size: nat, lo: int, hi: int)
    requires
        rows_sized(rows, symbol_size),
        op_applicable(op, rows.len(), symbol_size),
        0 <= lo <= hi <= symbol_size,
    ensures
        columns_of(apply_op(rows, op), lo, hi) == apply_op(columns_of(rows, lo, hi), op),
{
    let left = columns_of(apply_op(rows, op), lo, hi);
    let right = apply_op(columns_of(rows, lo, hi), op);
    assert(left.len() == right.len());
    assert forall|i: int| 0 <= i < left.len() implies left[i] == right[i] by {
        assert(left[i] =~= right[i]);
    }
    assert(left =~= right);
}

/// Replay acts on each column alone: cutting columns out of the rows after a replay is
/// replaying the operations on the columns cut out.
pub proof fn law_columns_replay_alone(
    rows: Seq<Seq<u8>>,
    ops: Seq<Op>,
    symbol_size: nat,
    lo: int,
    hi: int,
)
    requires
        rows_sized(rows, symbol_size),
        ops_applicable(ops, rows.len(), symbol_size),
        0 <= lo <= hi <= symbol_size,
    ensures
        columns_of(apply_ops(rows, ops), lo, hi) == apply_ops(columns_of(rows, lo, hi), ops),
    decreases ops.len(),
{
    if ops.len() > 0 {
        lemma_applicable_drop_last(ops, rows.len(), symbol_size);
        law_columns_replay_alone(rows, ops.drop_last(), symbol_size, lo, hi);
        law_replay_shape(rows, ops.drop_last(), symbol_size);
        lemma_columns_of_op(
            apply_ops(rows, ops.drop_last()),
            ops.last(),
            symbol_size,
            lo,
            hi,
        );
    }
}

/// Replaying one list and then another is replaying the two as one list.
pub proof fn law_replay_concat(rows: Seq<Seq<u8>>, first: Seq<Op>, second: Seq<Op>)
    ensures
        apply_ops(rows, first + second) == apply_ops(apply_ops(rows, first), second),
    decreases second.len(),
{
    if second.len() == 0 {
        assert(first + second =~= first);
    } else {
        assert((first + second).drop_last() =~= first + second.drop_last());
        law_replay_concat(rows, first, second.drop_last());
    }
}

/// Replaying a list is performing its operations one by one: rows that start as `rows`,
/// and that each operation of `ops` takes to the next, end as the replay of `ops` does.
pub proof fn law_replay_is_one_by_one(
    rows: Seq<Seq<u8>>,
    ops: Seq<Op>,
    stages: Seq<Seq<Seq<u8>>>,
)
    requires
        stages.len() == ops.len() + 1,
        stages[0] == rows,
        forall|i: int|
            0 <= i < ops.len() ==> #[trigger] stages[i + 1] == apply_op(stages[i], ops[i]),
    ensures
        stages.last() == apply_ops(rows, ops),
    decreases ops.len(),
{
    if ops.len() > 0 {
        let fewer = stages.drop_last();
        assert forall|i: int| 0 <= i < ops.drop_last().len() implies #[trigger] fewer[i + 1]
            == apply_op(fewer[i], ops.drop_last()[i]) by {
            assert(fewer[i + 1] == stages[i + 1]);
        }
        law_replay_is_one_by_one(rows, ops.drop_last(), fewer);
        assert(stages[(ops.len() - 1) + 1] == apply_op(stages[ops.len() - 1], ops[ops.len() - 1]));
    }
}

/// An operation that does not reorder changes the row `dest` alone.
pub proof fn law_only_dest_changes(rows: Seq<Seq<u8>>, op: Op, symbol_size: nat, row: int)
    requires
        op_applicable(op, rows.len(), symbol_size),
        0 <= row < rows.len(),
        match op {
            Op::AddAssign { dest, .. } => row != dest,
            Op::MulAssign { dest, .. } => row != dest,
            Op::FMA { dest, .. } => row != dest,
            Op::Reorder { .. } => false,
        },
    ensures
        apply_op(rows, op).len() == rows.len(),
        apply_op(rows, op)[row] == rows[row],
{
}

/// Adding a row to another one twice leaves all rows as they were.
pub proof fn law_add_assign_undoes_itself(rows: Seq<Seq<u8>>, dest: int, src: int)
    requires
        0 <= dest < rows.len(),
        0 <= src < rows.len(),
        dest != src,
    ensures
        ({
            let op = Op::AddAssign { dest, src };
            apply_op(apply_op(rows, op), op) == rows
        }),
{
    let op = Op::AddAssign { dest, src };
    let after = apply_op(apply_op(rows, op), op);
    assert forall|k: int| 0 <= k < rows[dest].len() implies after[dest][k] == rows[dest][k] by {
        lemma_xor_undoes_itself(rows[dest][k], rows[src][k]);
    }
    assert(after[dest] =~= rows[dest]);
    assert(after =~= rows);
}

/// Adding a multiple of a row to another row twice leaves all rows as they were.
pub proof fn law_fma_undoes_itself(rows: Seq<Seq<u8>>, dest: int, src: int, scalar: u8)
    requires
        0 <= dest < rows.len(),
        0 <= src < rows.len(),
        dest != src,
        rows[dest].len() == rows[src].len(),
    ensures
        ({
            let op = Op::FMA { dest, src, scalar };
            apply_op(apply_op(rows, op), op) == rows
        }),
{
    let op = Op::FMA { dest, src, scalar };
    let after = apply_op(apply_op(rows, op), op);
    assert forall|k: int| 0 <= k < rows[dest].len() implies after[dest][k] == rows[dest][k] by {
        lemma_xor_undoes_itself(rows[dest][k], gf_mul(rows[src][k], scalar));
    }
    assert(after[dest] =~= rows[dest]);
    assert(after =~= rows);
}

/// Additions of rows and of multiples of rows, none of them of a row to itself, are undone
/// by the same list backwards.
pub proof fn law_additions_undone_backwards(
    rows: Seq<Seq<u8>>,
    ops: Seq<Op>,
    symbol_size: nat,
)
    requires
        rows_sized(rows, symbol_size),
        ops_applicable(ops, rows.len(), symbol_size),
        forall|i: int|
            0 <= i < ops.len() ==> match #[trigger] ops[i] {
                Op::AddAssign { dest, src } => dest != src,
                Op::FMA { dest, src, .. } => dest != src,
                _ => false,
            },
    ensures
        apply_ops(apply_ops(rows, ops), ops.reverse()) == rows,
    decreases ops.len(),
{
    if ops.len() > 0 {
        let fewer = ops.drop_last();
        let last = ops.last();
        let before = apply_ops(rows, fewer);
        assert(last == ops[ops.len() - 1]);
        lemma_applicable_drop_last(ops, rows.len(), symbol_size);
        law_replay_shape(rows, fewer, symbol_size);
        assert forall|i: int| 0 <= i < fewer.len() implies match #[trigger] fewer[i] {
            Op::AddAssign { dest, src } => dest != src,
            Op::FMA { dest, src, .. } => dest != src,
            _ => false,
        } by {
            assert(fewer[i] == ops[i]);
        }
        law_additions_undone_backwards(rows, fewer, symbol_size);
        match last {
            Op::AddAssign { dest, src } => {
                law_add_assign_undoes_itself(before, dest, src);
            },
            Op::FMA { dest, src, scalar } => {
                law_fma_undoes_itself(before, dest, src, scalar);
            },
            _ => {},
        }
        assert(ops.reverse() =~= seq![last] + fewer.reverse());
        law_replay_concat(apply_ops(rows, ops), seq![last], fewer.reverse());
        assert(seq![last].drop_last() =~= Seq::<Op>::empty());
        assert(apply_ops(apply_ops(rows, ops), seq![last]) == apply_op(
            apply_ops(apply_ops(rows, ops), Seq::<Op>::empty()),
            last,
        ));
    }
}

/// Adding an octet twice leaves what was there.
proof fn lemma_xor_undoes_itself(a: u8, b: u8)
    ensures
        (a ^ b) ^ b == a,
{
    assert((a ^ b) ^ b == a) by (bit_vector);
}

/// Adding one times a row is adding the row, and multiplying by one changes nothing.
pub proof fn law_scalar_one(rows: Seq<Seq<u8>>, dest: int, src: int)
    requires
        0 <= dest < rows.len(),
        0 <= src < rows.len(),
        rows[dest].len() == rows[src].len(),
    ensures
        apply_op(rows, Op::FMA { dest, src, scalar: 1 }) == apply_op(
            rows,
            Op::AddAssign { dest, src },
        ),
        apply_op(rows, Op::MulAssign { dest, scalar: 1 }) == rows,
{
    assert forall|row: Seq<u8>| scale_row(row, 1) == row by {
        assert forall|k: int| 0 <= k < row.len() implies scale_row(row, 1)[k] == row[k] by {
            law_mul_one_zero(row[k]);
        }
        assert(scale_row(row, 1) =~= row);
    }
    assert(apply_op(rows, Op::MulAssign { dest, scalar: 1 }) =~= rows);
}

/// Multiplying a row by two scalars in turn is multiplying it by their product.
pub proof fn law_mul_assign_composes(rows: Seq<Seq<u8>>, dest: int, first: u8, second: u8)
    requires
        0 <= dest < rows.len(),
    ensures
        apply_op(
            apply_op(rows, Op::MulAssign { dest, scalar: first }),
            Op::MulAssign { dest, scalar: second },
        ) == apply_op(rows, Op::MulAssign { dest, scalar: gf_mul(first, second) }),
{
    let left = apply_op(
        apply_op(rows, Op::MulAssign { dest, scalar: first }),
        Op::MulAssign { dest, scalar: second },
    );
    let right = apply_op(rows, Op::MulAssign { dest, scalar: gf_mul(first, second) });
    assert forall|k: int| 0 <= k < rows[dest].len() implies left[dest][k] == right[dest][k] by {
        law_mul_associative(rows[dest][k], first, second);
    }
    assert(left[dest] =~= right[dest]);
    assert(left =~= right);
}

/// Multiplying a row by a scalar other than zero can be undone by multiplying it by
/// another scalar.
pub proof fn law_mul_assign_can_be_undone(rows: Seq<Seq<u8>>, dest: int, scalar: u8)
    requires
        0 <= dest < rows.len(),
        scalar != 0,
    ensures
        exists|inverse: u8| #[trigger]
            apply_op(
                apply_op(rows, Op::MulAssign { dest, scalar }),
                Op::MulAssign { dest, scalar: inverse },
            ) == rows,
{
    law_mul_inverse(scalar);
    let inverse = choose|t: u8| gf_mul(scalar, t) == 1;
    law_mul_assign_composes(rows, dest, scalar, inverse);
    law_scalar_one(rows, dest, dest);
    assert(apply_op(
        apply_op(rows, Op::MulAssign { dest, scalar }),
        Op::MulAssign { dest, scalar: inverse },
    ) == rows);
}

/// A reordering is undone by the order that sends every place back.
pub proof fn law_reorder_undone_by_inverse(
    rows: Seq<Seq<u8>>,
    order: Seq<int>,
    inverse: Seq<int>,
)
    requires
        inverse.len() == rows.len(),
        forall|i: int|
            0 <= i < inverse.len() ==> 0 <= #[trigger] inverse[i] < order.len()
                && order[inverse[i]] == i,
    ensures
        apply_op(apply_op(rows, Op::Reorder { order }), Op::Reorder { order: inverse }) == rows,
{
    assert(apply_op(apply_op(rows, Op::Reorder { order }), Op::Reorder { order: inverse })
        =~= rows);
}

/// The sum of two slabs, row by row.
pub open spec fn add_all_rows(a: Seq<Seq<u8>>, b: Seq<Seq<u8>>) -> Seq<Seq<u8>> {
    Seq::new(a.len(), |i: int| add_rows(a[i], b[i]))
}

/// One operation on a sum is the sum of the operation on each part.
proof fn lemma_op_linear(a: Seq<Seq<u8>>, b: Seq<Seq<u8>>, op: Op, symbol_size: nat)
    requires
        a.len() == b.len(),
        rows_sized(a, symbol_size),
        rows_sized(b, symbol_size),
        op_applicable(op, a.len(), symbol_size),
    ensures
        apply_op(add_all_rows(a, b), op) == add_all_rows(apply_op(a, op), apply_op(b, op)),
{
    let left = apply_op(add_all_rows(a, b), op);
    let right = add_all_rows(apply_op(a, op), apply_op(b, op));
    assert forall|i: int| 0 <= i < left.len() implies left[i] == right[i] by {
        assert forall|k: int| 0 <= k < symbol_size implies left[i][k] == right[i][k] by {
            match op {
                Op::AddAssign { dest, src } => {
                    lemma_xor_exchange(a[dest][k], b[dest][k], a[src][k], b[src][k]);
                },
                Op::MulAssign { dest, scalar } => {
                    law_mul_distributive(a[dest][k], b[dest][k], scalar);
                },
                Op::FMA { dest, src, scalar } => {
                    law_mul_distributive(a[src][k], b[src][k], scalar);
                    lemma_xor_exchange(
                        a[dest][k],
                        b[dest][k],
                        gf_mul(a[src][k], scalar),
                        gf_mul(b[src][k], scalar),
                    );
                },
                Op::Reorder { .. } => {},
            }
        }
        assert(left[i] =~= right[i]);
    }
    assert(left =~= right);
}

/// Four octets can be added in either pairing.
proof fn lemma_xor_exchange(a: u8, b: u8, c: u8, d: u8)
    ensures
        (a ^ b) ^ (c ^ d) == (a ^ c) ^ (b ^ d),
{
    assert((a ^ b) ^ (c ^ d) == (a ^ c) ^ (b ^ d)) by (bit_vector);
}

/// Replay is linear: replaying operations on the sum of two slabs gives the sum of what
/// replaying them on each gives.
pub proof fn law_replay_linear(
    a: Seq<Seq<u8>>,
    b: Seq<Seq<u8>>,
    ops: Seq<Op>,
    symbol_size: nat,
)
    requires
        a.len() == b.len(),
        rows_sized(a, symbol_size),
        rows_sized(b, symbol_size),
        ops_applicable(ops, a.len(), symbol_size),
    ensures
        apply_ops(add_all_rows(a, b), ops) == add_all_rows(apply_ops(a, ops), apply_ops(b, ops)),
    decreases ops.len(),
{
    if ops.len() > 0 {
        lemma_applicable_drop_last(ops, a.len(), symbol_size);
        law_replay_shape(a, ops.drop_last(), symbol_size);
        law_replay_shape(b, ops.drop_last(), symbol_size);
        law_replay_linear(a, b, ops.drop_last(), symbol_size);
        lemma_op_linear(
            apply_ops(a, ops.drop_last()),
            apply_ops(b, ops.drop_last()),
            ops.last(),
            symbol_size,
        );
    }
}

} // verus!
