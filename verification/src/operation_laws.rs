//! What performing an operation does, octet by octet, and how operations relate.
//!
//! The laws say in terms of single octets, rows and indices what the functions of
//! [`crate::model`] amount to.

use crate::model::{
    add_rows, applicable_at, apply_op, apply_ops, columns_of, count_after, count_after_op,
    gather_rows, law_replay_shape, lemma_applicable_drop_last,
    op_applicable, op_views, ops_applicable, rows_sized, scale_row, with_columns, Op,
};
use crate::octet::{
    gf_mul, law_mul_commutative, law_mul_distributive, law_mul_one_zero,
};
use crate::operation_vector::{ReplayOp, SymbolOps};
use vstd::prelude::*;

verus! {

/// The sum of two rows has the sum of their octets at each place.
pub proof fn law_sum_of_rows(dest: Seq<u8>, src: Seq<u8>)
    ensures
        add_rows(dest, src).len() == dest.len(),
        forall|k: int|
            0 <= k < dest.len() ==> #[trigger] add_rows(dest, src)[k] == dest[k] ^ src[k],
{
}

/// A row times a scalar has the product of its octet and the scalar at each place.
pub proof fn law_multiple_of_row(row: Seq<u8>, scalar: u8)
    ensures
        scale_row(row, scalar).len() == row.len(),
        forall|k: int|
            0 <= k < row.len() ==> #[trigger] scale_row(row, scalar)[k] == gf_mul(row[k], scalar),
{
}

/// Adding row `src` to row `dest` leaves the sum of the two octets at each place of `dest`,
/// for any two rows, and every other row as it was.
pub proof fn law_add_assign_octets(rows: Seq<Seq<u8>>, dest: int, src: int)
    requires
        0 <= dest < rows.len(),
        0 <= src < rows.len(),
    ensures
        ({
            let after = apply_op(rows, Op::AddAssign { dest, src });
            &&& after.len() == rows.len()
            &&& after[dest].len() == rows[dest].len()
            &&& forall|k: int|
                0 <= k < rows[dest].len() ==> #[trigger] after[dest][k] == rows[dest][k]
                    ^ rows[src][k]
            &&& forall|i: int| 0 <= i < rows.len() && i != dest ==> #[trigger] after[i] == rows[i]
        }),
{
}

/// Multiplying row `dest` by a scalar leaves the product of octet and scalar at each place
/// of `dest`, for any row and any scalar, and every other row as it was.
pub proof fn law_mul_assign_octets(rows: Seq<Seq<u8>>, dest: int, scalar: u8)
    requires
        0 <= dest < rows.len(),
    ensures
        ({
            let after = apply_op(rows, Op::MulAssign { dest, scalar });
            &&& after.len() == rows.len()
            &&& after[dest].len() == rows[dest].len()
            &&& forall|k: int|
                0 <= k < rows[dest].len() ==> #[trigger] after[dest][k] == gf_mul(
                    rows[dest][k],
                    scalar,
                )
            &&& forall|i: int| 0 <= i < rows.len() && i != dest ==> #[trigger] after[i] == rows[i]
        }),
{
}

/// Adding a multiple of row `src` to row `dest` leaves at each place of `dest` its octet
/// plus the product of the other octet and the scalar, for any two rows and any scalar, and
/// every other row as it was.
pub proof fn law_fma_octets(rows: Seq<Seq<u8>>, dest: int, src: int, scalar: u8)
    requires
        0 <= dest < rows.len(),
        0 <= src < rows.len(),
        rows[dest].len() == rows[src].len(),
    ensures
        ({
            let after = apply_op(rows, Op::FMA { dest, src, scalar });
            &&& after.len() == rows.len()
            &&& after[dest].len() == rows[dest].len()
            &&& forall|k: int|
                0 <= k < rows[dest].len() ==> #[trigger] after[dest][k] == rows[dest][k] ^ gf_mul(
                    rows[src][k],
                    scalar,
                )
            &&& forall|i: int| 0 <= i < rows.len() && i != dest ==> #[trigger] after[i] == rows[i]
        }),
{
}

/// A reordering leaves at each place of the order the row that the order names there, for
/// any number of rows and any order.
pub proof fn law_reorder_places(rows: Seq<Seq<u8>>, order: Seq<int>)
    ensures
        ({
            let after = apply_op(rows, Op::Reorder { order });
            &&& after.len() == order.len()
            &&& forall|i: int| 0 <= i < order.len() ==> #[trigger] after[i] == rows[order[i]]
        }),
        gather_rows(rows, order).len() == order.len(),
        forall|i: int|
            0 <= i < order.len() ==> #[trigger] gather_rows(rows, order)[i] == rows[order[i]],
{
}

/// Reordering twice is reordering once, by the first order read off at the second.
pub proof fn law_reorder_composes(rows: Seq<Seq<u8>>, first: Seq<int>, second: Seq<int>)
    requires
        forall|i: int| 0 <= i < second.len() ==> 0 <= #[trigger] second[i] < first.len(),
    ensures
        apply_op(apply_op(rows, Op::Reorder { order: first }), Op::Reorder { order: second })
            == apply_op(
            rows,
            Op::Reorder { order: Seq::new(second.len(), |i: int| first[second[i]]) },
        ),
{
    let both = Seq::new(second.len(), |i: int| first[second[i]]);
    assert(apply_op(
        apply_op(rows, Op::Reorder { order: first }),
        Op::Reorder { order: second },
    ) =~= apply_op(rows, Op::Reorder { order: both }));
}

/// What becomes of a row by an addition or a multiplication depends on the octets of the
/// rows involved alone, not on their places or on the other rows.
pub proof fn law_place_does_not_matter(
    rows: Seq<Seq<u8>>,
    dest: int,
    src: int,
    other_rows: Seq<Seq<u8>>,
    other_dest: int,
    other_src: int,
    scalar: u8,
)
    requires
        0 <= dest < rows.len(),
        0 <= src < rows.len(),
        0 <= other_dest < other_rows.len(),
        0 <= other_src < other_rows.len(),
        rows[dest] == other_rows[other_dest],
        rows[src] == other_rows[other_src],
    ensures
        apply_op(rows, Op::AddAssign { dest, src })[dest] == apply_op(
            other_rows,
            Op::AddAssign { dest: other_dest, src: other_src },
        )[other_dest],
        apply_op(rows, Op::MulAssign { dest, scalar })[dest] == apply_op(
            other_rows,
            Op::MulAssign { dest: other_dest, scalar },
        )[other_dest],
        apply_op(rows, Op::FMA { dest, src, scalar })[dest] == apply_op(
            other_rows,
            Op::FMA { dest: other_dest, src: other_src, scalar },
        )[other_dest],
{
}

/// Exchanging two rows, multiplying one of the two places, and exchanging them back is
/// multiplying the row at the other place.
pub proof fn law_multiplied_at_another_place(
    rows: Seq<Seq<u8>>,
    order: Seq<int>,
    dest: int,
    other: int,
    scalar: u8,
)
    requires
        0 <= dest < rows.len(),
        0 <= other < rows.len(),
        order.len() == rows.len(),
        forall|i: int|
            0 <= i < order.len() ==> #[trigger] order[i] == (if i == dest {
                other
            } else if i == other {
                dest
            } else {
                i
            }),
    ensures
        apply_op(
            apply_op(
                apply_op(rows, Op::Reorder { order }),
                Op::MulAssign { dest, scalar },
            ),
            Op::Reorder { order },
        ) == apply_op(rows, Op::MulAssign { dest: other, scalar }),
{
    let left = apply_op(
        apply_op(apply_op(rows, Op::Reorder { order }), Op::MulAssign { dest, scalar }),
        Op::Reorder { order },
    );
    assert(left =~= apply_op(rows, Op::MulAssign { dest: other, scalar }));
}

/// Adding a row to a row of zeros leaves a copy of it.
pub proof fn law_adding_to_zeros_copies(rows: Seq<Seq<u8>>, dest: int, src: int)
    requires
        0 <= dest < rows.len(),
        0 <= src < rows.len(),
        rows[dest].len() == rows[src].len(),
        forall|k: int| 0 <= k < rows[dest].len() ==> #[trigger] rows[dest][k] == 0,
    ensures
        apply_op(rows, Op::AddAssign { dest, src })[dest] == rows[src],
{
    let after = apply_op(rows, Op::AddAssign { dest, src });
    assert forall|k: int| 0 <= k < rows[src].len() implies after[dest][k] == rows[src][k] by {
        assert(rows[dest][k] == 0);
        let octet = rows[src][k];
        assert(0u8 ^ octet == octet) by (bit_vector);
    }
    assert(after[dest] =~= rows[src]);
}

/// Multiplying a row by zero leaves zeros, and adding zero times a row changes nothing.
pub proof fn law_scalar_zero(rows: Seq<Seq<u8>>, dest: int, src: int)
    requires
        0 <= dest < rows.len(),
        0 <= src < rows.len(),
        rows[dest].len() == rows[src].len(),
    ensures
        forall|k: int|
            0 <= k < rows[dest].len() ==> #[trigger] apply_op(
                rows,
                Op::MulAssign { dest, scalar: 0 },
            )[dest][k] == 0,
        apply_op(rows, Op::FMA { dest, src, scalar: 0 }) == rows,
{
    let scaled = apply_op(rows, Op::MulAssign { dest, scalar: 0 });
    let after = apply_op(rows, Op::FMA { dest, src, scalar: 0 });
    assert forall|k: int| 0 <= k < rows[dest].len() implies #[trigger] scaled[dest][k] == 0 by {
        law_mul_one_zero(rows[dest][k]);
    }
    assert forall|k: int| 0 <= k < rows[dest].len() implies after[dest][k] == rows[dest][k] by {
        law_mul_one_zero(rows[src][k]);
        let octet = rows[dest][k];
        assert(octet ^ 0u8 == octet) by (bit_vector);
    }
    assert(after[dest] =~= rows[dest]);
    assert(after =~= rows);
}

/// Adding two multiples of a row to another row is adding the multiple by the sum of the
/// scalars.
pub proof fn law_fma_scalars_add_up(
    rows: Seq<Seq<u8>>,
    dest: int,
    src: int,
    first: u8,
    second: u8,
)
    requires
        0 <= dest < rows.len(),
        0 <= src < rows.len(),
        dest != src,
        rows[dest].len() == rows[src].len(),
    ensures
        apply_op(
            apply_op(rows, Op::FMA { dest, src, scalar: first }),
            Op::FMA { dest, src, scalar: second },
        ) == apply_op(rows, Op::FMA { dest, src, scalar: first ^ second }),
{
    let left = apply_op(
        apply_op(rows, Op::FMA { dest, src, scalar: first }),
        Op::FMA { dest, src, scalar: second },
    );
    let right = apply_op(rows, Op::FMA { dest, src, scalar: first ^ second });
    assert forall|k: int| 0 <= k < rows[dest].len() implies left[dest][k] == right[dest][k] by {
        let d = rows[dest][k];
        let s = rows[src][k];
        law_mul_distributive(first, second, s);
        law_mul_commutative(first ^ second, s);
        law_mul_commutative(first, s);
        law_mul_commutative(second, s);
        let x = gf_mul(s, first);
        let y = gf_mul(s, second);
        assert((d ^ x) ^ y == d ^ (x ^ y)) by (bit_vector);
    }
    assert(left[dest] =~= right[dest]);
    assert(left =~= right);
}

/// Adding a multiple of a row leaves in `dest` what multiplying that row and then adding it
/// leaves there.
pub proof fn law_fma_is_scaled_addition(rows: Seq<Seq<u8>>, dest: int, src: int, scalar: u8)
    requires
        0 <= dest < rows.len(),
        0 <= src < rows.len(),
        dest != src,
        rows[dest].len() == rows[src].len(),
    ensures
        apply_op(rows, Op::FMA { dest, src, scalar })[dest] == apply_op(
            apply_op(rows, Op::MulAssign { dest: src, scalar }),
            Op::AddAssign { dest, src },
        )[dest],
{
    let left = apply_op(rows, Op::FMA { dest, src, scalar });
    let right = apply_op(
        apply_op(rows, Op::MulAssign { dest: src, scalar }),
        Op::AddAssign { dest, src },
    );
    assert(left[dest] =~= right[dest]);
}

/// A row added to itself leaves zeros.
pub proof fn law_adding_to_itself_clears(rows: Seq<Seq<u8>>, dest: int)
    requires
        0 <= dest < rows.len(),
    ensures
        forall|k: int|
            0 <= k < rows[dest].len() ==> #[trigger] apply_op(
                rows,
                Op::AddAssign { dest, src: dest },
            )[dest][k] == 0,
{
    let after = apply_op(rows, Op::AddAssign { dest, src: dest });
    assert forall|k: int| 0 <= k < rows[dest].len() implies #[trigger] after[dest][k] == 0 by {
        let octet = rows[dest][k];
        assert(octet ^ octet == 0u8) by (bit_vector);
    }
}

/// Replaying no operation changes nothing, replaying one is performing it, and one more
/// operation at the end is performed on what the others leave.
pub proof fn law_replay_steps(rows: Seq<Seq<u8>>, ops: Seq<Op>, op: Op)
    ensures
        apply_ops(rows, Seq::<Op>::empty()) == rows,
        apply_ops(rows, seq![op]) == apply_op(rows, op),
        apply_ops(rows, ops.push(op)) == apply_op(apply_ops(rows, ops), op),
{
    assert(seq![op].drop_last() =~= Seq::<Op>::empty());
    assert(apply_ops(rows, seq![op].drop_last()) == rows);
    assert(seq![op].last() == op);
    assert(ops.push(op).drop_last() =~= ops);
}

/// An operation can be performed whenever its indices name rows and, for a reordering, the
/// rows that it leaves fit in memory; and only then.
pub proof fn law_when_op_is_applicable(
    dest: int,
    src: int,
    scalar: u8,
    order: Seq<int>,
    count: nat,
    symbol_size: nat,
)
    ensures
        op_applicable(Op::AddAssign { dest, src }, count, symbol_size) <==> 0 <= dest < count && 0
            <= src < count,
        op_applicable(Op::MulAssign { dest, scalar }, count, symbol_size) <==> 0 <= dest < count,
        op_applicable(Op::FMA { dest, src, scalar }, count, symbol_size) <==> 0 <= dest < count
            && 0 <= src < count,
        op_applicable(Op::Reorder { order }, count, symbol_size) <==> order.len() * symbol_size
            <= usize::MAX && forall|i: int|
            0 <= i < order.len() ==> 0 <= #[trigger] order[i] < count,
{
}

/// A list can be performed when it is empty, or when all but its last operation can be and
/// the last one can be on the rows that those leave; and only then.
pub proof fn law_when_ops_are_applicable(
    rows: Seq<Seq<u8>>,
    ops: Seq<Op>,
    op: Op,
    symbol_size: nat,
)
    requires
        rows_sized(rows, symbol_size),
    ensures
        ops_applicable(Seq::<Op>::empty(), rows.len(), symbol_size),
        ops_applicable(ops.push(op), rows.len(), symbol_size) <==> ops_applicable(
            ops,
            rows.len(),
            symbol_size,
        ) && op_applicable(op, apply_ops(rows, ops).len(), symbol_size),
{
    let longer = ops.push(op);
    let count = rows.len();
    assert(longer.drop_last() =~= ops);
    assert(longer.last() == op);
    if ops_applicable(longer, count, symbol_size) {
        lemma_applicable_drop_last(longer, count, symbol_size);
        law_replay_shape(rows, ops, symbol_size);
    }
    if ops_applicable(ops, count, symbol_size) && op_applicable(
        op,
        apply_ops(rows, ops).len(),
        symbol_size,
    ) {
        law_replay_shape(rows, ops, symbol_size);
        assert forall|i: int| 0 <= i < longer.len() implies #[trigger] applicable_at(
            longer,
            i,
            count,
            symbol_size,
        ) by {
            if i < ops.len() {
                assert(longer.take(i) =~= ops.take(i));
                assert(applicable_at(ops, i, count, symbol_size));
            } else {
                assert(longer.take(i) =~= ops);
            }
        }
    }
}

/// Rows are of a size when each of them is, and only then.
pub proof fn law_when_rows_are_sized(rows: Seq<Seq<u8>>, symbol_size: nat)
    ensures
        rows_sized(rows, symbol_size) <==> forall|i: int|
            0 <= i < rows.len() ==> (#[trigger] rows[i]).len() == symbol_size,
{
}

/// Columns cut out keep each octet, moved to the front by where the cut starts.
pub proof fn law_columns_cut_out(rows: Seq<Seq<u8>>, symbol_size: nat, lo: int, hi: int)
    requires
        rows_sized(rows, symbol_size),
        0 <= lo <= hi <= symbol_size,
    ensures
        columns_of(rows, lo, hi).len() == rows.len(),
        forall|i: int|
            0 <= i < rows.len() ==> (#[trigger] columns_of(rows, lo, hi)[i]).len() == hi - lo,
        forall|i: int, k: int|
            0 <= i < rows.len() && 0 <= k < hi - lo ==> #[trigger] columns_of(rows, lo, hi)[i][k]
                == rows[i][lo + k],
{
}

/// Columns written over rows are there afterwards, and every other octet is as it was.
pub proof fn law_columns_written(
    rows: Seq<Seq<u8>>,
    symbol_size: nat,
    lo: int,
    chunk: Seq<Seq<u8>>,
    width: nat,
)
    requires
        rows_sized(rows, symbol_size),
        chunk.len() == rows.len(),
        rows_sized(chunk, width),
        0 <= lo,
        lo + width <= symbol_size,
    ensures
        ({
            let after = with_columns(rows, lo, chunk);
            &&& after.len() == rows.len()
            &&& rows_sized(after, symbol_size)
            &&& forall|i: int, k: int|
                0 <= i < rows.len() && 0 <= k < symbol_size ==> #[trigger] after[i][k] == (if lo
                    <= k < lo + width {
                    chunk[i][k - lo]
                } else {
                    rows[i][k]
                })
        }),
{
    let after = with_columns(rows, lo, chunk);
    assert forall|i: int| 0 <= i < after.len() implies (#[trigger] after[i]).len()
        == symbol_size by {
        assert(rows[i].len() == symbol_size);
    }
    assert forall|i: int, k: int|
        0 <= i < rows.len() && 0 <= k < symbol_size implies #[trigger] after[i][k] == (if lo <= k
        < lo + width {
        chunk[i][k - lo]
    } else {
        rows[i][k]
    }) by {
        assert(chunk[i].len() == width);
        assert(rows[i].len() == symbol_size);
    }
}

/// A list of operations stands for as many operations, each for what it stands for alone.
pub proof fn law_views_one_by_one<T: View<V = Op>>(ops: Seq<T>)
    ensures
        op_views(ops).len() == ops.len(),
        forall|i: int| 0 <= i < ops.len() ==> #[trigger] op_views(ops)[i] == ops[i]@,
{
}

/// A recorded operation stands for the operation of its kind with its own indices, scalar
/// or order.
pub proof fn law_recorded_operation(op: SymbolOps)
    ensures
        match op {
            SymbolOps::AddAssign { dest, src } => op@ == (Op::AddAssign {
                dest: dest as int,
                src: src as int,
            }),
            SymbolOps::MulAssign { dest, scalar } => op@ == (Op::MulAssign {
                dest: dest as int,
                scalar: scalar@,
            }),
            SymbolOps::FMA { dest, src, scalar } => op@ == (Op::FMA {
                dest: dest as int,
                src: src as int,
                scalar: scalar@,
            }),
            SymbolOps::Reorder { order } => op@ is Reorder && op@->order.len() == order@.len()
                && forall|i: int|
                0 <= i < order@.len() ==> #[trigger] op@->order[i] == order@[i],
        },
{
}

/// An operation of a schedule stands for the operation of its kind with its own indices,
/// scalar or order.
pub proof fn law_scheduled_operation(op: ReplayOp)
    ensures
        match op {
            ReplayOp::AddAssign { dest, src } => op@ == (Op::AddAssign {
                dest: dest as int,
                src: src as int,
            }),
            ReplayOp::MulAssign { dest, scalar } => op@ == (Op::MulAssign {
                dest: dest as int,
                scalar: scalar@,
            }),
            ReplayOp::FMA { dest, src, scalar } => op@ == (Op::FMA {
                dest: dest as int,
                src: src as int,
                scalar: scalar@,
            }),
            ReplayOp::Reorder { order } => op@ is Reorder && op@->order.len() == order@.len()
                && forall|i: int|
                0 <= i < order@.len() ==> #[trigger] op@->order[i] == order@[i],
        },
{
}

/// An operation of a schedule and a recorded operation that stand for the same thing are of
/// one kind and have the same indices, scalar and order.
pub proof fn law_schedule_keeps_fields(recorded: SymbolOps, scheduled: ReplayOp)
    requires
        scheduled@ == recorded@,
    ensures
        match (recorded, scheduled) {
            (
                SymbolOps::AddAssign { dest, src },
                ReplayOp::AddAssign { dest: dest32, src: src32 },
            ) => dest == dest32 && src == src32,
            (
                SymbolOps::MulAssign { dest, scalar },
                ReplayOp::MulAssign { dest: dest32, scalar: same },
            ) => dest == dest32 && scalar@ == same@,
            (
                SymbolOps::FMA { dest, src, scalar },
                ReplayOp::FMA { dest: dest32, src: src32, scalar: same },
            ) => dest == dest32 && src == src32 && scalar@ == same@,
            (SymbolOps::Reorder { order }, ReplayOp::Reorder { order: same }) => order@ == same@,
            _ => false,
        },
{
    if let SymbolOps::Reorder { order } = recorded {
        if let ReplayOp::Reorder { order: same } = scheduled {
            let indices = order@.map_values(|i: usize| i as int);
            let same_indices = same@.map_values(|i: usize| i as int);
            assert(indices == same_indices);
            assert(indices.len() == order@.len() && same_indices.len() == same@.len());
            assert forall|i: int| 0 <= i < order@.len() implies order@[i] == same@[i] by {
                assert(indices[i] == same_indices[i]);
            }
            assert(order@ =~= same@);
        }
    }
}

/// Additions and multiplications leave as many rows as there were, a reordering as many as
/// its order has places, and a list as many as its last operation leaves.
pub proof fn law_how_many_rows(count: nat, ops: Seq<Op>, op: Op)
    ensures
        count_after_op(count, op) == (if op is Reorder {
            op->order.len()
        } else {
            count
        }),
        count_after(count, Seq::<Op>::empty()) == count,
        count_after(count, ops.push(op)) == (if op is Reorder {
            op->order.len()
        } else {
            count_after(count, ops)
        }),
{
    assert(ops.push(op).drop_last() =~= ops);
}

} // verus!
