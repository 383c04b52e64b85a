//! A slab: symbols of one size, stored one after the other in one buffer.

use crate::model::{add_rows, columns_of, gather_rows, rows_sized, scale_row, with_columns};
use crate::octet::Octet;
use crate::octets;
use crate::symbol::Symbol;
use vstd::prelude::*;
use vstd::slice::slice_subrange;

verus! {

/// Symbols of one size. The octets of symbol `i` start at `i * symbol_size`.
#[derive(Clone, Debug, PartialEq, Eq)]
pub struct SymbolSlab {
    data: Vec<u8>,
    symbol_count: usize,
    symbol_size: usize,
}

/// The `count` runs of `size` octets that `data` is made of.
spec fn rows_of(data: Seq<u8>, count: nat, size: nat) -> Seq<Seq<u8>> {
    Seq::new(count, |i: int| data.subrange(i * size, i * size + size))
}

/// A run of a buffer lies inside the buffer.
proof fn lemma_run_inside(i: int, count: int, size: int)
    by (nonlinear_arith)
    requires
        0 <= i < count,
        0 <= size,
    ensures
        0 <= i * size,
        i * size + size <= count * size,
{
}

/// The runs of two symbols are apart, in the order of the symbols.
proof fn lemma_runs_apart(i: int, j: int, size: int)
    by (nonlinear_arith)
    requires
        i < j,
        0 <= size,
    ensures
        i * size + size <= j * size,
{
}

/// Writing inside the run of symbol `dest` changes that row alone.
proof fn lemma_rows_after_write(
    before: Seq<u8>,
    after: Seq<u8>,
    count: nat,
    size: nat,
    dest: int,
)
    requires
        before.len() == count * size,
        after.len() == before.len(),
        0 <= dest < count,
        forall|j: int|
            0 <= j < before.len() && !(dest * size <= j < dest * size + size) ==> after[j]
                == before[j],
    ensures
        rows_of(after, count, size) == rows_of(before, count, size).update(
            dest,
            after.subrange(dest * size, dest * size + size),
        ),
{
    let rows = rows_of(before, count, size).update(
        dest,
        after.subrange(dest * size, dest * size + size),
    );
    assert forall|i: int| 0 <= i < count implies rows_of(after, count, size)[i] == rows[i] by {
        lemma_run_inside(i, count as int, size as int);
        if i < dest {
            lemma_runs_apart(i, dest, size as int);
        } else if dest < i {
            lemma_runs_apart(dest, i, size as int);
        }
        assert(rows_of(after, count, size)[i] =~= rows[i]);
    }
    assert(rows_of(after, count, size) =~= rows);
}

/// A buffer with one more run is the rows that it had, and that run.
proof fn lemma_rows_after_append(before: Seq<u8>, run: Seq<u8>, count: nat, size: nat)
    requires
        before.len() == count * size,
        run.len() == size,
    ensures
        (before + run).len() == (count + 1) * size,
        rows_of(before + run, count + 1, size) == rows_of(before, count, size).push(run),
{
    assert((count + 1) * size == count * size + size) by (nonlinear_arith);
    let after = before + run;
    let rows = rows_of(before, count, size).push(run);
    assert forall|i: int| 0 <= i < count + 1 implies rows_of(after, count + 1, size)[i]
        == rows[i] by {
        lemma_run_inside(i, (count + 1) as int, size as int);
        if i < count {
            lemma_run_inside(i, count as int, size as int);
        }
        assert(rows_of(after, count + 1, size)[i] =~= rows[i]);
    }
    assert(rows_of(after, count + 1, size) =~= rows);
}

impl View for SymbolSlab {
    type V = Seq<Seq<u8>>;

    /// The rows, one per symbol.
    closed spec fn view(&self) -> Seq<Seq<u8>> {
        rows_of(self.data@, self.symbol_count as nat, self.symbol_size as nat)
    }
}

impl SymbolSlab {
    /// The number of octets of each symbol.
    pub closed spec fn size(&self) -> nat {
        self.symbol_size as nat
    }

    /// The buffer holds the symbols and nothing else.
    pub closed spec fn buffer_filled(&self) -> bool {
        self.data@.len() == self.symbol_count * self.symbol_size
    }

    /// The buffer is filled, and every row has the slab's symbol size.
    pub open spec fn wf(&self) -> bool {
        &&& self.buffer_filled()
        &&& rows_sized(self@, self.size())
        &&& self@.len() * self.size() <= usize::MAX
        &&& self@.len() <= usize::MAX
        &&& self.size() <= usize::MAX
    }

    proof fn lemma_wf(&self)
        requires
            self.buffer_filled(),
        ensures
            self.wf(),
    {
        assert forall|i: int| 0 <= i < self@.len() implies (#[trigger] self@[i]).len()
            == self.size() by {
            lemma_run_inside(i, self.symbol_count as int, self.symbol_size as int);
        }
        assert(self.data@.len() <= usize::MAX) by {
            assert(self.data@.len() == self.data.len());
        }
    }

    /// The slab of the given symbols, all of `symbol_size` octets.
    pub fn from_symbols(symbols: Vec<Symbol>, symbol_size: usize) -> (res: SymbolSlab)
        requires
            forall|i: int| 0 <= i < symbols.len() ==> (#[trigger] symbols[i])@.len() == symbol_size,
            symbols.len() * symbol_size <= usize::MAX,
        ensures
            res.wf(),
            res.size() == symbol_size,
            res@ == Seq::new(symbols@.len(), |i: int| symbols@[i]@),
    {
        let symbol_count: usize = symbols.len();
        let mut data: Vec<u8> = Vec::new();
        let ghost rows = Seq::new(symbols@.len(), |i: int| symbols@[i]@);
        assert(rows_of(data@, 0, symbol_size as nat) =~= rows.take(0));
        assert(0 * symbol_size == 0) by (nonlinear_arith);
        for i in 0..symbol_count
            invariant
                symbol_count == symbols.len(),
                rows == Seq::new(symbols@.len(), |i: int| symbols@[i]@),
                forall|i: int|
                    0 <= i < symbols.len() ==> (#[trigger] symbols[i])@.len() == symbol_size,
                data.len() == i * symbol_size,
                rows_of(data@, i as nat, symbol_size as nat) == rows.take(i as int),
        {
            let ghost before = data@;
            let bytes = symbols[i].as_bytes();
            data.extend_from_slice(bytes);
            proof {
                assert(data@ =~= before + symbols@[i as int]@);
                lemma_rows_after_append(
                    before,
                    symbols@[i as int]@,
                    i as nat,
                    symbol_size as nat,
                );
                assert(rows.take(i + 1) =~= rows.take(i as int).push(rows[i as int]));
            }
        }
        assert(rows.take(symbol_count as int) =~= rows);
        let res = SymbolSlab { data, symbol_count, symbol_size };
        proof {
            res.lemma_wf();
        }
        res
    }

    /// The number of symbols.
    pub fn len(&self) -> (res: usize)
        ensures
            res == self@.len(),
    {
        self.symbol_count
    }

    /// The number of octets of each symbol.
    pub fn symbol_size(&self) -> (res: usize)
        ensures
            res == self.size(),
    {
        self.symbol_size
    }

    /// The octets of symbol `i`.
    pub fn get(&self, i: usize) -> (res: &[u8])
        requires
            self.wf(),
            i < self@.len(),
        ensures
            res@ == self@[i as int],
    {
        proof {
            lemma_run_inside(i as int, self.symbol_count as int, self.symbol_size as int);
        }
        let start: usize = i * self.symbol_size;
        slice_subrange(self.data.as_slice(), start, start + self.symbol_size)
    }

    /// Adds symbol `src` to symbol `dest`.
    pub fn add_assign(&mut self, dest: usize, src: usize)
        requires
            old(self).wf(),
            dest < old(self)@.len(),
            src < old(self)@.len(),
        ensures
            final(self).wf(),
            final(self).size() == old(self).size(),
            final(self)@ == old(self)@.update(
                dest as int,
                add_rows(old(self)@[dest as int], old(self)@[src as int]),
            ),
    {
        let ghost before = self.data@;
        let ghost count = self.symbol_count as nat;
        let ghost size = self.symbol_size as nat;
        proof {
            lemma_run_inside(dest as int, count as int, size as int);
            lemma_run_inside(src as int, count as int, size as int);
            if dest < src {
                lemma_runs_apart(dest as int, src as int, size as int);
            } else if src < dest {
                lemma_runs_apart(src as int, dest as int, size as int);
            }
        }
        let width: usize = self.symbol_size;
        octets::add_assign(&mut self.data, dest * width, src * width, width);
        proof {
            lemma_rows_after_write(before, self.data@, count, size, dest as int);
            assert(self.data@.subrange(dest * size, dest * size + size) =~= add_rows(
                rows_of(before, count, size)[dest as int],
                rows_of(before, count, size)[src as int],
            ));
            self.lemma_wf();
        }
    }

    /// Multiplies symbol `dest` by `scalar`.
    pub fn mulassign_scalar(&mut self, dest: usize, scalar: &Octet)
        requires
            old(self).wf(),
            dest < old(self)@.len(),
        ensures
            final(self).wf(),
            final(self).size() == old(self).size(),
            final(self)@ == old(self)@.update(
                dest as int,
                scale_row(old(self)@[dest as int], scalar@),
            ),
    {
        let ghost before = self.data@;
        let ghost count = self.symbol_count as nat;
        let ghost size = self.symbol_size as nat;
        proof {
            lemma_run_inside(dest as int, count as int, size as int);
        }
        let width: usize = self.symbol_size;
        octets::mulassign_scalar(&mut self.data, dest * width, width, scalar);
        proof {
            lemma_rows_after_write(before, self.data@, count, size, dest as int);
            assert(self.data@.subrange(dest * size, dest * size + size) =~= scale_row(
                rows_of(before, count, size)[dest as int],
                scalar@,
            ));
            self.lemma_wf();
        }
    }

    /// Adds `scalar` times symbol `src` to symbol `dest`.
    pub fn fma(&mut self, dest: usize, src: usize, scalar: &Octet)
        requires
            old(self).wf(),
            dest < old(self)@.len(),
            src < old(self)@.len(),
        ensures
            final(self).wf(),
            final(self).size() == old(self).size(),
            final(self)@ == old(self)@.update(
                dest as int,
                add_rows(
                    old(self)@[dest as int],
                    scale_row(old(self)@[src as int], scalar@),
                ),
            ),
    {
        let ghost before = self.data@;
        let ghost count = self.symbol_count as nat;
        let ghost size = self.symbol_size as nat;
        proof {
            lemma_run_inside(dest as int, count as int, size as int);
            lemma_run_inside(src as int, count as int, size as int);
            if dest < src {
                lemma_runs_apart(dest as int, src as int, size as int);
            } else if src < dest {
                lemma_runs_apart(src as int, dest as int, size as int);
            }
        }
        let width: usize = self.symbol_size;
        octets::fused_addassign_mul_scalar(
            &mut self.data,
            dest * width,
            src * width,
            width,
            scalar,
        );
        proof {
            lemma_rows_after_write(before, self.data@, count, size, dest as int);
            assert(self.data@.subrange(dest * size, dest * size + size) =~= add_rows(
                rows_of(before, count, size)[dest as int],
                scale_row(rows_of(before, count, size)[src as int], scalar@),
            ));
            self.lemma_wf();
        }
    }

    /// Puts symbol `order[i]` at place `i`, for each place of `order`. A symbol that
    /// `order` does not name is dropped.
    pub fn reorder(&mut self, order: &[usize])
        requires
            old(self).wf(),
            forall|i: int| 0 <= i < order.len() ==> #[trigger] order[i] < old(self)@.len(),
            order.len() * old(self).size() <= usize::MAX,
        ensures
            final(self).wf(),
            final(self).size() == old(self).size(),
            final(self)@ == gather_rows(old(self)@, order@.map_values(|i: usize| i as int)),
    {
        let ghost rows = gather_rows(self@, order@.map_values(|i: usize| i as int));
        let ghost size = self.symbol_size as nat;
        let count: usize = order.len();
        let mut data: Vec<u8> = Vec::new();
        assert(rows_of(data@, 0, size) =~= rows.take(0));
        assert(0 * size == 0) by (nonlinear_arith);
        for i in 0..count
            invariant
                count == order.len(),
                *self == *old(self),
                self.wf(),
                size == self.size(),
                forall|i: int| 0 <= i < order.len() ==> #[trigger] order[i] < self@.len(),
                rows == gather_rows(self@, order@.map_values(|i: usize| i as int)),
                data.len() == i * size,
                rows_of(data@, i as nat, size) == rows.take(i as int),
        {
            let ghost before = data@;
            let row = self.get(order[i]);
            data.extend_from_slice(row);
            proof {
                let run = rows[i as int];
                assert(run == self@[order@[i as int] as int]);
                assert(data@ =~= before + run);
                lemma_rows_after_append(before, run, i as nat, size);
                assert(rows.take(i + 1) =~= rows.take(i as int).push(run));
            }
        }
        assert(rows.take(count as int) =~= rows);
        self.data = data;
        self.symbol_count = count;
        proof {
            self.lemma_wf();
        }
    }

    /// A slab of the same symbols cut down to their octets from `start` up to `end`.
    pub fn columns(&self, start: usize, end: usize) -> (res: SymbolSlab)
        requires
            self.wf(),
            start <= end <= self.size(),
        ensures
            res.wf(),
            res.size() == end - start,
            res@ == columns_of(self@, start as int, end as int),
    {
        let width: usize = end - start;
        let count: usize = self.symbol_count;
        let mut data: Vec<u8> = Vec::new();
        let ghost rows = columns_of(self@, start as int, end as int);
        assert(rows_of(data@, 0, width as nat) =~= rows.take(0));
        assert(0 * width == 0) by (nonlinear_arith);
        for i in 0..count
            invariant
                self.wf(),
                count == self@.len(),
                width == end - start,
                start <= end <= self.size(),
                rows == columns_of(self@, start as int, end as int),
                data.len() == i * width,
                rows_of(data@, i as nat, width as nat) == rows.take(i as int),
        {
            let ghost before = data@;
            let row = self.get(i);
            data.extend_from_slice(slice_subrange(row, start, end));
            proof {
                let run = rows[i as int];
                assert(data@ =~= before + run);
                lemma_rows_after_append(before, run, i as nat, width as nat);
                assert(rows.take(i + 1) =~= rows.take(i as int).push(run));
            }
        }
        assert(rows.take(count as int) =~= rows);
        let res = SymbolSlab { data, symbol_count: count, symbol_size: width };
        proof {
            res.lemma_wf();
        }
        res
    }

    /// Writes the symbols of `chunk` over these ones, from octet `start` of each on.
    pub fn set_columns(&mut self, start: usize, chunk: &SymbolSlab)
        requires
            old(self).wf(),
            chunk.wf(),
            chunk@.len() == old(self)@.len(),
            start + chunk.size() <= old(self).size(),
        ensures
            final(self).wf(),
            final(self).size() == old(self).size(),
            final(self)@ == with_columns(old(self)@, start as int, chunk@),
    {
        let count: usize = self.symbol_count;
        let size: usize = self.symbol_size;
        let width: usize = chunk.symbol_size;
        let ghost rows = self@;
        let ghost target = with_columns(rows, start as int, chunk@);
        for i in 0..count
            invariant
                self.wf(),
                chunk.wf(),
                rows == old(self)@,
                self@.len() == count,
                rows.len() == count,
                chunk@.len() == count,
                self.symbol_count == count,
                self.symbol_size == size,
                size == old(self).size(),
                chunk.size() == width,
                start + width <= size,
                target == with_columns(rows, start as int, chunk@),
                forall|r: int| 0 <= r < i ==> #[trigger] self@[r] == target[r],
                forall|r: int| i <= r < count ==> #[trigger] self@[r] == rows[r],
        {
            let row = chunk.get(i);
            let ghost before = self.data@;
            let ghost rows_before = self@;
            proof {
                lemma_run_inside(i as int, count as int, size as int);
            }
            let base: usize = i * size + start;
            for k in 0..width
                invariant
                    row@ == chunk@[i as int],
                    row.len() == width,
                    base == i * size + start,
                    0 <= i < count,
                    start + width <= size,
                    i * size + size <= before.len(),
                    self.data.len() == before.len(),
                    self.symbol_count == count,
                    self.symbol_size == size,
                    forall|j: int|
                        0 <= j < before.len() ==> #[trigger] self.data@[j] == (if base <= j < base
                            + k {
                            row@[j - base]
                        } else {
                            before[j]
                        }),
            {
                let octet: u8 = row[k];
                self.data[base + k] = octet;
            }
            proof {
                lemma_rows_after_write(before, self.data@, count as nat, size as nat, i as int);
                assert(rows_before[i as int] == rows[i as int]);
                assert(self.data@.subrange(i * size, i * size + size) =~= target[i as int]);
                self.lemma_wf();
            }
        }
        assert(self@ =~= target);
    }
}

} // verus!
