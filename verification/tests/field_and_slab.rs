use symbol_replay::octet::{mul_bytes, Octet};
use symbol_replay::operation_vector::{perform_op, SymbolOps};
use symbol_replay::symbol::Symbol;
use symbol_replay::symbol_slab::SymbolSlab;

fn slab(rows: &[&[u8]]) -> SymbolSlab {
    let symbols: Vec<Symbol> = rows.iter().map(|row| Symbol::new(row.to_vec())).collect();
    SymbolSlab::from_symbols(symbols, rows[0].len())
}

fn rows_of(slab: &SymbolSlab) -> Vec<Vec<u8>> {
    (0..slab.len()).map(|i| slab.get(i).to_vec()).collect()
}

#[test]
fn products_of_octets() {
    assert_eq!((Octet::new(2) * Octet::new(0x80)).byte(), 29);
    assert_eq!((Octet::new(29) * Octet::new(2)).byte(), 58);
    assert_eq!((Octet::new(2) * Octet::new(142)).byte(), 1);
    assert_eq!((Octet::new(3) * Octet::new(7)).byte(), 9);
    assert_eq!((Octet::new(173) * Octet::new(215)).byte(), 126);
    assert_eq!((Octet::new(255) * Octet::new(255)).byte(), 226);
    assert_eq!((Octet::new(0x53) * Octet::new(0xca)).byte(), 143);
}

#[test]
fn field_laws_on_all_pairs() {
    for a in 0..=255u8 {
        assert_eq!(mul_bytes(a, 1), a);
        assert_eq!(mul_bytes(a, 0), 0);
        let mut inverses = 0;
        for b in 0..=255u8 {
            assert_eq!(mul_bytes(a, b), mul_bytes(b, a));
            assert_eq!(mul_bytes(a, b) == 0, a == 0 || b == 0);
            assert_eq!(
                mul_bytes(a ^ 0x5a, b),
                mul_bytes(a, b) ^ mul_bytes(0x5a, b)
            );
            assert_eq!(
                mul_bytes(mul_bytes(a, b), 0xc3),
                mul_bytes(a, mul_bytes(b, 0xc3))
            );
            if mul_bytes(a, b) == 1 {
                inverses += 1;
            }
        }
        assert_eq!(inverses, if a == 0 { 0 } else { 1 });
    }
}

#[test]
fn powers_of_two_run_through_the_field() {
    let mut power = 1u8;
    let mut seen = vec![false; 256];
    for _ in 0..255 {
        assert!(!seen[power as usize]);
        seen[power as usize] = true;
        power = mul_bytes(power, 2);
    }
    assert_eq!(power, 1);
}

#[test]
fn symbols_keep_their_octets() {
    let symbol = Symbol::new(vec![4, 5, 6]);
    assert_eq!(symbol.len(), 3);
    assert_eq!(symbol.as_bytes(), &[4, 5, 6]);
}

#[test]
fn slab_holds_its_symbols() {
    let slab = slab(&[&[1, 2, 3], &[4, 5, 6]]);
    assert_eq!(slab.len(), 2);
    assert_eq!(slab.symbol_size(), 3);
    assert_eq!(slab.get(0), &[1, 2, 3]);
    assert_eq!(slab.get(1), &[4, 5, 6]);
}

#[test]
fn empty_slabs() {
    let mut none = SymbolSlab::from_symbols(Vec::new(), 7);
    assert_eq!(none.len(), 0);
    assert_eq!(none.symbol_size(), 7);
    perform_op(&SymbolOps::Reorder { order: vec![] }, &mut none);
    assert_eq!(none.len(), 0);

    let mut hollow = SymbolSlab::from_symbols(vec![Symbol::new(vec![]), Symbol::new(vec![])], 0);
    perform_op(&SymbolOps::AddAssign { dest: 0, src: 1 }, &mut hollow);
    assert_eq!(hollow.len(), 2);
    assert_eq!(hollow.get(1), &[] as &[u8]);
}

#[test]
fn each_operation_on_given_rows() {
    let mut slab = slab(&[&[1, 2, 3], &[250, 3, 2], &[7, 7, 7]]);
    perform_op(&SymbolOps::AddAssign { dest: 2, src: 0 }, &mut slab);
    assert_eq!(
        rows_of(&slab),
        vec![vec![1, 2, 3], vec![250, 3, 2], vec![6, 5, 4]]
    );
    perform_op(
        &SymbolOps::MulAssign {
            dest: 0,
            scalar: Octet::new(173),
        },
        &mut slab,
    );
    assert_eq!(
        rows_of(&slab),
        vec![vec![173, 71, 234], vec![250, 3, 2], vec![6, 5, 4]]
    );
    perform_op(
        &SymbolOps::FMA {
            dest: 2,
            src: 1,
            scalar: Octet::new(173),
        },
        &mut slab,
    );
    assert_eq!(
        rows_of(&slab),
        vec![
            vec![173, 71, 234],
            vec![250, 3, 2],
            vec![6 ^ 88, 5 ^ 234, 4 ^ 71]
        ]
    );
}

#[test]
fn rows_added_to_themselves() {
    let mut slab = slab(&[&[1, 2, 3], &[4, 5, 6]]);
    perform_op(
        &SymbolOps::FMA {
            dest: 0,
            src: 0,
            scalar: Octet::new(173),
        },
        &mut slab,
    );
    assert_eq!(slab.get(0), &[1 ^ 173, 2 ^ 71, 3 ^ 234]);
    perform_op(&SymbolOps::AddAssign { dest: 0, src: 0 }, &mut slab);
    assert_eq!(slab.get(0), &[0, 0, 0]);
    assert_eq!(slab.get(1), &[4, 5, 6]);
}

#[test]
fn additions_undo_themselves() {
    let before = slab(&[&[1, 2, 3], &[250, 3, 2]]);
    let mut after = before.clone();
    for op in [
        SymbolOps::AddAssign { dest: 1, src: 0 },
        SymbolOps::FMA {
            dest: 0,
            src: 1,
            scalar: Octet::new(9),
        },
    ] {
        perform_op(&op, &mut after);
        assert_ne!(before, after);
        perform_op(&op, &mut after);
        assert_eq!(before, after);
    }
}

#[test]
fn scaling_composes_and_is_undone_by_the_inverse() {
    let before = slab(&[&[1, 2, 3], &[250, 3, 2]]);
    let scale = |slab: &mut SymbolSlab, scalar: u8| {
        perform_op(
            &SymbolOps::MulAssign {
                dest: 0,
                scalar: Octet::new(scalar),
            },
            slab,
        )
    };
    let mut in_turn = before.clone();
    scale(&mut in_turn, 173);
    scale(&mut in_turn, 215);
    let mut at_once = before.clone();
    scale(&mut at_once, 126);
    assert_eq!(in_turn, at_once);

    let mut undone = before.clone();
    scale(&mut undone, 173);
    scale(&mut undone, 8);
    assert_eq!(undone, before);
    scale(&mut undone, 1);
    assert_eq!(undone, before);
    scale(&mut undone, 0);
    assert_eq!(undone.get(0), &[0, 0, 0]);
}

#[test]
fn fma_by_one_is_addition() {
    let mut fma = slab(&[&[1, 2, 3], &[250, 3, 2]]);
    let mut add = fma.clone();
    perform_op(
        &SymbolOps::FMA {
            dest: 0,
            src: 1,
            scalar: Octet::new(1),
        },
        &mut fma,
    );
    perform_op(&SymbolOps::AddAssign { dest: 0, src: 1 }, &mut add);
    assert_eq!(fma, add);
}

#[test]
fn reordering_is_undone_by_the_inverse_order() {
    let before = slab(&[&[1], &[2], &[3], &[4]]);
    let mut after = before.clone();
    perform_op(
        &SymbolOps::Reorder {
            order: vec![2, 0, 3, 1],
        },
        &mut after,
    );
    assert_eq!(rows_of(&after), vec![vec![3], vec![1], vec![4], vec![2]]);
    perform_op(
        &SymbolOps::Reorder {
            order: vec![1, 3, 0, 2],
        },
        &mut after,
    );
    assert_eq!(before, after);
}

#[test]
fn reordering_may_drop_symbols() {
    let mut slab = slab(&[&[1, 1], &[2, 2], &[3, 3]]);
    slab.reorder(&[2, 0]);
    assert_eq!(rows_of(&slab), vec![vec![3, 3], vec![1, 1]]);
    assert_eq!(slab.len(), 2);
}

#[test]
fn columns_are_cut_out_and_written_back() {
    let mut slab = slab(&[&[1, 2, 3, 4], &[5, 6, 7, 8]]);
    let chunk = slab.columns(1, 3);
    assert_eq!(rows_of(&chunk), vec![vec![2, 3], vec![6, 7]]);
    let other = SymbolSlab::from_symbols(
        vec![Symbol::new(vec![20, 30]), Symbol::new(vec![60, 70])],
        2,
    );
    slab.set_columns(1, &other);
    assert_eq!(
        rows_of(&slab),
        vec![vec![1, 20, 30, 4], vec![5, 60, 70, 8]]
    );
    slab.set_columns(1, &chunk);
    assert_eq!(rows_of(&slab), vec![vec![1, 2, 3, 4], vec![5, 6, 7, 8]]);
}
