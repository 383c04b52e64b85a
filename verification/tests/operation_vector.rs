use rand::{seq::SliceRandom, Rng};

use symbol_replay::octet::Octet;
use symbol_replay::operation_vector::{
    perform_op, perform_ops, ReplayOp, ReplaySchedule, SymbolOps,
};
use symbol_replay::replay_pool::ReplayPool;
use symbol_replay::symbol::Symbol;
use symbol_replay::symbol_slab::SymbolSlab;

#[test]
fn test_add() {
    let symbol_size = 1316;
    let mut raw0: Vec<u8> = vec![0; symbol_size];
    let mut raw1: Vec<u8> = vec![0; symbol_size];
    for b in raw0.iter_mut() {
        *b = rand::rng().random();
    }
    for b in raw1.iter_mut() {
        *b = rand::rng().random();
    }
    let expected: Vec<u8> = raw0.iter().zip(raw1.iter()).map(|(a, b)| a ^ b).collect();

    let mut slab =
        SymbolSlab::from_symbols(vec![Symbol::new(raw0), Symbol::new(raw1)], symbol_size);
    perform_op(&SymbolOps::AddAssign { dest: 0, src: 1 }, &mut slab);
    assert_eq!(expected, slab.get(0));
}

#[test]
fn test_add_mul() {
    let symbol_size = 1316;
    let mut raw0: Vec<u8> = vec![0; symbol_size];
    let mut raw1: Vec<u8> = vec![0; symbol_size];
    for b in raw0.iter_mut() {
        *b = rand::rng().random();
    }
    for b in raw1.iter_mut() {
        *b = rand::rng().random();
    }
    let value = 173;
    let expected: Vec<u8> = raw0
        .iter()
        .zip(raw1.iter())
        .map(|(d0, d1)| *d0 ^ (Octet::new(*d1) * Octet::new(value)).byte())
        .collect();

    let mut slab =
        SymbolSlab::from_symbols(vec![Symbol::new(raw0), Symbol::new(raw1)], symbol_size);
    perform_op(
        &SymbolOps::FMA {
            dest: 0,
            src: 1,
            scalar: Octet::new(value),
        },
        &mut slab,
    );
    assert_eq!(expected, slab.get(0));
}

#[test]
fn test_mul() {
    let symbol_size = 1316;
    let mut raw0: Vec<u8> = vec![0; symbol_size];
    for b in raw0.iter_mut() {
        *b = rand::rng().random();
    }
    let value = 215;
    let expected: Vec<u8> = raw0
        .iter()
        .map(|d0| (Octet::new(*d0) * Octet::new(value)).byte())
        .collect();

    let mut slab = SymbolSlab::from_symbols(vec![Symbol::new(raw0)], symbol_size);
    perform_op(
        &SymbolOps::MulAssign {
            dest: 0,
            scalar: Octet::new(value),
        },
        &mut slab,
    );
    assert_eq!(expected, slab.get(0));
}

#[test]
fn test_reorder() {
    let rows = 10;
    let symbol_size = 10;
    let symbols: Vec<Symbol> = (0..rows)
        .map(|i| Symbol::new(vec![i as u8; symbol_size]))
        .collect();
    let mut slab = SymbolSlab::from_symbols(symbols, symbol_size);

    assert_eq!(slab.get(0)[0], 0);
    assert_eq!(slab.get(1)[0], 1);
    assert_eq!(slab.get(2)[0], 2);
    assert_eq!(slab.get(9)[0], 9);

    perform_op(
        &SymbolOps::Reorder {
            order: vec![9, 7, 5, 3, 1, 8, 0, 6, 2, 4],
        },
        &mut slab,
    );
    assert_eq!(slab.get(0)[0], 9);
    assert_eq!(slab.get(1)[0], 7);
    assert_eq!(slab.get(2)[0], 5);
    assert_eq!(slab.get(3)[0], 3);
    assert_eq!(slab.get(4)[0], 1);
    assert_eq!(slab.get(5)[0], 8);
    assert_eq!(slab.get(6)[0], 0);
    assert_eq!(slab.get(7)[0], 6);
    assert_eq!(slab.get(8)[0], 2);
    assert_eq!(slab.get(9)[0], 4);
}

#[test]
fn test_perform_ops_matches_scalar_executor() {
    let symbol_count = 96;
    let symbol_size = 1024;
    let mut symbols = Vec::with_capacity(symbol_count);
    for _ in 0..symbol_count {
        let mut row = vec![0u8; symbol_size];
        for b in row.iter_mut() {
            *b = rand::rng().random();
        }
        symbols.push(Symbol::new(row));
    }

    let mut expected = SymbolSlab::from_symbols(symbols.clone(), symbol_size);
    let mut actual = SymbolSlab::from_symbols(symbols, symbol_size);

    let mut ops = Vec::with_capacity(1_501);
    for i in 0..1_500 {
        let dest = rand::rng().random_range(0..symbol_count);
        let mut src = rand::rng().random_range(0..symbol_count);
        while src == dest {
            src = rand::rng().random_range(0..symbol_count);
        }
        match i % 3 {
            0 => ops.push(SymbolOps::AddAssign { dest, src }),
            1 => ops.push(SymbolOps::MulAssign {
                dest,
                scalar: Octet::new(rand::rng().random_range(1..=255)),
            }),
            _ => ops.push(SymbolOps::FMA {
                dest,
                src,
                scalar: Octet::new(rand::rng().random_range(2..=255)),
            }),
        }
    }

    let mut reorder: Vec<usize> = (0..symbol_count).collect();
    reorder.shuffle(&mut rand::rng());
    ops.push(SymbolOps::Reorder { order: reorder });

    for op in ops.iter() {
        perform_op(op, &mut expected);
    }
    let mut pool = ReplayPool::new(4);
    perform_ops(&ops, &mut actual, &mut pool);

    assert_eq!(expected, actual);
}

#[test]
fn test_replay_pool_chunked_matches_scalar_executor() {
    let mut pool = ReplayPool::new(4);
    let worker_count = pool.max_workers().min(4);
    if worker_count <= 1 {
        return;
    }

    let symbol_count = 256;
    let symbol_size = 640;
    let mut symbols = Vec::with_capacity(symbol_count);
    for _ in 0..symbol_count {
        let mut row = vec![0u8; symbol_size];
        for b in row.iter_mut() {
            *b = rand::rng().random();
        }
        symbols.push(Symbol::new(row));
    }

    let mut expected = SymbolSlab::from_symbols(symbols.clone(), symbol_size);
    let mut actual = SymbolSlab::from_symbols(symbols, symbol_size);

    let mut ops = Vec::with_capacity(6_001);
    for i in 0..6_000 {
        let dest = rand::rng().random_range(0..symbol_count);
        let mut src = rand::rng().random_range(0..symbol_count);
        while src == dest {
            src = rand::rng().random_range(0..symbol_count);
        }
        match i % 3 {
            0 => ops.push(SymbolOps::AddAssign { dest, src }),
            1 => ops.push(SymbolOps::MulAssign {
                dest,
                scalar: Octet::new(rand::rng().random_range(1..=255)),
            }),
            _ => ops.push(SymbolOps::FMA {
                dest,
                src,
                scalar: Octet::new(rand::rng().random_range(2..=255)),
            }),
        }
    }

    let mut reorder: Vec<usize> = (0..symbol_count).collect();
    reorder.shuffle(&mut rand::rng());
    ops.push(SymbolOps::Reorder { order: reorder });

    for op in ops.iter() {
        perform_op(op, &mut expected);
    }

    let schedule = ReplaySchedule::from_symbol_ops(&ops);
    let schedule_ops = schedule.as_slice();
    let reorder_pos = schedule_ops
        .iter()
        .position(|op| matches!(op, ReplayOp::Reorder { .. }))
        .expect("reorder op missing");
    pool.replay_ops_chunked(&schedule_ops[..reorder_pos], &mut actual, worker_count);
    if let ReplayOp::Reorder { order } = &schedule_ops[reorder_pos] {
        actual.reorder(order);
    }

    assert_eq!(expected, actual);
}
