use symbol_replay::octet::Octet;
use symbol_replay::operation_vector::{
    perform_op, perform_ops, perform_ops_with_parallel_hint, perform_reorder_at_end,
    perform_replay_op, perform_replay_schedule_parallel,
    perform_replay_schedule_sequential, perform_replay_schedule_with_parallel_hint,
    perform_symbol_ops_sequential, plan_parallel_replay, should_parallelize, symbol_indices_fit,
    symbol_ops_applicable, ReplayOp, ReplayPlan, ReplaySchedule, SymbolOps,
};
use symbol_replay::replay_pool::ReplayPool;
use symbol_replay::symbol::Symbol;
use symbol_replay::symbol_slab::SymbolSlab;

fn sample_slab(symbol_count: usize, symbol_size: usize) -> SymbolSlab {
    let symbols: Vec<Symbol> = (0..symbol_count)
        .map(|i| {
            Symbol::new(
                (0..symbol_size)
                    .map(|k| ((i * 31 + k * 7 + i * k) % 251) as u8)
                    .collect(),
            )
        })
        .collect();
    SymbolSlab::from_symbols(symbols, symbol_size)
}

/// Operations that add no row to itself, for at least two symbols.
fn sample_ops(op_count: usize, symbol_count: usize) -> Vec<SymbolOps> {
    (0..op_count)
        .map(|i| {
            let dest = (i * 7919) % symbol_count;
            let src = (dest + 1 + i % (symbol_count - 1)) % symbol_count;
            match i % 16 {
                0 => SymbolOps::MulAssign {
                    dest,
                    scalar: Octet::new((i % 255) as u8 + 1),
                },
                1 => SymbolOps::FMA {
                    dest,
                    src,
                    scalar: Octet::new((i % 254) as u8 + 2),
                },
                _ => SymbolOps::AddAssign { dest, src },
            }
        })
        .collect()
}

fn additions(op_count: usize) -> Vec<ReplayOp> {
    vec![ReplayOp::AddAssign { dest: 0, src: 1 }; op_count]
}

#[test]
fn schedule_holds_the_recorded_operations() {
    let schedule = ReplaySchedule::from_symbol_ops(&[
        SymbolOps::AddAssign {
            dest: u32::MAX as usize,
            src: 1,
        },
        SymbolOps::MulAssign {
            dest: 2,
            scalar: Octet::new(3),
        },
        SymbolOps::FMA {
            dest: 4,
            src: 5,
            scalar: Octet::new(6),
        },
        SymbolOps::Reorder {
            order: vec![1, 0, 2],
        },
    ]);
    assert_eq!(
        schedule.as_slice(),
        &[
            ReplayOp::AddAssign {
                dest: u32::MAX,
                src: 1
            },
            ReplayOp::MulAssign {
                dest: 2,
                scalar: Octet::new(3)
            },
            ReplayOp::FMA {
                dest: 4,
                src: 5,
                scalar: Octet::new(6)
            },
            ReplayOp::Reorder {
                order: vec![1, 0, 2]
            },
        ]
    );
    assert!(ReplaySchedule::from_symbol_ops(&[]).as_slice().is_empty());
}

#[test]
fn indices_of_more_than_32_bits_do_not_fit() {
    let large = u32::MAX as usize + 1;
    assert!(symbol_indices_fit(&[SymbolOps::AddAssign {
        dest: u32::MAX as usize,
        src: 0
    }]));
    assert!(!symbol_indices_fit(&[SymbolOps::AddAssign {
        dest: large,
        src: 0
    }]));
    assert!(!symbol_indices_fit(&[SymbolOps::AddAssign {
        dest: 0,
        src: large
    }]));
    assert!(!symbol_indices_fit(&[SymbolOps::MulAssign {
        dest: large,
        scalar: Octet::new(1)
    }]));
    assert!(!symbol_indices_fit(&[SymbolOps::FMA {
        dest: 0,
        src: large,
        scalar: Octet::new(1)
    }]));
    assert!(symbol_indices_fit(&[SymbolOps::Reorder {
        order: vec![large]
    }]));
}

#[test]
fn applicability_follows_the_number_of_rows() {
    let drop_last = SymbolOps::Reorder { order: vec![0, 1] };
    let touch_last = SymbolOps::MulAssign {
        dest: 2,
        scalar: Octet::new(5),
    };
    let first = vec![touch_last.clone(), drop_last.clone()];
    let second = vec![drop_last, touch_last];
    assert!(symbol_ops_applicable(&first, 3, 4));
    assert!(!symbol_ops_applicable(&second, 3, 4));
    assert!(ReplaySchedule::from_symbol_ops(&first).applicable(3, 4));
    assert!(!ReplaySchedule::from_symbol_ops(&second).applicable(3, 4));
    assert!(!symbol_ops_applicable(&first, 2, 4));

    let out_of_range = vec![
        SymbolOps::AddAssign { dest: 0, src: 3 },
        SymbolOps::FMA {
            dest: 3,
            src: 0,
            scalar: Octet::new(1),
        },
        SymbolOps::Reorder { order: vec![3] },
    ];
    for op in out_of_range {
        let ops = vec![op];
        assert!(!symbol_ops_applicable(&ops, 3, 4));
        assert!(symbol_ops_applicable(&ops, 4, 4));
        assert!(!ReplaySchedule::from_symbol_ops(&ops).applicable(3, 4));
        assert!(ReplaySchedule::from_symbol_ops(&ops).applicable(4, 4));
    }

    let doubling = vec![SymbolOps::Reorder { order: vec![0, 0] }];
    assert!(symbol_ops_applicable(&doubling, 1, usize::MAX / 2));
    assert!(!symbol_ops_applicable(&doubling, 1, usize::MAX / 2 + 1));
}

#[test]
fn thresholds_of_sharing() {
    assert!(should_parallelize(30_000, 4_000, 1_024));
    assert!(!should_parallelize(29_999, 4_000, 1_024));
    assert!(!should_parallelize(30_000, 3_999, 1_024));
    assert!(!should_parallelize(30_000, 4_000, 1_023));
}

#[test]
fn plan_without_reordering() {
    let ops = additions(30_000);
    assert_eq!(
        plan_parallel_replay(&ops, 4_000, 1_024, 16),
        Some(ReplayPlan {
            replay_len: 30_000,
            worker_count: 3
        })
    );
    assert_eq!(
        plan_parallel_replay(&ops, 4_000, 1_024, 2),
        Some(ReplayPlan {
            replay_len: 30_000,
            worker_count: 2
        })
    );
    assert_eq!(plan_parallel_replay(&ops, 4_000, 1_024, 1), None);
    assert_eq!(plan_parallel_replay(&ops, 4_000, 1_024, 0), None);
    assert_eq!(plan_parallel_replay(&ops, 3_999, 1_024, 16), None);
    assert_eq!(plan_parallel_replay(&additions(29_999), 4_000, 1_024, 16), None);
}

#[test]
fn plan_is_bounded_by_columns() {
    let ops = additions(120_000);
    let workers = |symbol_size: usize| {
        plan_parallel_replay(&ops, 4_000, symbol_size, 16).map(|plan| plan.worker_count)
    };
    assert_eq!(workers(1_024), Some(4));
    assert_eq!(workers(1_025), Some(5));
    assert_eq!(workers(1_280), Some(5));
    assert_eq!(workers(100_000), Some(10));
}

#[test]
fn plan_with_a_reordering_at_the_end() {
    let mut ops = additions(30_000);
    ops.push(ReplayOp::Reorder { order: vec![0] });
    assert_eq!(
        plan_parallel_replay(&ops, 4_000, 1_024, 16),
        Some(ReplayPlan {
            replay_len: 30_000,
            worker_count: 3
        })
    );
    ops.remove(0);
    assert_eq!(plan_parallel_replay(&ops, 4_000, 1_024, 16), None);
}

#[test]
fn no_plan_with_an_earlier_reordering() {
    let mut ops = additions(30_000);
    ops.push(ReplayOp::Reorder { order: vec![0] });
    ops.push(ReplayOp::AddAssign { dest: 0, src: 1 });
    assert_eq!(plan_parallel_replay(&ops, 4_000, 1_024, 16), None);
    ops.push(ReplayOp::Reorder { order: vec![0] });
    assert_eq!(plan_parallel_replay(&ops, 4_000, 1_024, 16), None);
}

#[test]
fn no_plan_with_a_row_added_to_itself() {
    let mut ops = additions(30_000);
    ops.push(ReplayOp::FMA {
        dest: 3,
        src: 3,
        scalar: Octet::new(2),
    });
    assert_eq!(plan_parallel_replay(&ops, 4_000, 1_024, 16), None);
    ops.pop();
    ops[7] = ReplayOp::AddAssign { dest: 2, src: 2 };
    assert_eq!(plan_parallel_replay(&ops, 4_000, 1_024, 16), None);
    ops[7] = ReplayOp::MulAssign {
        dest: 2,
        scalar: Octet::new(2),
    };
    assert!(plan_parallel_replay(&ops, 4_000, 1_024, 16).is_some());
}

#[test]
fn all_ways_of_performing_agree() {
    let (symbol_count, symbol_size) = (24, 37);
    let mut ops = sample_ops(500, symbol_count);
    ops.push(SymbolOps::Reorder {
        order: (0..symbol_count).rev().collect(),
    });
    ops.extend(sample_ops(100, symbol_count));
    ops.push(SymbolOps::AddAssign { dest: 3, src: 3 });

    let mut expected = sample_slab(symbol_count, symbol_size);
    for op in &ops {
        perform_op(op, &mut expected);
    }

    let schedule = ReplaySchedule::from_symbol_ops(&ops);
    let mut pool = ReplayPool::new(3);
    let mut actual = sample_slab(symbol_count, symbol_size);
    perform_symbol_ops_sequential(&ops, &mut actual);
    assert_eq!(expected, actual);
    let mut actual = sample_slab(symbol_count, symbol_size);
    perform_replay_schedule_sequential(&schedule, &mut actual);
    assert_eq!(expected, actual);
    for parallel_hint in [false, true] {
        let mut actual = sample_slab(symbol_count, symbol_size);
        perform_ops_with_parallel_hint(&ops, &mut actual, parallel_hint, &mut pool);
        assert_eq!(expected, actual);
        let mut actual = sample_slab(symbol_count, symbol_size);
        perform_replay_schedule_with_parallel_hint(
            &schedule,
            &mut actual,
            parallel_hint,
            &mut pool,
        );
        assert_eq!(expected, actual);
    }
}

#[test]
fn large_replay_is_shared_out_with_the_same_result() {
    let (symbol_count, symbol_size) = (4_000, 1_024);
    let mut ops = sample_ops(30_000, symbol_count);
    ops.push(SymbolOps::Reorder {
        order: (0..symbol_count).rev().collect(),
    });
    let schedule = ReplaySchedule::from_symbol_ops(&ops);
    let start = sample_slab(symbol_count, symbol_size);

    let mut expected = start.clone();
    perform_symbol_ops_sequential(&ops, &mut expected);
    assert_ne!(expected, start);

    let mut pool = ReplayPool::new(8);
    let mut actual = start.clone();
    assert!(perform_replay_schedule_parallel(
        &schedule,
        &mut actual,
        &mut pool
    ));
    assert_eq!(expected, actual);

    let mut actual = start.clone();
    perform_ops(&ops, &mut actual, &mut pool);
    assert_eq!(expected, actual);

    let mut alone = ReplayPool::new(1);
    let mut untouched = start.clone();
    assert!(!perform_replay_schedule_parallel(
        &schedule,
        &mut untouched,
        &mut alone
    ));
    assert_eq!(untouched, start);
}

#[test]
fn small_replay_is_not_shared_out() {
    let ops = sample_ops(50, 4);
    let schedule = ReplaySchedule::from_symbol_ops(&ops);
    let start = sample_slab(4, 5);
    let mut slab = start.clone();
    let mut pool = ReplayPool::new(8);
    assert!(!perform_replay_schedule_parallel(
        &schedule, &mut slab, &mut pool
    ));
    assert_eq!(slab, start);
}

#[test]
fn replay_is_linear_and_composes() {
    let (symbol_count, symbol_size) = (6, 9);
    let ops = sample_ops(80, symbol_count);
    let a = sample_slab(symbol_count, symbol_size);
    let b = SymbolSlab::from_symbols(
        (0..symbol_count)
            .map(|i| Symbol::new(vec![(i * 40 + 3) as u8; symbol_size]))
            .collect(),
        symbol_size,
    );
    let sum = |a: &SymbolSlab, b: &SymbolSlab| {
        SymbolSlab::from_symbols(
            (0..symbol_count)
                .map(|i| {
                    Symbol::new(
                        a.get(i)
                            .iter()
                            .zip(b.get(i))
                            .map(|(x, y)| x ^ y)
                            .collect(),
                    )
                })
                .collect(),
            symbol_size,
        )
    };
    let replay = |slab: &SymbolSlab, ops: &[SymbolOps]| {
        let mut slab = slab.clone();
        perform_symbol_ops_sequential(ops, &mut slab);
        slab
    };
    assert_eq!(
        replay(&sum(&a, &b), &ops),
        sum(&replay(&a, &ops), &replay(&b, &ops))
    );
    assert_eq!(
        replay(&replay(&a, &ops[..30]), &ops[30..]),
        replay(&a, &ops)
    );
    assert_eq!(
        replay(&a.columns(2, 7), &ops),
        replay(&a, &ops).columns(2, 7)
    );
}

#[test]
fn a_declined_schedule_changes_nothing_even_if_it_does_not_fit() {
    let start = sample_slab(1, 3);
    let mut pool = ReplayPool::new(8);
    let unfit = vec![
        vec![SymbolOps::AddAssign { dest: 5, src: 0 }],
        vec![
            SymbolOps::Reorder { order: vec![9] },
            SymbolOps::AddAssign { dest: 5, src: 0 },
        ],
        vec![
            SymbolOps::Reorder { order: vec![9] },
            SymbolOps::Reorder { order: vec![0] },
        ],
    ];
    for ops in unfit {
        let schedule = ReplaySchedule::from_symbol_ops(&ops);
        let mut slab = start.clone();
        assert!(!perform_replay_schedule_parallel(
            &schedule, &mut slab, &mut pool
        ));
        assert_eq!(slab, start);
    }
}

#[test]
fn scheduled_operations_act_as_the_recorded_ones() {
    let mut ops = sample_ops(40, 4);
    ops.push(SymbolOps::AddAssign { dest: 2, src: 2 });
    ops.push(SymbolOps::Reorder {
        order: vec![3, 1, 0, 2],
    });
    let schedule = ReplaySchedule::from_symbol_ops(&ops);
    let mut recorded = sample_slab(4, 6);
    let mut scheduled = recorded.clone();
    for (op, replay_op) in ops.iter().zip(schedule.as_slice()) {
        perform_op(op, &mut recorded);
        perform_replay_op(replay_op, &mut scheduled);
        assert_eq!(recorded, scheduled);
    }
}

#[test]
fn only_a_reordering_at_the_end_is_performed_last() {
    let start = sample_slab(3, 2);
    let reversal = ReplayOp::Reorder {
        order: vec![2, 1, 0],
    };
    let addition = ReplayOp::AddAssign { dest: 0, src: 1 };

    let mut slab = start.clone();
    perform_reorder_at_end(&[addition.clone(), reversal.clone()], &mut slab);
    assert_eq!(slab.get(0), start.get(2));
    assert_eq!(slab.get(1), start.get(1));
    assert_eq!(slab.get(2), start.get(0));

    let mut slab = start.clone();
    perform_reorder_at_end(&[reversal, addition], &mut slab);
    perform_reorder_at_end(&[], &mut slab);
    assert_eq!(slab, start);
}

#[test]
fn additions_are_undone_backwards() {
    let mut ops: Vec<SymbolOps> = sample_ops(60, 5)
        .into_iter()
        .filter(|op| !matches!(op, SymbolOps::MulAssign { .. }))
        .collect();
    let start = sample_slab(5, 7);
    let mut slab = start.clone();
    perform_symbol_ops_sequential(&ops, &mut slab);
    assert_ne!(slab, start);
    ops.reverse();
    perform_symbol_ops_sequential(&ops, &mut slab);
    assert_eq!(slab, start);
}
