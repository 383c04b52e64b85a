use symbol_replay::octet::Octet;
use symbol_replay::operation_vector::{
    perform_symbol_ops_sequential, ReplayOp, ReplaySchedule, SymbolOps,
};
use symbol_replay::replay_pool::{
    div_ceil, pool_size, replay_ops_chunk, write_back, ReplayJob, ReplayPool, ReplayPoolState,
    WorkerAction,
};
use symbol_replay::symbol::Symbol;
use symbol_replay::symbol_slab::SymbolSlab;

fn ramp_slab(symbol_count: usize, symbol_size: usize) -> SymbolSlab {
    SymbolSlab::from_symbols(
        (0..symbol_count)
            .map(|i| Symbol::new((0..symbol_size).map(|k| (i * 50 + k * 3) as u8).collect()))
            .collect(),
        symbol_size,
    )
}

fn ramp_ops() -> Vec<SymbolOps> {
    vec![
        SymbolOps::AddAssign { dest: 0, src: 1 },
        SymbolOps::FMA {
            dest: 2,
            src: 0,
            scalar: Octet::new(77),
        },
        SymbolOps::MulAssign {
            dest: 1,
            scalar: Octet::new(9),
        },
        SymbolOps::FMA {
            dest: 1,
            src: 2,
            scalar: Octet::new(200),
        },
    ]
}

#[test]
fn quotients_are_rounded_up() {
    assert_eq!(div_ceil(0, 5), 0);
    assert_eq!(div_ceil(1, 5), 1);
    assert_eq!(div_ceil(5, 5), 1);
    assert_eq!(div_ceil(6, 5), 2);
    assert_eq!(div_ceil(usize::MAX, 1), usize::MAX);
    assert_eq!(div_ceil(usize::MAX, 2), usize::MAX / 2 + 1);
    assert_eq!(div_ceil(usize::MAX, usize::MAX), 1);
}

#[test]
fn pools_are_sized_after_the_machine() {
    assert_eq!(pool_size(None), 1);
    assert_eq!(pool_size(Some(0)), 1);
    assert_eq!(pool_size(Some(1)), 1);
    assert_eq!(pool_size(Some(8)), 8);
    assert_eq!(pool_size(Some(16)), 16);
    assert_eq!(pool_size(Some(64)), 16);
}

#[test]
fn chunks_of_a_job() {
    let job = ReplayJob::new(3, 10, 4, 4);
    assert_eq!(job.symbol_count, 3);
    assert_eq!(job.symbol_size, 10);
    assert_eq!(job.ops_len, 4);
    assert_eq!(job.chunk_size, 3);
    assert_eq!(job.active_workers, 4);
    assert_eq!(job.chunk_range(0), Some((0, 3)));
    assert_eq!(job.chunk_range(1), Some((3, 6)));
    assert_eq!(job.chunk_range(2), Some((6, 9)));
    assert_eq!(job.chunk_range(3), Some((9, 10)));
    assert_eq!(job.chunk_range(4), None);
    assert_eq!(job.chunk_range(usize::MAX), None);
}

#[test]
fn late_workers_may_get_no_columns() {
    let job = ReplayJob::new(3, 5, 4, 4);
    assert_eq!(job.chunk_range(2), Some((4, 5)));
    assert_eq!(job.chunk_range(3), None);
    let hollow = ReplayJob::new(3, 0, 4, 4);
    assert_eq!(hollow.chunk_range(0), None);
}

#[test]
fn every_column_is_in_one_chunk() {
    for symbol_size in 0..40 {
        for workers in 1..10 {
            let job = ReplayJob::new(1, symbol_size, 1, workers);
            let mut owners = vec![0; symbol_size];
            for worker in 0..workers {
                if let Some((start, end)) = job.chunk_range(worker) {
                    for owner in &mut owners[start..end] {
                        *owner += 1;
                    }
                }
            }
            assert!(owners.iter().all(|owner| *owner == 1));
        }
    }
}

#[test]
fn a_chunk_is_replayed_alone() {
    let start = ramp_slab(3, 8);
    let mut replayed = start.clone();
    perform_symbol_ops_sequential(&ramp_ops(), &mut replayed);
    let schedule = ReplaySchedule::from_symbol_ops(&ramp_ops());
    for (lo, hi) in [(0, 8), (0, 3), (3, 8), (5, 5), (7, 8)] {
        let chunk = replay_ops_chunk(schedule.as_slice(), &start, lo, hi);
        assert_eq!(chunk, replayed.columns(lo, hi));
        assert_eq!(chunk.symbol_size(), hi - lo);
    }
}

#[test]
fn chunks_may_be_finished_in_any_order() {
    let start = ramp_slab(3, 10);
    let mut expected = start.clone();
    perform_symbol_ops_sequential(&ramp_ops(), &mut expected);
    let schedule = ReplaySchedule::from_symbol_ops(&ramp_ops());
    let job = ReplayJob::new(3, 10, 4, 3);
    for order in [[0, 1, 2], [2, 1, 0], [1, 2, 0]] {
        let mut rows = start.clone();
        for worker in order {
            let (lo, hi) = job.chunk_range(worker).unwrap();
            let chunk = replay_ops_chunk(schedule.as_slice(), &rows, lo, hi);
            rows.set_columns(lo, &chunk);
        }
        assert_eq!(rows, expected);
    }
}

#[test]
fn pool_replays_with_any_number_of_workers() {
    let start = ramp_slab(3, 10);
    let mut expected = start.clone();
    perform_symbol_ops_sequential(&ramp_ops(), &mut expected);
    let schedule = ReplaySchedule::from_symbol_ops(&ramp_ops());
    let mut pool = ReplayPool::new(12);
    assert_eq!(pool.max_workers(), 12);
    for workers in 1..=12 {
        let mut actual = start.clone();
        pool.replay_ops_chunked(schedule.as_slice(), &mut actual, workers);
        assert_eq!(actual, expected);
    }
    let mut untouched = start.clone();
    let no_ops: Vec<ReplayOp> = Vec::new();
    pool.replay_ops_chunked(&no_ops, &mut untouched, 5);
    assert_eq!(untouched, start);
}

#[test]
fn a_job_is_handed_out_and_accounted_for() {
    let job = ReplayJob::new(3, 10, 4, 2);
    let mut state = ReplayPoolState::new();
    assert_eq!(state, ReplayPoolState::default());
    assert_eq!(state.next_action(0), WorkerAction::Park);

    let expected = state.dispatch(job);
    assert_eq!(expected, 1);
    assert!(state.must_wait(expected));
    assert_eq!(
        state.next_action(0),
        WorkerAction::Run { job, generation: 1 }
    );
    assert_eq!(state.next_action(1), WorkerAction::Park);

    assert!(!state.finish(1));
    assert!(state.must_wait(expected));
    assert!(state.finish(1));
    assert!(!state.must_wait(expected));
    assert_eq!(state.remaining, 0);
    assert!(state.finish(1));
    assert_eq!(state.remaining, 0);
}

#[test]
fn a_generation_that_is_over_counts_for_nothing() {
    let job = ReplayJob::new(3, 10, 4, 2);
    let mut state = ReplayPoolState::new();
    let first = state.dispatch(job);
    let second = state.dispatch(job);
    assert!(!state.must_wait(first));
    assert!(state.must_wait(second));
    let before = state;
    assert!(!state.finish(first));
    assert_eq!(state, before);
}

#[test]
fn generations_start_anew() {
    let job = ReplayJob::new(3, 10, 4, 2);
    let mut state = ReplayPoolState {
        generation: u64::MAX,
        remaining: 0,
        shutdown: false,
        job: None,
    };
    assert_eq!(state.dispatch(job), 0);
    assert_eq!(
        state.next_action(u64::MAX),
        WorkerAction::Run { job, generation: 0 }
    );
}

#[test]
fn shutdown_comes_first() {
    let job = ReplayJob::new(3, 10, 4, 2);
    let mut state = ReplayPoolState::new();
    state.dispatch(job);
    state.begin_shutdown();
    assert_eq!(state.next_action(0), WorkerAction::Exit);
    assert_eq!(state.next_action(1), WorkerAction::Exit);
}

#[test]
fn a_generation_without_a_job_is_noticed() {
    let state = ReplayPoolState {
        generation: 5,
        remaining: 0,
        shutdown: false,
        job: None,
    };
    assert_eq!(state.next_action(4), WorkerAction::MissingJob);
    assert_eq!(state.next_action(5), WorkerAction::Park);
}

#[test]
fn chunks_of_the_rows_handed_out_are_written_back_in_any_order() {
    let start = ramp_slab(3, 10);
    let mut expected = start.clone();
    perform_symbol_ops_sequential(&ramp_ops(), &mut expected);
    let schedule = ReplaySchedule::from_symbol_ops(&ramp_ops());
    let job = ReplayJob::new(3, 10, 4, 3);
    for order in [[0, 1, 2], [2, 1, 0], [1, 2, 0]] {
        let chunks: Vec<(usize, SymbolSlab)> = order
            .iter()
            .map(|worker| {
                let (lo, hi) = job.chunk_range(*worker).unwrap();
                (lo, replay_ops_chunk(schedule.as_slice(), &start, lo, hi))
            })
            .collect();
        let mut rows = start.clone();
        write_back(&mut rows, &chunks);
        assert_eq!(rows, expected);
    }
}

#[test]
fn later_chunks_are_written_over_earlier_ones() {
    let one_row = |octets: &[u8]| {
        SymbolSlab::from_symbols(vec![Symbol::new(octets.to_vec())], octets.len())
    };
    let mut slab = one_row(&[1, 2, 3, 4]);
    write_back(&mut slab, &[(0, one_row(&[5, 6, 7])), (2, one_row(&[8]))]);
    assert_eq!(slab.get(0), &[5, 6, 8, 4]);
    write_back(&mut slab, &[]);
    assert_eq!(slab.get(0), &[5, 6, 8, 4]);
}
