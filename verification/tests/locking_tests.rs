use std::sync::atomic::{AtomicU64, Ordering};
use std::sync::{Arc, Mutex, TryLockError};
use std::time::{Duration, Instant};

use deep_poker::agent::locking::{LockEvent, LockPlan, LockStep};
use threadpool::ThreadPool;

/// Locks the cells of `table` by the plan's steps, adds one to each, and
/// gives them back. Returns how often it had to start over.
fn update_table(cells: &Vec<Arc<Mutex<u64>>>, table: &[usize]) -> u64 {
    let mut held = Vec::new();
    let mut restarts = 0;
    let mut plan = LockPlan::new(table.len());
    let mut step = plan.next_step();
    loop {
        match step {
            LockStep::TryLock(position) => match cells[table[position]].try_lock() {
                Ok(guard) => {
                    held.push(guard);
                    step = plan.on_event(LockEvent::Acquired);
                }
                Err(TryLockError::WouldBlock) => {
                    step = plan.on_event(LockEvent::WouldBlock);
                }
                Err(TryLockError::Poisoned(_)) => panic!("a worker failed"),
            },
            LockStep::ReleaseAndWait => {
                assert_eq!(plan.held, 0);
                held.clear();
                restarts += 1;
                std::hint::spin_loop();
                step = plan.next_step();
            }
            LockStep::Proceed => break,
        }
    }
    assert_eq!(held.len(), table.len());
    for guard in held.iter_mut() {
        **guard += 1;
    }
    restarts
}

#[test]
fn overlapping_tables_never_deadlock() {
    let cells: Vec<Arc<Mutex<u64>>> = (0..5).map(|_| Arc::new(Mutex::new(0))).collect();
    // tables that overlap and take their locks in clashing orders
    let tables: Vec<Vec<usize>> = vec![
        vec![0, 1, 2],
        vec![2, 1, 0],
        vec![1, 3, 0],
        vec![4, 2, 3],
        vec![3, 4, 1],
        vec![0, 4, 2],
        vec![2, 0, 4],
        vec![1, 2, 3],
    ];
    let hands = 2000;
    let started = Instant::now();
    let pool = ThreadPool::new(tables.len());
    let finished = Arc::new(AtomicU64::new(0));
    for table in &tables {
        let cells = cells.clone();
        let table = table.clone();
        let finished = Arc::clone(&finished);
        pool.execute(move || {
            for _ in 0..hands {
                update_table(&cells, &table);
            }
            finished.fetch_add(1, Ordering::SeqCst);
        });
    }
    pool.join();
    assert_eq!(pool.panic_count(), 0);
    assert_eq!(finished.load(Ordering::SeqCst), tables.len() as u64);
    assert!(started.elapsed() < Duration::from_secs(15));
    let mut expected = vec![0u64; 5];
    for table in &tables {
        for cell in table {
            expected[*cell] += hands;
        }
    }
    let counted: Vec<u64> = cells.iter().map(|cell| *cell.lock().unwrap()).collect();
    assert_eq!(counted, expected);
}
