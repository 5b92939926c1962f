use ternary_scheduler::{LoadBalancer, Task, WorkStealingPool};

fn loads(pool: &WorkStealingPool) -> Vec<usize> {
    pool.workers.iter().map(|w| w.len()).collect()
}

#[test]
fn test_work_stealing() {
    let mut pool = WorkStealingPool::new(3);
    pool.assign(0, Task::new(1, 0));
    pool.assign(0, Task::new(2, 0));
    pool.assign(0, Task::new(3, 0));
    pool.assign(1, Task::new(4, 0));
    let stolen = pool.steal();
    assert!(stolen > 0);
    assert!(pool.workers[0].len() < 4);
}

#[test]
fn test_no_steal_urgent() {
    // Worker 0 holds three urgent tasks and worker 1 none, so only the
    // protection of urgent tasks prevents a steal.
    let mut pool = WorkStealingPool::new(2);
    pool.assign(0, Task::new(1, 1)); // urgent
    pool.assign(0, Task::new(2, 1)); // urgent
    pool.assign(0, Task::new(3, 1)); // urgent
    let stolen = pool.steal();
    assert_eq!(stolen, 0);
    assert_eq!(pool.workers[0].len(), 3);
    assert_eq!(pool.workers[1].len(), 0);
}

#[test]
fn test_load_balanced() {
    let pool = WorkStealingPool {
        workers: vec![vec![Task::new(1, 0)], vec![Task::new(2, 0)]],
    };
    assert!(LoadBalancer::is_balanced(&pool.workers));
}

// A [10, 0, 0] start must be stolen from until it is balanced.
#[test]
fn test_balance_actually_balances() {
    let mut pool = WorkStealingPool::new(3);
    for i in 0..10 {
        pool.assign(0, Task::new(i, 0));
    }
    let moves = LoadBalancer::balance(&mut pool);
    assert!(moves > 0, "balance should have moved tasks");
    assert!(
        LoadBalancer::is_balanced(&pool.workers),
        "pool not balanced after balance(): {:?}",
        pool.workers.iter().map(|w| w.len()).collect::<Vec<_>>()
    );
    // No tasks were lost.
    let total: usize = pool.workers.iter().map(|w| w.len()).sum();
    assert_eq!(total, 10);
}

// An imbalance made only of urgent tasks is left alone, and balance() stops.
#[test]
fn test_balance_skips_urgent_only_imbalance() {
    let mut pool = WorkStealingPool::new(2);
    for i in 0..3 {
        pool.assign(0, Task::new(i, 1));
    }
    let moves = LoadBalancer::balance(&mut pool);
    assert_eq!(moves, 0);
    assert_eq!(pool.workers[0].len(), 3);
    assert_eq!(pool.workers[1].len(), 0);
}

#[test]
fn test_steal_single_worker_is_noop() {
    let mut pool = WorkStealingPool::new(1);
    pool.assign(0, Task::new(1, 0));
    pool.assign(0, Task::new(2, 0));
    assert_eq!(pool.steal(), 0);
    assert_eq!(pool.workers[0].len(), 2);
}

#[test]
fn test_steal_balanced_pool_moves_nothing() {
    let mut pool = WorkStealingPool::new(2);
    pool.assign(0, Task::new(1, 0));
    pool.assign(0, Task::new(2, 0));
    pool.assign(1, Task::new(3, 0));
    pool.assign(1, Task::new(4, 0));
    // loads [2, 2]: busiest_load (2) is not > idlest_load (2) + 1.
    assert_eq!(pool.steal(), 0);
}

#[test]
fn test_assign_out_of_bounds_is_noop() {
    let mut pool = WorkStealingPool::new(2);
    pool.assign(5, Task::new(1, 0));
    assert!(pool.workers.iter().all(|w| w.is_empty()));
}

#[test]
fn test_is_balanced_empty_is_true() {
    assert!(LoadBalancer::is_balanced(&[]));
}

#[test]
fn test_is_balanced_detects_imbalance() {
    let workers = vec![
        vec![Task::new(1, 0), Task::new(2, 0), Task::new(3, 0)],
        vec![],
    ];
    assert!(!LoadBalancer::is_balanced(&workers));
}

// --- further cases ---

#[test]
fn new_pool_has_empty_workers() {
    let pool = WorkStealingPool::new(4);
    assert_eq!(loads(&pool), vec![0, 0, 0, 0]);
    assert!(WorkStealingPool::new(0).workers.is_empty());
}

#[test]
fn steal_takes_first_non_urgent_from_last_busiest_to_first_idlest() {
    let mut pool = WorkStealingPool::new(4);
    pool.assign(0, Task::new(1, 0));
    pool.assign(0, Task::new(2, 0));
    pool.assign(0, Task::new(3, 0));
    // worker 2 is busiest too; being the last, it is the one stolen from
    pool.assign(2, Task::new(10, 1));
    pool.assign(2, Task::new(11, -1));
    pool.assign(2, Task::new(12, 0));
    // workers 1 and 3 are idlest; the first of them receives
    assert_eq!(pool.steal(), 1);
    assert_eq!(loads(&pool), vec![3, 1, 2, 0]);
    assert_eq!(pool.workers[1][0].id, 11);
    let left: Vec<usize> = pool.workers[2].iter().map(|t| t.id).collect();
    assert_eq!(left, vec![10, 12]);
}

#[test]
fn steal_appends_to_the_back_of_idlest_queue() {
    let mut pool = WorkStealingPool::new(2);
    for i in 0..4 {
        pool.assign(0, Task::new(i, 0));
    }
    pool.assign(1, Task::new(9, 0));
    assert_eq!(pool.steal(), 1);
    let ids: Vec<usize> = pool.workers[1].iter().map(|t| t.id).collect();
    assert_eq!(ids, vec![9, 0]);
}

#[test]
fn steal_needs_a_gap_of_two() {
    let mut pool = WorkStealingPool::new(2);
    pool.assign(0, Task::new(1, 0));
    pool.assign(0, Task::new(2, 0));
    pool.assign(1, Task::new(3, 0));
    assert_eq!(pool.steal(), 0);
    assert_eq!(loads(&pool), vec![2, 1]);
}

#[test]
fn is_balanced_uses_exact_average() {
    // loads [3, 1, 1]: average 5/3, |3 - 5/3| = 4/3 > 1
    let w = vec![
        vec![Task::new(1, 0), Task::new(2, 0), Task::new(3, 0)],
        vec![Task::new(4, 0)],
        vec![Task::new(5, 0)],
    ];
    assert!(!LoadBalancer::is_balanced(&w));
    // loads [2, 1, 0]: average 1, every load within one
    let w = vec![vec![Task::new(1, 0), Task::new(2, 0)], vec![Task::new(3, 0)], vec![]];
    assert!(LoadBalancer::is_balanced(&w));
    // a single worker is always balanced
    let w = vec![vec![Task::new(1, 0), Task::new(2, 0), Task::new(3, 0)]];
    assert!(LoadBalancer::is_balanced(&w));
}

#[test]
fn balance_keeps_urgent_tasks_in_place_and_loses_nothing() {
    let mut pool = WorkStealingPool::new(3);
    pool.assign(0, Task::new(1, 1));
    pool.assign(0, Task::new(2, 1));
    for i in 3..9 {
        pool.assign(0, Task::new(i, 0));
    }
    let moves = LoadBalancer::balance(&mut pool);
    assert!(LoadBalancer::is_balanced(&pool.workers));
    assert!(moves <= 8);
    let mut all: Vec<usize> = pool.workers.iter().flatten().map(|t| t.id).collect();
    all.sort();
    assert_eq!(all, (1..9).collect::<Vec<usize>>());
    let urgent_on_0 = pool.workers[0].iter().filter(|t| t.priority == 1).count();
    assert_eq!(urgent_on_0, 2);
    assert!(pool.workers[1].iter().chain(pool.workers[2].iter()).all(|t| t.priority != 1));
}

#[test]
fn balance_on_balanced_pool_moves_nothing() {
    let mut pool = WorkStealingPool::new(2);
    pool.assign(0, Task::new(1, 0));
    pool.assign(1, Task::new(2, 0));
    assert_eq!(LoadBalancer::balance(&mut pool), 0);
    assert_eq!(loads(&pool), vec![1, 1]);
}

#[test]
fn balance_counts_every_move() {
    let mut pool = WorkStealingPool::new(3);
    for i in 0..6 {
        pool.assign(0, Task::new(i, 0));
    }
    // [6,0,0] -> [5,1,0] -> [4,1,1] -> [3,2,1]: balanced after three moves
    assert_eq!(LoadBalancer::balance(&mut pool), 3);
    assert_eq!(loads(&pool), vec![3, 2, 1]);
}

#[test]
fn successful_steal_lowers_sum_of_squared_loads() {
    let mut pool = WorkStealingPool::new(3);
    for i in 0..5 {
        pool.assign(0, Task::new(i, 0));
    }
    pool.assign(1, Task::new(9, 0));
    let squares = |p: &WorkStealingPool| -> usize { p.workers.iter().map(|w| w.len() * w.len()).sum() };
    let before = squares(&pool);
    assert_eq!(pool.steal(), 1);
    assert!(squares(&pool) < before);
    assert_eq!(loads(&pool), vec![4, 1, 1]);
}

#[test]
fn balance_takes_from_another_worker_of_greatest_load() {
    // loads [3, 3, 0]; the last busiest worker holds urgent tasks only
    let mut pool = WorkStealingPool {
        workers: vec![
            vec![Task::new(1, 0), Task::new(2, 0), Task::new(3, 0)],
            vec![Task::new(4, 1), Task::new(5, 1), Task::new(6, 1)],
            vec![],
        ],
    };
    assert_eq!(pool.steal(), 0);
    assert_eq!(LoadBalancer::balance(&mut pool), 1);
    assert!(LoadBalancer::is_balanced(&pool.workers));
    assert_eq!(loads(&pool), vec![2, 3, 1]);
    assert_eq!(pool.workers[2][0].id, 1);
    assert!(pool.workers[1].iter().all(|t| t.priority == 1));
}

#[test]
fn balance_stops_when_peak_holds_only_urgent_tasks() {
    // loads [1, 4, 0]: the only worker of greatest load holds urgent tasks
    let mut pool = WorkStealingPool {
        workers: vec![
            vec![Task::new(1, 0)],
            vec![Task::new(2, 1), Task::new(3, 1), Task::new(4, 1), Task::new(5, 1)],
            vec![],
        ],
    };
    assert_eq!(LoadBalancer::balance(&mut pool), 0);
    assert!(!LoadBalancer::is_balanced(&pool.workers));
    assert_eq!(loads(&pool), vec![1, 4, 0]);
}
