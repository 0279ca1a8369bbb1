use list_sets::concurrent_set::replay;
use list_sets::fine_grained::FineGrainedListSet;
use list_sets::optimistic_fine_grained::OptimisticFineGrainedListSet;
use std::collections::HashSet;
use list_sets::log_check::{logs_consistent, Log};

#[test]
fn log_key_of_each_variant() {
    assert_eq!(Log::Contains { key: 3, result: false }.key(), 3);
    assert_eq!(Log::Insert { key: 4, result: true }.key(), 4);
    assert_eq!(Log::Remove { key: 5, result: false }.key(), 5);
}

#[test]
fn empty_log_is_consistent() {
    assert!(logs_consistent(&Vec::new()));
}

#[test]
fn consistent_log() {
    let logs = vec![
        Log::Contains { key: 1, result: true },
        Log::Insert { key: 1, result: true },
        Log::Remove { key: 1, result: true },
        Log::Insert { key: 1, result: true },
        Log::Remove { key: 1, result: true },
        Log::Remove { key: 2, result: false },
        Log::Contains { key: 2, result: false },
    ];
    assert!(logs_consistent(&logs));
}

#[test]
fn contains_without_insert_is_inconsistent() {
    let logs = vec![
        Log::Insert { key: 1, result: true },
        Log::Contains { key: 2, result: true },
    ];
    assert!(!logs_consistent(&logs));
}

#[test]
fn failed_insert_does_not_count() {
    let logs = vec![
        Log::Insert { key: 9, result: false },
        Log::Contains { key: 9, result: true },
    ];
    assert!(!logs_consistent(&logs));
}

#[test]
fn too_many_removes_is_inconsistent() {
    let logs = vec![
        Log::Insert { key: 7, result: true },
        Log::Remove { key: 7, result: true },
        Log::Remove { key: 7, result: true },
    ];
    assert!(!logs_consistent(&logs));
}

#[test]
fn log_of_a_real_run_is_consistent() {
    let mut set = FineGrainedListSet::new();
    let mut logs = Vec::new();
    let mut x: u64 = 1;
    for _ in 0..500 {
        x = x.wrapping_mul(2862933555777941757).wrapping_add(3037000493);
        let key = (x >> 40) % 8;
        let l = match (x >> 20) % 3 {
            0 => Log::Contains { key, result: set.contains(&key) },
            1 => Log::Insert { key, result: set.insert(key) },
            _ => Log::Remove { key, result: set.remove(&key) },
        };
        logs.push(l);
    }
    assert!(logs_consistent(&logs));
}

fn ops_for_replay() -> Vec<Log> {
    let mut ops = Vec::new();
    let mut x: u64 = 7;
    for _ in 0..300 {
        x = x.wrapping_mul(6364136223846793005).wrapping_add(1);
        let key = (x >> 50) % 10;
        // the recorded results are placeholders: replay fills in the real ones
        ops.push(match (x >> 30) % 3 {
            0 => Log::Contains { key, result: false },
            1 => Log::Insert { key, result: false },
            _ => Log::Remove { key, result: true },
        });
    }
    ops
}

fn model_log(ops: &[Log]) -> Vec<Log> {
    let mut model = HashSet::new();
    ops.iter()
        .map(|op| match *op {
            Log::Contains { key, .. } => Log::Contains { key, result: model.contains(&key) },
            Log::Insert { key, .. } => Log::Insert { key, result: model.insert(key) },
            Log::Remove { key, .. } => Log::Remove { key, result: model.remove(&key) },
        })
        .collect()
}

#[test]
fn replay_matches_hash_set_model() {
    let ops = ops_for_replay();
    let expected = model_log(&ops);
    let mut a = FineGrainedListSet::new();
    let mut b = OptimisticFineGrainedListSet::new();
    let la = replay(&mut a, &ops);
    let lb = replay(&mut b, &ops);
    assert_eq!(la, expected);
    assert_eq!(lb, expected);
    assert!(logs_consistent(&la));
}

#[test]
fn replay_scenario() {
    let mut set = FineGrainedListSet::new();
    let ops = vec![
        Log::Remove { key: 222, result: true },
        Log::Insert { key: 184, result: false },
        Log::Insert { key: 15, result: false },
        Log::Insert { key: 182, result: false },
        Log::Insert { key: 15, result: true },
        Log::Contains { key: 182, result: false },
    ];
    let log = replay(&mut set, &ops);
    assert_eq!(
        log,
        vec![
            Log::Remove { key: 222, result: false },
            Log::Insert { key: 184, result: true },
            Log::Insert { key: 15, result: true },
            Log::Insert { key: 182, result: true },
            Log::Insert { key: 15, result: false },
            Log::Contains { key: 182, result: true },
        ]
    );
    assert_eq!(set.iter(), vec![15, 182, 184]);
}
