use rumd::cache::{load_with_retry, should_retry, Begin, ChunkCache, ChunkKey, IoError};
use std::cell::Cell;

fn key(entry: u64, chunk: u64) -> ChunkKey {
    ChunkKey { entry, chunk }
}

fn fill(cache: &mut ChunkCache, k: ChunkKey, bytes: Vec<u8>) {
    assert_eq!(cache.begin(k), Begin::Load);
    assert_eq!(cache.finish(k, Ok(bytes.clone())), Ok(bytes));
}

#[test]
fn a_missing_file_is_stale_and_other_failures_may_pass() {
    assert_eq!(IoError::of_failure(true), IoError::Stale);
    assert_eq!(IoError::of_failure(false), IoError::Transient);
}

#[test]
fn there_is_no_cache_of_empty_chunks() {
    assert!(ChunkCache::new(0, 100).is_none());
    let cache = ChunkCache::new(4, 16).unwrap();
    assert_eq!(cache.chunk_size(), 4);
    assert_eq!(cache.budget(), 16);
    assert_eq!(cache.used(), 0);
}

#[test]
fn a_missing_chunk_is_loaded_once_and_then_held() {
    let mut cache = ChunkCache::new(4, 16).unwrap();
    let calls = Cell::new(0u32);
    let loader = |k: ChunkKey| -> Result<Vec<u8>, IoError> {
        calls.set(calls.get() + 1);
        Ok(vec![k.chunk as u8; 4])
    };
    assert_eq!(cache.get_or_fill(key(1, 7), &loader), Ok(vec![7, 7, 7, 7]));
    assert_eq!(calls.get(), 1);
    assert_eq!(cache.get_or_fill(key(1, 7), &loader), Ok(vec![7, 7, 7, 7]));
    assert_eq!(cache.get_or_fill(key(1, 7), &loader), Ok(vec![7, 7, 7, 7]));
    assert_eq!(calls.get(), 1);
    assert!(cache.holds(key(1, 7)));
    assert_eq!(cache.used(), 4);
}

#[test]
fn keys_differ_by_entry_and_by_chunk() {
    let mut cache = ChunkCache::new(4, 16).unwrap();
    fill(&mut cache, key(1, 2), vec![1]);
    assert!(!cache.holds(key(2, 1)));
    assert!(!cache.holds(key(1, 1)));
    assert!(!cache.holds(key(2, 2)));
    assert_eq!(cache.begin(key(2, 1)), Begin::Load);
    assert_eq!(cache.begin(key(1, 2)), Begin::Hit(vec![1]));
}

#[test]
fn a_chunk_being_loaded_makes_others_wait() {
    let mut cache = ChunkCache::new(4, 16).unwrap();
    assert_eq!(cache.begin(key(1, 0)), Begin::Load);
    assert_eq!(cache.begin(key(1, 0)), Begin::Wait);
    assert_eq!(cache.begin(key(1, 0)), Begin::Wait);
    assert_eq!(cache.begin(key(1, 1)), Begin::Load);
    let never = |_k: ChunkKey| -> Result<Vec<u8>, IoError> { panic!("loaded twice") };
    assert_eq!(cache.get_or_fill(key(1, 0), &never), Err(IoError::Transient));
    assert_eq!(cache.finish(key(1, 0), Ok(vec![9, 9])), Ok(vec![9, 9]));
    assert_eq!(cache.begin(key(1, 0)), Begin::Hit(vec![9, 9]));
    assert_eq!(cache.get_or_fill(key(1, 0), &never), Ok(vec![9, 9]));
    assert_eq!(cache.begin(key(1, 1)), Begin::Wait);
}

#[test]
fn a_failed_load_leaves_nothing_behind() {
    let mut cache = ChunkCache::new(4, 16).unwrap();
    assert_eq!(cache.begin(key(1, 0)), Begin::Load);
    assert_eq!(cache.finish(key(1, 0), Err(IoError::Stale)), Err(IoError::Stale));
    assert!(!cache.holds(key(1, 0)));
    assert_eq!(cache.used(), 0);
    assert_eq!(cache.begin(key(1, 0)), Begin::Load);
    let failing = |_k: ChunkKey| -> Result<Vec<u8>, IoError> { Err(IoError::Stale) };
    assert_eq!(cache.get_or_fill(key(1, 1), &failing), Err(IoError::Stale));
    assert_eq!(cache.begin(key(1, 1)), Begin::Load);
}

#[test]
fn the_least_recently_used_chunk_gives_way() {
    let mut cache = ChunkCache::new(4, 12).unwrap();
    fill(&mut cache, key(1, 0), vec![0; 4]);
    fill(&mut cache, key(1, 1), vec![1; 4]);
    fill(&mut cache, key(1, 2), vec![2; 4]);
    assert_eq!(cache.used(), 12);
    assert_eq!(cache.begin(key(1, 0)), Begin::Hit(vec![0; 4]));
    fill(&mut cache, key(1, 3), vec![3; 4]);
    assert!(cache.holds(key(1, 0)));
    assert!(!cache.holds(key(1, 1)));
    assert!(cache.holds(key(1, 2)));
    assert!(cache.holds(key(1, 3)));
    assert_eq!(cache.used(), 12);
    fill(&mut cache, key(1, 4), vec![4; 4]);
    assert!(!cache.holds(key(1, 2)));
    assert!(cache.holds(key(1, 0)));
}

#[test]
fn as_many_chunks_give_way_as_the_new_one_needs() {
    let mut cache = ChunkCache::new(8, 10).unwrap();
    fill(&mut cache, key(1, 0), vec![0; 3]);
    fill(&mut cache, key(1, 1), vec![1; 3]);
    fill(&mut cache, key(1, 2), vec![2; 3]);
    assert_eq!(cache.used(), 9);
    fill(&mut cache, key(1, 3), vec![3; 1]);
    assert_eq!(cache.used(), 10);
    assert!(cache.holds(key(1, 0)));
    fill(&mut cache, key(1, 4), vec![4; 5]);
    assert!(!cache.holds(key(1, 0)));
    assert!(!cache.holds(key(1, 1)));
    assert!(cache.holds(key(1, 2)));
    assert!(cache.holds(key(1, 3)));
    assert!(cache.holds(key(1, 4)));
    assert_eq!(cache.used(), 9);
    fill(&mut cache, key(1, 5), vec![5; 8]);
    assert!(!cache.holds(key(1, 2)));
    assert!(!cache.holds(key(1, 3)));
    assert!(!cache.holds(key(1, 4)));
    assert_eq!(cache.used(), 8);
}

#[test]
fn a_chunk_that_cannot_fit_is_handed_on_and_not_kept() {
    let mut cache = ChunkCache::new(4, 16).unwrap();
    fill(&mut cache, key(1, 0), vec![0; 4]);
    assert_eq!(cache.begin(key(1, 1)), Begin::Load);
    assert_eq!(cache.finish(key(1, 1), Ok(vec![1; 5])), Ok(vec![1; 5]));
    assert!(!cache.holds(key(1, 1)));
    assert!(cache.holds(key(1, 0)));
    assert_eq!(cache.begin(key(1, 1)), Begin::Load);

    let mut small = ChunkCache::new(8, 3).unwrap();
    assert_eq!(small.begin(key(1, 0)), Begin::Load);
    assert_eq!(small.finish(key(1, 0), Ok(vec![0; 4])), Ok(vec![0; 4]));
    assert!(!small.holds(key(1, 0)));
    assert_eq!(small.used(), 0);
}

#[test]
fn a_report_that_nobody_asked_for_is_not_kept() {
    let mut cache = ChunkCache::new(4, 16).unwrap();
    assert_eq!(cache.finish(key(1, 0), Ok(vec![1, 2])), Ok(vec![1, 2]));
    assert!(!cache.holds(key(1, 0)));
    assert_eq!(cache.begin(key(1, 0)), Begin::Load);
}

#[test]
fn clearing_forgets_chunks_and_loads() {
    let mut cache = ChunkCache::new(4, 16).unwrap();
    fill(&mut cache, key(1, 0), vec![0; 4]);
    assert_eq!(cache.begin(key(1, 1)), Begin::Load);
    cache.clear();
    assert_eq!(cache.used(), 0);
    assert!(!cache.holds(key(1, 0)));
    assert_eq!(cache.finish(key(1, 1), Ok(vec![1; 4])), Ok(vec![1; 4]));
    assert!(!cache.holds(key(1, 1)));
    assert_eq!(cache.begin(key(1, 1)), Begin::Load);
    assert_eq!(cache.chunk_size(), 4);
    assert_eq!(cache.budget(), 16);
}

#[test]
fn a_passing_failure_is_tried_once_more() {
    assert!(should_retry(&Err(IoError::Transient)));
    assert!(!should_retry(&Err(IoError::Stale)));
    assert!(!should_retry(&Ok(vec![1])));

    let calls = Cell::new(0u32);
    let flaky = |_k: ChunkKey| -> Result<Vec<u8>, IoError> {
        calls.set(calls.get() + 1);
        if calls.get() == 1 {
            Err(IoError::Transient)
        } else {
            Ok(vec![5])
        }
    };
    assert_eq!(load_with_retry(&flaky, key(1, 0)), Ok(vec![5]));
    assert_eq!(calls.get(), 2);

    let tries = Cell::new(0u32);
    let down = |_k: ChunkKey| -> Result<Vec<u8>, IoError> {
        tries.set(tries.get() + 1);
        Err(IoError::Transient)
    };
    assert_eq!(load_with_retry(&down, key(1, 0)), Err(IoError::Transient));
    assert_eq!(tries.get(), 2);

    let once = Cell::new(0u32);
    let gone = |_k: ChunkKey| -> Result<Vec<u8>, IoError> {
        once.set(once.get() + 1);
        Err(IoError::Stale)
    };
    assert_eq!(load_with_retry(&gone, key(1, 0)), Err(IoError::Stale));
    assert_eq!(once.get(), 1);
}

#[test]
fn filling_after_a_passing_failure_keeps_the_chunk() {
    let mut cache = ChunkCache::new(4, 16).unwrap();
    let calls = Cell::new(0u32);
    let flaky = |_k: ChunkKey| -> Result<Vec<u8>, IoError> {
        calls.set(calls.get() + 1);
        if calls.get() == 1 {
            Err(IoError::Transient)
        } else {
            Ok(vec![5, 6])
        }
    };
    assert_eq!(cache.get_or_fill(key(3, 3), &flaky), Ok(vec![5, 6]));
    assert_eq!(cache.get_or_fill(key(3, 3), &flaky), Ok(vec![5, 6]));
    assert_eq!(calls.get(), 2);
}
