use agent_runtime::memory::{MemoryError, MemoryManager};

const MS: u64 = 1_000_000;

#[test]
fn test_memory_allocation() {
    let mut manager = MemoryManager::new(1024);
    let data = vec![0u8; 100];
    assert!(manager.allocate("test".to_string(), data, None, Vec::new()).is_ok());
    let stats = manager.get_stats();
    assert_eq!(stats.current_usage, 100);
}

#[test]
fn test_memory_limit() {
    let mut manager = MemoryManager::new(50);
    let data = vec![0u8; 100];
    assert!(manager.allocate("test".to_string(), data, None, Vec::new()).is_err());
}

#[test]
fn test_ttl() {
    let mut manager = MemoryManager::new(1024);
    let data = vec![0u8; 100];
    assert!(manager
        .allocate_at("test".to_string(), data, Some(100 * MS), Vec::new(), 0)
        .is_ok());
    assert!(manager.get_at("test", 200 * MS).is_err());
}

#[test]
fn over_budget_allocation_changes_nothing() {
    let mut manager = MemoryManager::new(50);
    let r = manager.allocate_at("k".to_string(), vec![1u8; 100], None, Vec::new(), 0);
    assert!(matches!(r, Err(MemoryError::LimitExceeded(_))));
    let stats = manager.get_stats();
    assert_eq!(stats.current_usage, 0);
    assert_eq!(stats.allocation_count, 0);
    assert_eq!(stats.total_allocated, 0);
    assert!(matches!(manager.get_at("k", 0), Err(MemoryError::KeyNotFound(_))));
}

#[test]
fn allocation_up_to_the_budget_succeeds() {
    let mut manager = MemoryManager::new(50);
    assert!(manager.allocate_at("a".to_string(), vec![1u8; 30], None, Vec::new(), 0).is_ok());
    assert!(manager.allocate_at("b".to_string(), vec![2u8; 20], None, Vec::new(), 0).is_ok());
    assert!(matches!(
        manager.allocate_at("c".to_string(), vec![3u8; 1], None, Vec::new(), 0),
        Err(MemoryError::LimitExceeded(_))
    ));
    assert_eq!(manager.get_stats().current_usage, 50);
}

#[test]
fn ttl_boundary() {
    let mut manager = MemoryManager::new(1024);
    manager
        .allocate_at("k".to_string(), vec![7u8; 4], Some(100 * MS), Vec::new(), 1000)
        .unwrap();
    assert_eq!(manager.get_at("k", 1000 + 99 * MS).unwrap(), vec![7u8; 4]);
    assert_eq!(manager.get_at("k", 1000 + 100 * MS).unwrap(), vec![7u8; 4]);
    match manager.get_at("k", 1000 + 100 * MS + 1) {
        Err(MemoryError::KeyNotFound(m)) => assert_eq!(m, "Key expired"),
        _ => panic!("expected an expired block"),
    }
}

#[test]
fn expired_block_stays_counted_until_swept() {
    let mut manager = MemoryManager::new(1024);
    manager
        .allocate_at("k".to_string(), vec![0u8; 10], Some(50 * MS), Vec::new(), 0)
        .unwrap();
    assert!(matches!(manager.get_at("k", 60 * MS), Err(MemoryError::KeyNotFound(_))));
    assert_eq!(manager.get_stats().current_usage, 10);
    assert_eq!(manager.cleanup_expired_at(60 * MS).unwrap(), 1);
    let stats = manager.get_stats();
    assert_eq!(stats.current_usage, 0);
    assert_eq!(stats.total_freed, 10);
    assert!(matches!(manager.get_at("k", 60 * MS), Err(MemoryError::KeyNotFound(_))));
}

#[test]
fn second_sweep_returns_zero() {
    let mut manager = MemoryManager::new(1024);
    manager.allocate_at("a".to_string(), vec![0u8; 5], Some(10), Vec::new(), 0).unwrap();
    manager.allocate_at("b".to_string(), vec![0u8; 6], None, Vec::new(), 0).unwrap();
    manager.allocate_at("c".to_string(), vec![0u8; 7], Some(1000), Vec::new(), 0).unwrap();
    manager.allocate_at("d".to_string(), vec![0u8; 8], Some(5), Vec::new(), 0).unwrap();
    assert_eq!(manager.cleanup_expired_at(100).unwrap(), 2);
    assert_eq!(manager.cleanup_expired_at(100).unwrap(), 0);
    assert_eq!(manager.get_stats().current_usage, 13);
    assert!(manager.get_at("b", 100).is_ok());
    assert!(manager.get_at("c", 100).is_ok());
}

#[test]
fn sweep_keeps_blocks_of_unknown_age() {
    let mut manager = MemoryManager::new(1024);
    manager.allocate_at("k".to_string(), vec![0u8; 3], Some(1), Vec::new(), 500).unwrap();
    assert!(matches!(manager.get_at("k", 100), Err(MemoryError::InvalidOperation(_))));
    assert_eq!(manager.cleanup_expired_at(100).unwrap(), 0);
    assert_eq!(manager.get_stats().current_usage, 3);
}

#[test]
fn stats_accumulate_over_allocations() {
    let mut manager = MemoryManager::new(1000);
    let sizes = [10usize, 0, 25, 65];
    for (i, s) in sizes.iter().enumerate() {
        manager
            .allocate_at(format!("k{}", i), vec![1u8; *s], None, Vec::new(), 0)
            .unwrap();
    }
    let stats = manager.get_stats();
    assert_eq!(stats.total_allocated, 100);
    assert_eq!(stats.current_usage, 100);
    assert!(stats.peak_usage >= 100);
    assert_eq!(stats.allocation_count, 4);
    assert_eq!(stats.total_freed, 0);
}

#[test]
fn free_releases_bytes_and_keeps_peak() {
    let mut manager = MemoryManager::new(100);
    manager.allocate_at("a".to_string(), vec![1u8; 40], None, Vec::new(), 0).unwrap();
    manager.allocate_at("b".to_string(), vec![1u8; 30], None, Vec::new(), 0).unwrap();
    assert!(manager.free("a").is_ok());
    let stats = manager.get_stats();
    assert_eq!(stats.current_usage, 30);
    assert_eq!(stats.total_freed, 40);
    assert_eq!(stats.peak_usage, 70);
    match manager.free("a") {
        Err(MemoryError::KeyNotFound(k)) => assert_eq!(k, "a"),
        _ => panic!("expected KeyNotFound"),
    }
}

#[test]
fn get_returns_the_stored_bytes() {
    let mut manager = MemoryManager::new(100);
    manager.allocate("k".to_string(), vec![1, 2, 3], None, Vec::new()).unwrap();
    assert_eq!(manager.get("k").unwrap(), vec![1, 2, 3]);
    match manager.get("missing") {
        Err(MemoryError::KeyNotFound(k)) => assert_eq!(k, "missing"),
        _ => panic!("expected KeyNotFound"),
    }
}

#[test]
fn reallocating_a_key_releases_the_old_block() {
    let mut manager = MemoryManager::new(100);
    manager.allocate_at("k".to_string(), vec![1u8; 10], None, Vec::new(), 0).unwrap();
    manager.allocate_at("k".to_string(), vec![2u8; 5], None, Vec::new(), 0).unwrap();
    assert_eq!(manager.get_at("k", 0).unwrap(), vec![2u8; 5]);
    let stats = manager.get_stats();
    assert_eq!(stats.current_usage, 5);
    assert_eq!(stats.total_freed, 10);
    assert_eq!(stats.total_allocated, 15);
    assert_eq!(stats.allocation_count, 2);
    manager.free("k").unwrap();
    assert_eq!(manager.get_stats().current_usage, 0);
    assert!(manager.get_at("k", 0).is_err());
}

#[test]
fn reallocation_is_budgeted_without_the_old_block() {
    let mut manager = MemoryManager::new(10);
    manager.allocate_at("k".to_string(), vec![1u8; 8], None, Vec::new(), 0).unwrap();
    assert!(manager.allocate_at("k".to_string(), vec![2u8; 9], None, Vec::new(), 0).is_ok());
    assert_eq!(manager.get_stats().current_usage, 9);
    assert!(matches!(
        manager.allocate_at("k".to_string(), vec![3u8; 11], None, Vec::new(), 0),
        Err(MemoryError::LimitExceeded(_))
    ));
    assert_eq!(manager.get_at("k", 0).unwrap(), vec![2u8; 9]);
    assert_eq!(manager.get_stats().current_usage, 9);
}

#[test]
fn reallocated_key_is_swept_once() {
    let mut manager = MemoryManager::new(100);
    manager.allocate_at("k".to_string(), vec![1u8; 4], Some(10), Vec::new(), 0).unwrap();
    manager.allocate_at("k".to_string(), vec![1u8; 6], Some(10), Vec::new(), 5).unwrap();
    assert_eq!(manager.cleanup_expired_at(100).unwrap(), 1);
    assert_eq!(manager.get_stats().current_usage, 0);
    assert_eq!(manager.get_stats().total_freed, 10);
}

#[test]
fn metadata_is_set_and_read() {
    let mut manager = MemoryManager::new(100);
    let md = vec![("owner".to_string(), "a".to_string())];
    manager.allocate_at("k".to_string(), vec![1u8; 4], None, md, 0).unwrap();
    manager.add_metadata("k", "kind".to_string(), "blob".to_string()).unwrap();
    manager.add_metadata("k", "owner".to_string(), "b".to_string()).unwrap();
    let got = manager.get_metadata("k").unwrap();
    assert_eq!(
        got,
        vec![
            ("owner".to_string(), "b".to_string()),
            ("kind".to_string(), "blob".to_string())
        ]
    );
    assert_eq!(manager.get_stats().current_usage, 4);
    assert!(matches!(
        manager.add_metadata("x", "a".to_string(), "b".to_string()),
        Err(MemoryError::KeyNotFound(_))
    ));
    assert!(matches!(manager.get_metadata("x"), Err(MemoryError::KeyNotFound(_))));
}

#[test]
fn cleanup_with_the_clock_keeps_unexpiring_blocks() {
    let mut manager = MemoryManager::new(100);
    manager.allocate("k".to_string(), vec![1u8; 4], None, Vec::new()).unwrap();
    assert_eq!(manager.cleanup_expired().unwrap(), 0);
    assert_eq!(manager.get_stats().current_usage, 4);
}

#[test]
fn over_budget_reallocation_reports_limit_with_the_clock() {
    let mut manager = MemoryManager::new(10);
    manager.allocate("k".to_string(), vec![1u8; 4], None, Vec::new()).unwrap();
    assert!(matches!(
        manager.allocate("j".to_string(), vec![1u8; 7], None, Vec::new()),
        Err(MemoryError::LimitExceeded(_))
    ));
    assert!(manager.allocate("k".to_string(), vec![1u8; 10], None, Vec::new()).is_ok());
    assert_eq!(manager.get_stats().current_usage, 10);
}

#[test]
fn get_with_the_clock_reads_blocks_without_ttl() {
    let mut manager = MemoryManager::new(100);
    manager.allocate("k".to_string(), vec![9u8; 3], None, Vec::new()).unwrap();
    manager
        .allocate("t".to_string(), vec![8u8; 2], Some(u64::MAX), Vec::new())
        .unwrap();
    assert_eq!(manager.get("k").unwrap(), vec![9u8; 3]);
    assert_eq!(manager.get("t").unwrap(), vec![8u8; 2]);
    match manager.get("absent") {
        Err(MemoryError::KeyNotFound(k)) => assert_eq!(k, "absent"),
        _ => panic!("expected KeyNotFound"),
    }
}
