use agent_runtime::scheduler::{Scheduler, SchedulerError, TaskConfig};

fn config(id: &str, priority: u8) -> TaskConfig {
    TaskConfig {
        id: id.to_string(),
        priority,
        max_retries: 3,
        timeout_ms: 1000,
        dependencies: vec![],
    }
}

#[test]
fn test_task_scheduling() {
    let mut scheduler = Scheduler::new(10);
    assert!(scheduler.schedule_task(config("test-task", 1)).is_ok());
    assert_eq!(scheduler.get_queue_size(), 1);
}

#[test]
fn test_queue_limit() {
    let mut scheduler = Scheduler::new(1);
    assert!(scheduler.schedule_task(config("task1", 1)).is_ok());
    assert!(scheduler.schedule_task(config("task2", 1)).is_err());
}

#[test]
fn test_task_cancellation() {
    let mut scheduler = Scheduler::new(10);
    scheduler.schedule_task(config("test-task", 1)).unwrap();
    assert!(scheduler.cancel_task("test-task").is_ok());
    assert_eq!(scheduler.get_queue_size(), 0);
}

#[test]
fn dispatch_follows_priority() {
    let mut scheduler = Scheduler::new(10);
    scheduler.schedule_task_at(config("low", 1), 10).unwrap();
    scheduler.schedule_task_at(config("high", 5), 20).unwrap();
    scheduler.schedule_task_at(config("mid", 3), 30).unwrap();
    assert_eq!(scheduler.get_queue_size(), 3);
    let order: Vec<String> = (0..3).map(|_| scheduler.dispatch_next().unwrap().id).collect();
    assert_eq!(order, vec!["high", "mid", "low"]);
    assert!(scheduler.dispatch_next().is_none());
}

#[test]
fn dispatch_is_fifo_within_priority() {
    let mut scheduler = Scheduler::new(10);
    scheduler.schedule_task_at(config("second", 2), 200).unwrap();
    scheduler.schedule_task_at(config("first", 2), 100).unwrap();
    scheduler.schedule_task_at(config("third", 2), 300).unwrap();
    assert_eq!(scheduler.dispatch_next().unwrap().id, "first");
    assert_eq!(scheduler.dispatch_next().unwrap().id, "second");
    assert_eq!(scheduler.dispatch_next().unwrap().id, "third");
}

#[test]
fn dispatch_equal_times_go_by_submission() {
    let mut scheduler = Scheduler::new(10);
    scheduler.schedule_task_at(config("a", 4), 7).unwrap();
    scheduler.schedule_task_at(config("b", 4), 7).unwrap();
    assert_eq!(scheduler.dispatch_next().unwrap().id, "a");
    assert_eq!(scheduler.dispatch_next().unwrap().id, "b");
}

#[test]
fn dispatched_task_keeps_its_config() {
    let mut scheduler = Scheduler::new(2);
    scheduler.schedule_task_at(config("t", 9), 42).unwrap();
    let task = scheduler.dispatch_next().unwrap();
    assert_eq!(task.priority, 9);
    assert_eq!(task.scheduled_time, 42);
    assert_eq!(task.retries, 0);
    assert_eq!(task.config.id, "t");
    assert_eq!(task.config.max_retries, 3);
}

#[test]
fn capacity_bounds_pending_tasks() {
    let mut scheduler = Scheduler::new(3);
    for i in 0..3u64 {
        assert!(scheduler.schedule_task_at(config("t", 1), i).is_ok());
    }
    let r = scheduler.schedule_task_at(config("t", 1), 4);
    assert!(matches!(r, Err(SchedulerError::QueueFull(_))));
    assert_eq!(scheduler.get_queue_size(), 3);
    scheduler.dispatch_next().unwrap();
    assert!(scheduler.schedule_task_at(config("u", 1), 5).is_ok());
    assert_eq!(scheduler.get_queue_size(), 3);
}

#[test]
fn zero_capacity_refuses_everything() {
    let mut scheduler = Scheduler::new(0);
    assert!(matches!(
        scheduler.schedule_task(config("t", 1)),
        Err(SchedulerError::QueueFull(_))
    ));
}

#[test]
fn cancel_twice_reports_not_found() {
    let mut scheduler = Scheduler::new(10);
    scheduler.schedule_task(config("t1", 1)).unwrap();
    assert!(scheduler.cancel_task("t1").is_ok());
    assert_eq!(scheduler.get_queue_size(), 0);
    match scheduler.cancel_task("t1") {
        Err(SchedulerError::TaskNotFound(id)) => assert_eq!(id, "t1"),
        _ => panic!("expected TaskNotFound"),
    }
}

#[test]
fn cancel_removes_only_that_id() {
    let mut scheduler = Scheduler::new(10);
    scheduler.schedule_task_at(config("a", 1), 1).unwrap();
    scheduler.schedule_task_at(config("b", 2), 2).unwrap();
    scheduler.schedule_task_at(config("c", 3), 3).unwrap();
    assert!(scheduler.cancel_task("b").is_ok());
    assert_eq!(scheduler.get_queue_size(), 2);
    assert_eq!(scheduler.dispatch_next().unwrap().id, "c");
    assert_eq!(scheduler.dispatch_next().unwrap().id, "a");
}

#[test]
fn cancel_removes_every_task_of_the_id() {
    let mut scheduler = Scheduler::new(10);
    scheduler.schedule_task_at(config("dup", 1), 1).unwrap();
    scheduler.schedule_task_at(config("other", 1), 2).unwrap();
    scheduler.schedule_task_at(config("dup", 5), 3).unwrap();
    assert!(scheduler.cancel_task("dup").is_ok());
    assert_eq!(scheduler.get_queue_size(), 1);
}

#[test]
fn cancel_of_dispatched_task_fails() {
    let mut scheduler = Scheduler::new(10);
    scheduler.schedule_task(config("t", 1)).unwrap();
    scheduler.dispatch_next().unwrap();
    assert!(matches!(
        scheduler.cancel_task("t"),
        Err(SchedulerError::TaskNotFound(_))
    ));
}

#[test]
fn clear_queue_empties_pending() {
    let mut scheduler = Scheduler::new(10);
    scheduler.schedule_task(config("a", 1)).unwrap();
    scheduler.schedule_task(config("b", 1)).unwrap();
    scheduler.clear_queue();
    assert_eq!(scheduler.get_queue_size(), 0);
    assert!(scheduler.dispatch_next().is_none());
}

#[test]
fn stats_are_created_then_counted() {
    let mut scheduler = Scheduler::new(10);
    match scheduler.get_task_stats("t") {
        Err(SchedulerError::TaskNotFound(id)) => assert_eq!(id, "t"),
        _ => panic!("expected TaskNotFound"),
    }
    scheduler.record_execution_at("t", false, 100);
    scheduler.record_execution_at("t", true, 250);
    scheduler.record_execution_at("u", true, 300);
    let st = scheduler.get_task_stats("t").unwrap();
    assert_eq!(st.total_executed, 2);
    assert_eq!(st.total_failed, 1);
    assert_eq!(st.average_duration_ns, 0);
    assert_eq!(st.last_execution, Some(250));
    let su = scheduler.get_task_stats("u").unwrap();
    assert_eq!(su.total_executed, 1);
    assert_eq!(su.total_failed, 1);
}

#[test]
fn record_execution_stamps_a_time() {
    let mut scheduler = Scheduler::new(1);
    scheduler.record_execution("t", false);
    let st = scheduler.get_task_stats("t").unwrap();
    assert_eq!(st.total_executed, 1);
    assert_eq!(st.total_failed, 0);
    assert!(st.last_execution.is_some());
}
