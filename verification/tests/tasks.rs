use amina_core::tasks::{TaskContext, TaskManager};

#[test]
fn fresh_context_is_not_interrupted() {
    let mut context = TaskContext::new();
    assert!(!context.is_interrupted());
    context.stop();
    assert!(context.is_interrupted());
}

#[test]
fn tracked_records_get_sequential_identities() {
    let mut manager = TaskManager::new();
    assert_eq!(manager.run(), 0);
    assert_eq!(manager.run(), 1);
    assert_eq!(manager.run(), 2);
    assert!(!manager.is_task_interrupted(0));
    assert!(!manager.is_task_interrupted(2));
}

#[test]
fn stop_signals_every_tracked_record_without_removing_any() {
    let mut manager = TaskManager::new();
    let first = manager.run();
    let second = manager.run();
    manager.stop();
    // every previously submitted record's flag reads true
    assert!(manager.is_task_interrupted(first));
    assert!(manager.is_task_interrupted(second));
    // a record submitted after the shutdown signal starts clear
    let third = manager.run();
    assert!(!manager.is_task_interrupted(third));
}
