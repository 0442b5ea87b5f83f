use task_tracker::codec::encode_tasks;
use task_tracker::{Status, TaskError, TaskManager};

#[test]
fn fresh_store_scenario() {
    let mut store = TaskManager::empty();
    let id = store.add_task_at("buy milk".to_string(), 100);
    assert_eq!(id, 1);
    {
        let t = store.get_task(1).unwrap();
        assert_eq!(t.id, 1);
        assert_eq!(t.description, "buy milk");
        assert_eq!(t.status, Status::Pending);
        assert_eq!(t.created_at, 100);
        assert_eq!(t.updated_at, 100);
    }
    assert!(store.set_status_at(1, Status::InProgress, 150).is_ok());
    {
        let t = store.get_task(1).unwrap();
        assert_eq!(t.id, 1);
        assert_eq!(t.status, Status::InProgress);
    }
    assert!(store.update_description_at(1, "buy oat milk".to_string(), 200).is_ok());
    {
        let t = store.get_task(1).unwrap();
        assert_eq!(t.description, "buy oat milk");
        assert_eq!(t.status, Status::InProgress);
        assert_eq!(t.updated_at, 200);
    }
    assert!(store.delete_task(1).is_ok());
    assert!(store.tasks.is_empty());
    assert!(matches!(store.delete_task(1), Err(TaskError::NotFound(1))));
}

#[test]
fn list_filters_scenario() {
    let mut store = TaskManager::empty();
    let a = store.add_task_at("a".to_string(), 1);
    let b = store.add_task_at("b".to_string(), 2);
    let pending = store.list_tasks(Some("pending")).unwrap();
    assert_eq!(pending.len(), 2);
    assert_eq!(pending[0].description, "a");
    assert_eq!(pending[1].description, "b");
    assert!(store.set_status_at(a, Status::Completed, 3).is_ok());
    let completed = store.list_tasks(Some("completed")).unwrap();
    assert_eq!(completed.len(), 1);
    assert_eq!(completed[0].id, a);
    let pending2 = store.list_tasks(Some("pending")).unwrap();
    assert_eq!(pending2.len(), 1);
    assert_eq!(pending2[0].id, b);
}

#[test]
fn ids_are_sequential_without_reuse() {
    let mut store = TaskManager::empty();
    assert_eq!(store.add_task_at("one".to_string(), 0), 1);
    assert_eq!(store.add_task_at("two".to_string(), 0), 2);
    assert_eq!(store.add_task_at("three".to_string(), 0), 3);
    assert!(store.delete_task(2).is_ok());
    assert_eq!(store.add_task_at("four".to_string(), 0), 4);
    assert!(store.get_task(2).is_none());
}

#[test]
fn corrupt_or_missing_text_loads_empty() {
    let store = TaskManager::load("not a task list");
    assert!(store.tasks.is_empty());
    assert_eq!(store.next_id, 1);
    let store2 = TaskManager::load("");
    assert!(store2.tasks.is_empty());
    assert_eq!(store2.next_id, 1);
}

#[test]
fn load_rejects_disordered_ids() {
    let text = "[{\"id\":2,\"description\":\"x\",\"status\":\"Pending\",\"created_at\":0,\"updated_at\":0},{\"id\":1,\"description\":\"y\",\"status\":\"Pending\",\"created_at\":0,\"updated_at\":0}]";
    let store = TaskManager::load(text);
    assert!(store.tasks.is_empty());
    assert_eq!(store.next_id, 1);
}

#[test]
fn load_rejects_backwards_timestamps() {
    let text = "[{\"id\":1,\"description\":\"x\",\"status\":\"Pending\",\"created_at\":9,\"updated_at\":3}]";
    let store = TaskManager::load(text);
    assert!(store.tasks.is_empty());
    assert_eq!(store.next_id, 1);
}

#[test]
fn persisted_store_round_trips() {
    let mut store = TaskManager::empty();
    store.add_task_at("say \"hello\"".to_string(), 11);
    store.add_task_at("path C:\\tmp".to_string(), 12);
    store.set_status_at(1, Status::Completed, 13).unwrap();
    let text = encode_tasks(&store.tasks);
    let back = TaskManager::load(&text);
    assert_eq!(back.tasks.len(), 2);
    assert_eq!(back.next_id, 3);
    for k in 0..2 {
        assert_eq!(back.tasks[k].id, store.tasks[k].id);
        assert_eq!(back.tasks[k].description, store.tasks[k].description);
        assert_eq!(back.tasks[k].status, store.tasks[k].status);
        assert_eq!(back.tasks[k].created_at, store.tasks[k].created_at);
        assert_eq!(back.tasks[k].updated_at, store.tasks[k].updated_at);
    }
}

#[test]
fn load_resumes_identifier_counter() {
    let text = "[{\"id\":5,\"description\":\"kept\",\"status\":\"InProgress\",\"created_at\":1,\"updated_at\":2}]";
    let store = TaskManager::load(text);
    assert_eq!(store.tasks.len(), 1);
    assert_eq!(store.next_id, 6);
}

#[test]
fn updated_at_never_moves_backwards() {
    let mut store = TaskManager::empty();
    store.add_task_at("t".to_string(), 100);
    store.set_status_at(1, Status::InProgress, 50).unwrap();
    {
        let t = store.get_task(1).unwrap();
        assert_eq!(t.status, Status::InProgress);
        assert_eq!(t.updated_at, 100);
        assert_eq!(t.created_at, 100);
    }
    store.set_status_at(1, Status::Completed, 200).unwrap();
    {
        let t = store.get_task(1).unwrap();
        assert_eq!(t.updated_at, 200);
        assert_eq!(t.created_at, 100);
    }
}

#[test]
fn transition_chain_updates_timestamps_forward() {
    let mut store = TaskManager::empty();
    store.add_task_at("t".to_string(), 10);
    store.set_status_at(1, Status::InProgress, 20).unwrap();
    let after_first = store.get_task(1).unwrap().updated_at;
    assert!(after_first >= 10);
    store.set_status_at(1, Status::Completed, 30).unwrap();
    let after_second = store.get_task(1).unwrap().updated_at;
    assert!(after_second >= after_first);
    assert_eq!(store.get_task(1).unwrap().status, Status::Completed);
}

#[test]
fn completed_is_not_terminal() {
    let mut store = TaskManager::empty();
    store.add_task_at("t".to_string(), 1);
    store.set_status_at(1, Status::Completed, 2).unwrap();
    assert!(store.set_status_at(1, Status::Pending, 3).is_ok());
    assert_eq!(store.get_task(1).unwrap().status, Status::Pending);
    assert!(store.update_description_at(1, "again".to_string(), 4).is_ok());
}

#[test]
fn list_none_is_unaffected_by_filtered_lists() {
    let mut store = TaskManager::empty();
    store.add_task_at("a".to_string(), 1);
    store.add_task_at("b".to_string(), 2);
    store.set_status_at(2, Status::Completed, 3).unwrap();
    let all_before = store.list_tasks(None).unwrap();
    let _ = store.list_tasks(Some("completed")).unwrap();
    let _ = store.list_tasks(Some("inprogress")).unwrap();
    let all_after = store.list_tasks(None).unwrap();
    assert_eq!(all_before.len(), 2);
    assert_eq!(all_after.len(), 2);
    for k in 0..2 {
        assert_eq!(all_after[k].id, all_before[k].id);
        assert_eq!(all_after[k].description, all_before[k].description);
    }
    assert_eq!(all_after[0].description, "a");
    assert_eq!(all_after[1].description, "b");
}

#[test]
fn unknown_filter_is_rejected() {
    let mut store = TaskManager::empty();
    store.add_task_at("a".to_string(), 1);
    match store.list_tasks(Some("bogus")) {
        Err(TaskError::InvalidFilter(v)) => assert_eq!(v, "bogus"),
        _ => panic!("expected an invalid filter error"),
    }
}

#[test]
fn missing_ids_are_reported() {
    let mut store = TaskManager::empty();
    store.add_task_at("a".to_string(), 1);
    assert!(matches!(
        store.update_description_at(9, "x".to_string(), 2),
        Err(TaskError::NotFound(9))
    ));
    assert!(matches!(store.set_status_at(9, Status::Completed, 2), Err(TaskError::NotFound(9))));
    assert!(matches!(store.delete_task(9), Err(TaskError::NotFound(9))));
    assert_eq!(store.get_task(1).unwrap().description, "a");
}

#[test]
fn clock_backed_operations_succeed() {
    let mut store = TaskManager::empty();
    let id = store.add_task("wall clock".to_string());
    assert_eq!(id, 1);
    assert!(store.mark_in_progress(id).is_ok());
    assert_eq!(store.get_task(id).unwrap().status, Status::InProgress);
    assert!(store.mark_completed(id).is_ok());
    assert_eq!(store.get_task(id).unwrap().status, Status::Completed);
    assert!(store.update_description(id, "renamed".to_string()).is_ok());
    assert_eq!(store.get_task(id).unwrap().description, "renamed");
    let t = store.get_task(id).unwrap();
    assert!(t.updated_at >= t.created_at);
}
