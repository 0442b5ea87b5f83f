use task_tracker::codec::{decode_tasks, encode_tasks};
use task_tracker::{Status, Task};

fn task(id: u64, description: &str, status: Status, created_at: u64, updated_at: u64) -> Task {
    Task { id, description: description.to_string(), status, created_at, updated_at }
}

fn same_task(a: &Task, b: &Task) -> bool {
    a.id == b.id
        && a.description == b.description
        && a.status == b.status
        && a.created_at == b.created_at
        && a.updated_at == b.updated_at
}

#[test]
fn encode_empty_is_brackets() {
    let text = encode_tasks(&Vec::new());
    assert_eq!(text, "[]");
}

#[test]
fn decode_empty_brackets() {
    let tasks = decode_tasks("[]");
    assert!(tasks.is_empty());
}

#[test]
fn encode_exact_one_task() {
    let tasks = vec![task(7, "buy milk", Status::Pending, 100, 200)];
    let text = encode_tasks(&tasks);
    assert_eq!(
        text,
        "[{\"id\":7,\"description\":\"buy milk\",\"status\":\"Pending\",\"created_at\":100,\"updated_at\":200}]"
    );
}

#[test]
fn encode_escapes_quotes_and_backslashes() {
    let tasks = vec![task(1, "say \"hi\" \\ bye", Status::Completed, 0, 0)];
    let text = encode_tasks(&tasks);
    assert_eq!(
        text,
        "[{\"id\":1,\"description\":\"say \\\"hi\\\" \\\\ bye\",\"status\":\"Completed\",\"created_at\":0,\"updated_at\":0}]"
    );
}

#[test]
fn round_trip_two_tasks() {
    let tasks = vec![
        task(1, "first", Status::Pending, 10, 20),
        task(2, "second", Status::InProgress, 30, 40),
    ];
    let back = decode_tasks(&encode_tasks(&tasks));
    assert_eq!(back.len(), 2);
    assert!(same_task(&back[0], &tasks[0]));
    assert!(same_task(&back[1], &tasks[1]));
}

#[test]
fn round_trip_special_characters() {
    let tasks = vec![
        task(3, "quotes \" and \\ and , and { } and ]", Status::Completed, 1, 2),
        task(9, "newline\nand tab\tand unicode \u{00e9}\u{4e16}", Status::Pending, 5, 6),
        task(10, "", Status::InProgress, 7, 8),
    ];
    let back = decode_tasks(&encode_tasks(&tasks));
    assert_eq!(back.len(), 3);
    for k in 0..3 {
        assert!(same_task(&back[k], &tasks[k]));
    }
}

#[test]
fn round_trip_extreme_numbers() {
    let tasks = vec![task(u64::MAX, "big", Status::Pending, u64::MAX, u64::MAX)];
    let back = decode_tasks(&encode_tasks(&tasks));
    assert_eq!(back.len(), 1);
    assert!(same_task(&back[0], &tasks[0]));
}

#[test]
fn decode_garbage_is_empty() {
    assert!(decode_tasks("garbage").is_empty());
    assert!(decode_tasks("").is_empty());
    assert!(decode_tasks("[{").is_empty());
    assert!(decode_tasks("[{\"id\":1}]").is_empty());
    assert!(decode_tasks("{}").is_empty());
}

#[test]
fn decode_rejects_trailing_text() {
    let tasks = vec![task(1, "a", Status::Pending, 0, 0)];
    let mut text = encode_tasks(&tasks);
    text.push('x');
    assert!(decode_tasks(&text).is_empty());
}

#[test]
fn decode_rejects_oversized_number() {
    let text = "[{\"id\":99999999999999999999,\"description\":\"a\",\"status\":\"Pending\",\"created_at\":0,\"updated_at\":0}]";
    assert!(decode_tasks(text).is_empty());
}
