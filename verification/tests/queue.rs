use bounty_registry::history::HistoryArchive;
use bounty_registry::queue::TaskQueue;
use bounty_registry::task::Task;

fn task(id: &str, creator: &str) -> Task {
    Task::new(String::from(creator), 10, String::from("r"), String::from(id), 1)
}

fn ids(tasks: &[Task]) -> Vec<String> {
    tasks.iter().map(|t| t.id.clone()).collect()
}

#[test]
fn a_new_queue_is_empty() {
    let queue = TaskQueue::new();
    assert_eq!(queue.len(), 0);
    assert_eq!(queue.position(&String::from("a")), 0);
    assert!(!queue.contains_key(&String::from("a")));
    assert_eq!(queue.get(&String::from("a")), None);
    assert!(queue.first(10).is_empty());
}

#[test]
fn queue_keeps_the_order_of_the_ids() {
    let mut queue = TaskQueue::new();
    for id in ["m", "c", "x", "a", "d", "10", "9"] {
        assert_eq!(queue.insert(task(id, "creator")), None);
    }
    assert_eq!(queue.len(), 7);
    assert_eq!(ids(&queue.first(100)), vec!["10", "9", "a", "c", "d", "m", "x"]);
    assert_eq!(queue.position(&String::from("a")), 2);
    assert_eq!(queue.position(&String::from("b")), 3);
    assert_eq!(queue.position(&String::from("zz")), 7);
    assert_eq!(queue.position(&String::from("")), 0);
}

#[test]
fn queue_insert_replaces_the_task_under_an_id() {
    let mut queue = TaskQueue::new();
    queue.insert(task("a", "first"));
    queue.insert(task("b", "first"));
    let previous = queue.insert(task("a", "second"));
    assert_eq!(previous, Some(task("a", "first")));
    assert_eq!(queue.len(), 2);
    assert_eq!(queue.get(&String::from("a")), Some(&task("a", "second")));
    assert_eq!(queue.get(&String::from("b")), Some(&task("b", "first")));
}

#[test]
fn queue_remove_takes_the_task_out() {
    let mut queue = TaskQueue::new();
    for id in ["b", "a", "c"] {
        queue.insert(task(id, "creator"));
    }
    assert_eq!(queue.remove(&String::from("b")), Some(task("b", "creator")));
    assert_eq!(queue.remove(&String::from("b")), None);
    assert_eq!(queue.remove(&String::from("nope")), None);
    assert_eq!(ids(&queue.first(10)), vec!["a", "c"]);
    assert!(!queue.contains_key(&String::from("b")));
    assert!(queue.contains_key(&String::from("c")));
}

#[test]
fn queue_first_is_bounded_by_the_limit() {
    let mut queue = TaskQueue::new();
    for i in 0..5 {
        queue.insert(task(&format!("t{}", i), "creator"));
    }
    assert_eq!(ids(&queue.first(0)), Vec::<String>::new());
    assert_eq!(ids(&queue.first(2)), vec!["t0", "t1"]);
    assert_eq!(ids(&queue.first(5)), vec!["t0", "t1", "t2", "t3", "t4"]);
    assert_eq!(queue.first(usize::MAX).len(), 5);
}

#[test]
fn queue_clear_empties_it() {
    let mut queue = TaskQueue::new();
    queue.insert(task("a", "creator"));
    queue.clear();
    assert_eq!(queue.len(), 0);
    assert_eq!(queue, TaskQueue::new());
}

#[test]
fn a_new_archive_is_empty() {
    let archive = HistoryArchive::new();
    assert!(archive.get(&String::from("amy")).is_empty());
    assert!(!archive.holds_task(&String::from("a")));
}

#[test]
fn archive_appends_under_the_creator() {
    let mut archive = HistoryArchive::new();
    archive.push(task("3", "amy"));
    archive.push(task("1", "bob"));
    archive.push(task("2", "amy"));
    assert_eq!(ids(&archive.get(&String::from("amy"))), vec!["3", "2"]);
    assert_eq!(ids(&archive.get(&String::from("bob"))), vec!["1"]);
    assert!(archive.get(&String::from("cat")).is_empty());
    assert!(archive.holds_task(&String::from("1")));
    assert!(archive.holds_task(&String::from("2")));
    assert!(!archive.holds_task(&String::from("4")));
}

#[test]
fn archive_remove_drops_one_history() {
    let mut archive = HistoryArchive::new();
    archive.push(task("3", "amy"));
    archive.push(task("1", "bob"));
    archive.remove(&String::from("amy"));
    archive.remove(&String::from("nobody"));
    assert!(archive.get(&String::from("amy")).is_empty());
    assert!(!archive.holds_task(&String::from("3")));
    assert_eq!(ids(&archive.get(&String::from("bob"))), vec!["1"]);
}
