use bounty_registry::contract::{TaskContract, MINIMUM_BOUNTY, MINIMUM_RESULT_COUNT, NUM_OF_TASKS_RETURNED};
use bounty_registry::model::{CreateError, SubmitError, SubmitOutcome};
use bounty_registry::settlement::Payout;
use bounty_registry::task::Task;

fn s(text: &str) -> String {
    String::from(text)
}

fn seed(n: u8) -> Vec<u8> {
    vec![n; 32]
}

fn pay(account: &str, amount: u128) -> Payout {
    Payout { account: s(account), amount }
}

fn registry(minimum_bounty: u128, threshold: usize) -> TaskContract {
    TaskContract::new(minimum_bounty, threshold).unwrap()
}

fn ids(tasks: &[Task]) -> Vec<String> {
    tasks.iter().map(|t| t.id.clone()).collect()
}

#[test]
fn the_usual_limits() {
    let r = TaskContract::default();
    assert_eq!(r.minimum_bounty(), 1_000_000_000_000_000_000_000_000);
    assert_eq!(r.minimum_bounty(), MINIMUM_BOUNTY);
    assert_eq!(r.minimum_result_count(), 2);
    assert_eq!(MINIMUM_RESULT_COUNT, 2);
    assert_eq!(NUM_OF_TASKS_RETURNED, 10);
    assert!(r.get_tasks_from_queue().is_empty());
}

#[test]
fn no_registry_settles_at_no_result() {
    assert_eq!(TaskContract::new(10, 0), None);
    assert!(TaskContract::new(0, 1).is_some());
}

#[test]
fn create_then_two_results_settle_the_task() {
    let mut r = registry(10, 2);
    let t1 = r.create_task(s("creator"), 10, s("r1"), 1, &seed(1)).unwrap();
    assert_eq!(t1, "1-FcTfdmpaPigt");
    assert_eq!(ids(&r.get_tasks_from_queue()), vec![t1.clone()]);

    let first = r.submit_result(t1.clone(), s("hashA"), None, s("x"), true);
    assert_eq!(first, Ok(SubmitOutcome::Recorded));
    let open = r.get_task(t1.clone()).unwrap();
    assert_eq!(open.results.len(), 1);
    assert!(open.results.contains_key(&s("x")));
    assert!(r.get_task_history(s("creator")).is_empty());

    assert_eq!(r.payouts_due(&t1, &s("y")), vec![pay("x", 5), pay("y", 5)]);
    let second = r.submit_result(t1.clone(), s("hashA"), None, s("y"), true);
    assert_eq!(
        second,
        Ok(SubmitOutcome::RecordedAndSettled { payouts: vec![pay("x", 5), pay("y", 5)] })
    );
    assert_eq!(r.get_task(t1.clone()), None);
    assert!(r.get_tasks_from_queue().is_empty());
    let history = r.get_task_history(s("creator"));
    assert_eq!(ids(&history), vec![t1.clone()]);
    assert_eq!(history[0].results.keys(), vec!["x", "y"]);
    assert_eq!(history[0].bounty, 10);
    assert!(r.get_task_history(s("x")).is_empty());
    assert!(r.get_task_history(s("y")).is_empty());
}

#[test]
fn a_second_result_of_one_account_is_a_duplicate() {
    let mut r = registry(10, 3);
    let t1 = r.create_task(s("creator"), 10, s("r1"), 1, &seed(1)).unwrap();
    assert_eq!(r.submit_result(t1.clone(), s("hashA"), None, s("x"), true), Ok(SubmitOutcome::Recorded));
    assert_eq!(
        r.submit_result(t1.clone(), s("hashA"), None, s("x"), true),
        Err(SubmitError::DuplicateSubmission)
    );
    assert_eq!(
        r.submit_result(t1.clone(), s("hashB"), Some(s("u")), s("x"), false),
        Err(SubmitError::DuplicateSubmission)
    );
    let open = r.get_task(t1).unwrap();
    assert_eq!(open.results.len(), 1);
    assert_eq!(open.results.get(&s("x")).unwrap().result_hash, "hashA");
}

#[test]
fn a_result_for_an_unknown_id_is_not_found() {
    let mut r = registry(10, 2);
    assert_eq!(
        r.submit_result(s("unknown"), s("h"), None, s("x"), true),
        Err(SubmitError::TaskNotFoundOrSettled)
    );
    r.create_task(s("creator"), 10, s("r1"), 1, &seed(1)).unwrap();
    assert_eq!(
        r.submit_result(s("1-FcTfdmpaPigs"), s("h"), None, s("x"), true),
        Err(SubmitError::TaskNotFoundOrSettled)
    );
    assert_eq!(r.get_task(s("1-FcTfdmpaPigt")).unwrap().results.len(), 0);
}

#[test]
fn a_listing_returns_at_most_ten_of_fifty() {
    let mut r = registry(1, 2);
    for i in 0..50u64 {
        let id = format!("{:03}", i);
        assert_eq!(r.create_task_with_id(id, s("creator"), 5, s("r"), i), Ok(()));
    }
    let listed = r.get_tasks_from_queue();
    assert_eq!(listed.len(), 10);
    assert_eq!(
        ids(&listed),
        vec!["000", "001", "002", "003", "004", "005", "006", "007", "008", "009"]
    );
    assert_eq!(r.get_tasks(10).len(), 10);
    assert_eq!(r.get_tasks(50).len(), 50);
    assert_eq!(r.get_tasks(51).len(), 50);
    assert_eq!(r.get_tasks(0).len(), 0);
    assert_eq!(ids(&r.get_tasks(3)), vec!["000", "001", "002"]);
}

#[test]
fn a_low_bounty_creates_nothing() {
    let mut r = registry(10, 2);
    assert_eq!(
        r.create_task(s("creator"), 9, s("r1"), 1, &seed(1)),
        Err(CreateError::BelowMinimumBounty)
    );
    assert_eq!(
        r.create_task_with_id(s("id"), s("creator"), 0, s("r1"), 1),
        Err(CreateError::BelowMinimumBounty)
    );
    assert!(r.get_tasks(usize::MAX).is_empty());
    assert_eq!(r, registry(10, 2));
    let mut usual = TaskContract::default();
    assert_eq!(
        usual.create_task(s("creator"), MINIMUM_BOUNTY - 1, s("r1"), 1, &seed(1)),
        Err(CreateError::BelowMinimumBounty)
    );
    assert!(usual.create_task(s("creator"), MINIMUM_BOUNTY, s("r1"), 1, &seed(1)).is_ok());
    assert_eq!(usual.get_tasks_from_queue().len(), 1);
}

#[test]
fn a_low_bounty_is_reported_before_a_short_seed() {
    let mut r = registry(10, 2);
    assert_eq!(
        r.create_task(s("creator"), 9, s("r1"), 1, &Vec::new()),
        Err(CreateError::BelowMinimumBounty)
    );
}

#[test]
fn a_short_seed_creates_nothing() {
    let mut r = registry(10, 2);
    assert_eq!(
        r.create_task(s("creator"), 10, s("r1"), 1, &vec![1u8; 7]),
        Err(CreateError::EntropyUnavailable)
    );
    assert!(r.get_tasks(usize::MAX).is_empty());
}

#[test]
fn an_id_in_use_creates_nothing() {
    let mut r = registry(10, 1);
    assert_eq!(r.create_task(s("amy"), 10, s("r1"), 1, &seed(1)), Ok(s("1-FcTfdmpaPigt")));
    assert_eq!(
        r.create_task(s("bob"), 20, s("r2"), 1, &seed(1)),
        Err(CreateError::IdCollision)
    );
    let open = r.get_task(s("1-FcTfdmpaPigt")).unwrap();
    assert_eq!(open.submitter_account_id, "amy");
    assert_eq!(open.bounty, 10);
    assert_eq!(r.get_tasks(usize::MAX).len(), 1);
    assert_eq!(
        r.submit_result(s("1-FcTfdmpaPigt"), s("h"), None, s("x"), true),
        Ok(SubmitOutcome::RecordedAndSettled { payouts: vec![pay("x", 10)] })
    );
    assert_eq!(
        r.create_task(s("bob"), 20, s("r2"), 1, &seed(1)),
        Err(CreateError::IdCollision)
    );
    assert_eq!(
        r.create_task_with_id(s("1-FcTfdmpaPigt"), s("bob"), 20, s("r2"), 1),
        Err(CreateError::IdCollision)
    );
    assert!(r.get_tasks(usize::MAX).is_empty());
    assert_eq!(r.create_task(s("bob"), 20, s("r2"), 2, &seed(1)), Ok(s("2-FcTfdmpaPigt")));
}

#[test]
fn a_created_task_holds_what_was_given() {
    let mut r = registry(10, 2);
    let id = r.create_task(s("creator"), 12, s("https://example.org/repo"), 99, &seed(2)).unwrap();
    assert_eq!(id, "99-yGWBk71RFViN");
    let expected = Task::new(s("creator"), 12, s("https://example.org/repo"), id.clone(), 99);
    assert_eq!(r.get_task(id), Some(expected));
}

#[test]
fn a_failed_transfer_records_nothing() {
    let mut r = registry(10, 2);
    let t1 = r.create_task(s("creator"), 10, s("r1"), 1, &seed(1)).unwrap();
    assert_eq!(r.submit_result(t1.clone(), s("h"), None, s("x"), false), Ok(SubmitOutcome::Recorded));
    let before = r.get_task(t1.clone()).unwrap();
    assert_eq!(
        r.submit_result(t1.clone(), s("h"), None, s("y"), false),
        Err(SubmitError::TransferFailure)
    );
    assert_eq!(r.get_task(t1.clone()), Some(before));
    assert!(r.get_task_history(s("creator")).is_empty());
    assert_eq!(
        r.submit_result(t1.clone(), s("h"), None, s("y"), true),
        Ok(SubmitOutcome::RecordedAndSettled { payouts: vec![pay("x", 5), pay("y", 5)] })
    );
}

#[test]
fn a_duplicate_is_reported_before_a_failed_transfer() {
    let mut r = registry(10, 2);
    let t1 = r.create_task(s("creator"), 10, s("r1"), 1, &seed(1)).unwrap();
    r.submit_result(t1.clone(), s("h"), None, s("x"), true).unwrap();
    assert_eq!(
        r.submit_result(t1, s("h"), None, s("x"), false),
        Err(SubmitError::DuplicateSubmission)
    );
}

#[test]
fn a_settled_task_takes_no_more_results() {
    let mut r = registry(10, 1);
    let t1 = r.create_task(s("creator"), 10, s("r1"), 1, &seed(1)).unwrap();
    assert_eq!(
        r.submit_result(t1.clone(), s("h"), None, s("x"), true),
        Ok(SubmitOutcome::RecordedAndSettled { payouts: vec![pay("x", 10)] })
    );
    assert_eq!(
        r.submit_result(t1.clone(), s("h"), None, s("x"), true),
        Err(SubmitError::TaskNotFoundOrSettled)
    );
    assert_eq!(
        r.submit_result(t1.clone(), s("h"), None, s("y"), true),
        Err(SubmitError::TaskNotFoundOrSettled)
    );
    assert_eq!(r.get_task_history(s("creator")).len(), 1);
    assert!(r.payouts_due(&t1, &s("y")).is_empty());
}

#[test]
fn settlement_happens_at_the_threshold_and_not_before() {
    let mut r = registry(1, 3);
    let t1 = r.create_task(s("creator"), 10, s("r1"), 1, &seed(1)).unwrap();
    assert!(r.payouts_due(&t1, &s("a")).is_empty());
    assert_eq!(r.submit_result(t1.clone(), s("h"), None, s("a"), true), Ok(SubmitOutcome::Recorded));
    assert!(r.payouts_due(&t1, &s("b")).is_empty());
    assert_eq!(r.submit_result(t1.clone(), s("h"), None, s("b"), true), Ok(SubmitOutcome::Recorded));
    assert!(r.payouts_due(&t1, &s("b")).is_empty());
    assert_eq!(r.payouts_due(&t1, &s("c")), vec![pay("a", 3), pay("b", 3), pay("c", 3)]);
    assert_eq!(r.get_task(t1.clone()).unwrap().results.len(), 2);
    assert_eq!(
        r.submit_result(t1.clone(), s("h2"), Some(s("url")), s("c"), true),
        Ok(SubmitOutcome::RecordedAndSettled {
            payouts: vec![pay("a", 3), pay("b", 3), pay("c", 3)]
        })
    );
    assert_eq!(r.get_task(t1.clone()), None);
    let settled = r.get_task_history(s("creator"));
    assert_eq!(settled.len(), 1);
    assert_eq!(settled[0].results.len(), 3);
    assert_eq!(settled[0].results.get(&s("c")).unwrap().result_url, Some(s("url")));
}

#[test]
fn each_task_is_open_or_settled_and_never_both() {
    let mut r = registry(1, 2);
    let mut known: Vec<String> = Vec::new();
    for i in 0..6u64 {
        known.push(r.create_task(s("creator"), 4, s("r"), i, &seed(i as u8)).unwrap());
    }
    for (n, id) in known.iter().enumerate() {
        r.submit_result(id.clone(), s("h"), None, s("x"), true).unwrap();
        if n % 2 == 0 {
            r.submit_result(id.clone(), s("h"), None, s("y"), true).unwrap();
        }
        let open = ids(&r.get_tasks(usize::MAX));
        let settled = ids(&r.get_task_history(s("creator")));
        for id in known.iter() {
            let is_open = open.iter().filter(|o| *o == id).count();
            let is_settled = settled.iter().filter(|o| *o == id).count();
            assert_eq!(is_open + is_settled, 1, "{}", id);
        }
    }
    assert_eq!(r.get_tasks(usize::MAX).len(), 3);
    assert_eq!(r.get_task_history(s("creator")).len(), 3);
}

#[test]
fn history_is_kept_by_creator_in_order_of_settlement() {
    let mut r = registry(1, 1);
    let a = r.create_task(s("amy"), 4, s("r"), 3, &seed(1)).unwrap();
    let b = r.create_task(s("bob"), 4, s("r"), 2, &seed(1)).unwrap();
    let c = r.create_task(s("amy"), 4, s("r"), 1, &seed(1)).unwrap();
    assert_eq!(ids(&r.get_tasks_from_queue()), vec![c.clone(), b.clone(), a.clone()]);
    for id in [&a, &b, &c] {
        r.submit_result(id.clone(), s("h"), None, s("x"), true).unwrap();
    }
    assert_eq!(ids(&r.get_task_history(s("amy"))), vec![a, c]);
    assert_eq!(ids(&r.get_task_history(s("bob"))), vec![b]);
    assert!(r.get_task_history(s("x")).is_empty());
}

#[test]
fn clear_state_drops_the_queue_and_one_history() {
    let mut r = registry(1, 1);
    let a = r.create_task(s("obrigado.testnet"), 4, s("r"), 1, &seed(1)).unwrap();
    let b = r.create_task(s("bob"), 4, s("r"), 2, &seed(1)).unwrap();
    r.create_task(s("bob"), 4, s("r"), 3, &seed(1)).unwrap();
    r.submit_result(a, s("h"), None, s("x"), true).unwrap();
    r.submit_result(b.clone(), s("h"), None, s("x"), true).unwrap();
    assert_eq!(r.get_task_history(s("obrigado.testnet")).len(), 1);
    r.clear_state();
    assert!(r.get_tasks(usize::MAX).is_empty());
    assert!(r.get_task_history(s("obrigado.testnet")).is_empty());
    assert_eq!(ids(&r.get_task_history(s("bob"))), vec![b]);
    assert_eq!(r.minimum_bounty(), 1);
    assert_eq!(r.minimum_result_count(), 1);
}

#[test]
fn a_registry_is_assembled_from_its_parts() {
    let mut r = registry(5, 2);
    let a = r.create_task(s("amy"), 10, s("r1"), 3, &seed(1)).unwrap();
    let b = r.create_task(s("bob"), 20, s("r2"), 2, &seed(2)).unwrap();
    let c = r.create_task(s("amy"), 30, s("r3"), 1, &seed(3)).unwrap();
    r.submit_result(a.clone(), s("h"), None, s("x"), true).unwrap();
    r.submit_result(a, s("h"), Some(s("u")), s("y"), true).unwrap();
    r.submit_result(b.clone(), s("h"), None, s("x"), true).unwrap();
    r.submit_result(c.clone(), s("h"), None, s("y"), true).unwrap();
    r.submit_result(c, s("h"), None, s("x"), true).unwrap();

    assert_eq!(r.settled_accounts(), vec!["amy"]);
    let open = r.get_tasks(usize::MAX);
    let mut settled: Vec<Task> = Vec::new();
    for account in r.settled_accounts() {
        settled.extend(r.get_task_history(account));
    }
    assert_eq!(ids(&open), vec![b]);
    assert_eq!(settled.len(), 2);
    let again = TaskContract::from_parts(5, 2, &open, &settled);
    assert_eq!(again, Some(r));
}

#[test]
fn parts_that_no_registry_holds_are_refused() {
    let fresh = |id: &str| Task::new(s("amy"), 10, s("r"), s(id), 1);
    let answered = |id: &str, accounts: &[&str]| {
        let mut task = Task::new(s("amy"), 10, s("r"), s(id), 1);
        for account in accounts {
            task.results.insert(s(account), bounty_registry::task_result::TaskResult::new(s("h"), None));
        }
        task
    };
    let none: Vec<Task> = Vec::new();
    assert_eq!(TaskContract::from_parts(1, 0, &none, &none), None);
    assert_eq!(TaskContract::from_parts(1, 2, &none, &none), TaskContract::new(1, 2));
    assert!(TaskContract::from_parts(1, 2, &vec![fresh("b"), fresh("a")], &none).is_some());
    assert_eq!(TaskContract::from_parts(1, 2, &vec![fresh("a"), fresh("a")], &none), None);
    assert_eq!(
        TaskContract::from_parts(1, 2, &vec![answered("a", &["x", "y"])], &none),
        None
    );
    assert_eq!(TaskContract::from_parts(1, 2, &none, &vec![answered("a", &["x"])]), None);
    assert_eq!(
        TaskContract::from_parts(1, 2, &none, &vec![answered("a", &["x", "y", "z"])]),
        None
    );
    assert_eq!(
        TaskContract::from_parts(1, 2, &vec![fresh("a")], &vec![answered("a", &["x", "y"])]),
        None
    );
    assert_eq!(
        TaskContract::from_parts(
            1,
            2,
            &none,
            &vec![answered("a", &["x", "y"]), answered("a", &["x", "y"])]
        ),
        None
    );
    let made = TaskContract::from_parts(
        1,
        2,
        &vec![answered("c", &["x"]), fresh("b")],
        &vec![answered("a", &["x", "y"])],
    )
    .unwrap();
    assert_eq!(ids(&made.get_tasks(10)), vec!["b", "c"]);
    assert_eq!(ids(&made.get_task_history(s("amy"))), vec!["a"]);
    assert_eq!(made.get_task(s("a")), None);
}

#[test]
fn a_task_in_words() {
    let task = Task::new(s("amy.near"), 1500, s("https://example.org/r"), s("42-AbCdEfGhIjKl"), 42);
    assert_eq!(
        task.describe(),
        "{ submitter_account_id: amy.near, bounty: 1500, respository_url: https://example.org/r, id: 42-AbCdEfGhIjKl, timestamp: 42 }"
    );
    assert_eq!(
        task.describe(),
        format!(
            "{{ submitter_account_id: {}, bounty: {}, respository_url: {}, id: {}, timestamp: {} }}",
            task.submitter_account_id, task.bounty, task.repository_url, task.id, task.timestamp
        )
    );
}
