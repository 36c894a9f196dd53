use bounty_registry::settlement::{distribute_bounty, split_bounty, Payout};
use bounty_registry::task::Task;
use bounty_registry::task_result::TaskResult;

fn pay(account: &str, amount: u128) -> Payout {
    Payout { account: String::from(account), amount }
}

fn names(accounts: &[&str]) -> Vec<String> {
    accounts.iter().map(|a| String::from(*a)).collect()
}

#[test]
fn split_gives_equal_parts_in_order() {
    assert_eq!(split_bounty(10, &names(&["x", "y"])), vec![pay("x", 5), pay("y", 5)]);
    assert_eq!(
        split_bounty(9, &names(&["c", "a", "b"])),
        vec![pay("c", 3), pay("a", 3), pay("b", 3)]
    );
}

#[test]
fn split_drops_the_remainder() {
    let payouts = split_bounty(10, &names(&["a", "b", "c"]));
    assert_eq!(payouts, vec![pay("a", 3), pay("b", 3), pay("c", 3)]);
    let total: u128 = payouts.iter().map(|p| p.amount).sum();
    assert_eq!(total, 9);
    assert!(total <= 10);
}

#[test]
fn split_of_less_than_one_each_pays_nothing() {
    assert_eq!(split_bounty(1, &names(&["a", "b"])), vec![pay("a", 0), pay("b", 0)]);
    assert_eq!(split_bounty(0, &names(&["a"])), vec![pay("a", 0)]);
}

#[test]
fn split_among_nobody_is_empty() {
    assert_eq!(split_bounty(10, &Vec::new()), Vec::new());
}

#[test]
fn split_of_the_largest_bounty() {
    let payouts = split_bounty(u128::MAX, &names(&["a", "b"]));
    assert_eq!(payouts, vec![pay("a", u128::MAX / 2), pay("b", u128::MAX / 2)]);
    assert_eq!(split_bounty(u128::MAX, &names(&["a"])), vec![pay("a", u128::MAX)]);
}

#[test]
fn total_of_a_split_is_part_times_count() {
    for bounty in [0u128, 1, 2, 7, 10, 99, 1000, 1_000_000_000_000_000_000_000_000] {
        for count in 1usize..6 {
            let accounts: Vec<String> = (0..count).map(|i| format!("a{}", i)).collect();
            let payouts = split_bounty(bounty, &accounts);
            assert_eq!(payouts.len(), count);
            let total: u128 = payouts.iter().map(|p| p.amount).sum();
            assert_eq!(total, (bounty / count as u128) * count as u128);
            assert!(total <= bounty);
        }
    }
}

#[test]
fn distribute_pays_the_submitters_of_a_task() {
    let mut task = Task::new(String::from("creator"), 11, String::from("r"), String::from("1-a"), 1);
    assert_eq!(distribute_bounty(&task), Vec::new());
    task.results.insert(String::from("y"), TaskResult::new(String::from("h"), None));
    task.results.insert(String::from("x"), TaskResult::new(String::from("h"), None));
    assert_eq!(distribute_bounty(&task), vec![pay("y", 5), pay("x", 5)]);
}
