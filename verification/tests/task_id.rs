use bounty_registry::task_id::{generate_task_id, task_id_from_draws, CHARSET_SIZE, SEED_BYTES, TASK_ID_LENGTH};

const CHARSET: &str = "ABCDEFGHIJKLMNOPQRSTUVWXYZabcdefghijklmnopqrstuvwxyz0123456789";

#[test]
fn id_from_draws_picks_from_the_charset() {
    let draws = vec![0, 25, 26, 51, 52, 61];
    assert_eq!(task_id_from_draws(7, &draws), "7-AZaz09");
}

#[test]
fn id_from_no_draws_is_time_and_hyphen() {
    assert_eq!(task_id_from_draws(0, &Vec::new()), "0-");
    assert_eq!(task_id_from_draws(u64::MAX, &Vec::new()), "18446744073709551615-");
}

#[test]
fn id_from_twelve_draws() {
    let draws = vec![14, 39, 57, 1, 15, 15, 25, 53, 35, 39, 20, 53];
    assert_eq!(
        task_id_from_draws(1_700_000_000_000_000_000, &draws),
        "1700000000000000000-On5BPPZ1jnU1"
    );
}

#[test]
fn generated_id_for_a_counting_seed() {
    let seed: Vec<u8> = (0u8..32).collect();
    assert_eq!(
        generate_task_id(1_700_000_000_000_000_000, &seed),
        Some(String::from("1700000000000000000-On5BPPZ1jnU1"))
    );
}

#[test]
fn generated_id_for_a_zero_seed() {
    assert_eq!(
        generate_task_id(1_700_000_000_000_000_000, &vec![0u8; 8]),
        Some(String::from("1700000000000000000-M9be67rZEcMI"))
    );
}

#[test]
fn generated_id_for_other_seeds() {
    assert_eq!(generate_task_id(5, &vec![255u8; 8]), Some(String::from("5-Xjnc1rZH9nJr")));
    assert_eq!(
        generate_task_id(5, &vec![1, 2, 3, 4, 5, 6, 7, 8]),
        Some(String::from("5-ylm3aem8YAFc"))
    );
    assert_eq!(generate_task_id(5, &vec![9u8; 32]), Some(String::from("5-MhjfHKGjF8Ej")));
}

#[test]
fn only_the_first_eight_seed_bytes_count() {
    let short: Vec<u8> = vec![7; 8];
    let mut long: Vec<u8> = vec![7; 8];
    long.extend_from_slice(&[1, 2, 3, 4, 5]);
    assert_eq!(generate_task_id(1, &short), generate_task_id(1, &long));
    assert_eq!(generate_task_id(1, &short), Some(String::from("1-TLY0BzA0uQMw")));
}

#[test]
fn a_short_seed_gives_no_id() {
    assert_eq!(generate_task_id(1, &Vec::new()), None);
    assert_eq!(generate_task_id(1, &vec![1u8; 7]), None);
    assert!(generate_task_id(1, &vec![1u8; SEED_BYTES]).is_some());
}

#[test]
fn generated_id_has_the_shape() {
    for first in 0u8..40 {
        let seed = vec![first, 3, 1, 4, 1, 5, 9, 2, 6];
        let id = generate_task_id(123, &seed).unwrap();
        let (time, drawn) = id.split_at(4);
        assert_eq!(time, "123-");
        assert_eq!(drawn.chars().count(), TASK_ID_LENGTH);
        assert!(drawn.chars().all(|c| CHARSET.contains(c)));
    }
    assert_eq!(CHARSET.len(), CHARSET_SIZE as usize);
}

#[test]
fn different_seeds_give_different_ids() {
    let a = generate_task_id(1, &vec![1u8; 8]).unwrap();
    let b = generate_task_id(1, &vec![2u8; 8]).unwrap();
    assert_eq!(a, "1-FcTfdmpaPigt");
    assert_eq!(b, "1-yGWBk71RFViN");
    assert_ne!(a, b);
}
