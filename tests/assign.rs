use shard_assignment::{assign_shards, AssignmentError, ValidatorStake};
use std::cmp;
use std::collections::HashSet;

const EXPONENTIAL_STAKES: [u128; 12] = [100, 90, 81, 73, 66, 59, 53, 48, 43, 39, 35, 31];

#[test]
fn test_exponential_distribution_few_shards() {
    // algorithm works well when there are few shards relative to the number of block producers
    test_exponential_distribution_common(3, 3);
}

#[test]
fn test_exponential_distribution_several_shards() {
    // algorithm performs less well when there are more shards
    test_exponential_distribution_common(6, 13);
}

#[test]
fn test_exponential_distribution_many_shards() {
    // algorithm performs even worse when there are many shards
    test_exponential_distribution_common(24, 41);
}

#[test]
fn test_not_enough_validators() {
    let stakes = &[100];
    let block_producers = make_validators(stakes);
    let num_shards = 1;
    let min_validators_per_shard = 3; // one validator cannot fill 3 slots
    let r = assign_shards(block_producers, num_shards, min_validators_per_shard);
    assert_eq!(r, Err(AssignmentError::InsufficientSupply));
}

#[test]
fn test_step_distribution_shards() {
    let num_shards = 2;
    let stakes = &[100, 10, 10, 10, 10, 10, 10, 10, 10, 10, 10];
    let block_producers = make_validators(stakes);
    let min_validators_per_shard = 2;

    let assignment = assign_shards(block_producers, num_shards, min_validators_per_shard).unwrap();

    // The algorithm ensures the minimum number of validators is present
    // in each shard, even if it makes the stakes more uneven.
    let shard_0 = assignment.first().unwrap();
    assert_eq!(shard_0.len(), min_validators_per_shard);
    let stake_0 = shard_0.iter().map(|bp| bp.stake).sum::<u128>();
    assert_eq!(stake_0, 110);

    let shard_1 = assignment.last().unwrap();
    assert_eq!(shard_1.len(), stakes.len() - min_validators_per_shard);
    let stake_1 = shard_1.iter().map(|bp| bp.stake).sum::<u128>();
    assert_eq!(stake_1, 90);
}

#[test]
fn step_distribution_exact_members() {
    let stakes = &[100, 10, 10, 10, 10, 10, 10, 10, 10, 10, 10];
    let assignment = assign_shards(make_validators(stakes), 2, 2).unwrap();
    assert_eq!(names_of(&assignment[0]), vec!["A", "D"]);
    assert_eq!(names_of(&assignment[1]), vec!["B", "C", "E", "F", "G", "H", "I", "J", "K"]);
}

#[test]
fn cycles_producers_when_supply_is_short() {
    // Two producers, three shards of two: each producer goes to every shard.
    let assignment = assign_shards(make_validators(&[5, 7]), 3, 2).unwrap();
    assert_eq!(assignment.len(), 3);
    assert_eq!(names_of(&assignment[0]), vec!["A", "B"]);
    assert_eq!(names_of(&assignment[1]), vec!["B", "A"]);
    assert_eq!(names_of(&assignment[2]), vec!["A", "B"]);
}

#[test]
fn cycling_skips_shards_that_hold_the_producer() {
    let assignment = assign_shards(make_validators(&[1, 2, 3]), 2, 3).unwrap();
    assert_eq!(names_of(&assignment[0]), vec!["A", "C", "B"]);
    assert_eq!(names_of(&assignment[1]), vec!["B", "A", "C"]);
    check_laws(&assignment, 3, 2, 3, 3);
}

#[test]
fn greedy_fill_can_exhaust_the_supply() {
    // Duplicate avoidance spends entries on full shards and the fourth shard
    // never reaches its quota.
    let r = assign_shards(make_validators(&[10, 2, 3]), 4, 2);
    assert_eq!(r, Err(AssignmentError::QuotaUnreachable));
}

#[test]
fn zero_quota_balances_by_stake() {
    let assignment = assign_shards(make_validators(&[4, 3, 2, 1]), 2, 0).unwrap();
    assert_eq!(names_of(&assignment[0]), vec!["A", "D"]);
    assert_eq!(names_of(&assignment[1]), vec!["B", "C"]);
}

#[test]
fn no_producers_and_no_quota_gives_empty_shards() {
    let assignment = assign_shards(Vec::new(), 3, 0).unwrap();
    assert_eq!(assignment.len(), 3);
    assert!(assignment.iter().all(|bps| bps.is_empty()));
}

#[test]
fn quota_no_duplicate_and_conservation_hold() {
    let stakes = &EXPONENTIAL_STAKES;
    for num_shards in 1..=8usize {
        for min in 0..=3usize {
            let assignment = assign_shards(make_validators(stakes), num_shards, min).unwrap();
            check_laws(&assignment, stakes.len(), num_shards, min, stakes.len());
        }
    }
}

#[test]
fn validator_stake_new_keeps_fields() {
    let v = ValidatorStake::new("alice".to_string(), 42);
    assert_eq!(v.account_id, "alice");
    assert_eq!(v.stake, 42);
}

fn check_laws(
    assignment: &[Vec<ValidatorStake>],
    n: usize,
    num_shards: usize,
    min: usize,
    distinct: usize,
) {
    assert_eq!(assignment.len(), num_shards);
    let mut total = 0;
    for bps in assignment {
        assert!(bps.len() >= min);
        let ids: HashSet<&String> = bps.iter().map(|bp| &bp.account_id).collect();
        assert_eq!(ids.len(), bps.len());
        assert!(ids.len() <= distinct);
        total += bps.len();
    }
    assert_eq!(total, cmp::max(n, num_shards * min));
}

fn names_of(bps: &[ValidatorStake]) -> Vec<&str> {
    bps.iter().map(|bp| bp.account_id.as_str()).collect()
}

fn test_exponential_distribution_common(num_shards: usize, diff_tolerance: i128) {
    let stakes = &EXPONENTIAL_STAKES;
    let block_producers = make_validators(stakes);
    let min_validators_per_shard = 2;

    let validators_per_shard =
        cmp::max(block_producers.len() / num_shards, min_validators_per_shard);
    let average_stake_per_shard =
        (validators_per_shard as u128) * stakes.iter().sum::<u128>() / (stakes.len() as u128);
    let assignment =
        assign_shards(block_producers, num_shards, min_validators_per_shard).unwrap();

    // validator distribution should be even
    assert!(assignment.iter().all(|bps| bps.len() == validators_per_shard));

    // no validator should be assigned to the same shard more than once
    assert!(assignment
        .iter()
        .all(|bps| bps.iter().collect::<HashSet<_>>().len() == bps.len()));

    // stake distribution should be even
    assert!(assignment.iter().all(|bps| {
        let shard_stake = bps.iter().map(|bp| bp.stake).sum::<u128>();
        let stake_diff: i128 = (shard_stake as i128) - (average_stake_per_shard as i128);
        stake_diff.abs() < diff_tolerance
    }));
}

fn make_validators(stakes: &[u128]) -> Vec<ValidatorStake> {
    let names = validator_names(stakes.len());

    stakes
        .iter()
        .zip(names.into_iter())
        .map(|(stake, name)| ValidatorStake::new(name, *stake))
        .collect()
}

fn validator_names(size: usize) -> Vec<String> {
    (b'A'..b'Z')
        .take(size)
        .map(|n| {
            let mut s = String::with_capacity(1);
            s.push(n as char);
            s
        })
        .collect()
}
