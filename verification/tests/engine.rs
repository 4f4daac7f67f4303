use rewards::{
    Account, Erc721Chain, Erc721Source, EligibleSet, RewardAggregator, RewardAmount, RewardError,
    RewardSource,
};

fn acct(spelling: &str) -> Account {
    Account::parse(spelling).unwrap()
}

const CONTRACT: &str = "0xdddddddddddddddddddddddddddddddddddddddd";
const A1: &str = "0x1111111111111111111111111111111111111111";
const A2: &str = "0xaaaaaaaaaaaaaaaaaaaaaaaaaaaaaaaaaaaaaaaa";
const A3: &str = "0x2222222222222222222222222222222222222222";
const A4: &str = "0x3333333333333333333333333333333333333333";

fn source_of(rate: u128, owners: Vec<Option<Account>>) -> Erc721Source {
    Erc721Source::new(CONTRACT, RewardAmount::new(rate), Erc721Chain::new(owners))
}

#[test]
fn commutative_source_order() {
    let mk = |rates: [u128; 3]| {
        let s1 = source_of(rates[0], vec![Some(acct(A1)), Some(acct(A2))]);
        let s2 = source_of(rates[1], vec![Some(acct(A2)), Some(acct(A3))]);
        let s3 = source_of(rates[2], vec![Some(acct(A1)), Some(acct(A1))]);
        (s1, s2, s3)
    };
    let (s1, s2, s3) = mk([7, 11, 13]);
    let t1 = RewardAggregator::new(vec![s1, s2, s3]).compute_distribution().unwrap();
    let (s1, s2, s3) = mk([7, 11, 13]);
    let t2 = RewardAggregator::new(vec![s3, s1, s2]).compute_distribution().unwrap();
    assert!(t1.entries == t2.entries);
}

#[test]
fn absent_account_earns_zero() {
    let s1 = source_of(5, vec![Some(acct(A1))]);
    let s2 = source_of(9, vec![Some(acct(A2))]);
    let agg = RewardAggregator::new(vec![s1, s2]);
    let earned = agg.reward_for_account(&acct(A4)).unwrap();
    assert_eq!(earned.value, 0);
}

#[test]
fn idempotent_distribution() {
    let s1 = source_of(3, vec![Some(acct(A1)), Some(acct(A2)), Some(acct(A1))]);
    let s2 = source_of(4, vec![Some(acct(A3))]);
    let agg = RewardAggregator::new(vec![s1, s2]);
    let t1 = agg.compute_distribution().unwrap();
    let t2 = agg.compute_distribution().unwrap();
    assert!(t1.entries == t2.entries);
}

#[test]
fn duplicate_holders_collapse() {
    // one address owns the tokens at indices 0, 3 and 7 of a supply of 8
    let dup = acct(A1);
    let rest = [A2, A3, A4];
    let mut owners: Vec<Option<Account>> = Vec::new();
    let mut r = 0;
    for i in 0..8u32 {
        if i == 0 || i == 3 || i == 7 {
            owners.push(Some(dup.clone()));
        } else {
            owners.push(Some(acct(rest[r % 3])));
            r += 1;
        }
    }
    let source = source_of(1, owners);
    let eligible = source.eligible_accounts().unwrap();
    assert!(eligible.contains(&dup));
    let listed = eligible.to_sorted_vec();
    let copies = listed.iter().filter(|a| **a == dup).count();
    assert_eq!(copies, 1);
    assert_eq!(eligible.len(), 4);
}

#[test]
fn reward_is_rate_times_balance() {
    // rewards_per_token = 100 and a balance of 5 earn exactly 500
    let holder = acct(A1);
    let owners = vec![
        Some(holder.clone()),
        Some(holder.clone()),
        Some(acct(A2)),
        Some(holder.clone()),
        Some(holder.clone()),
        Some(holder.clone()),
    ];
    let source = source_of(100, owners);
    assert_eq!(source.query_nft_ownership(&holder), 5);
    let earned = source.reward_for(&holder).unwrap();
    assert_eq!(earned.value, 500);
}

#[test]
fn partial_failure_aborts_distribution() {
    // the middle of three sources cannot read one token's owner
    let s1 = source_of(1, vec![Some(acct(A1))]);
    let s2 = source_of(2, vec![Some(acct(A2)), None, Some(acct(A3))]);
    let s3 = source_of(3, vec![Some(acct(A3))]);
    let agg = RewardAggregator::new(vec![s1, s2, s3]);
    match agg.compute_distribution() {
        Err(RewardError::PartialAggregation { source_name, cause }) => {
            assert!(source_name == "ERC721");
            assert!(matches!(*cause, RewardError::ChainRead { .. }));
        }
        _ => panic!("a failing source must abort the whole distribution"),
    }
}

#[test]
fn table_sorted_by_canonical_bytes() {
    // 0x111... must be listed before 0xaaa...
    let source = source_of(10, vec![Some(acct(A2)), Some(acct(A1))]);
    let table = RewardAggregator::new(vec![source]).compute_distribution().unwrap();
    assert_eq!(table.len(), 2);
    assert!(table.get(0).0 == acct(A1));
    assert!(table.get(1).0 == acct(A2));
}

#[test]
fn zero_supply_is_empty_not_an_error() {
    let source = source_of(100, Vec::new());
    let eligible = source.eligible_accounts().unwrap();
    assert_eq!(eligible.len(), 0);
    let table = RewardAggregator::new(vec![source]).compute_distribution().unwrap();
    assert_eq!(table.len(), 0);
}

#[test]
fn unreadable_owner_fails_the_scan() {
    let source = source_of(1, vec![Some(acct(A1)), None]);
    match source.eligible_accounts() {
        Err(RewardError::ChainRead { .. }) => {}
        _ => panic!("a revert during enumeration must fail the query"),
    }
}

#[test]
fn overflow_fails_instead_of_wrapping() {
    let holder = acct(A1);
    let source = source_of(u128::MAX, vec![Some(holder.clone()), Some(holder.clone())]);
    match source.reward_for(&holder) {
        Err(RewardError::ArithmeticOverflow) => {}
        _ => panic!("an overflowing product must be refused"),
    }
}

#[test]
fn overflowing_sum_fails() {
    let holder = acct(A1);
    let s1 = source_of(u128::MAX, vec![Some(holder.clone())]);
    let s2 = source_of(u128::MAX, vec![Some(holder.clone())]);
    let agg = RewardAggregator::new(vec![s1, s2]);
    match agg.reward_for_account(&holder) {
        Err(RewardError::ArithmeticOverflow) => {}
        _ => panic!("an overflowing sum must be refused"),
    }
}

#[test]
fn empty_aggregator_grants_nothing() {
    let agg: RewardAggregator<Erc721Source> = RewardAggregator::new(Vec::new());
    assert_eq!(agg.reward_for_account(&acct(A1)).unwrap().value, 0);
    assert_eq!(agg.compute_distribution().unwrap().len(), 0);
}

#[test]
fn point_query_matches_table() {
    let s1 = source_of(7, vec![Some(acct(A1)), Some(acct(A2))]);
    let s2 = source_of(11, vec![Some(acct(A1))]);
    let agg = RewardAggregator::new(vec![s1, s2]);
    let table = agg.compute_distribution().unwrap();
    for i in 0..table.len() {
        let row = table.get(i);
        let point = agg.reward_for_account(&row.0).unwrap();
        assert_eq!(point.value, row.1.value);
    }
    // A1 holds one token of each source; A2 one of the first only
    assert!(table.get(0).0 == acct(A1));
    assert_eq!(table.get(0).1.value, 18);
    assert_eq!(table.get(1).1.value, 7);
}

#[test]
fn describe_names_the_source() {
    let source = source_of(100, vec![Some(acct(A1))]);
    assert!(source.name() == "ERC721");
    let descriptor = source.describe();
    assert!(descriptor.name == "ERC721");
    assert_eq!(descriptor.entries.len(), 2);
    assert!(descriptor.entries[0].0 == "address");
    assert!(descriptor.entries[0].1 == CONTRACT);
    assert!(descriptor.entries[1].0 == "rewards_per_token");
    assert!(descriptor.entries[1].1 == "100");
}

#[test]
fn eligible_set_deduplicates_inserts() {
    let mut set = EligibleSet::new();
    set.insert(acct(A1));
    set.insert(acct(A2));
    set.insert(acct(A1));
    assert_eq!(set.len(), 2);
    assert!(set.contains(&acct(A1)));
    assert!(set.contains(&acct(A2)));
    assert!(!set.contains(&acct(A3)));
}
