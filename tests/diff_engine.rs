use grt_changes::decimal::Decimal;
use grt_changes::diff::{diff_delegators, reconcile, Changes, DiffError};
use grt_changes::grt::GRT;
use grt_changes::queries::{Delegator, Indexer, Stake};

fn indexer(rate: &str) -> Indexer {
    Indexer {
        id: "0xindexer".to_string(),
        delegator_shares: "1".to_string(),
        delegated_tokens: "1".to_string(),
        delegation_exchange_rate: rate.to_string(),
    }
}

fn stake(id: &str, staked_wei: &str, shares_wei: &str, rate: &str) -> Stake {
    Stake {
        share_amount: shares_wei.to_string(),
        personal_exchange_rate: "1".to_string(),
        staked_tokens: staked_wei.to_string(),
        indexer: indexer(rate),
        id: id.to_string(),
    }
}

fn delegator(id: &str, stakes: Vec<Stake>) -> Delegator {
    Delegator { stakes, id: id.to_string() }
}

fn rate(text: &str) -> Decimal {
    let (digits, scale) = match text.find('.') {
        Some(p) => (format!("{}{}", &text[..p], &text[p + 1..]), (text.len() - p - 1) as i64),
        None => (text.to_string(), 0),
    };
    let digits = digits.trim_start_matches('0').to_string();
    Decimal { digits: if digits.is_empty() { "0".to_string() } else { digits }, scale }
}

fn grt(wei: &str) -> GRT {
    GRT::from_wei_text(wei).unwrap()
}

fn same_value(a: &GRT, b: &GRT) -> bool {
    !a.lt(b) && !b.lt(a)
}

#[test]
fn burn_reconstruction_of_99_5_tokens_is_half_a_token() {
    let s = stake("s", "99500000000000000000", "0", "1");
    let burned = s.burned_grt().unwrap();
    assert!(same_value(&burned, &grt("500000000000000000")));
}

#[test]
fn staked_grt_divides_by_ten_to_the_eighteen() {
    let s = stake("s", "1500000000000000000", "0", "1");
    let staked = s.staked_grt().unwrap();
    assert!(same_value(&staked, &grt("1500000000000000000")));
    assert_eq!(staked.to_text(), "1.5");
}

#[test]
fn gains_are_share_value_less_stake() {
    // 10 shares at 1.2 tokens each against 11 staked: 1 token gained.
    let s = stake("s", "11000000000000000000", "10000000000000000000", "1.2");
    assert!(same_value(&s.current_value().unwrap(), &grt("12000000000000000000")));
    assert!(same_value(&s.gains().unwrap(), &grt("1000000000000000000")));
}

#[test]
fn matched_stake_emits_burn_difference() {
    // Burns of 0.5 (99.5 staked) and 1.0 (199 staked): the event is 0.5.
    let before = vec![delegator("d", vec![stake("s", "99500000000000000000", "0", "1")])];
    let after = vec![delegator("d", vec![stake("s", "199000000000000000000", "0", "1")])];
    let mut changes = Changes::new();
    diff_delegators(&before, &after, 42, &rate("2"), &mut changes).unwrap();
    assert_eq!(changes.burns.len(), 1);
    assert_eq!(changes.burns[0].block, 42);
    assert!(same_value(&changes.burns[0].amount, &grt("500000000000000000")));
    // Valued at two dollars per token.
    assert!(same_value(&GRT(changes.burns[0].dollars.clone()), &grt("1000000000000000000")));
    // Gains went from -99.5 to -199: a negative amount is below the floor.
    assert_eq!(changes.rewards.len(), 0);
}

#[test]
fn change_below_noise_floor_is_dropped() {
    // 0.00005 tokens more staked: its burn moves by far less than 0.0001.
    let before = vec![delegator("d", vec![stake("s", "99500000000000000000", "0", "1")])];
    let after = vec![delegator("d", vec![stake("s", "99500050000000000000", "0", "1")])];
    let mut changes = Changes::new();
    diff_delegators(&before, &after, 7, &rate("1"), &mut changes).unwrap();
    assert_eq!(changes.burns.len(), 0);
}

#[test]
fn change_at_noise_floor_is_kept() {
    // Shares worth 0.0001 tokens more: exactly the floor, which is kept.
    let before = vec![delegator("d", vec![stake("s", "0", "1000000000000000000", "1")])];
    let after = vec![delegator("d", vec![stake("s", "0", "1000100000000000000", "1")])];
    let mut changes = Changes::new();
    diff_delegators(&before, &after, 9, &rate("1"), &mut changes).unwrap();
    assert_eq!(changes.rewards.len(), 1);
    assert!(same_value(&changes.rewards[0].amount, &grt("100000000000000")));
}

#[test]
fn new_stake_counts_from_zero() {
    let before = vec![delegator("d", vec![])];
    let after = vec![delegator(
        "d",
        vec![stake("s", "99500000000000000000", "100000000000000000000", "1")],
    )];
    let mut changes = Changes::new();
    diff_delegators(&before, &after, 5, &rate("1"), &mut changes).unwrap();
    assert_eq!(changes.burns.len(), 1);
    assert!(same_value(&changes.burns[0].amount, &grt("500000000000000000")));
    assert_eq!(changes.rewards.len(), 1);
    assert!(same_value(&changes.rewards[0].amount, &grt("500000000000000000")));
}

#[test]
fn new_delegator_counts_all_its_stakes() {
    let before: Vec<Delegator> = vec![];
    let after = vec![delegator(
        "d",
        vec![
            stake("a", "99500000000000000000", "0", "1"),
            stake("b", "199000000000000000000", "0", "1"),
        ],
    )];
    let mut changes = Changes::new();
    diff_delegators(&before, &after, 5, &rate("1"), &mut changes).unwrap();
    assert_eq!(changes.burns.len(), 2);
    assert!(same_value(&changes.burns[1].amount, &grt("1000000000000000000")));
}

#[test]
fn removed_delegator_is_reported() {
    let before = vec![delegator("d", vec![])];
    let after: Vec<Delegator> = vec![];
    let mut changes = Changes::new();
    let r = diff_delegators(&before, &after, 5, &rate("1"), &mut changes);
    assert_eq!(r, Err(DiffError::Removed));
}

#[test]
fn removed_stake_is_reported_and_nothing_recorded() {
    let before = vec![
        delegator("a", vec![]),
        delegator("d", vec![stake("s", "1", "0", "1")]),
    ];
    let after = vec![
        delegator("a", vec![stake("n", "99500000000000000000", "0", "1")]),
        delegator("d", vec![]),
    ];
    let mut changes = Changes::new();
    let r = diff_delegators(&before, &after, 5, &rate("1"), &mut changes);
    assert_eq!(r, Err(DiffError::Removed));
    assert_eq!(changes.burns.len(), 0);
    assert_eq!(changes.rewards.len(), 0);
}

#[test]
fn duplicate_ids_are_reported() {
    let before = vec![delegator("d", vec![])];
    let after = vec![delegator("d", vec![]), delegator("d", vec![])];
    let mut changes = Changes::new();
    let r = diff_delegators(&before, &after, 5, &rate("1"), &mut changes);
    assert_eq!(r, Err(DiffError::DuplicateId));
}

#[test]
fn reconcile_pairs_keys_and_lists_new_ones() {
    let b = vec!["x".to_string(), "y".to_string()];
    let a = vec!["z".to_string(), "y".to_string(), "x".to_string()];
    let plan = reconcile(&b, &a).unwrap();
    assert_eq!(plan.matched, vec![2, 1]);
    assert_eq!(plan.added, vec![0]);
}

#[test]
fn identical_snapshots_record_nothing() {
    let snapshot = || {
        vec![
            delegator("d", vec![stake("s", "99500000000000000000", "100000000000000000000", "1.1")]),
            delegator("e", vec![stake("t", "199000000000000000000", "0", "1")]),
        ]
    };
    let mut changes = Changes::new();
    diff_delegators(&snapshot(), &snapshot(), 3, &rate("2"), &mut changes).unwrap();
    assert_eq!(changes.burns.len(), 0);
    assert_eq!(changes.rewards.len(), 0);
}

#[test]
fn appended_delegator_gives_only_its_events() {
    let old = || vec![delegator("d", vec![stake("s", "99500000000000000000", "0", "1")])];
    let before = old();
    let mut after = old();
    after.push(delegator("e", vec![stake("t", "199000000000000000000", "0", "1")]));
    let mut changes = Changes::new();
    diff_delegators(&before, &after, 11, &rate("1"), &mut changes).unwrap();
    assert_eq!(changes.burns.len(), 1);
    assert_eq!(changes.burns[0].block, 11);
    assert!(same_value(&changes.burns[0].amount, &grt("1000000000000000000")));
    assert_eq!(changes.rewards.len(), 0);
}

#[test]
fn subtraction_across_far_scales_gives_none() {
    let a = GRT(Decimal { digits: "1".to_string(), scale: -1 });
    let b = GRT(Decimal { digits: "1".to_string(), scale: i64::MAX });
    assert!(a.sub(&b).is_none());
    assert!(b.sub(&a).is_none());
    let c = GRT(Decimal { digits: "25".to_string(), scale: 1 });
    let d = c.sub(&GRT(Decimal { digits: "5".to_string(), scale: 0 })).unwrap();
    assert!(same_value(&d, &GRT(Decimal { digits: "-25".to_string(), scale: 1 })));
}
