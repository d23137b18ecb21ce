use grt_changes::decimal::{two_dec, Decimal};
use grt_changes::grt::GRT;
use grt_changes::network::{cache_key, cached_query_step, retry_step, Attempt, CacheAction};
use grt_changes::queries::{delegators, epochs, epochs_query, pair, Epoch, PairsTask, TaskSource};

#[test]
fn epochs_are_ordered_by_id() {
    let fetched = vec![
        Epoch { start_block: 30, id: 10 },
        Epoch { start_block: 10, id: 2 },
        Epoch { start_block: 20, id: 9 },
    ];
    let sorted = epochs(fetched);
    let ids: Vec<u32> = sorted.iter().map(|e| e.id).collect();
    assert_eq!(ids, vec![2, 9, 10]);
    assert_eq!(sorted[0].start_block, 10);
}

#[test]
fn equal_ids_keep_their_order() {
    let fetched = vec![
        Epoch { start_block: 5, id: 3 },
        Epoch { start_block: 1, id: 1 },
        Epoch { start_block: 4, id: 3 },
        Epoch { start_block: 2, id: 1 },
    ];
    let sorted = epochs(fetched);
    let blocks: Vec<u64> = sorted.iter().map(|e| e.start_block).collect();
    assert_eq!(blocks, vec![1, 2, 5, 4]);
}

#[test]
fn pair_query_names_the_block() {
    let q = pair(11446769);
    assert!(q.contains("block: { number: 11446769 }"));
    assert!(q.contains("token0Price"));
    assert_eq!(PairsTask::create(11446769).execute(), q);
}

#[test]
fn delegators_query_lists_ids() {
    let q = delegators(&vec!["0xab".to_string(), "0xcd".to_string()], 0);
    assert!(q.contains("delegators(where: {id_in: [\"0xab\", \"0xcd\"]}, block: { number: 0 })"));
    let empty = delegators(&vec![], 5);
    assert!(empty.contains("{id_in: []}"));
    assert!(epochs_query().contains("epoches(first: 1000)"));
}

#[test]
fn cache_key_is_a_prefix_of_the_digest() {
    // BLAKE3 of the empty input.
    assert_eq!(cache_key("", ""), "af1349b9f5f9a1a6a0404dea");
    let k = cache_key("graphprotocol/graph-network-mainnet", "{ x }");
    assert_eq!(k.len(), 24);
    assert_eq!(k, cache_key("graphprotocol/graph-network-mainnet", "{ x }"));
    assert_eq!(cache_key("ab", "c"), cache_key("a", "bc"));
    assert_ne!(k, cache_key("uniswap/uniswap-v2", "{ x }"));
}

#[test]
fn retries_wait_longer_each_time_then_give_up() {
    assert_eq!(retry_step(0, true), Attempt::Done);
    assert_eq!(retry_step(0, false), Attempt::RetryAfter(0));
    assert_eq!(retry_step(3, false), Attempt::RetryAfter(3));
    assert_eq!(retry_step(9, false), Attempt::RetryAfter(9));
    assert_eq!(retry_step(10, false), Attempt::GiveUp);
}

#[test]
fn cached_bytes_are_used_without_a_request() {
    assert_eq!(cached_query_step(true, true, 0), CacheAction::Deliver);
    assert_eq!(cached_query_step(true, false, 0), CacheAction::GiveUp);
}

#[test]
fn undecodable_response_is_not_cached_and_is_fetched_again() {
    assert_eq!(cached_query_step(false, false, 0), CacheAction::Refetch(0));
    assert_eq!(cached_query_step(false, false, 4), CacheAction::Refetch(4));
    assert_eq!(cached_query_step(false, false, 10), CacheAction::GiveUp);
    assert_eq!(cached_query_step(false, true, 2), CacheAction::StoreAndDeliver);
}

#[test]
fn display_is_cut_not_rounded() {
    let d = Decimal { digits: "19999".to_string(), scale: 4 };
    assert_eq!(two_dec(&d), "1.999");
    let whole = Decimal { digits: "-42".to_string(), scale: 0 };
    assert_eq!(two_dec(&whole), "-42");
    let short = Decimal { digits: "15".to_string(), scale: 1 };
    assert_eq!(two_dec(&short), "1.5");
    let g = GRT::from_wei_text("1234567890000000000").unwrap();
    assert_eq!(g.to_text(), "1.234");
}

#[test]
fn zero_and_arithmetic() {
    let z = GRT::zero();
    let one = GRT::from_wei_text("1000000000000000000").unwrap();
    assert!(z.lt(&one));
    let d = one.sub(&z).unwrap();
    assert_eq!(d.to_text(), "1");
    let half = GRT::from_wei_text("500000000000000000").unwrap();
    let three_halves = GRT::from_wei_text("1500000000000000000").unwrap();
    let diff = three_halves.sub(&half).unwrap();
    assert!(!diff.lt(&one) && !one.lt(&diff));
    let negative = half.sub(&three_halves).unwrap();
    assert!(negative.lt(&z));
    assert!(!negative.sub(&z).unwrap().lt(&half.sub(&three_halves).unwrap()));
    // Scales too far apart to rescale are refused rather than computed.
    let tiny = GRT(Decimal { digits: "1".to_string(), scale: i64::MAX });
    let huge = GRT(Decimal { digits: "1".to_string(), scale: -1 });
    assert!(tiny.sub(&huge).is_none());
    assert!(one.div(&Decimal { digits: "3".to_string(), scale: i64::MIN + 5 }).is_none());
    let two = Decimal { digits: "2".to_string(), scale: 0 };
    assert_eq!(one.mul(&two).unwrap().to_text(), "2");
    assert_eq!(one.div(&two).unwrap().to_text(), "0.5");
    let zero = Decimal { digits: "0".to_string(), scale: 0 };
    assert!(one.div(&zero).is_none());
    // The 99.5 tokens of a deposit of 100 divide exactly by 0.995.
    let staked = GRT::from_wei_text("99500000000000000000").unwrap();
    let kept = Decimal { digits: "995".to_string(), scale: 3 };
    let total = staked.div(&kept).unwrap();
    let hundred = GRT::from_wei_text("100000000000000000000").unwrap();
    assert!(!total.lt(&hundred) && !hundred.lt(&total));
}
