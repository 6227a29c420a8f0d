use polybot::arb::{
    check_arb, classify, decision_log, market_group, plan_orders, unwind_orders, ArbDecision, DecisionLog, MarketGroup, OrderPlan,
    Outcome, LIVE_TRADING_ENABLED,
};
use polybot::scan::{rotation_fetches, rotation_subscription};
use polybot::websocket::WsCommand;
use polybot::decimal::Dec;
use polybot::market::{BookTop, MarketCache, MarketListing, MarketState, OutcomeQuote};
use polybot::websocket::PriceChange;

fn s(x: &str) -> String {
    x.to_string()
}

fn listing(cid: &str, tokens: &[&str]) -> MarketListing {
    MarketListing { condition_id: s(cid), token_ids: tokens.iter().map(|t| s(t)).collect() }
}

fn change(asset: &str, price: &str, side: &str, size: &str) -> PriceChange {
    PriceChange { asset_id: s(asset), price: s(price), side: s(side), size: s(size) }
}

fn quote(asset: &str, m: i128, sc: u32) -> OutcomeQuote {
    OutcomeQuote { asset_id: s(asset), best_ask: Dec::new(m, sc) }
}

fn state(quotes: Vec<OutcomeQuote>) -> MarketState {
    MarketState { condition_id: s("cond"), outcomes: quotes, last_update_ts: 0 }
}

fn asks(c: &MarketCache, i: usize) -> Vec<(String, Dec)> {
    c.markets()[i].outcomes.iter().map(|q| (q.asset_id.clone(), q.best_ask)).collect()
}

#[test]
fn tracking_builds_zero_asks_and_links() {
    let mut c = MarketCache::new();
    let tokens = c.track_all(&vec![listing("c1", &["a", "b", "a"]), listing("c2", &["x"])], 10);
    assert_eq!(tokens, vec![s("a"), s("b"), s("a"), s("x")]);
    assert_eq!(c.len(), 2);
    assert_eq!(asks(&c, 0), vec![(s("a"), Dec::zero()), (s("b"), Dec::zero())]);
    assert_eq!(c.markets()[1].condition_id, "c2");
    assert_eq!(c.markets()[1].last_update_ts, 10);
    assert_eq!(c.find_market(&s("c2")), Some(1));
    assert_eq!(c.find_market(&s("zz")), None);
}

#[test]
fn sell_side_change_sets_best_ask_and_time() {
    let mut c = MarketCache::new();
    c.track_all(&vec![listing("c1", &["a", "b"])], 1);
    assert_eq!(c.apply_price_change(&change("b", "0.42", "SELL", "12"), 7), Some(0));
    assert_eq!(asks(&c, 0), vec![(s("a"), Dec::zero()), (s("b"), Dec::new(42, 2))]);
    assert_eq!(c.markets()[0].last_update_ts, 7);
}

#[test]
fn buy_side_or_empty_level_only_touches_time() {
    let mut c = MarketCache::new();
    c.track_all(&vec![listing("c1", &["a"])], 1);
    assert_eq!(c.apply_price_change(&change("a", "0.42", "BUY", "3"), 5), Some(0));
    assert_eq!(c.apply_price_change(&change("a", "0.50", "SELL", "0"), 6), Some(0));
    assert_eq!(asks(&c, 0), vec![(s("a"), Dec::zero())]);
    assert_eq!(c.markets()[0].last_update_ts, 6);
}

#[test]
fn unknown_asset_or_bad_price_changes_nothing() {
    let mut c = MarketCache::new();
    c.track_all(&vec![listing("c1", &["a"])], 1);
    assert_eq!(c.apply_price_change(&change("zz", "0.42", "SELL", "3"), 5), None);
    assert_eq!(c.apply_price_change(&change("a", "oops", "SELL", "3"), 5), None);
    assert_eq!(c.markets()[0].last_update_ts, 1);
}

#[test]
fn book_top_needs_five_shares() {
    let mut c = MarketCache::new();
    c.track_all(&vec![listing("c1", &["a", "b"])], 1);
    c.apply_book_top(&s("a"), Some(BookTop { price: Dec::new(3, 1), size: Dec::new(49, 1) }));
    assert_eq!(asks(&c, 0)[0].1, Dec::zero());
    c.apply_book_top(&s("a"), Some(BookTop { price: Dec::new(3, 1), size: Dec::new(50, 1) }));
    assert_eq!(asks(&c, 0)[0].1, Dec::new(3, 1));
    c.apply_book_top(&s("b"), None);
    assert_eq!(asks(&c, 0)[1].1, Dec::zero());
}

#[test]
fn stale_markets_are_oldest_first_stable() {
    let mut c = MarketCache::new();
    c.track_all(&vec![listing("m0", &["a"]), listing("m1", &["b"]), listing("m2", &["c"]), listing("m3", &["d"])], 5);
    c.apply_price_change(&change("a", "0.1", "SELL", "1"), 9);
    c.apply_price_change(&change("c", "0.1", "SELL", "1"), 3);
    assert_eq!(c.stale_positions(2), vec![2, 1]);
    assert_eq!(c.stale_markets(3), vec![s("m2"), s("m1"), s("m3")]);
    assert_eq!(c.stale_markets(10).len(), 4);
    assert_eq!(c.stale_markets(0), Vec::<String>::new());
}

#[test]
fn dropping_unlinks_tokens() {
    let mut c = MarketCache::new();
    c.track_all(&vec![listing("m0", &["a", "b"]), listing("m1", &["c"])], 5);
    let gone = c.drop_markets(&vec![s("m0"), s("nope")]);
    assert_eq!(gone, vec![s("a"), s("b")]);
    assert_eq!(c.len(), 1);
    assert_eq!(c.apply_price_change(&change("a", "0.3", "SELL", "1"), 6), None);
    assert_eq!(c.apply_price_change(&change("c", "0.3", "SELL", "1"), 6), Some(0));
}

#[test]
fn admission_skips_tracked_and_caps() {
    let mut c = MarketCache::new();
    c.track_all(&vec![listing("m0", &["a"])], 1);
    let cands = vec![listing("m0", &["a"]), listing("m1", &["b"]), listing("m2", &["c", "d"]), listing("m3", &["e"])];
    let (added, tokens) = c.admit_markets(&cands, 2, 4);
    assert_eq!(added, 2);
    assert_eq!(tokens, vec![s("b"), s("c"), s("d")]);
    assert_eq!(c.len(), 3);
    assert!(!c.contains_market(&s("m3")));
}

#[test]
fn heartbeat_probe_takes_first_token() {
    let mut c = MarketCache::new();
    assert_eq!(c.heartbeat_probe(), None);
    c.track_all(&vec![listing("m0", &["a", "b"])], 1);
    assert_eq!(c.heartbeat_probe(), Some(s("a")));
}

#[test]
fn arbitrage_when_sum_below_threshold() {
    let st = state(vec![quote("a", 40, 2), quote("b", 50, 2)]);
    // sum 0.90, roi 1/0.90 - 1, profit 20.0 * roi
    match check_arb(&st) {
        Some(ArbDecision::Arbitrage { sum, profit, execute }) => {
            assert_eq!(sum, Dec::new(90, 2));
            assert!(!execute);
            assert!(Dec::new(222, 2).lt(&profit) && profit.lt(&Dec::new(223, 2)));
        }
        other => panic!("unexpected {:?}", other),
    }
    assert!(!LIVE_TRADING_ENABLED);
}

#[test]
fn near_miss_between_one_and_threshold() {
    let st = state(vec![quote("a", 52, 2), quote("b", 50, 2)]);
    match check_arb(&st) {
        Some(ArbDecision::NearMiss { sum, .. }) => assert_eq!(sum, Dec::new(102, 2)),
        other => panic!("unexpected {:?}", other),
    }
}

#[test]
fn ignored_at_threshold_and_incomplete_on_zero_ask() {
    assert_eq!(check_arb(&state(vec![quote("a", 55, 2), quote("b", 50, 2)])), Some(ArbDecision::Ignore { sum: Dec::new(105, 2) }));
    assert_eq!(check_arb(&state(vec![quote("a", 0, 0), quote("b", 50, 2)])), Some(ArbDecision::Incomplete));
    assert_eq!(check_arb(&state(vec![quote("a", 10, 2), quote("b", -1, 2)])), Some(ArbDecision::Incomplete));
}

#[test]
fn empty_market_divides_by_zero() {
    assert_eq!(check_arb(&state(vec![])), None);
}

#[test]
fn classification_edges() {
    assert_eq!(classify(Dec::new(104, 2), Dec::new(-4, 2), Dec::new(-8, 1)), ArbDecision::NearMiss { sum: Dec::new(104, 2), profit: Dec::new(-8, 1) });
    assert_eq!(classify(Dec::new(104, 2), Dec::new(-5, 2), Dec::new(-1, 0)), ArbDecision::Unremarkable { sum: Dec::new(104, 2), profit: Dec::new(-1, 0) });
    assert_eq!(classify(Dec::new(1, 0), Dec::new(0, 0), Dec::new(0, 0)), ArbDecision::NearMiss { sum: Dec::new(1, 0), profit: Dec::new(0, 0) });
    assert_eq!(classify(Dec::new(99, 2), Dec::new(1, 2), Dec::new(2, 1)), ArbDecision::NearMiss { sum: Dec::new(99, 2), profit: Dec::new(2, 1) });
    assert_eq!(
        classify(Dec::new(989, 3), Dec::new(11, 3), Dec::new(22, 2)),
        ArbDecision::Arbitrage { sum: Dec::new(989, 3), profit: Dec::new(22, 2), execute: false }
    );
}

#[test]
fn sum_between_threshold_and_one_is_no_arbitrage() {
    // 0.50 + 0.495 = 0.995: below one, but not below 0.99
    match check_arb(&state(vec![quote("a", 50, 2), quote("b", 495, 3)])) {
        Some(ArbDecision::NearMiss { sum, .. }) => assert_eq!(sum, Dec::new(995, 3)),
        other => panic!("unexpected {:?}", other),
    }
    // exactly 0.99
    match check_arb(&state(vec![quote("a", 49, 2), quote("b", 50, 2)])) {
        Some(ArbDecision::NearMiss { sum, .. }) => assert_eq!(sum, Dec::new(99, 2)),
        other => panic!("unexpected {:?}", other),
    }
    // 0.489 + 0.50 = 0.989
    match check_arb(&state(vec![quote("a", 489, 3), quote("b", 50, 2)])) {
        Some(ArbDecision::Arbitrage { sum, .. }) => assert_eq!(sum, Dec::new(989, 3)),
        other => panic!("unexpected {:?}", other),
    }
}

#[test]
fn mixed_scales_add_exactly() {
    assert_eq!(Dec::new(5, 1).checked_add(&Dec::new(45, 2)), Some(Dec::new(95, 2)));
    assert_eq!(Dec::new(45, 2).checked_add(&Dec::new(5, 1)), Some(Dec::new(95, 2)));
    // "0.5" and "0.45" sum to 0.95
    match check_arb(&state(vec![quote("a", 5, 1), quote("b", 45, 2)])) {
        Some(ArbDecision::Arbitrage { sum, .. }) => assert_eq!(sum, Dec::new(95, 2)),
        other => panic!("unexpected {:?}", other),
    }
}

#[test]
fn decision_ignores_outcome_order() {
    let forward = state(vec![quote("a", 5, 1), quote("b", 45, 2), quote("c", 3, 2)]);
    let backward = state(vec![quote("c", 3, 2), quote("b", 45, 2), quote("a", 5, 1)]);
    let d = check_arb(&forward);
    assert_eq!(d, check_arb(&backward));
    match d {
        Some(ArbDecision::Arbitrage { sum, .. }) => assert_eq!(sum, Dec::new(98, 2)),
        other => panic!("unexpected {:?}", other),
    }
    // an unpriced outcome makes the market incomplete wherever it is listed
    let first = state(vec![quote("z", 0, 0), quote("a", 5, 1), quote("b", 45, 2)]);
    let middle = state(vec![quote("a", 5, 1), quote("z", 0, 0), quote("b", 45, 2)]);
    let last = state(vec![quote("a", 5, 1), quote("b", 45, 2), quote("z", -2, 2)]);
    assert_eq!(check_arb(&first), Some(ArbDecision::Incomplete));
    assert_eq!(check_arb(&middle), Some(ArbDecision::Incomplete));
    assert_eq!(check_arb(&last), Some(ArbDecision::Incomplete));
}

fn group(asks: &[(i128, u32)]) -> MarketGroup {
    MarketGroup {
        condition_id: s("cond"),
        outcomes: asks
            .iter()
            .enumerate()
            .map(|(i, (m, sc))| Outcome {
                token_id: format!("t{}", i),
                name: s("Unknown"),
                best_ask: Dec::new(*m, *sc),
                liquidity: Dec::new(1000, 1),
            })
            .collect(),
    }
}

#[test]
fn group_and_orders_for_execution() {
    let st = state(vec![quote("a", 40, 2), quote("b", 50, 2)]);
    let g = market_group(&st);
    assert_eq!(g.condition_id, "cond");
    assert_eq!(g.outcomes.len(), 2);
    assert_eq!(g.outcomes[1].token_id, "b");
    assert_eq!(g.outcomes[1].name, "Unknown");
    assert_eq!(g.outcomes[1].liquidity, Dec::new(1000, 1));
    // asks sum to 0.90: 5 shares of each cost 4.50, within the cap
    let orders = plan_orders(&g);
    assert_eq!(orders.len(), 2);
    assert_eq!(orders[0].token_id, "a");
    assert_eq!(orders[0].price, Dec::new(40, 2));
    assert_eq!(orders[0].size, Dec::new(500, 2));
    assert_eq!(orders[1].token_id, "b");
    assert_eq!(orders[1].price, Dec::new(50, 2));
    assert_eq!(orders[1].size, Dec::new(500, 2));
}

#[test]
fn five_shares_whenever_they_fit_the_cap() {
    // one outcome at 0.50: 5 shares cost 2.50
    assert_eq!(plan_orders(&group(&[(50, 2)]))[0].size, Dec::new(500, 2));
    // asks summing to 0.80, mixed scales
    let orders = plan_orders(&group(&[(5, 1), (3, 1), (0, 0)]));
    assert_eq!(orders.len(), 3);
    assert!(orders.iter().all(|o| o.size == Dec::new(500, 2)));
    // exactly 1.00: 5 shares cost exactly 5.00
    assert_eq!(plan_orders(&group(&[(60, 2), (40, 2)]))[0].size, Dec::new(500, 2));
    // an ask at or below zero is still ordered
    let orders = plan_orders(&group(&[(40, 2), (-1, 2)]));
    assert_eq!(orders.len(), 2);
    assert_eq!(orders[1].price, Dec::new(-1, 2));
    assert_eq!(orders[1].size, Dec::new(500, 2));
    assert!(plan_orders(&group(&[])).is_empty());
}

#[test]
fn orders_stay_within_spending_cap() {
    // 0.60 + 0.60 = 1.20 per share of each: 4.16 shares spend 4.992
    let orders = plan_orders(&group(&[(60, 2), (60, 2)]));
    assert_eq!(orders[0].size, Dec::new(416, 2));
    assert_eq!(orders[1].size, Dec::new(416, 2));
    // cost in ten-thousandths: within 5.00, and one more hundredth would not be
    let cost: i128 = orders.iter().map(|o| o.price.mantissa * o.size.mantissa).sum();
    assert_eq!(cost, 49920);
    assert!(cost <= 50000);
    assert!(cost + 60 + 60 > 50000);
    // mixed scales: 0.5 + 0.65 = 1.15: 4.34 shares
    assert_eq!(plan_orders(&group(&[(5, 1), (65, 2)]))[0].size, Dec::new(434, 2));
    // 1200 per share of each: not even a hundredth of a share fits 5.00
    assert_eq!(plan_orders(&group(&[(600, 0), (600, 0)]))[0].size, Dec::new(0, 2));
}

#[test]
fn rotation_fetches_only_after_a_drop() {
    assert!(!rotation_fetches(&vec![]));
    assert!(rotation_fetches(&vec![s("c1")]));
}

#[test]
fn rotation_subscribes_only_to_new_tokens() {
    assert!(rotation_subscription(vec![]).is_none());
    match rotation_subscription(vec![s("a"), s("b")]) {
        Some(WsCommand::Subscribe(a)) => assert_eq!(a, vec![s("a"), s("b")]),
        other => panic!("unexpected {:?}", other),
    }
}

#[test]
fn every_decided_market_is_logged() {
    let sum = Dec::new(110, 2);
    assert_eq!(decision_log(ArbDecision::Ignore { sum }), Some(DecisionLog::Miss { sum }));
    assert_eq!(
        decision_log(ArbDecision::Unremarkable { sum: Dec::new(104, 2), profit: Dec::new(-1, 0) }),
        Some(DecisionLog::Miss { sum: Dec::new(104, 2) })
    );
    assert_eq!(
        decision_log(ArbDecision::NearMiss { sum: Dec::new(102, 2), profit: Dec::new(-4, 1) }),
        Some(DecisionLog::NearMiss { sum: Dec::new(102, 2), profit: Dec::new(-4, 1) })
    );
    assert_eq!(
        decision_log(ArbDecision::Arbitrage { sum: Dec::new(90, 2), profit: Dec::new(2, 0), execute: false }),
        Some(DecisionLog::Arbitrage { sum: Dec::new(90, 2), profit: Dec::new(2, 0) })
    );
    assert_eq!(decision_log(ArbDecision::Incomplete), None);
    // a market at or above 1.05 is decided, and logged as a miss
    let d = check_arb(&state(vec![quote("a", 60, 2), quote("b", 50, 2)])).expect("decided");
    assert_eq!(decision_log(d), Some(DecisionLog::Miss { sum: Dec::new(110, 2) }));
}

fn plan(token: &str, size: i128) -> OrderPlan {
    OrderPlan { token_id: s(token), price: Dec::new(40, 2), size: Dec::new(size, 2) }
}

#[test]
fn failed_batch_dumps_filled_positions() {
    let orders = vec![plan("a", 500), plan("b", 500), plan("c", 416)];
    // all filled: nothing to dump
    assert!(unwind_orders(&orders, &vec![true, true, true]).is_empty());
    // b failed: a and c are sold at 0.01
    let dumps = unwind_orders(&orders, &vec![true, false, true]);
    assert_eq!(dumps.len(), 2);
    assert_eq!(dumps[0].token_id, "a");
    assert_eq!(dumps[0].size, Dec::new(500, 2));
    assert_eq!(dumps[0].price, Dec::new(1, 2));
    assert_eq!(dumps[1].token_id, "c");
    assert_eq!(dumps[1].size, Dec::new(416, 2));
    // nothing filled: nothing to dump
    assert!(unwind_orders(&orders, &vec![false, false, false]).is_empty());
}
