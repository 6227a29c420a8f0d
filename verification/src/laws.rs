//! Properties of the bot that span its operations, stated over the
//! abstract cache and the decision on a market.
use vstd::prelude::*;

use crate::arb::{
    ArbDecision, AskScan, LIVE_TRADING_ENABLED, arbitrage_threshold, dec_zero, decide_on_sum, decision_spec, has_unpriced_ask,
    near_miss_threshold, quote_asks, scan_asks,
};
use crate::decimal::{
    Dec, decimal_parse, exact_sum, exact_sum_fits, lemma_max_scale, lemma_pow10_positive, lemma_scaled_sum_positive,
    max_scale, positive_part, positive_sum_fits, pow10, scaled_sum,
};
use crate::market::{BookTop, book_spec, CacheView, LinkView, ListingView, QuoteView, admit_spec, dedup, drop_all, drop_one, fresh_market, key_index, lemma_key_index_unique, link_assets, link_insert, link_insert_all, market_ids, moves_ask, price_change_spec, quote_assets, set_ask, track_spec, unlink_all};
use crate::scan::listing_wanted;
use crate::websocket::PriceChange;

verus! {

/// When the asks sum up, every one of them is positive.
pub proof fn law_summed_asks_are_positive(quotes: Seq<QuoteView>, sum: Dec)
    requires
        scan_asks(quotes) == Some(AskScan::Total(sum)),
    ensures
        forall|j: int| 0 <= j < quotes.len() ==> (#[trigger] quotes[j]).best_ask.mantissa > 0,
    decreases quotes.len(),
{
    if quotes.len() > 0 {
        let prev = quotes.drop_last();
        match scan_asks(prev) {
            Some(AskScan::Total(s)) => {
                law_summed_asks_are_positive(prev, s);
                let last = quotes.last();
                assert(!last.best_ask.le_spec(dec_zero()));
                lemma_pow10_positive(last.best_ask.scale as nat);
                assert(pow10(0) == 1);
                assert forall|j: int| 0 <= j < quotes.len() implies (#[trigger] quotes[j]).best_ask.mantissa > 0 by {
                    if j < quotes.len() - 1 {
                        assert(quotes[j] == prev[j]);
                    }
                }
            },
            _ => {},
        }
    }
}

/// A market is an arbitrage exactly when all its asks are positive and they
/// sum below 0.99 (wherever the decimal arithmetic does not overflow); while
/// trading is disabled no order is ever to be sent.
pub proof fn law_arbitrage_iff_sum_below_threshold(quotes: Seq<QuoteView>)
    ensures
        decision_spec(quotes) matches Some(d) ==> (d is Arbitrage <==> (scan_asks(quotes) matches Some(
            AskScan::Total(sum),
        ) && sum.lt_spec(arbitrage_threshold()))),
        decision_spec(quotes) matches Some(ArbDecision::Arbitrage { sum, profit, execute }) ==> {
            &&& scan_asks(quotes) == Some(AskScan::Total(sum))
            &&& sum.lt_spec(arbitrage_threshold())
            &&& forall|j: int| 0 <= j < quotes.len() ==> (#[trigger] quotes[j]).best_ask.mantissa > 0
            &&& execute == LIVE_TRADING_ENABLED
            &&& !execute
        },
{
    match scan_asks(quotes) {
        Some(AskScan::Total(sum)) => {
            law_summed_asks_are_positive(quotes, sum);
            if sum.lt_spec(arbitrage_threshold()) {
                lemma_pow10_positive(sum.scale as nat);
                assert(pow10(2) == 100) by {
                    reveal_with_fuel(pow10, 3);
                }
                assert(sum.lt_spec(near_miss_threshold()));
            }
        },
        _ => {},
    }
}

/// For a market whose asks are all positive and sum exactly within 96 bits,
/// whatever their scales, the decision on that exact sum is an arbitrage
/// exactly when the sum is below 0.99, i.e. when `100 * total < 99 * 10^s`
/// for the sum `total / 10^s` at the asks' largest scale `s`.
pub proof fn law_arbitrage_iff_exact_sum_below_threshold(asks: Seq<Dec>)
    requires
        exact_sum_fits(asks),
    ensures
        decide_on_sum(exact_sum(asks)) matches Some(d) ==> (d is Arbitrage <==> 100 * scaled_sum(
            asks,
            max_scale(asks) as nat,
        ) < 99 * pow10(max_scale(asks) as nat)),
{
    let sc = max_scale(asks) as nat;
    let total = scaled_sum(asks, sc);
    let sum = exact_sum(asks);
    lemma_max_scale(asks);
    lemma_scaled_sum_positive(asks, sc);
    lemma_pow10_positive(sc);
    assert(pow10(2) == 100) by {
        reveal_with_fuel(pow10, 3);
    }
    assert(sum.mantissa == total && sum.scale == sc);
    assert(sum.lt_spec(arbitrage_threshold()) == (100 * total < 99 * pow10(sc)));
    assert(sum.lt_spec(near_miss_threshold()) == (100 * total < 105 * pow10(sc)));
}

/// Taking one decimal out of a sequence takes its scale out of the largest
/// scale and its share out of the sum.
pub proof fn lemma_remove_one(a: Seq<Dec>, k: int, s: nat)
    requires
        0 <= k < a.len(),
    ensures
        max_scale(a) == (if a[k].scale > max_scale(a.remove(k)) { a[k].scale } else { max_scale(a.remove(k)) }),
        scaled_sum(a, s) == scaled_sum(a.remove(k), s) + a[k].mantissa * pow10((s - a[k].scale) as nat),
    decreases a.len(),
{
    let d = a.drop_last();
    if k == a.len() - 1 {
        assert(a.remove(k) =~= d);
    } else {
        lemma_remove_one(d, k, s);
        assert(a.remove(k).drop_last() =~= d.remove(k));
        assert(a.remove(k).last() == a.last());
        assert(d[k] == a[k]);
    }
}

/// Two sequences of decimals that hold the same decimals, each as often, in
/// any order, have the same length, the same largest scale and the same sum
/// at every scale, and are positive together.
pub proof fn lemma_same_multiset(a1: Seq<Dec>, a2: Seq<Dec>)
    requires
        a1.to_multiset() == a2.to_multiset(),
    ensures
        a1.len() == a2.len(),
        max_scale(a1) == max_scale(a2),
        forall|s: nat| #[trigger] scaled_sum(a1, s) == scaled_sum(a2, s),
        (forall|j: int| 0 <= j < a1.len() ==> (#[trigger] a1[j]).mantissa > 0) <==> (forall|j: int|
            0 <= j < a2.len() ==> (#[trigger] a2[j]).mantissa > 0),
    decreases a1.len(),
{
    broadcast use vstd::seq_lib::group_to_multiset_ensures;

    assert(a1.len() == a2.len()) by {
        vstd::seq_lib::to_multiset_len(a1);
        vstd::seq_lib::to_multiset_len(a2);
    }
    if a1.len() > 0 {
        let x = a1.last();
        assert(a1.contains(x)) by {
            assert(a1[a1.len() - 1] == x);
        }
        assert(a1.to_multiset().count(x) > 0);
        assert(a2.contains(x));
        let k = choose|k: int| 0 <= k < a2.len() && a2[k] == x;
        let r1 = a1.remove(a1.len() - 1);
        let r2 = a2.remove(k);
        assert(r1 =~= a1.drop_last());
        assert(r1.to_multiset() == r2.to_multiset());
        lemma_same_multiset(r1, r2);
        lemma_remove_one(a1, a1.len() - 1, 0);
        lemma_remove_one(a2, k, 0);
        assert forall|s: nat| #[trigger] scaled_sum(a1, s) == scaled_sum(a2, s) by {
            lemma_remove_one(a1, a1.len() - 1, s);
            lemma_remove_one(a2, k, s);
        }
    } else {
        assert(a1 =~= a2);
    }
    assert((forall|j: int| 0 <= j < a1.len() ==> (#[trigger] a1[j]).mantissa > 0) ==> (forall|j: int|
        0 <= j < a2.len() ==> (#[trigger] a2[j]).mantissa > 0)) by {
        if forall|j: int| 0 <= j < a1.len() ==> (#[trigger] a1[j]).mantissa > 0 {
            assert forall|j: int| 0 <= j < a2.len() implies (#[trigger] a2[j]).mantissa > 0 by {
                assert(a2.contains(a2[j]));
                assert(a2.to_multiset().count(a2[j]) > 0);
                assert(a1.contains(a2[j]));
            }
        }
    }
    assert((forall|j: int| 0 <= j < a2.len() ==> (#[trigger] a2[j]).mantissa > 0) ==> (forall|j: int|
        0 <= j < a1.len() ==> (#[trigger] a1[j]).mantissa > 0)) by {
        if forall|j: int| 0 <= j < a2.len() ==> (#[trigger] a2[j]).mantissa > 0 {
            assert forall|j: int| 0 <= j < a1.len() implies (#[trigger] a1[j]).mantissa > 0 by {
                assert(a1.contains(a1[j]));
                assert(a1.to_multiset().count(a1[j]) > 0);
                assert(a2.contains(a1[j]));
            }
        }
    }
}

/// A decimal occurs in the positive part as often as in the whole when it
/// is positive, and not at all otherwise.
pub proof fn lemma_positive_part_count(a: Seq<Dec>, x: Dec)
    ensures
        positive_part(a).to_multiset().count(x) == (if x.mantissa > 0 { a.to_multiset().count(x) } else { 0 }),
    decreases a.len(),
{
    broadcast use vstd::seq_lib::group_to_multiset_ensures, vstd::multiset::group_multiset_axioms;

    if a.len() == 0 {
        assert(a.to_multiset() =~= vstd::multiset::Multiset::empty());
        assert(positive_part(a).to_multiset() =~= vstd::multiset::Multiset::empty());
    } else {
        let d = a.drop_last();
        let l = a.last();
        lemma_positive_part_count(d, x);
        assert(d.push(l) =~= a);
        assert(a.to_multiset() == d.to_multiset().insert(l));
        if l.mantissa > 0 {
            assert(positive_part(a) == positive_part(d).push(l));
            assert(positive_part(a).to_multiset() == positive_part(d).to_multiset().insert(l));
        }
    }
}

/// The decision on a market does not depend on the order in which its
/// outcomes are listed: for markets whose best asks are the same decimals,
/// each as often, either both have an ask at or below zero or neither;
/// their positive asks' exact sums fit for both or for neither; and where
/// all asks are positive they have the same exact ask sum and the decision
/// taken on it is the same. (With `check_arb`, two such markets whose
/// positive asks' exact sum fits get the same decision.)
pub proof fn law_decision_ignores_outcome_order(q1: Seq<QuoteView>, q2: Seq<QuoteView>)
    requires
        quote_asks(q1).to_multiset() == quote_asks(q2).to_multiset(),
    ensures
        has_unpriced_ask(quote_asks(q1)) == has_unpriced_ask(quote_asks(q2)),
        positive_sum_fits(quote_asks(q1)) == positive_sum_fits(quote_asks(q2)),
        exact_sum_fits(quote_asks(q1)) == exact_sum_fits(quote_asks(q2)),
        exact_sum(quote_asks(q1)) == exact_sum(quote_asks(q2)),
        decide_on_sum(exact_sum(quote_asks(q1))) == decide_on_sum(exact_sum(quote_asks(q2))),
{
    broadcast use vstd::seq_lib::group_to_multiset_ensures;

    let a1 = quote_asks(q1);
    let a2 = quote_asks(q2);
    lemma_same_multiset(a1, a2);
    let s = max_scale(a1) as nat;
    assert(scaled_sum(a1, s) == scaled_sum(a2, s));
    let p1 = positive_part(a1);
    let p2 = positive_part(a2);
    assert forall|x: Dec| #[trigger] p1.to_multiset().count(x) == p2.to_multiset().count(x) by {
        lemma_positive_part_count(a1, x);
        lemma_positive_part_count(a2, x);
    }
    assert(p1.to_multiset() =~= p2.to_multiset());
    lemma_same_multiset(p1, p2);
    assert(scaled_sum(p1, max_scale(p1) as nat) == scaled_sum(p2, max_scale(p1) as nat));
    if has_unpriced_ask(a1) {
        let j = choose|j: int| 0 <= j < a1.len() && a1[j].mantissa <= 0;
        assert(a1.contains(a1[j]));
        assert(a1.to_multiset().count(a1[j]) > 0);
        assert(a2.contains(a1[j]));
    }
    if has_unpriced_ask(a2) {
        let j = choose|j: int| 0 <= j < a2.len() && a2[j].mantissa <= 0;
        assert(a2.contains(a2[j]));
        assert(a2.to_multiset().count(a2[j]) > 0);
        assert(a1.contains(a2[j]));
    }
}

/// The link of `asset_id` in an index, if any.
pub open spec fn link_of(links: Seq<LinkView>, asset_id: Seq<char>) -> Option<Seq<char>> {
    match key_index(link_assets(links), asset_id) {
        Some(i) => Some(links[i].condition_id),
        None => None,
    }
}

/// Pointing a token at a market keeps the index free of duplicates, makes
/// the token point there, and leaves every other token's link alone.
pub proof fn lemma_link_insert(links: Seq<LinkView>, asset_id: Seq<char>, cid: Seq<char>)
    requires
        link_assets(links).no_duplicates(),
    ensures
        link_assets(link_insert(links, asset_id, cid)).no_duplicates(),
        link_of(link_insert(links, asset_id, cid), asset_id) == Some(cid),
        forall|a: Seq<char>| a != asset_id ==> link_of(link_insert(links, asset_id, cid), a) == #[trigger] link_of(links, a),
{
    let keys = link_assets(links);
    let r = link_insert(links, asset_id, cid);
    match key_index(keys, asset_id) {
        Some(i) => {
            assert(keys.contains(asset_id));
            assert(link_assets(r) =~= keys);
            lemma_key_index_unique(keys, asset_id, i);
            assert(link_assets(r)[i] == asset_id);
            lemma_key_index_unique(link_assets(r), asset_id, i);
            assert forall|a: Seq<char>| a != asset_id implies link_of(r, a) == #[trigger] link_of(links, a) by {
                match key_index(keys, a) {
                    Some(k) => {
                        assert(keys.contains(a));
                        lemma_key_index_unique(keys, a, k);
                        assert(k != i);
                    },
                    None => {},
                }
            }
        },
        None => {
            assert(link_assets(r) =~= keys.push(asset_id));
            assert forall|x: int, y: int| 0 <= x < link_assets(r).len() && 0 <= y < link_assets(r).len() && x != y implies link_assets(r)[x] != link_assets(r)[y] by {
                if x < keys.len() && y < keys.len() {
                } else if x == keys.len() {
                    assert(!keys.contains(asset_id));
                    assert(keys[y] == link_assets(r)[y]);
                } else {
                    assert(!keys.contains(asset_id));
                    assert(keys[x] == link_assets(r)[x]);
                }
            }
            lemma_key_index_unique(link_assets(r), asset_id, keys.len() as int);
            assert forall|a: Seq<char>| a != asset_id implies link_of(r, a) == #[trigger] link_of(links, a) by {
                match key_index(keys, a) {
                    Some(k) => {
                        assert(keys.contains(a));
                        lemma_key_index_unique(keys, a, k);
                        assert(link_assets(r)[k] == a);
                        lemma_key_index_unique(link_assets(r), a, k);
                    },
                    None => {
                        assert(!link_assets(r).contains(a)) by {
                            if link_assets(r).contains(a) {
                                let k = choose|k: int| 0 <= k < link_assets(r).len() && link_assets(r)[k] == a;
                                assert(k < keys.len());
                                assert(keys[k] == a);
                            }
                        }
                    },
                }
            }
        },
    }
}

/// After pointing all `tokens` at a market, each of them points there.
pub proof fn lemma_link_insert_all(links: Seq<LinkView>, tokens: Seq<Seq<char>>, cid: Seq<char>)
    requires
        link_assets(links).no_duplicates(),
    ensures
        link_assets(link_insert_all(links, tokens, cid)).no_duplicates(),
        forall|a: Seq<char>| tokens.contains(a) ==> #[trigger] link_of(link_insert_all(links, tokens, cid), a) == Some(cid),
    decreases tokens.len(),
{
    if tokens.len() > 0 {
        let prev = tokens.drop_last();
        lemma_link_insert_all(links, prev, cid);
        let mid = link_insert_all(links, prev, cid);
        lemma_link_insert(mid, tokens.last(), cid);
        assert forall|a: Seq<char>| tokens.contains(a) implies #[trigger] link_of(link_insert_all(links, tokens, cid), a) == Some(cid) by {
            if a != tokens.last() {
                let k = choose|k: int| 0 <= k < tokens.len() && tokens[k] == a;
                assert(k < prev.len());
                assert(prev[k] == a);
                assert(prev.contains(a));
                assert(link_of(mid, a) == Some(cid));
            }
        }
    }
}

/// A token of a listing stays among the deduplicated tokens.
pub proof fn lemma_dedup_contains(tokens: Seq<Seq<char>>, a: Seq<char>)
    requires
        tokens.contains(a),
    ensures
        dedup(tokens).contains(a),
    decreases tokens.len(),
{
    let prev = tokens.drop_last();
    if a == tokens.last() {
        if !dedup(prev).contains(a) {
            assert(dedup(tokens) == dedup(prev).push(a));
            assert(dedup(tokens)[dedup(prev).len() as int] == a);
        }
    } else {
        let k = choose|k: int| 0 <= k < tokens.len() && tokens[k] == a;
        assert(k < prev.len());
        assert(prev[k] == a);
        lemma_dedup_contains(prev, a);
        let j = choose|j: int| 0 <= j < dedup(prev).len() && dedup(prev)[j] == a;
        if !dedup(prev).contains(tokens.last()) {
            assert(dedup(tokens)[j] == a);
        }
    }
}

/// Every token kept by deduplication is one of the listed tokens.
pub proof fn lemma_dedup_subset(tokens: Seq<Seq<char>>, a: Seq<char>)
    requires
        dedup(tokens).contains(a),
    ensures
        tokens.contains(a),
    decreases tokens.len(),
{
    let prev = tokens.drop_last();
    let d = dedup(prev);
    let k = choose|k: int| 0 <= k < dedup(tokens).len() && dedup(tokens)[k] == a;
    if d.contains(tokens.last()) || k < d.len() {
        assert(dedup(tokens)[k] == d[k] || dedup(tokens) == d);
        if dedup(tokens) == d || k < d.len() {
            assert(d[k] == a);
            assert(d.contains(a));
            lemma_dedup_subset(prev, a);
            let j = choose|j: int| 0 <= j < prev.len() && prev[j] == a;
            assert(tokens[j] == a);
        }
    } else {
        assert(a == tokens.last());
        assert(tokens[tokens.len() - 1] == a);
    }
}

/// Tracking a market starts it afresh: afterwards it is tracked under its
/// condition id, stamped with the time of tracking, it quotes exactly the
/// listed tokens, each with a zero ask, every listed token points to it, and
/// every other market stays as it was.
pub proof fn law_tracking_starts_fresh(c: CacheView, cid: Seq<char>, tokens: Seq<Seq<char>>, now: u64)
    requires
        c.wf(),
    ensures
        ({
            let c2 = track_spec(c, cid, tokens, now);
            &&& c2.market_index(cid) is Some
            &&& c2.markets[c2.market_index(cid)->0].condition_id == cid
            &&& c2.markets[c2.market_index(cid)->0].last_update_ts == now
            &&& forall|j: int|
                0 <= j < c2.markets[c2.market_index(cid)->0].quotes.len() ==> {
                    &&& (#[trigger] c2.markets[c2.market_index(cid)->0].quotes[j]).best_ask == (Dec { mantissa: 0, scale: 0 })
                    &&& tokens.contains(c2.markets[c2.market_index(cid)->0].quotes[j].asset_id)
                }
            &&& forall|a: Seq<char>|
                #[trigger] tokens.contains(a) ==> exists|j: int|
                    0 <= j < c2.markets[c2.market_index(cid)->0].quotes.len()
                        && (#[trigger] c2.markets[c2.market_index(cid)->0].quotes[j]).asset_id == a
            &&& forall|a: Seq<char>| #[trigger] tokens.contains(a) ==> c2.linked_condition(a) == Some(cid)
            &&& forall|k: int|
                0 <= k < c.markets.len() && c.markets[k].condition_id != cid ==> #[trigger] c2.markets[k] == c.markets[k]
        }),
{
    let c1 = track_spec(c, cid, tokens, now);
    lemma_link_insert_all(c.links, tokens, cid);
    assert forall|a: Seq<char>| #[trigger] tokens.contains(a) implies c1.linked_condition(a) == Some(cid) by {
        assert(link_of(c1.links, a) == Some(cid));
    }
    let m = fresh_market(cid, tokens, now);
    let ids = market_ids(c.markets);
    let i: int = match c.market_index(cid) {
        Some(i0) => {
            assert(ids.contains(cid));
            lemma_key_index_unique(ids, cid, i0);
            assert(market_ids(c1.markets) =~= ids.update(i0, cid));
            assert(market_ids(c1.markets) =~= ids);
            lemma_key_index_unique(market_ids(c1.markets), cid, i0);
            i0
        },
        None => {
            assert(!ids.contains(cid));
            assert(market_ids(c1.markets) =~= ids.push(cid));
            assert(market_ids(c1.markets).no_duplicates()) by {
                let ks = market_ids(c1.markets);
                assert forall|x: int, y: int| 0 <= x < ks.len() && 0 <= y < ks.len() && x != y implies ks[x] != ks[y] by {
                    if x < ids.len() && y < ids.len() {
                    } else if x == ids.len() {
                        assert(ids[y] == ks[y]);
                    } else {
                        assert(ids[x] == ks[x]);
                    }
                }
            }
            lemma_key_index_unique(market_ids(c1.markets), cid, ids.len() as int);
            ids.len() as int
        },
    };
    assert(c1.market_index(cid) == Some(i));
    assert(c1.markets[i] == m);
    let d = dedup(tokens);
    assert forall|j: int| 0 <= j < m.quotes.len() implies tokens.contains(#[trigger] m.quotes[j].asset_id) by {
        assert(m.quotes[j].asset_id == d[j]);
        assert(d.contains(d[j]));
        lemma_dedup_subset(tokens, d[j]);
    }
    assert forall|a: Seq<char>| #[trigger] tokens.contains(a) implies exists|j: int|
        0 <= j < m.quotes.len() && (#[trigger] m.quotes[j]).asset_id == a by {
        lemma_dedup_contains(tokens, a);
        let j = choose|j: int| 0 <= j < d.len() && d[j] == a;
        assert(m.quotes[j].asset_id == a);
    }
    assert forall|k: int| 0 <= k < c.markets.len() && c.markets[k].condition_id != cid implies #[trigger] c1.markets[k]
        == c.markets[k] by {
        if k == i {
            assert(ids[k] == c.markets[k].condition_id);
            assert(ids[i] == cid);
        }
    }
}

/// After a market is tracked, a sell-side price change of one of its tokens
/// (with a price that parses and a size other than `0`) becomes that
/// token's best ask in that market, stamped with the time of the change.
pub proof fn law_tracked_price_becomes_best_ask(
    c: CacheView,
    cid: Seq<char>,
    tokens: Seq<Seq<char>>,
    now: u64,
    change: PriceChange,
    later: u64,
)
    requires
        c.wf(),
        tokens.contains(change.asset_id@),
        moves_ask(change.side@, change.size@),
        decimal_parse(change.price@) is Some,
    ensures
        ({
            let c1 = track_spec(c, cid, tokens, now);
            let (c2, touched) = price_change_spec(c1, change, later);
            &&& touched is Some
            &&& touched == c1.market_index(cid)
            &&& c2.markets[touched->0].condition_id == cid
            &&& c2.markets[touched->0].last_update_ts == later
            &&& exists|j: int|
                0 <= j < c2.markets[touched->0].quotes.len()
                    && (#[trigger] c2.markets[touched->0].quotes[j]).asset_id == change.asset_id@
                    && c2.markets[touched->0].quotes[j].best_ask == decimal_parse(change.price@)->0
        }),
{
    let a = change.asset_id@;
    let p = decimal_parse(change.price@)->0;
    let c1 = track_spec(c, cid, tokens, now);
    lemma_link_insert_all(c.links, tokens, cid);
    assert(link_of(c1.links, a) == Some(cid));
    assert(c1.linked_condition(a) == Some(cid));
    let m = fresh_market(cid, tokens, now);
    let ids = market_ids(c.markets);
    let i: int = match c.market_index(cid) {
        Some(i0) => {
            assert(ids.contains(cid));
            lemma_key_index_unique(ids, cid, i0);
            assert(market_ids(c1.markets) =~= ids.update(i0, cid));
            assert(market_ids(c1.markets) =~= ids);
            lemma_key_index_unique(market_ids(c1.markets), cid, i0);
            i0
        },
        None => {
            assert(!ids.contains(cid));
            assert(market_ids(c1.markets) =~= ids.push(cid));
            assert(market_ids(c1.markets).no_duplicates()) by {
                let ks = market_ids(c1.markets);
                assert forall|x: int, y: int| 0 <= x < ks.len() && 0 <= y < ks.len() && x != y implies ks[x] != ks[y] by {
                    if x < ids.len() && y < ids.len() {
                    } else if x == ids.len() {
                        assert(ids[y] == ks[y]);
                    } else {
                        assert(ids[x] == ks[x]);
                    }
                }
            }
            lemma_key_index_unique(market_ids(c1.markets), cid, ids.len() as int);
            ids.len() as int
        },
    };
    assert(c1.market_index(cid) == Some(i));
    assert(c1.markets[i] == m);
    lemma_dedup_contains(tokens, a);
    let d = dedup(tokens);
    let j = choose|j: int| 0 <= j < d.len() && d[j] == a;
    let (c2, touched) = price_change_spec(c1, change, later);
    assert(touched == Some(i));
    let q2 = c2.markets[i].quotes;
    assert(q2 == set_ask(m.quotes, a, p));
    assert(m.quotes[j].asset_id == a);
    assert(q2[j].asset_id == a && q2[j].best_ask == p);
}

/// A feed price change for a token that is indexed to a tracked market
/// stamps that market with the change's time. When it is a sell-side change
/// of a size other than `0` with a price that parses, the token's best ask
/// in that market becomes that price, whatever it was before (a rising ask
/// as much as a falling one); otherwise the asks stay. No other quote of
/// the market changes, and no other market.
pub proof fn law_sell_change_sets_best_ask(c: CacheView, change: PriceChange, now: u64, cid: Seq<char>, i: int)
    requires
        c.wf(),
        decimal_parse(change.price@) is Some,
        c.linked_condition(change.asset_id@) == Some(cid),
        c.market_index(cid) == Some(i),
    ensures
        ({
            let (c2, touched) = price_change_spec(c, change, now);
            let p = decimal_parse(change.price@)->0;
            let sells = change.side@ == "SELL"@ && change.size@ != "0"@;
            &&& touched == Some(i)
            &&& c2.markets.len() == c.markets.len()
            &&& c2.markets[i].condition_id == cid
            &&& c2.markets[i].last_update_ts == now
            &&& c2.markets[i].quotes.len() == c.markets[i].quotes.len()
            &&& forall|j: int|
                0 <= j < c.markets[i].quotes.len() ==> (#[trigger] c2.markets[i].quotes[j]).asset_id
                    == c.markets[i].quotes[j].asset_id
            &&& forall|j: int|
                0 <= j < c.markets[i].quotes.len() && sells && c.markets[i].quotes[j].asset_id == change.asset_id@
                    ==> (#[trigger] c2.markets[i].quotes[j]).best_ask == p
            &&& forall|j: int|
                0 <= j < c.markets[i].quotes.len() && (!sells || c.markets[i].quotes[j].asset_id != change.asset_id@)
                    ==> (#[trigger] c2.markets[i].quotes[j]).best_ask == c.markets[i].quotes[j].best_ask
            &&& forall|k: int| 0 <= k < c.markets.len() && k != i ==> #[trigger] c2.markets[k] == c.markets[k]
        }),
{
    let ids = market_ids(c.markets);
    assert(ids.contains(cid)) by {
        assert(ids[i] == cid);
    }
    assert(c.markets[i].condition_id == cid) by {
        assert(ids[i] == cid);
    }
}

/// An order-book snapshot of a token changes only asks of that token: when
/// its top ask has a size of at least 5.0 shares (as a number, whatever the
/// size's scale), that price becomes the token's best ask in every market
/// quoting it; with a smaller size, or no ask at all, nothing changes.
pub proof fn law_deep_book_top_sets_best_ask(c: CacheView, asset_id: Seq<char>, t: BookTop)
    ensures
        book_spec(c, asset_id, None) == c,
        10 * t.size.mantissa < 50 * pow10(t.size.scale as nat) ==> book_spec(c, asset_id, Some(t)) == c,
        10 * t.size.mantissa >= 50 * pow10(t.size.scale as nat) ==> ({
            let c2 = book_spec(c, asset_id, Some(t));
            &&& c2.links == c.links
            &&& c2.markets.len() == c.markets.len()
            &&& forall|k: int|
                0 <= k < c.markets.len() ==> {
                    &&& (#[trigger] c2.markets[k]).condition_id == c.markets[k].condition_id
                    &&& c2.markets[k].last_update_ts == c.markets[k].last_update_ts
                    &&& c2.markets[k].quotes.len() == c.markets[k].quotes.len()
                }
            &&& forall|k: int, j: int|
                0 <= k < c.markets.len() && 0 <= j < c.markets[k].quotes.len() ==> {
                    &&& (#[trigger] c2.markets[k].quotes[j]).asset_id == c.markets[k].quotes[j].asset_id
                    &&& c2.markets[k].quotes[j].best_ask == (if c.markets[k].quotes[j].asset_id == asset_id {
                        t.price
                    } else {
                        c.markets[k].quotes[j].best_ask
                    })
                }
        }),
{
    assert(pow10(1) == 10) by {
        reveal_with_fuel(pow10, 2);
    }
}

/// Only listings of active, negative-risk, open markets are kept by a scan.
pub proof fn law_scan_keeps_active_negrisk_open_markets(active: bool, neg_risk: bool, closed: bool)
    ensures
        listing_wanted(active, neg_risk, closed) ==> active,
        listing_wanted(active, neg_risk, closed) ==> neg_risk,
        listing_wanted(active, neg_risk, closed) ==> !closed,
        active && neg_risk && !closed ==> listing_wanted(active, neg_risk, closed),
{
}

/// A price change never adds or removes a market, never touches the token
/// index, and changes no market but the one it reports.
pub proof fn law_price_change_is_local(c: CacheView, change: PriceChange, now: u64)
    ensures
        ({
            let (c2, touched) = price_change_spec(c, change, now);
            &&& c2.links == c.links
            &&& market_ids(c2.markets) == market_ids(c.markets)
            &&& forall|k: int| 0 <= k < c.markets.len() && touched != Some(k) ==> #[trigger] c2.markets[k] == c.markets[k]
        }),
{
    let (c2, touched) = price_change_spec(c, change, now);
    assert(market_ids(c2.markets) =~= market_ids(c.markets));
}

/// Removing every link of some tokens keeps the index free of duplicates.
pub proof fn lemma_unlink_all_distinct(links: Seq<LinkView>, assets: Seq<Seq<char>>)
    requires
        link_assets(links).no_duplicates(),
    ensures
        link_assets(unlink_all(links, assets)).no_duplicates(),
    decreases assets.len(),
{
    if assets.len() > 0 {
        lemma_unlink_all_distinct(links, assets.drop_last());
        let mid = unlink_all(links, assets.drop_last());
        match key_index(link_assets(mid), assets.last()) {
            Some(i) => {
                assert(link_assets(mid).contains(assets.last()));
                lemma_key_index_unique(link_assets(mid), assets.last(), i);
                assert(link_assets(mid.remove(i)) =~= link_assets(mid).remove(i));
                let s = link_assets(mid);
                let r = s.remove(i);
                assert forall|x: int, y: int| 0 <= x < r.len() && 0 <= y < r.len() && x != y implies r[x] != r[y] by {
                    let x2 = if x < i { x } else { x + 1 };
                    let y2 = if y < i { y } else { y + 1 };
                    assert(r[x] == s[x2]);
                    assert(r[y] == s[y2]);
                }
            },
            None => {},
        }
    }
}

/// Dropping a market keeps the cache well formed, leaves it untracked, and
/// tracks no market that was not tracked before.
pub proof fn lemma_drop_one(c: CacheView, cid: Seq<char>)
    requires
        c.wf(),
    ensures
        drop_one(c, cid).0.wf(),
        !market_ids(drop_one(c, cid).0.markets).contains(cid),
        forall|x: Seq<char>| #[trigger] market_ids(drop_one(c, cid).0.markets).contains(x) ==> market_ids(c.markets).contains(x),
{
    let ids = market_ids(c.markets);
    match c.market_index(cid) {
        None => {
            assert(!ids.contains(cid));
        },
        Some(i) => {
            assert(ids.contains(cid));
            lemma_key_index_unique(ids, cid, i);
            let c2 = drop_one(c, cid).0;
            let r = market_ids(c2.markets);
            assert(r =~= ids.remove(i));
            assert forall|x: int, y: int| 0 <= x < r.len() && 0 <= y < r.len() && x != y implies r[x] != r[y] by {
                let x2 = if x < i { x } else { x + 1 };
                let y2 = if y < i { y } else { y + 1 };
                assert(r[x] == ids[x2]);
                assert(r[y] == ids[y2]);
            }
            assert forall|k: int| 0 <= k < c2.markets.len() implies (#[trigger] c2.markets[k]).wf() by {
                if k < i {
                    assert(c2.markets[k] == c.markets[k]);
                } else {
                    assert(c2.markets[k] == c.markets[k + 1]);
                }
            }
            lemma_unlink_all_distinct(c.links, quote_assets(c.markets[i].quotes));
            assert(!r.contains(cid)) by {
                if r.contains(cid) {
                    let k = choose|k: int| 0 <= k < r.len() && r[k] == cid;
                    let k2 = if k < i { k } else { k + 1 };
                    assert(ids[k2] == cid);
                }
            }
            assert forall|x: Seq<char>| #[trigger] r.contains(x) implies ids.contains(x) by {
                let k = choose|k: int| 0 <= k < r.len() && r[k] == x;
                let k2 = if k < i { k } else { k + 1 };
                assert(ids[k2] == x);
            }
        },
    }
}

/// After a rotation drops some markets, none of them is tracked any more,
/// no market is newly tracked, and the cache stays well formed.
pub proof fn law_dropped_markets_are_untracked(c: CacheView, ids: Seq<Seq<char>>)
    requires
        c.wf(),
    ensures
        drop_all(c, ids).0.wf(),
        forall|x: Seq<char>| ids.contains(x) ==> !(#[trigger] market_ids(drop_all(c, ids).0.markets).contains(x)),
        forall|x: Seq<char>| #[trigger] market_ids(drop_all(c, ids).0.markets).contains(x) ==> market_ids(c.markets).contains(x),
    decreases ids.len(),
{
    if ids.len() > 0 {
        let prev = ids.drop_last();
        law_dropped_markets_are_untracked(c, prev);
        let c1 = drop_all(c, prev).0;
        lemma_drop_one(c1, ids.last());
        let c2 = drop_all(c, ids).0;
        assert(c2 == drop_one(c1, ids.last()).0);
        assert forall|x: Seq<char>| ids.contains(x) implies !(#[trigger] market_ids(c2.markets).contains(x)) by {
            if x != ids.last() {
                let k = choose|k: int| 0 <= k < ids.len() && ids[k] == x;
                assert(prev[k] == x);
                assert(prev.contains(x));
            }
        }
    }
}

/// A rotation admits at most `max` markets.
pub proof fn law_admission_is_bounded(c: CacheView, listings: Seq<ListingView>, max: nat, now: u64)
    ensures
        admit_spec(c, listings, max, now).1 <= max,
    decreases listings.len(),
{
    if listings.len() > 0 {
        law_admission_is_bounded(c, listings.drop_last(), max, now);
    }
}

} // verus!
