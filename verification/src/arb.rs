//! The negative-risk arbitrage decision: the best asks of all outcomes of a
//! market are summed; a sum below 0.99 is an arbitrage, a sum below the
//! near-miss threshold is flagged as a near miss, and the orders of an
//! arbitrage spend at most 5.00 in all.
use vstd::prelude::*;

use crate::decimal::{
    Dec, MAX_MANTISSA, MAX_SCALE, aligned_total, decimal_checked_add, decimal_checked_div, decimal_checked_mul,
    decimal_checked_sub, exact_sum, exact_sum_fits, lemma_exact_prefix, lemma_max_scale, lemma_pow10_bound,
    lemma_positive_part_all, lemma_positive_part_prefix, lemma_pow10_positive, lemma_scaled_sum_positive, max_scale,
    positive_part, positive_sum_fits, pow10, scaled_sum, ten_to_the, abs, result_bound, within_last_digit,
};
use crate::market::{MarketState, OutcomeQuote, QuoteView, MarketView};
use crate::text::owned;

verus! {

/// Orders are sent only when this is set; otherwise the bot only reports.
pub const LIVE_TRADING_ENABLED: bool = false;

/// An ask sum below 0.99 triggers an arbitrage: the return `1 / sum - 1` is
/// then above one percent, clear of the minimum profit of 50 basis points.
pub open spec fn arbitrage_threshold() -> Dec {
    Dec { mantissa: 99, scale: 2 }
}

/// A market is looked at when its ask sum is below 1.05.
pub open spec fn near_miss_threshold() -> Dec {
    Dec { mantissa: 105, scale: 2 }
}

/// The hypothetical deposit the profit is estimated on: 20.0.
pub open spec fn simulated_balance() -> Dec {
    Dec { mantissa: 200, scale: 1 }
}

/// Near misses with a return on investment at or below -0.05 are not flagged.
pub open spec fn near_miss_roi_floor() -> Dec {
    Dec { mantissa: -5i128, scale: 2 }
}

/// The number one, with scale 0.
pub open spec fn dec_one() -> Dec {
    Dec { mantissa: 1, scale: 0 }
}

/// The number zero, with scale 0.
pub open spec fn dec_zero() -> Dec {
    Dec { mantissa: 0, scale: 0 }
}

/// The liquidity recorded for each outcome of an executable group: 100.0.
pub open spec fn placeholder_liquidity() -> Dec {
    Dec { mantissa: 1000, scale: 1 }
}

/// The most one arbitrage may spend, over all its orders: 5.00.
pub open spec fn max_spend() -> Dec {
    Dec { mantissa: 500, scale: 2 }
}

/// How much of each outcome the bot buys in one arbitrage: 5 shares.
pub open spec fn base_order_size() -> Dec {
    Dec { mantissa: 500, scale: 2 }
}

/// The decision on one market.
#[derive(Debug, Clone, Copy, PartialEq, Eq, Structural)]
pub enum ArbDecision {
    /// Some outcome has no positive ask yet; nothing is flagged.
    Incomplete,
    /// The ask sum is at or above the near-miss threshold: logged as a miss.
    Ignore { sum: Dec },
    /// The ask sum is below 0.99: buying every outcome pays back more than
    /// it costs, by more than the minimum profit. `execute` says whether
    /// orders are to be sent.
    Arbitrage { sum: Dec, profit: Dec, execute: bool },
    /// The ask sum is between 0.99 and the near-miss threshold and the
    /// return is above -0.05: flagged as a near miss.
    NearMiss { sum: Dec, profit: Dec },
    /// The ask sum is between 0.99 and the near-miss threshold but it is
    /// not flagged as a near miss: logged as a miss.
    Unremarkable { sum: Dec, profit: Dec },
}

/// The running result of summing the asks of a market from the left.
pub enum AskScan {
    /// An ask at or below zero was met.
    Incomplete,
    /// All asks are positive; this is their sum.
    Total(Dec),
}

/// Sums the asks from the left, stopping at the first ask at or below zero;
/// `None` where an addition overflows.
pub open spec fn scan_asks(quotes: Seq<QuoteView>) -> Option<AskScan>
    decreases quotes.len(),
{
    if quotes.len() == 0 {
        Some(AskScan::Total(dec_zero()))
    } else {
        match scan_asks(quotes.drop_last()) {
            None => None,
            Some(AskScan::Incomplete) => Some(AskScan::Incomplete),
            Some(AskScan::Total(s)) => if quotes.last().best_ask.le_spec(dec_zero()) {
                Some(AskScan::Incomplete)
            } else {
                match decimal_checked_add(s, quotes.last().best_ask) {
                    None => None,
                    Some(t) => Some(AskScan::Total(t)),
                }
            },
        }
    }
}

/// The decision once the ask sum, the return on investment `1 / sum - 1` and
/// the estimated profit `20.0 * roi` are known.
pub open spec fn classify_spec(sum: Dec, roi: Dec, profit: Dec) -> ArbDecision {
    if sum.lt_spec(arbitrage_threshold()) {
        ArbDecision::Arbitrage { sum, profit, execute: LIVE_TRADING_ENABLED }
    } else if LIVE_TRADING_ENABLED {
        ArbDecision::Unremarkable { sum, profit }
    } else if near_miss_roi_floor().lt_spec(roi) {
        ArbDecision::NearMiss { sum, profit }
    } else {
        ArbDecision::Unremarkable { sum, profit }
    }
}

/// The decision on a market whose positive asks sum to `sum`; `None` where
/// the decimal arithmetic overflows or divides by zero.
pub open spec fn decide_on_sum(sum: Dec) -> Option<ArbDecision> {
    if !sum.lt_spec(near_miss_threshold()) {
        Some(ArbDecision::Ignore { sum })
    } else {
        match decimal_checked_div(dec_one(), sum) {
            None => None,
            Some(q) => match decimal_checked_sub(q, dec_one()) {
                None => None,
                Some(roi) => match decimal_checked_mul(simulated_balance(), roi) {
                    None => None,
                    Some(profit) => Some(classify_spec(sum, roi, profit)),
                },
            },
        }
    }
}

/// The decision on a market with these quotes; `None` where the decimal
/// arithmetic overflows or divides by zero.
pub open spec fn decision_spec(quotes: Seq<QuoteView>) -> Option<ArbDecision> {
    match scan_asks(quotes) {
        None => None,
        Some(AskScan::Incomplete) => Some(ArbDecision::Incomplete),
        Some(AskScan::Total(sum)) => decide_on_sum(sum),
    }
}

/// How a decision is logged, one structured line per decided market: an
/// arbitrage as a win, a near miss as such, and every other market whose
/// asks were all known as a miss.
#[derive(Debug, Clone, Copy, PartialEq, Eq, Structural)]
pub enum DecisionLog {
    Arbitrage { sum: Dec, profit: Dec },
    NearMiss { sum: Dec, profit: Dec },
    Miss { sum: Dec },
}

/// The log line of a decision; none for a market with a missing ask.
pub open spec fn decision_log_spec(d: ArbDecision) -> Option<DecisionLog> {
    match d {
        ArbDecision::Incomplete => None,
        ArbDecision::Ignore { sum } => Some(DecisionLog::Miss { sum }),
        ArbDecision::Arbitrage { sum, profit, execute: _ } => Some(DecisionLog::Arbitrage { sum, profit }),
        ArbDecision::NearMiss { sum, profit } => Some(DecisionLog::NearMiss { sum, profit }),
        ArbDecision::Unremarkable { sum, profit: _ } => Some(DecisionLog::Miss { sum }),
    }
}

/// The log line of a decision: every market whose asks are all known is
/// logged, as a win, a near miss or a miss.
pub fn decision_log(d: ArbDecision) -> (r: Option<DecisionLog>)
    ensures
        r == decision_log_spec(d),
        (r is None) == (d is Incomplete),
        d matches ArbDecision::Ignore { sum } ==> r == Some(DecisionLog::Miss { sum }),
        d matches ArbDecision::Unremarkable { sum, profit: _ } ==> r == Some(DecisionLog::Miss { sum }),
        d matches ArbDecision::NearMiss { sum, profit } ==> r == Some(DecisionLog::NearMiss { sum, profit }),
        d matches ArbDecision::Arbitrage { sum, profit, execute: _ } ==> r == Some(
            DecisionLog::Arbitrage { sum, profit },
        ),
{
    match d {
        ArbDecision::Incomplete => None,
        ArbDecision::Ignore { sum } => Some(DecisionLog::Miss { sum }),
        ArbDecision::Arbitrage { sum, profit, execute: _ } => Some(DecisionLog::Arbitrage { sum, profit }),
        ArbDecision::NearMiss { sum, profit } => Some(DecisionLog::NearMiss { sum, profit }),
        ArbDecision::Unremarkable { sum, profit: _ } => Some(DecisionLog::Miss { sum }),
    }
}

/// The estimated profit `20.0 * (1 / sum - 1)` has the sign of `1 - sum`:
/// not negative below a sum of one, not positive above it, and zero at one.
pub open spec fn profit_sign_matches(sum: Dec, profit: Dec) -> bool {
    &&& sum.lt_spec(dec_one()) ==> profit.mantissa >= 0
    &&& dec_one().lt_spec(sum) ==> profit.mantissa <= 0
    &&& !sum.lt_spec(dec_one()) && !dec_one().lt_spec(sum) ==> profit.mantissa == 0
}

/// `profit` is the simulated balance 20.0 times `q - 1`, rounded to nearest
/// at its own scale, where `roi` is `q - 1` and `q` is `1 / sum`, each
/// rounded to nearest at its own scale as the decimal arithmetic does.
pub open spec fn profit_estimate(sum: Dec, q: Dec, roi: Dec, profit: Dec) -> bool {
    &&& within_last_digit(q, pow10(sum.scale as nat), sum.mantissa as int)
    &&& within_last_digit(roi, q.mantissa - pow10(q.scale as nat), pow10(q.scale as nat))
    &&& within_last_digit(profit, 200 * roi.mantissa, 10 * pow10(roi.scale as nat))
}

/// The best asks of some quotes, in order.
pub open spec fn quote_asks(quotes: Seq<QuoteView>) -> Seq<Dec> {
    quotes.map_values(|q: QuoteView| q.best_ask)
}

/// The decision once the sum, the return on investment and the profit are
/// known: below 0.99 an arbitrage; otherwise, while only reporting, a near
/// miss when the return on investment is above -0.05.
pub fn classify(sum: Dec, roi: Dec, profit: Dec) -> (v: ArbDecision)
    requires
        sum.wf(),
        roi.wf(),
    ensures
        v == classify_spec(sum, roi, profit),
        sum.lt_spec(Dec { mantissa: 99, scale: 2 }) ==> v == (ArbDecision::Arbitrage {
            sum,
            profit,
            execute: LIVE_TRADING_ENABLED,
        }),
        !sum.lt_spec(Dec { mantissa: 99, scale: 2 }) && !LIVE_TRADING_ENABLED && (Dec {
            mantissa: -5i128,
            scale: 2,
        }).lt_spec(roi) ==> v == (ArbDecision::NearMiss { sum, profit }),
        !sum.lt_spec(Dec { mantissa: 99, scale: 2 }) && (LIVE_TRADING_ENABLED || !(Dec {
            mantissa: -5i128,
            scale: 2,
        }).lt_spec(roi)) ==> v == (ArbDecision::Unremarkable { sum, profit }),
{
    if sum.lt(&Dec::new(99, 2)) {
        ArbDecision::Arbitrage { sum, profit, execute: LIVE_TRADING_ENABLED }
    } else if LIVE_TRADING_ENABLED {
        ArbDecision::Unremarkable { sum, profit }
    } else if Dec::new(-5, 2).lt(&roi) {
        ArbDecision::NearMiss { sum, profit }
    } else {
        ArbDecision::Unremarkable { sum, profit }
    }
}


/// Every ask of these quotes is a representable decimal.
pub open spec fn asks_wf(quotes: Seq<QuoteView>) -> bool {
    forall|j: int| 0 <= j < quotes.len() ==> (#[trigger] quotes[j]).best_ask.wf()
}

/// Some ask is at or below zero: the market is not fully priced yet.
pub open spec fn has_unpriced_ask(asks: Seq<Dec>) -> bool {
    exists|j: int| 0 <= j < asks.len() && asks[j].mantissa <= 0
}

/// Sums the asks from the left, stopping at the first ask at or below zero.
/// Where the positive asks have an exact sum that fits, nothing overflows:
/// the result is that exact sum when all asks are positive, and
/// `Incomplete` otherwise.
#[verifier::spinoff_prover]
fn sum_asks(quotes: &Vec<OutcomeQuote>) -> (r: Option<AskScan>)
    requires
        asks_wf(quotes@.map_values(|q: OutcomeQuote| q@)),
    ensures
        r == scan_asks(quotes@.map_values(|q: OutcomeQuote| q@)),
        r matches Some(AskScan::Total(s)) ==> s.wf(),
        quotes@.len() > 0 ==> (r matches Some(AskScan::Total(s)) ==> s.mantissa > 0),
        exact_sum_fits(quote_asks(quotes@.map_values(|q: OutcomeQuote| q@))) ==> r == Some(
            AskScan::Total(exact_sum(quote_asks(quotes@.map_values(|q: OutcomeQuote| q@)))),
        ),
        has_unpriced_ask(quote_asks(quotes@.map_values(|q: OutcomeQuote| q@))) && positive_sum_fits(
            quote_asks(quotes@.map_values(|q: OutcomeQuote| q@)),
        ) ==> r == Some(AskScan::Incomplete),
{
    let ghost qs = quotes@.map_values(|q: OutcomeQuote| q@);
    let ghost asks = quote_asks(qs);
    let ghost pa = positive_part(asks);
    let ghost good = positive_sum_fits(asks);
    proof {
        if exact_sum_fits(asks) {
            lemma_positive_part_all(asks);
        }
    }
    let n = quotes.len();
    let mut sum = Dec::zero();
    let mut i: usize = 0;
    while i < n
        invariant
            n == quotes@.len(),
            qs == quotes@.map_values(|q: OutcomeQuote| q@),
            asks == quote_asks(qs),
            pa == positive_part(asks),
            good == positive_sum_fits(asks),
            exact_sum_fits(asks) ==> good,
            asks_wf(qs),
            i <= n,
            sum.wf(),
            i > 0 ==> sum.mantissa > 0,
            i == 0 ==> sum == dec_zero(),
            scan_asks(qs.take(i as int)) == Some(AskScan::Total(sum)),
            forall|j: int| 0 <= j < i ==> (#[trigger] asks[j]).mantissa > 0,
            good && i == 0 ==> sum == dec_zero(),
            good && i > 0 ==> sum == exact_sum(asks.take(i as int)),
        decreases n - i,
    {
        assert(qs.take(i + 1).drop_last() =~= qs.take(i as int));
        assert(qs.take(i + 1).last() == qs[i as int]);
        let ask = quotes[i].best_ask;
        assert(ask == qs[i as int].best_ask);
        assert(asks[i as int] == ask);
        if ask.le(&Dec::zero()) {
            proof {
                lemma_scan_stays_incomplete(qs, (i + 1) as int);
                assert(qs.take(n as int) =~= qs);
                assert(pow10(0) == 1);
                lemma_pow10_positive(ask.scale as nat);
                assert(ask.mantissa <= 0);
                if exact_sum_fits(asks) {
                    assert(asks[i as int].mantissa > 0);
                    assert(false);
                }
            }
            return Some(AskScan::Incomplete);
        }
        proof {
            assert(pow10(0) == 1);
            lemma_pow10_positive(ask.scale as nat);
            assert(ask.mantissa > 0);
            if good {
                let q = asks.take(i + 1);
                assert forall|j: int| 0 <= j < q.len() implies (#[trigger] q[j]).mantissa > 0 by {
                    assert(q[j] == asks[j]);
                }
                lemma_positive_part_all(q);
                lemma_positive_part_prefix(asks, i + 1);
                assert(pa.take(i + 1) =~= q);
                assert(pa.len() > 0);
                assert(exact_sum_fits(pa));
                if i == 0 {
                    let one = asks.take(1);
                    assert(one.len() == 1 && one.last() == ask);
                    assert(one.drop_last() =~= Seq::<Dec>::empty());
                    assert(max_scale(one.drop_last()) == 0);
                    assert(scaled_sum(one.drop_last(), ask.scale as nat) == 0);
                    assert(max_scale(one) == ask.scale);
                    assert(scaled_sum(one, ask.scale as nat) == ask.mantissa);
                    assert(exact_sum(one) == ask);
                } else {
                    lemma_exact_prefix(pa, i as int);
                    assert(pa.take(i as int) =~= asks.take(i as int));
                    assert(pa[i as int] == q[i as int]);
                    assert(pa.take(i + 1) =~= asks.take(i + 1));
                    let t = aligned_total(sum, ask);
                    assert(t as i128 as int == t);
                }
            }
        }
        match sum.checked_add(&ask) {
            Some(t) => {
                sum = t;
            },
            None => {
                proof {
                    lemma_scan_stays_overflowed(qs, (i + 1) as int);
                    assert(qs.take(n as int) =~= qs);
                }
                return None;
            },
        }
        i = i + 1;
    }
    assert(qs.take(n as int) =~= qs);
    assert(asks.take(n as int) =~= asks);
    Some(AskScan::Total(sum))
}

/// Once an ask at or below zero has been met, longer prefixes stay
/// incomplete.
proof fn lemma_scan_stays_incomplete(qs: Seq<QuoteView>, k: int)
    requires
        0 <= k <= qs.len(),
        scan_asks(qs.take(k)) == Some(AskScan::Incomplete),
    ensures
        scan_asks(qs) == Some(AskScan::Incomplete),
    decreases qs.len() - k,
{
    if k < qs.len() {
        assert(qs.take(k + 1).drop_last() =~= qs.take(k));
        lemma_scan_stays_incomplete(qs, k + 1);
    } else {
        assert(qs.take(k) =~= qs);
    }
}

/// Once an addition has overflowed, longer prefixes stay overflowed.
proof fn lemma_scan_stays_overflowed(qs: Seq<QuoteView>, k: int)
    requires
        0 <= k <= qs.len(),
        scan_asks(qs.take(k)) is None,
    ensures
        scan_asks(qs) is None,
    decreases qs.len() - k,
{
    if k < qs.len() {
        assert(qs.take(k + 1).drop_last() =~= qs.take(k));
        lemma_scan_stays_overflowed(qs, k + 1);
    } else {
        assert(qs.take(k) =~= qs);
    }
}

/// The decision on a market: `None` where the decimal arithmetic would
/// overflow or divide by zero (a market without outcomes sums to zero).
/// Where all asks are positive and their exact sum fits, the sum is that
/// exact sum, whatever the scales of the asks, and the market is an
/// arbitrage exactly when the sum is below 0.99. Where some ask is at or
/// below zero and the positive asks' exact sum fits, the market is
/// `Incomplete`, whatever the order of its outcomes. A market whose asks are
/// all positive and sum exactly to at least 0.0001 always gets a decision.
#[verifier::spinoff_prover]
pub fn check_arb(state: &MarketState) -> (v: Option<ArbDecision>)
    requires
        asks_wf(state@.quotes),
    ensures
        v == decision_spec(state@.quotes),
        exact_sum_fits(quote_asks(state@.quotes)) ==> scan_asks(state@.quotes) == Some(
            AskScan::Total(exact_sum(quote_asks(state@.quotes))),
        ),
        exact_sum_fits(quote_asks(state@.quotes)) ==> v == decide_on_sum(exact_sum(quote_asks(state@.quotes))),
        exact_sum_fits(quote_asks(state@.quotes)) ==> (v matches Some(d) ==> (d is Arbitrage <==> 100 * scaled_sum(
            quote_asks(state@.quotes),
            max_scale(quote_asks(state@.quotes)) as nat,
        ) < 99 * pow10(max_scale(quote_asks(state@.quotes)) as nat))),
        has_unpriced_ask(quote_asks(state@.quotes)) && positive_sum_fits(quote_asks(state@.quotes)) ==> v == Some(
            ArbDecision::Incomplete,
        ),
        exact_sum_fits(quote_asks(state@.quotes)) && 10000 * scaled_sum(
            quote_asks(state@.quotes),
            max_scale(quote_asks(state@.quotes)) as nat,
        ) >= pow10(max_scale(quote_asks(state@.quotes)) as nat) ==> v is Some,
        v matches Some(ArbDecision::Arbitrage { sum, profit, execute: _ }) ==> profit_sign_matches(sum, profit),
        v matches Some(ArbDecision::Arbitrage { sum, profit, execute: _ }) ==> exists|q: Dec, roi: Dec|
            #[trigger] profit_estimate(sum, q, roi, profit),
        v matches Some(ArbDecision::NearMiss { sum, profit }) ==> exists|q: Dec, roi: Dec|
            #[trigger] profit_estimate(sum, q, roi, profit),
        v matches Some(ArbDecision::Unremarkable { sum, profit }) ==> exists|q: Dec, roi: Dec|
            #[trigger] profit_estimate(sum, q, roi, profit),
        v matches Some(ArbDecision::Ignore { sum }) ==> !sum.lt_spec(Dec { mantissa: 105, scale: 2 }),
        v matches Some(ArbDecision::Arbitrage { sum, profit: _, execute }) ==> sum.lt_spec(
            Dec { mantissa: 99, scale: 2 },
        ) && execute == LIVE_TRADING_ENABLED,
        v matches Some(ArbDecision::NearMiss { sum, profit: _ }) ==> !sum.lt_spec(Dec { mantissa: 99, scale: 2 })
            && sum.lt_spec(Dec { mantissa: 105, scale: 2 }),
        v matches Some(ArbDecision::Unremarkable { sum, profit: _ }) ==> !sum.lt_spec(Dec { mantissa: 99, scale: 2 })
            && sum.lt_spec(Dec { mantissa: 105, scale: 2 }),
        v matches Some(ArbDecision::NearMiss { sum, profit }) ==> profit_sign_matches(sum, profit),
        v matches Some(ArbDecision::Unremarkable { sum, profit }) ==> profit_sign_matches(sum, profit),
{
    proof {
        assert(state@.quotes =~= state.outcomes@.map_values(|q: OutcomeQuote| q@));
    }
    let sum = match sum_asks(&state.outcomes) {
        None => return None,
        Some(AskScan::Incomplete) => return Some(ArbDecision::Incomplete),
        Some(AskScan::Total(s)) => s,
    };
    proof {
        if exact_sum_fits(quote_asks(state@.quotes)) {
            crate::laws::law_arbitrage_iff_exact_sum_below_threshold(quote_asks(state@.quotes));
        }
    }
    if !sum.lt(&Dec::new(105, 2)) {
        return Some(ArbDecision::Ignore { sum });
    }
    let ghost priced = exact_sum_fits(quote_asks(state@.quotes)) && 10000 * sum.mantissa >= pow10(sum.scale as nat);
    proof {
        if priced {
            lemma_max_scale(quote_asks(state@.quotes));
            lemma_scaled_sum_positive(quote_asks(state@.quotes), sum.scale as nat);
            lemma_pow10_positive(sum.scale as nat);
            assert(pow10(0) == 1);
            let t = sum.mantissa as int;
            let u = pow10(sum.scale as nat);
            assert(abs(1 * u) < result_bound() * abs(t * 1)) by (nonlinear_arith)
                requires
                    t > 0,
                    u > 0,
                    10000 * t >= u,
            ;
        }
    }
    let q = match Dec::one().checked_div(&sum) {
        Some(q) => q,
        None => return None,
    };
    proof {
        if priced {
            lemma_pow10_positive(q.scale as nat);
            let t = sum.mantissa as int;
            let u = pow10(sum.scale as nat);
            let p = pow10(q.scale as nat);
            let m = q.mantissa as int;
            assert(abs(m * (t * 1) - (1 * u) * p) <= p * abs(t * 1));
            assert(-p <= m && m <= 10001 * p) by (nonlinear_arith)
                requires
                    t > 0,
                    p > 0,
                    u > 0,
                    10000 * t >= u,
                    abs(m * (t * 1) - (1 * u) * p) <= p * abs(t * 1),
            ;
            assert(abs(m * 1 - 1 * p) < result_bound() * (p * 1)) by (nonlinear_arith)
                requires
                    p > 0,
                    -p <= m <= 10001 * p,
            ;
        }
    }
    proof {
        assert(state.outcomes@.len() > 0) by {
            if state.outcomes@.len() == 0 {
                assert(sum == dec_zero());
            }
        }
        lemma_pow10_positive(q.scale as nat);
        lemma_pow10_positive(sum.scale as nat);
        assert(pow10(0) == 1);
        let t = sum.mantissa as int;
        let u = pow10(sum.scale as nat);
        let p = pow10(q.scale as nat);
        let m = q.mantissa as int;
        assert(abs(m * (t * 1) - (1 * u) * p) < abs(t * 1));
        assert(t < u ==> m >= p) by (nonlinear_arith)
            requires
                t > 0,
                p > 0,
                abs(m * (t * 1) - (1 * u) * p) < abs(t * 1),
        ;
        assert(t > u ==> m <= p) by (nonlinear_arith)
            requires
                t > 0,
                p > 0,
                abs(m * (t * 1) - (1 * u) * p) < abs(t * 1),
        ;
        assert(t == u ==> m == p) by (nonlinear_arith)
            requires
                t > 0,
                p > 0,
                abs(m * (t * 1) - (1 * u) * p) < abs(t * 1),
        ;
        assert(sum.lt_spec(dec_one()) == (t < u));
        assert(dec_one().lt_spec(sum) == (u < t));
    }
    let roi = match q.checked_sub(&Dec::one()) {
        Some(r) => r,
        None => return None,
    };
    proof {
        lemma_pow10_positive(q.scale as nat);
        lemma_pow10_positive(roi.scale as nat);
        assert(pow10(0) == 1);
        let p = pow10(q.scale as nat);
        let w = pow10(roi.scale as nat);
        let m = q.mantissa as int;
        let x = roi.mantissa as int;
        assert(abs(x * (p * 1) - (m * 1 - 1 * p) * w) < abs(p * 1));
        assert(m >= p ==> x >= 0) by (nonlinear_arith)
            requires
                p > 0,
                w > 0,
                abs(x * (p * 1) - (m * 1 - 1 * p) * w) < abs(p * 1),
        ;
        assert(m <= p ==> x <= 0) by (nonlinear_arith)
            requires
                p > 0,
                w > 0,
                abs(x * (p * 1) - (m * 1 - 1 * p) * w) < abs(p * 1),
        ;
    }
    proof {
        if priced {
            lemma_pow10_positive(q.scale as nat);
            lemma_pow10_positive(roi.scale as nat);
            assert(pow10(1) == 10) by {
                reveal_with_fuel(pow10, 2);
            }
            let p = pow10(q.scale as nat);
            let w = pow10(roi.scale as nat);
            let m = q.mantissa as int;
            let x = roi.mantissa as int;
            assert(abs(x * (p * 1) - (m * 1 - 1 * p) * w) <= w * abs(p * 1));
            assert(abs(200 * x) < result_bound() * (10 * w)) by (nonlinear_arith)
                requires
                    p > 0,
                    w > 0,
                    -p <= m <= 10001 * p,
                    abs(x * (p * 1) - (m * 1 - 1 * p) * w) <= w * abs(p * 1),
            ;
        }
    }
    let profit = match Dec::new(200, 1).checked_mul(&roi) {
        Some(p) => p,
        None => return None,
    };
    proof {
        lemma_pow10_positive(roi.scale as nat);
        lemma_pow10_positive(profit.scale as nat);
        assert(pow10(1) == 10) by {
            reveal_with_fuel(pow10, 2);
        }
        let w = pow10(roi.scale as nat);
        let z = pow10(profit.scale as nat);
        let x = roi.mantissa as int;
        let y = profit.mantissa as int;
        assert(abs(y * (10 * w) - (200 * x) * z) < abs(10 * w));
        assert(x >= 0 ==> y >= 0) by (nonlinear_arith)
            requires
                w > 0,
                z > 0,
                abs(y * (10 * w) - (200 * x) * z) < abs(10 * w),
        ;
        assert(x <= 0 ==> y <= 0) by (nonlinear_arith)
            requires
                w > 0,
                z > 0,
                abs(y * (10 * w) - (200 * x) * z) < abs(10 * w),
        ;
    }
    proof {
        assert(pow10(0) == 1);
        assert(within_last_digit(q, 1 * pow10(sum.scale as nat), sum.mantissa * 1));
        assert(within_last_digit(roi, q.mantissa * 1 - 1 * pow10(q.scale as nat), pow10(q.scale as nat) * 1));
        assert(pow10(1) == 10) by {
            reveal_with_fuel(pow10, 2);
        }
        assert(within_last_digit(profit, 200 * roi.mantissa, 10 * pow10(roi.scale as nat)));
        assert(profit_estimate(sum, q, roi, profit));
        assert(exists|q2: Dec, r2: Dec| #[trigger] profit_estimate(sum, q2, r2, profit));
    }
    let d = classify(sum, roi, profit);
    assert(d matches ArbDecision::Arbitrage { sum: s2, profit: p2, execute: _ } ==> s2 == sum && p2 == profit);
    assert(d matches ArbDecision::NearMiss { sum: s2, profit: p2 } ==> s2 == sum && p2 == profit);
    assert(d matches ArbDecision::Unremarkable { sum: s2, profit: p2 } ==> s2 == sum && p2 == profit);
    Some(d)
}

/// One outcome of a market group handed to order execution.
#[derive(Debug, Clone)]
pub struct Outcome {
    pub token_id: String,
    pub name: String,
    pub best_ask: Dec,
    pub liquidity: Dec,
}

/// A market and its outcomes, as handed to order execution.
#[derive(Debug, Clone)]
pub struct MarketGroup {
    pub condition_id: String,
    pub outcomes: Vec<Outcome>,
}

/// The outcome handed to execution for one quote: named "Unknown", with
/// the placeholder liquidity 100.0.
pub open spec fn outcome_for(q: QuoteView, o: Outcome) -> bool {
    &&& o.token_id@ == q.asset_id
    &&& o.name@ == "Unknown"@
    &&& o.best_ask == q.best_ask
    &&& o.liquidity == placeholder_liquidity()
}

/// The group of a market that is handed to execution on an arbitrage.
pub fn market_group(state: &MarketState) -> (g: MarketGroup)
    ensures
        g.condition_id@ == state@.condition_id,
        g.outcomes@.len() == state@.quotes.len(),
        forall|j: int| 0 <= j < g.outcomes@.len() ==> outcome_for(state@.quotes[j], #[trigger] g.outcomes@[j]),
{
    let mut outcomes: Vec<Outcome> = Vec::new();
    let n = state.outcomes.len();
    let mut i: usize = 0;
    while i < n
        invariant
            n == state.outcomes@.len(),
            i <= n,
            outcomes@.len() == i,
            forall|j: int| 0 <= j < i ==> outcome_for(state@.quotes[j], #[trigger] outcomes@[j]),
        decreases n - i,
    {
        let q = &state.outcomes[i];
        outcomes.push(Outcome {
            token_id: q.asset_id.clone(),
            name: owned("Unknown"),
            best_ask: q.best_ask,
            liquidity: Dec::new(1000, 1),
        });
        i = i + 1;
    }
    MarketGroup { condition_id: state.condition_id.clone(), outcomes }
}

/// One buy order of an arbitrage: fill-or-kill at the outcome's best ask.
#[derive(Debug, Clone)]
pub struct OrderPlan {
    pub token_id: String,
    pub price: Dec,
    pub size: Dec,
}

/// The best asks of the outcomes of a group, in order.
pub open spec fn group_asks(outcomes: Seq<Outcome>) -> Seq<Dec> {
    outcomes.map_values(|o: Outcome| o.best_ask)
}

/// What one share of each outcome costs, as a mantissa at scale `s` (at
/// least each ask's scale): the sum of the positive asks, an ask at or
/// below zero counting as free.
pub open spec fn paid_sum(asks: Seq<Dec>, s: nat) -> int
    decreases asks.len(),
{
    if asks.len() == 0 {
        0
    } else {
        paid_sum(asks.drop_last(), s) + if asks.last().mantissa > 0 {
            asks.last().mantissa * pow10((s - asks.last().scale) as nat)
        } else {
            0
        }
    }
}

/// The size bought of every outcome, in hundredths of a share: the bot's
/// 5 shares, reduced only where 5 shares of each would cost more than
/// `max_spend()` (5.00), to the largest whole number of hundredths that does
/// not. With one share of each costing `total / 10^s`, that is
/// `min(500, floor(500 * 10^s / total))`.
pub open spec fn order_size_hundredths(asks: Seq<Dec>) -> int {
    let sc = max_scale(asks) as nat;
    let total = paid_sum(asks, sc);
    if total <= pow10(sc) {
        base_order_size().mantissa as int
    } else {
        (max_spend().mantissa * pow10(sc)) / total
    }
}

/// What some orders cost, as a mantissa at scale `s + 2` where every price
/// has scale `s` or below and every size has scale 2.
pub open spec fn orders_cost(orders: Seq<OrderPlan>, s: nat) -> int
    decreases orders.len(),
{
    if orders.len() == 0 {
        0
    } else {
        orders_cost(orders.drop_last(), s) + orders.last().price.mantissa * pow10(
            (s - orders.last().price.scale) as nat,
        ) * orders.last().size.mantissa
    }
}

/// Orders at these asks, each of `k` hundredths of a share, cost `k` times
/// the asks' sum.
proof fn lemma_orders_cost(orders: Seq<OrderPlan>, asks: Seq<Dec>, k: int, s: nat)
    requires
        orders.len() == asks.len(),
        forall|j: int| 0 <= j < orders.len() ==> (#[trigger] orders[j]).price == asks[j] && orders[j].size.mantissa == k,
    ensures
        orders_cost(orders, s) == k * scaled_sum(asks, s),
    decreases orders.len(),
{
    if orders.len() > 0 {
        let po = orders.drop_last();
        let pa = asks.drop_last();
        assert forall|j: int| 0 <= j < po.len() implies (#[trigger] po[j]).price == pa[j] && po[j].size.mantissa == k by {
            assert(po[j] == orders[j]);
            assert(pa[j] == asks[j]);
        }
        lemma_orders_cost(po, pa, k, s);
        let x = asks.last().mantissa * pow10((s - asks.last().scale) as nat);
        assert(orders.last().price == asks.last());
        let c = scaled_sum(pa, s);
        assert(k * c + x * k == k * (c + x)) by (nonlinear_arith);
    }
}

/// What is paid is never negative and never less than the plain sum of the
/// asks, and a prefix pays no more than the whole.
proof fn lemma_paid_sum(asks: Seq<Dec>, s: nat)
    requires
        forall|j: int| 0 <= j < asks.len() ==> (#[trigger] asks[j]).scale <= s,
    ensures
        paid_sum(asks, s) >= 0,
        scaled_sum(asks, s) <= paid_sum(asks, s),
        forall|i: int| 0 <= i <= asks.len() ==> #[trigger] paid_sum(asks.take(i), s) <= paid_sum(asks, s),
    decreases asks.len(),
{
    if asks.len() > 0 {
        let p = asks.drop_last();
        assert forall|j: int| 0 <= j < p.len() implies (#[trigger] p[j]).scale <= s by {
            assert(p[j] == asks[j]);
        }
        lemma_paid_sum(p, s);
        let x = asks.last();
        let f = pow10((s - x.scale) as nat);
        lemma_pow10_positive((s - x.scale) as nat);
        assert(x.mantissa > 0 ==> x.mantissa * f > 0) by (nonlinear_arith)
            requires
                f > 0,
        ;
        assert(x.mantissa <= 0 ==> x.mantissa * f <= 0) by (nonlinear_arith)
            requires
                f > 0,
        ;
        assert forall|i: int| 0 <= i <= asks.len() implies #[trigger] paid_sum(asks.take(i), s) <= paid_sum(asks, s) by {
            if i < asks.len() {
                assert(asks.take(i) =~= p.take(i));
                assert(paid_sum(p.take(i), s) <= paid_sum(p, s));
            } else {
                assert(asks.take(i) =~= asks);
            }
        }
    } else {
        assert forall|i: int| 0 <= i <= asks.len() implies #[trigger] paid_sum(asks.take(i), s) <= paid_sum(asks, s) by {
            assert(asks.take(i) =~= asks);
        }
    }
}

/// What one share of each outcome of a group costs, at scale `sc`; `None`
/// where that exceeds what an `i128` holds.
fn paid_total(group: &MarketGroup, sc: u32) -> (r: Option<i128>)
    requires
        sc <= MAX_SCALE,
        forall|j: int| 0 <= j < group.outcomes@.len() ==> (#[trigger] group_asks(group.outcomes@)[j]).scale <= sc,
    ensures
        r matches Some(t) ==> t == paid_sum(group_asks(group.outcomes@), sc as nat),
        r is None ==> paid_sum(group_asks(group.outcomes@), sc as nat) > i128::MAX,
{
    let ghost asks = group_asks(group.outcomes@);
    let n = group.outcomes.len();
    let mut total: i128 = 0;
    let mut i: usize = 0;
    proof {
        lemma_paid_sum(asks, sc as nat);
    }
    while i < n
        invariant
            n == group.outcomes@.len(),
            asks == group_asks(group.outcomes@),
            sc <= MAX_SCALE,
            forall|j: int| 0 <= j < n ==> (#[trigger] asks[j]).scale <= sc,
            forall|i: int| 0 <= i <= asks.len() ==> #[trigger] paid_sum(asks.take(i), sc as nat) <= paid_sum(asks, sc as nat),
            i <= n,
            total == paid_sum(asks.take(i as int), sc as nat),
            total >= 0,
        decreases n - i,
    {
        let a = group.outcomes[i].best_ask;
        assert(asks[i as int] == a);
        let ghost p = asks.take(i + 1);
        assert(p.drop_last() =~= asks.take(i as int));
        assert(p.last() == a);
        if a.mantissa > 0 {
            proof {
                lemma_pow10_bound(0, (sc - a.scale) as nat);
            }
            let f = ten_to_the(sc - a.scale);
            let term = match a.mantissa.checked_mul(f) {
                Some(t) => t,
                None => {
                    assert(paid_sum(p, sc as nat) >= a.mantissa * f);
                    return None;
                },
            };
            total = match total.checked_add(term) {
                Some(t) => t,
                None => return None,
            };
        }
        i = i + 1;
    }
    assert(asks.take(n as int) =~= asks);
    Some(total)
}

/// The orders of an arbitrage: for each outcome, in order, a fill-or-kill
/// buy at its best ask, all of the same size: the bot's 5 shares, reduced
/// only where 5 shares of each would together cost more than `max_spend()`
/// (5.00), to the largest whole number of hundredths of a share that does
/// not. Whatever the asks, the orders never cost more than 5.00 in all.
#[verifier::spinoff_prover]
pub fn plan_orders(group: &MarketGroup) -> (orders: Vec<OrderPlan>)
    requires
        forall|j: int| 0 <= j < group.outcomes@.len() ==> (#[trigger] group.outcomes@[j]).best_ask.wf(),
    ensures
        orders@.len() == group.outcomes@.len(),
        forall|j: int|
            0 <= j < orders@.len() ==> {
                &&& (#[trigger] orders@[j]).token_id@ == group.outcomes@[j].token_id@
                &&& orders@[j].price == group.outcomes@[j].best_ask
                &&& orders@[j].size == Dec {
                    mantissa: order_size_hundredths(group_asks(group.outcomes@)) as i128,
                    scale: 2,
                }
            },
        0 <= order_size_hundredths(group_asks(group.outcomes@)) <= base_order_size().mantissa,
        orders_cost(orders@, max_scale(group_asks(group.outcomes@)) as nat) <= max_spend().mantissa * pow10(
            max_scale(group_asks(group.outcomes@)) as nat,
        ),
        order_size_hundredths(group_asks(group.outcomes@)) < base_order_size().mantissa ==> (
        order_size_hundredths(group_asks(group.outcomes@)) + 1) * paid_sum(
            group_asks(group.outcomes@),
            max_scale(group_asks(group.outcomes@)) as nat,
        ) > max_spend().mantissa * pow10(max_scale(group_asks(group.outcomes@)) as nat),
{
    let ghost asks = group_asks(group.outcomes@);
    let n = group.outcomes.len();
    let mut sc: u32 = 0;
    let mut i: usize = 0;
    while i < n
        invariant
            n == group.outcomes@.len(),
            asks == group_asks(group.outcomes@),
            forall|j: int| 0 <= j < n ==> (#[trigger] group.outcomes@[j]).best_ask.wf(),
            i <= n,
            sc == max_scale(asks.take(i as int)),
            sc <= MAX_SCALE,
        decreases n - i,
    {
        let a = group.outcomes[i].best_ask;
        assert(asks[i as int] == a);
        assert(asks.take(i + 1).drop_last() =~= asks.take(i as int));
        if a.scale > sc {
            sc = a.scale;
        }
        i = i + 1;
    }
    assert(asks.take(n as int) =~= asks);
    proof {
        lemma_max_scale(asks);
        lemma_paid_sum(asks, sc as nat);
        lemma_pow10_bound(sc as nat, sc as nat);
    }
    let unit = ten_to_the(sc);
    let budget: i128 = 500 * unit;
    let k: i128 = match paid_total(group, sc) {
        None => {
            proof {
                let t = paid_sum(asks, sc as nat);
                let b = budget as int;
                assert(b / t == 0) by (nonlinear_arith)
                    requires
                        0 <= b < t,
                ;
            }
            0
        },
        Some(total) => {
            if total <= unit {
                500
            } else {
                let q: u128 = (budget as u128) / (total as u128);
                q as i128
            }
        },
    };
    assert(k == order_size_hundredths(asks));
    proof {
        let t = paid_sum(asks, sc as nat);
        let b = budget as int;
        if t > unit {
            assert(0 <= k && k * t <= b && b < (k + 1) * t) by (nonlinear_arith)
                requires
                    t > 0,
                    b >= 0,
                    k == b / t,
            ;
            assert(k < 500) by (nonlinear_arith)
                requires
                    t > unit,
                    unit > 0,
                    b == 500 * unit,
                    k * t <= b,
                    k >= 0,
            ;
        }
    }
    let mut orders: Vec<OrderPlan> = Vec::new();
    let mut i: usize = 0;
    while i < n
        invariant
            n == group.outcomes@.len(),
            asks == group_asks(group.outcomes@),
            k == order_size_hundredths(asks),
            i <= n,
            orders@.len() == i,
            forall|j: int|
                0 <= j < i ==> {
                    &&& (#[trigger] orders@[j]).token_id@ == group.outcomes@[j].token_id@
                    &&& orders@[j].price == group.outcomes@[j].best_ask
                    &&& orders@[j].size == Dec { mantissa: k, scale: 2 }
                },
        decreases n - i,
    {
        let o = &group.outcomes[i];
        orders.push(OrderPlan { token_id: o.token_id.clone(), price: o.best_ask, size: Dec::new(k, 2) });
        i = i + 1;
    }
    proof {
        assert forall|j: int| 0 <= j < orders@.len() implies (#[trigger] orders@[j]).price == asks[j]
            && orders@[j].size.mantissa == k by {}
        lemma_orders_cost(orders@, asks, k as int, sc as nat);
        let t = paid_sum(asks, sc as nat);
        let plain = scaled_sum(asks, sc as nat);
        let kk = k as int;
        assert(kk * plain <= kk * t) by (nonlinear_arith)
            requires
                kk >= 0,
                plain <= t,
        ;
        if t <= unit {
            assert(kk * t <= 500 * unit) by (nonlinear_arith)
                requires
                    kk == 500,
                    t <= unit,
            ;
        }
    }
    orders
}

/// The price at which filled positions are dumped: 0.01, the lowest price
/// the exchange takes, so that a fill-or-kill sell meets the best bids.
pub open spec fn dump_price() -> Dec {
    Dec { mantissa: 1, scale: 2 }
}

/// Some order of the batch did not fill.
pub open spec fn batch_failed(filled: Seq<bool>) -> bool {
    exists|j: int| 0 <= j < filled.len() && !filled[j]
}

/// The token and size of each filled order, in order.
pub open spec fn filled_positions(orders: Seq<OrderPlan>, filled: Seq<bool>) -> Seq<(Seq<char>, Dec)>
    decreases orders.len(),
{
    if orders.len() == 0 || filled.len() == 0 {
        Seq::empty()
    } else {
        let p = filled_positions(orders.drop_last(), filled.drop_last());
        if filled.last() {
            p.push((orders.last().token_id@, orders.last().size))
        } else {
            p
        }
    }
}

/// The positions a batch holds are exactly those of its filled orders:
/// every filled order's token and size is among them, each of them is a
/// filled order's, and there are as many as there are filled orders.
pub proof fn law_filled_positions_are_the_filled_orders(orders: Seq<OrderPlan>, filled: Seq<bool>)
    requires
        orders.len() == filled.len(),
    ensures
        forall|j: int|
            0 <= j < orders.len() && filled[j] ==> #[trigger] filled_positions(orders, filled).contains(
                (orders[j].token_id@, orders[j].size),
            ),
        forall|x: (Seq<char>, Dec)|
            #[trigger] filled_positions(orders, filled).contains(x) ==> exists|j: int|
                0 <= j < orders.len() && filled[j] && x == (orders[j].token_id@, orders[j].size),
        filled_positions(orders, filled).len() == filled.filter(|b: bool| b).len(),
    decreases orders.len(),
{
    reveal_with_fuel(Seq::filter, 2);
    if orders.len() > 0 {
        let po = orders.drop_last();
        let pf = filled.drop_last();
        law_filled_positions_are_the_filled_orders(po, pf);
        let p = filled_positions(po, pf);
        let n = orders.len() - 1;
        assert(filled.drop_last() == pf);
        assert forall|j: int|
            0 <= j < orders.len() && filled[j] implies #[trigger] filled_positions(orders, filled).contains(
                (orders[j].token_id@, orders[j].size),
            ) by {
            if j < n {
                assert(po[j] == orders[j] && pf[j] == filled[j]);
                assert(p.contains((po[j].token_id@, po[j].size)));
                if filled.last() {
                    let k = choose|k: int| 0 <= k < p.len() && p[k] == (po[j].token_id@, po[j].size);
                    assert(filled_positions(orders, filled)[k] == p[k]);
                }
            } else {
                assert(filled_positions(orders, filled)[p.len() as int] == (orders[j].token_id@, orders[j].size));
            }
        }
        assert forall|x: (Seq<char>, Dec)| #[trigger] filled_positions(orders, filled).contains(x) implies exists|j: int|
            0 <= j < orders.len() && filled[j] && x == (orders[j].token_id@, orders[j].size) by {
            let r = filled_positions(orders, filled);
            let k = choose|k: int| 0 <= k < r.len() && r[k] == x;
            if k < p.len() {
                assert(r[k] == p[k]);
                assert(p.contains(x));
                let j = choose|j: int| 0 <= j < po.len() && pf[j] && x == (po[j].token_id@, po[j].size);
                assert(orders[j] == po[j] && filled[j] == pf[j]);
            } else {
                assert(filled.last());
                assert(x == (orders[n].token_id@, orders[n].size));
                assert(filled[n]);
            }
        }
    }
}

/// The token and size of each order.
pub open spec fn order_positions(orders: Seq<OrderPlan>) -> Seq<(Seq<char>, Dec)> {
    orders.map_values(|o: OrderPlan| (o.token_id@, o.size))
}

/// The fail-safe after a batch: when any order of the batch did not fill,
/// a sell at `dump_price()` of every position that did, in order, to exit
/// the risk even at a loss; when all filled, nothing.
pub fn unwind_orders(orders: &Vec<OrderPlan>, filled: &Vec<bool>) -> (dumps: Vec<OrderPlan>)
    requires
        orders@.len() == filled@.len(),
    ensures
        order_positions(dumps@) == (if batch_failed(filled@) {
            filled_positions(orders@, filled@)
        } else {
            Seq::empty()
        }),
        forall|j: int| 0 <= j < dumps@.len() ==> (#[trigger] dumps@[j]).price == dump_price(),
        (exists|j: int| 0 <= j < filled@.len() && !filled@[j]) ==> order_positions(dumps@) == filled_positions(
            orders@,
            filled@,
        ),
        (forall|j: int| 0 <= j < filled@.len() ==> filled@[j]) ==> dumps@.len() == 0,
{
    let n = orders.len();
    let mut failed = false;
    let mut i: usize = 0;
    while i < n
        invariant
            n == orders@.len(),
            n == filled@.len(),
            i <= n,
            failed <==> exists|j: int| 0 <= j < i && !filled@[j],
        decreases n - i,
    {
        if !filled[i] {
            failed = true;
        }
        i = i + 1;
    }
    let mut dumps: Vec<OrderPlan> = Vec::new();
    if !failed {
        assert(order_positions(dumps@) =~= Seq::<(Seq<char>, Dec)>::empty());
        return dumps;
    }
    let mut i: usize = 0;
    while i < n
        invariant
            n == orders@.len(),
            n == filled@.len(),
            i <= n,
            order_positions(dumps@) == filled_positions(orders@.take(i as int), filled@.take(i as int)),
            forall|j: int| 0 <= j < dumps@.len() ==> (#[trigger] dumps@[j]).price == dump_price(),
        decreases n - i,
    {
        assert(orders@.take(i + 1).drop_last() =~= orders@.take(i as int));
        assert(filled@.take(i + 1).drop_last() =~= filled@.take(i as int));
        assert(orders@.take(i + 1).last() == orders@[i as int]);
        assert(filled@.take(i + 1).last() == filled@[i as int]);
        if filled[i] {
            let o = &orders[i];
            let ghost before = dumps@;
            dumps.push(OrderPlan { token_id: o.token_id.clone(), price: Dec::new(1, 2), size: o.size });
            assert(order_positions(dumps@) =~= order_positions(before).push((o.token_id@, o.size)));
        }
        i = i + 1;
    }
    assert(orders@.take(n as int) =~= orders@);
    assert(filled@.take(n as int) =~= filled@);
    dumps
}

} // verus!
