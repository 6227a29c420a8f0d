//! The order-book cache: for each tracked market (condition) the best ask of
//! each of its outcome tokens and the time of its last update, plus the
//! reverse index from token to market.
use vstd::prelude::*;
use vstd::set_lib::{lemma_int_range, lemma_len_subset, set_int_range};

use crate::decimal::{Dec, decimal_parse};
use crate::text::owned;
use crate::websocket::PriceChange;

verus! {

/// The best ask known for one outcome token.
#[derive(Debug)]
pub struct OutcomeQuote {
    pub asset_id: String,
    pub best_ask: Dec,
}

/// The cached state of one market (one condition and its outcome tokens).
#[derive(Debug)]
pub struct MarketState {
    pub condition_id: String,
    pub outcomes: Vec<OutcomeQuote>,
    /// Seconds since the Unix epoch of the last price update.
    pub last_update_ts: u64,
}

/// A token and the market it belongs to.
#[derive(Debug)]
pub struct AssetLink {
    pub asset_id: String,
    pub condition_id: String,
}

/// The abstract value of an `OutcomeQuote`.
pub struct QuoteView {
    pub asset_id: Seq<char>,
    pub best_ask: Dec,
}

/// The abstract value of a `MarketState`.
pub struct MarketView {
    pub condition_id: Seq<char>,
    pub quotes: Seq<QuoteView>,
    pub last_update_ts: u64,
}

/// The abstract value of an `AssetLink`.
pub struct LinkView {
    pub asset_id: Seq<char>,
    pub condition_id: Seq<char>,
}

impl View for OutcomeQuote {
    type V = QuoteView;

    open spec fn view(&self) -> QuoteView {
        QuoteView { asset_id: self.asset_id@, best_ask: self.best_ask }
    }
}

impl View for MarketState {
    type V = MarketView;

    open spec fn view(&self) -> MarketView {
        MarketView {
            condition_id: self.condition_id@,
            quotes: self.outcomes@.map_values(|q: OutcomeQuote| q@),
            last_update_ts: self.last_update_ts,
        }
    }
}

impl View for AssetLink {
    type V = LinkView;

    open spec fn view(&self) -> LinkView {
        LinkView { asset_id: self.asset_id@, condition_id: self.condition_id@ }
    }
}

/// The position of `key` in `keys`, when it occurs.
pub open spec fn key_index(keys: Seq<Seq<char>>, key: Seq<char>) -> Option<int> {
    if keys.contains(key) {
        Some(choose|i: int| 0 <= i < keys.len() && keys[i] == key)
    } else {
        None
    }
}

/// In a sequence without duplicates, the position of a key is the one where
/// it stands.
pub proof fn lemma_key_index_unique(keys: Seq<Seq<char>>, key: Seq<char>, i: int)
    requires
        keys.no_duplicates(),
        0 <= i < keys.len(),
        keys[i] == key,
    ensures
        key_index(keys, key) == Some(i),
{
    assert(keys.contains(key));
    let j = choose|j: int| 0 <= j < keys.len() && keys[j] == key;
    assert(keys[j] == key);
}

/// The token ids of some quotes.
pub open spec fn quote_assets(quotes: Seq<QuoteView>) -> Seq<Seq<char>> {
    quotes.map_values(|q: QuoteView| q.asset_id)
}

/// The condition ids of some markets.
pub open spec fn market_ids(markets: Seq<MarketView>) -> Seq<Seq<char>> {
    markets.map_values(|m: MarketView| m.condition_id)
}

/// The token ids of some links.
pub open spec fn link_assets(links: Seq<LinkView>) -> Seq<Seq<char>> {
    links.map_values(|l: LinkView| l.asset_id)
}

impl MarketView {
    /// No token occurs twice and every ask is a representable decimal.
    pub open spec fn wf(self) -> bool {
        &&& quote_assets(self.quotes).no_duplicates()
        &&& forall|j: int| 0 <= j < self.quotes.len() ==> (#[trigger] self.quotes[j]).best_ask.wf()
    }
}

/// The order-book cache: tracked markets in the order they were first
/// tracked, and the index from token to market.
pub struct MarketCache {
    markets: Vec<MarketState>,
    links: Vec<AssetLink>,
}

/// The abstract value of a `MarketCache`.
pub struct CacheView {
    pub markets: Seq<MarketView>,
    pub links: Seq<LinkView>,
}

impl View for MarketCache {
    type V = CacheView;

    closed spec fn view(&self) -> CacheView {
        CacheView { markets: market_views(self.markets@), links: link_views(self.links@) }
    }
}

/// The views of some market states.
pub open spec fn market_views(v: Seq<MarketState>) -> Seq<MarketView> {
    v.map_values(|m: MarketState| m@)
}

/// The views of some links.
pub open spec fn link_views(v: Seq<AssetLink>) -> Seq<LinkView> {
    v.map_values(|l: AssetLink| l@)
}

impl CacheView {
    /// No market and no token is tracked twice, and every market is
    /// well formed.
    pub open spec fn wf(self) -> bool {
        &&& market_ids(self.markets).no_duplicates()
        &&& link_assets(self.links).no_duplicates()
        &&& forall|i: int| 0 <= i < self.markets.len() ==> (#[trigger] self.markets[i]).wf()
    }

    /// The position of the market with this condition id.
    pub open spec fn market_index(self, condition_id: Seq<char>) -> Option<int> {
        key_index(market_ids(self.markets), condition_id)
    }

    /// The market a token is indexed to.
    pub open spec fn linked_condition(self, asset_id: Seq<char>) -> Option<Seq<char>> {
        match key_index(link_assets(self.links), asset_id) {
            Some(i) => Some(self.links[i].condition_id),
            None => None,
        }
    }
}

/// `keys` without repeats, each kept where it first occurs.
pub open spec fn dedup(keys: Seq<Seq<char>>) -> Seq<Seq<char>>
    decreases keys.len(),
{
    if keys.len() == 0 {
        keys
    } else {
        let d = dedup(keys.drop_last());
        if d.contains(keys.last()) {
            d
        } else {
            d.push(keys.last())
        }
    }
}

/// The index after pointing `asset_id` at `condition_id`.
pub open spec fn link_insert(links: Seq<LinkView>, asset_id: Seq<char>, condition_id: Seq<char>) -> Seq<LinkView> {
    match key_index(link_assets(links), asset_id) {
        Some(i) => links.update(i, LinkView { asset_id, condition_id }),
        None => links.push(LinkView { asset_id, condition_id }),
    }
}

/// The index after pointing each of `assets`, in order, at `condition_id`.
pub open spec fn link_insert_all(links: Seq<LinkView>, assets: Seq<Seq<char>>, condition_id: Seq<char>) -> Seq<LinkView>
    decreases assets.len(),
{
    if assets.len() == 0 {
        links
    } else {
        link_insert(link_insert_all(links, assets.drop_last(), condition_id), assets.last(), condition_id)
    }
}

/// A fresh market: each distinct token once, with a zero ask.
pub open spec fn fresh_market(condition_id: Seq<char>, tokens: Seq<Seq<char>>, now: u64) -> MarketView {
    MarketView {
        condition_id,
        quotes: dedup(tokens).map_values(|a: Seq<char>| QuoteView { asset_id: a, best_ask: Dec { mantissa: 0, scale: 0 } }),
        last_update_ts: now,
    }
}

/// The cache after tracking a market afresh: its entry is replaced (or
/// added at the end) and all its tokens point to it.
pub open spec fn track_spec(c: CacheView, condition_id: Seq<char>, tokens: Seq<Seq<char>>, now: u64) -> CacheView {
    let m = fresh_market(condition_id, tokens, now);
    CacheView {
        markets: match c.market_index(condition_id) {
            Some(i) => c.markets.update(i, m),
            None => c.markets.push(m),
        },
        links: link_insert_all(c.links, tokens, condition_id),
    }
}

/// Where a token stands among some quotes.
fn find_quote(quotes: &Vec<OutcomeQuote>, asset_id: &String) -> (r: Option<usize>)
    ensures
        match r {
            Some(j) => j < quotes@.len() && quotes@[j as int].asset_id@ == asset_id@,
            None => forall|j: int| 0 <= j < quotes@.len() ==> quotes@[j].asset_id@ != asset_id@,
        },
{
    let n = quotes.len();
    let mut j: usize = 0;
    while j < n
        invariant
            n == quotes@.len(),
            j <= n,
            forall|k: int| 0 <= k < j ==> quotes@[k].asset_id@ != asset_id@,
        decreases n - j,
    {
        if quotes[j].asset_id == *asset_id {
            return Some(j);
        }
        j = j + 1;
    }
    None
}

impl MarketCache {
    /// Every cache is well formed: no market and no token is tracked twice,
    /// and every ask is a representable decimal.
    #[verifier::type_invariant]
    spec fn cache_is_well_formed(self) -> bool {
        self@.wf()
    }

    /// An empty cache.
    pub fn new() -> (c: MarketCache)
        ensures
            c@.markets.len() == 0,
            c@.links.len() == 0,
    {
        MarketCache { markets: Vec::new(), links: Vec::new() }
    }

    /// The tracked markets, in order.
    pub fn markets(&self) -> (m: &Vec<MarketState>)
        ensures
            m@.map_values(|s: MarketState| s@) == self@.markets,
    {
        &self.markets
    }

    /// The number of tracked markets.
    pub fn len(&self) -> (n: usize)
        ensures
            n == self@.markets.len(),
    {
        self.markets.len()
    }

    /// Where the market with this condition id stands.
    pub fn find_market(&self, condition_id: &String) -> (r: Option<usize>)
        ensures
            r matches Some(i) ==> Some(i as int) == self@.market_index(condition_id@),
            r is None ==> self@.market_index(condition_id@) is None,
    {
        proof {
            use_type_invariant(self);
        }
        let n = self.markets.len();
        let mut i: usize = 0;
        while i < n
            invariant
                n == self.markets@.len(),
                i <= n,
                self@.wf(),
                forall|k: int| 0 <= k < i ==> self.markets@[k].condition_id@ != condition_id@,
            decreases n - i,
        {
            if self.markets[i].condition_id == *condition_id {
                proof {
                    assert(market_ids(self@.markets)[i as int] == condition_id@);
                    lemma_key_index_unique(market_ids(self@.markets), condition_id@, i as int);
                }
                return Some(i);
            }
            i = i + 1;
        }
        proof {
            assert(!market_ids(self@.markets).contains(condition_id@)) by {
                if market_ids(self@.markets).contains(condition_id@) {
                    let k = choose|k: int| 0 <= k < market_ids(self@.markets).len() && market_ids(self@.markets)[k] == condition_id@;
                    assert(self.markets@[k].condition_id@ == condition_id@);
                }
            }
        }
        None
    }

    /// Whether a market with this condition id is tracked.
    pub fn contains_market(&self, condition_id: &String) -> (b: bool)
        ensures
            b == market_ids(self@.markets).contains(condition_id@),
    {
        self.find_market(condition_id).is_some()
    }

    /// Where the link of this token stands.
    fn find_link(&self, asset_id: &String) -> (r: Option<usize>)
        ensures
            r matches Some(i) ==> Some(i as int) == key_index(link_assets(self@.links), asset_id@),
            r is None ==> key_index(link_assets(self@.links), asset_id@) is None,
    {
        proof {
            use_type_invariant(self);
        }
        let n = self.links.len();
        let mut i: usize = 0;
        while i < n
            invariant
                n == self.links@.len(),
                i <= n,
                self@.wf(),
                forall|k: int| 0 <= k < i ==> self.links@[k].asset_id@ != asset_id@,
            decreases n - i,
        {
            if self.links[i].asset_id == *asset_id {
                proof {
                    assert(link_assets(self@.links)[i as int] == asset_id@);
                    lemma_key_index_unique(link_assets(self@.links), asset_id@, i as int);
                }
                return Some(i);
            }
            i = i + 1;
        }
        proof {
            assert(!link_assets(self@.links).contains(asset_id@)) by {
                if link_assets(self@.links).contains(asset_id@) {
                    let k = choose|k: int| 0 <= k < link_assets(self@.links).len() && link_assets(self@.links)[k] == asset_id@;
                    assert(self.links@[k].asset_id@ == asset_id@);
                }
            }
        }
        None
    }
}

/// The quotes of a fresh market: each distinct token once, with a zero ask.
pub open spec fn fresh_quotes(tokens: Seq<Seq<char>>) -> Seq<QuoteView> {
    dedup(tokens).map_values(|a: Seq<char>| QuoteView { asset_id: a, best_ask: Dec { mantissa: 0, scale: 0 } })
}

/// The views of some strings.
pub open spec fn str_views(v: Seq<String>) -> Seq<Seq<char>> {
    v.map_values(|s: String| s@)
}

/// Builds the zero-ask quotes of a fresh market.
fn build_fresh_quotes(tokens: &Vec<String>) -> (q: Vec<OutcomeQuote>)
    ensures
        q@.map_values(|x: OutcomeQuote| x@) == fresh_quotes(str_views(tokens@)),
        quote_assets(fresh_quotes(str_views(tokens@))).no_duplicates(),
{
    let mut q: Vec<OutcomeQuote> = Vec::new();
    let n = tokens.len();
    let mut i: usize = 0;
    while i < n
        invariant
            n == tokens@.len(),
            i <= n,
            q@.map_values(|x: OutcomeQuote| x@) == fresh_quotes(str_views(tokens@).take(i as int)),
            quote_assets(fresh_quotes(str_views(tokens@).take(i as int))).no_duplicates(),
        decreases n - i,
    {
        let ghost ts = str_views(tokens@);
        let ghost prev = ts.take(i as int);
        let ghost next = ts.take(i + 1);
        assert(next.drop_last() =~= prev);
        assert(next.last() == tokens@[i as int]@);
        proof {
            lemma_quote_assets_of_fresh(prev);
            lemma_quote_assets_of_fresh(next);
        }
        let t = &tokens[i];
        match find_quote(&q, t) {
            Some(j) => {
                proof {
                    assert(quote_assets(fresh_quotes(prev))[j as int] == t@);
                    assert(dedup(prev).contains(t@));
                    assert(dedup(next) == dedup(prev));
                }
            },
            None => {
                proof {
                    assert(!dedup(prev).contains(t@)) by {
                        if dedup(prev).contains(t@) {
                            let k = choose|k: int| 0 <= k < dedup(prev).len() && dedup(prev)[k] == t@;
                            assert(q@[k].asset_id@ == t@);
                        }
                    }
                    assert(dedup(next) == dedup(prev).push(t@));
                }
                q.push(OutcomeQuote { asset_id: t.clone(), best_ask: Dec::zero() });
                proof {
                    assert(q@.map_values(|x: OutcomeQuote| x@) =~= fresh_quotes(next));
                }
            },
        }
        i = i + 1;
    }
    assert(str_views(tokens@).take(n as int) =~= str_views(tokens@));
    q
}

/// The tokens of fresh quotes are the deduplicated tokens, and they are
/// distinct.
pub proof fn lemma_quote_assets_of_fresh(tokens: Seq<Seq<char>>)
    ensures
        quote_assets(fresh_quotes(tokens)) =~= dedup(tokens),
        dedup(tokens).no_duplicates(),
    decreases tokens.len(),
{
    if tokens.len() > 0 {
        lemma_quote_assets_of_fresh(tokens.drop_last());
    }
}

impl MarketCache {
    /// Points a token at a market, replacing any earlier link of the token.
    fn set_link(&mut self, asset_id: String, condition_id: String)
        ensures
            final(self)@.links == link_insert(old(self)@.links, asset_id@, condition_id@),
            final(self)@.markets == old(self)@.markets,
    {
        proof {
            use_type_invariant(&*self);
        }
        let ghost a = asset_id@;
        let ghost c = condition_id@;
        let found = self.find_link(&asset_id);
        let mut links: Vec<AssetLink> = Vec::new();
        assert(link_assets(link_views(links@)) =~= Seq::<Seq<char>>::empty());
        std::mem::swap(&mut links, &mut self.links);
        match found {
            Some(i) => {
                links.set(i, AssetLink { asset_id, condition_id });
                proof {
                    assert(link_views(links@) =~= old(self)@.links.update(i as int, LinkView { asset_id: a, condition_id: c }));
                    assert(link_assets(link_views(links@)) =~= link_assets(old(self)@.links));
                }
            },
            None => {
                links.push(AssetLink { asset_id, condition_id });
                proof {
                    assert(link_views(links@) =~= old(self)@.links.push(LinkView { asset_id: a, condition_id: c }));
                    assert(link_assets(link_views(links@)) =~= link_assets(old(self)@.links).push(a));
                }
            },
        }
        self.links = links;
    }

    /// Starts tracking a market afresh with zero asks for its tokens, as of
    /// `now`, and points each token at it. A market that was already tracked
    /// is replaced where it stood.
    pub fn track_market(&mut self, condition_id: String, tokens: &Vec<String>, now: u64)
        ensures
            final(self)@ == track_spec(old(self)@, condition_id@, str_views(tokens@), now),
    {
        proof {
            use_type_invariant(&*self);
        }
        let n = tokens.len();
        let mut i: usize = 0;
        while i < n
            invariant
                n == tokens@.len(),
                i <= n,
                self@.wf(),
                self@.markets == old(self)@.markets,
                self@.links == link_insert_all(old(self)@.links, str_views(tokens@).take(i as int), condition_id@),
            decreases n - i,
        {
            let ghost ts = str_views(tokens@);
            assert(ts.take(i + 1).drop_last() =~= ts.take(i as int));
            self.set_link(tokens[i].clone(), condition_id.clone());
            proof {
                use_type_invariant(&*self);
            }
            i = i + 1;
        }
        assert(str_views(tokens@).take(n as int) =~= str_views(tokens@));
        let quotes = build_fresh_quotes(tokens);
        let ghost c = condition_id@;
        let found = self.find_market(&condition_id);
        let mut markets: Vec<MarketState> = Vec::new();
        assert(market_ids(market_views(markets@)) =~= Seq::<Seq<char>>::empty());
        std::mem::swap(&mut markets, &mut self.markets);
        proof {
            lemma_quote_assets_of_fresh(str_views(tokens@));
        }
        match found {
            Some(i) => {
                let m = MarketState { condition_id, outcomes: quotes, last_update_ts: now };
                markets.set(i, m);
                proof {
                    assert(market_views(markets@) =~= old(self)@.markets.update(i as int, fresh_market(c, str_views(tokens@), now)));
                    assert(market_ids(market_views(markets@)) =~= market_ids(old(self)@.markets));
                }
            },
            None => {
                let m = MarketState { condition_id, outcomes: quotes, last_update_ts: now };
                markets.push(m);
                proof {
                    assert(market_views(markets@) =~= old(self)@.markets.push(fresh_market(c, str_views(tokens@), now)));
                    assert(market_ids(market_views(markets@)) =~= market_ids(old(self)@.markets).push(c));
                }
            },
        }
        self.markets = markets;
    }
}

/// Whether a price change moves the best ask: it is on the sell side (an
/// offer to sell to us) and its size is not the text `0`.
pub open spec fn moves_ask(side: Seq<char>, size: Seq<char>) -> bool {
    side == "SELL"@ && size != "0"@
}

/// The quotes with the ask of `asset_id` set to `price`.
pub open spec fn set_ask(quotes: Seq<QuoteView>, asset_id: Seq<char>, price: Dec) -> Seq<QuoteView> {
    quotes.map_values(|q: QuoteView| if q.asset_id == asset_id { QuoteView { asset_id: q.asset_id, best_ask: price } } else { q })
}

/// A market after a price change for one of its tokens at time `now`.
pub open spec fn touched_market(m: MarketView, asset_id: Seq<char>, price: Dec, moves: bool, now: u64) -> MarketView {
    MarketView {
        condition_id: m.condition_id,
        quotes: if moves { set_ask(m.quotes, asset_id, price) } else { m.quotes },
        last_update_ts: now,
    }
}

/// The cache after one price change, and the position of the market it
/// touched. Nothing changes when the price does not parse, when the token
/// is not indexed, or when its market is no longer tracked.
pub open spec fn price_change_spec(c: CacheView, change: PriceChange, now: u64) -> (CacheView, Option<int>) {
    match decimal_parse(change.price@) {
        None => (c, None),
        Some(price) => match c.linked_condition(change.asset_id@) {
            None => (c, None),
            Some(cid) => match c.market_index(cid) {
                None => (c, None),
                Some(i) => (
                    CacheView {
                        markets: c.markets.update(
                            i,
                            touched_market(c.markets[i], change.asset_id@, price, moves_ask(change.side@, change.size@), now),
                        ),
                        links: c.links,
                    },
                    Some(i),
                ),
            },
        },
    }
}

impl MarketCache {
    /// Applies one price change from the feed at time `now` and returns the
    /// position of the market it touched, whose arbitrage is then checked.
    pub fn apply_price_change(&mut self, change: &PriceChange, now: u64) -> (touched: Option<usize>)
        ensures
            final(self)@ == price_change_spec(old(self)@, *change, now).0,
            touched matches Some(i) ==> Some(i as int) == price_change_spec(old(self)@, *change, now).1,
            touched is None ==> price_change_spec(old(self)@, *change, now).1 is None,
    {
        proof {
            use_type_invariant(&*self);
        }
        let price = match Dec::parse(change.price.as_str()) {
            Some(p) => p,
            None => return None,
        };
        let li = match self.find_link(&change.asset_id) {
            Some(li) => li,
            None => return None,
        };
        let cid = self.links[li].condition_id.clone();
        let i = match self.find_market(&cid) {
            Some(i) => i,
            None => return None,
        };
        let moves = change.side == owned("SELL") && change.size != owned("0");
        let ghost old_m = self@.markets[i as int];
        let mut markets: Vec<MarketState> = Vec::new();
        assert(market_ids(market_views(markets@)) =~= Seq::<Seq<char>>::empty());
        std::mem::swap(&mut markets, &mut self.markets);
        let mut m = markets.remove(i);
        assert(m@ == old_m);
        m.last_update_ts = now;
        if moves {
            match find_quote(&m.outcomes, &change.asset_id) {
                Some(j) => {
                    let ghost qs = m@.quotes;
                    m.outcomes.set(j, OutcomeQuote { asset_id: change.asset_id.clone(), best_ask: price });
                    proof {
                        assert forall|k: int| 0 <= k < qs.len() && k != j implies qs[k].asset_id != change.asset_id@ by {
                            assert(quote_assets(qs)[k] != quote_assets(qs)[j as int]);
                        }
                        assert(m@.quotes =~= set_ask(qs, change.asset_id@, price));
                    }
                },
                None => {
                    proof {
                        assert(m@.quotes =~= set_ask(m@.quotes, change.asset_id@, price));
                    }
                },
            }
        }
        let ghost new_m = m@;
        assert(new_m == touched_market(old_m, change.asset_id@, price, moves, now)) by {
            assert(new_m.quotes =~= touched_market(old_m, change.asset_id@, price, moves, now).quotes);
        }
        markets.insert(i, m);
        proof {
            assert(market_views(markets@) =~= old(self)@.markets.update(i as int, new_m));
            assert(market_ids(market_views(markets@)) =~= market_ids(old(self)@.markets));
            assert(quote_assets(new_m.quotes) =~= quote_assets(old_m.quotes));
        }
        self.markets = markets;
        Some(i)
    }
}

/// The top level of an order book's ask side.
#[derive(Debug, Clone, Copy)]
pub struct BookTop {
    pub price: Dec,
    pub size: Dec,
}

/// The smallest top-of-book size that is trusted as an ask: 5.0.
pub open spec fn min_book_size() -> Dec {
    Dec { mantissa: 50, scale: 1 }
}

/// A market with the ask of `asset_id` set to `price`; other fields kept.
pub open spec fn with_ask(m: MarketView, asset_id: Seq<char>, price: Dec) -> MarketView {
    MarketView { condition_id: m.condition_id, quotes: set_ask(m.quotes, asset_id, price), last_update_ts: m.last_update_ts }
}

/// The cache after reading an order book snapshot of one token: when the
/// book has an ask of size at least 5.0, every market quoting the token
/// takes its price as best ask.
pub open spec fn book_spec(c: CacheView, asset_id: Seq<char>, top: Option<BookTop>) -> CacheView {
    match top {
        Some(t) => if min_book_size().le_spec(t.size) {
            CacheView { markets: c.markets.map_values(|m: MarketView| with_ask(m, asset_id, t.price)), links: c.links }
        } else {
            c
        },
        None => c,
    }
}

/// Sets the ask of one token of a market, where the market quotes it.
fn set_market_ask(m: &mut MarketState, asset_id: &String, price: Dec)
    requires
        old(m)@.wf(),
        price.wf(),
    ensures
        final(m)@ == with_ask(old(m)@, asset_id@, price),
        final(m)@.wf(),
{
    let ghost qs = m@.quotes;
    match find_quote(&m.outcomes, asset_id) {
        Some(j) => {
            m.outcomes.set(j, OutcomeQuote { asset_id: asset_id.clone(), best_ask: price });
            proof {
                assert forall|k: int| 0 <= k < qs.len() && k != j implies qs[k].asset_id != asset_id@ by {
                    assert(quote_assets(qs)[k] != quote_assets(qs)[j as int]);
                }
                assert(m@.quotes =~= set_ask(qs, asset_id@, price));
                assert(quote_assets(m@.quotes) =~= quote_assets(qs));
            }
        },
        None => {
            proof {
                assert(m@.quotes =~= set_ask(qs, asset_id@, price));
            }
        },
    }
}

/// A market as a listing reports it: its condition id and outcome tokens.
#[derive(Debug, Clone)]
pub struct MarketListing {
    pub condition_id: String,
    pub token_ids: Vec<String>,
}

/// The abstract value of a `MarketListing`.
pub struct ListingView {
    pub condition_id: Seq<char>,
    pub token_ids: Seq<Seq<char>>,
}

impl View for MarketListing {
    type V = ListingView;

    open spec fn view(&self) -> ListingView {
        ListingView { condition_id: self.condition_id@, token_ids: str_views(self.token_ids@) }
    }
}

/// The listings' views.
pub open spec fn listing_views(v: Seq<MarketListing>) -> Seq<ListingView> {
    v.map_values(|l: MarketListing| l@)
}

/// Tracking every listing in turn, and all their tokens in order.
pub open spec fn track_all_spec(c: CacheView, listings: Seq<ListingView>, now: u64) -> (CacheView, Seq<Seq<char>>)
    decreases listings.len(),
{
    if listings.len() == 0 {
        (c, Seq::empty())
    } else {
        let (c1, t1) = track_all_spec(c, listings.drop_last(), now);
        let l = listings.last();
        (track_spec(c1, l.condition_id, l.token_ids, now), t1 + l.token_ids)
    }
}

/// Admitting listings in turn: a listing is skipped when its market is
/// already tracked, and admission stops after `max` new markets. Gives the
/// cache, the number admitted and the tokens to subscribe to.
pub open spec fn admit_spec(c: CacheView, listings: Seq<ListingView>, max: nat, now: u64) -> (CacheView, nat, Seq<Seq<char>>)
    decreases listings.len(),
{
    if listings.len() == 0 {
        (c, 0, Seq::empty())
    } else {
        let (c1, n1, t1) = admit_spec(c, listings.drop_last(), max, now);
        let l = listings.last();
        if n1 >= max || market_ids(c1.markets).contains(l.condition_id) {
            (c1, n1, t1)
        } else {
            (track_spec(c1, l.condition_id, l.token_ids, now), n1 + 1, t1 + l.token_ids)
        }
    }
}

/// Appends clones of all strings of `src` to `dst`.
fn extend_strings(dst: &mut Vec<String>, src: &Vec<String>)
    ensures
        str_views(final(dst)@) == str_views(old(dst)@) + str_views(src@),
{
    let n = src.len();
    let mut i: usize = 0;
    while i < n
        invariant
            n == src@.len(),
            i <= n,
            str_views(dst@) == str_views(old(dst)@) + str_views(src@).take(i as int),
        decreases n - i,
    {
        let ghost prev = dst@;
        let c = src[i].clone();
        assert(c@ == src@[i as int]@);
        dst.push(c);
        assert(dst@ == prev.push(c));
        assert(str_views(dst@) =~= str_views(prev).push(c@));
        assert(str_views(src@).take(i + 1) =~= str_views(src@).take(i as int).push(c@));
        i = i + 1;
        assert(str_views(dst@) =~= str_views(old(dst)@) + str_views(src@).take(i as int));
    }
    assert(str_views(src@).take(n as int) =~= str_views(src@));
}

impl MarketCache {
    /// Reads an order book snapshot of one token (its top ask, if any).
    pub fn apply_book_top(&mut self, asset_id: &String, top: Option<BookTop>)
        requires
            top matches Some(t) ==> t.price.wf() && t.size.wf(),
        ensures
            final(self)@ == book_spec(old(self)@, asset_id@, top),
    {
        proof {
            use_type_invariant(&*self);
        }
        let t = match top {
            Some(t) => t,
            None => return,
        };
        if !Dec::new(50, 1).le(&t.size) {
            return;
        }
        let mut markets: Vec<MarketState> = Vec::new();
        assert(market_ids(market_views(markets@)) =~= Seq::<Seq<char>>::empty());
        std::mem::swap(&mut markets, &mut self.markets);
        let n = markets.len();
        let mut i: usize = 0;
        while i < n
            invariant
                n == markets@.len(),
                n == old(self)@.markets.len(),
                i <= n,
                t.price.wf(),
                market_ids(market_views(markets@)) == market_ids(old(self)@.markets),
                old(self)@.wf(),
                forall|k: int| 0 <= k < n ==> (#[trigger] market_views(markets@)[k]).wf(),
                forall|k: int| 0 <= k < i ==> market_views(markets@)[k] == with_ask(old(self)@.markets[k], asset_id@, t.price),
                forall|k: int| i <= k < n ==> market_views(markets@)[k] == old(self)@.markets[k],
            decreases n - i,
        {
            let ghost before = market_views(markets@);
            let mut m = markets.remove(i);
            assert(m@ == before[i as int]);
            set_market_ask(&mut m, asset_id, t.price);
            let ghost mv = m@;
            markets.insert(i, m);
            proof {
                assert(market_views(markets@) =~= before.update(i as int, mv));
                assert(market_ids(market_views(markets@)) =~= market_ids(before));
            }
            i = i + 1;
        }
        assert(market_views(markets@) =~= old(self)@.markets.map_values(|m: MarketView| with_ask(m, asset_id@, t.price)));
        self.markets = markets;
    }

    /// The first token of the first tracked market, used to probe the
    /// on-chain balance on a heartbeat.
    pub fn heartbeat_probe(&self) -> (a: Option<String>)
        ensures
            self@.markets.len() == 0 ==> a is None,
            self@.markets.len() > 0 ==> (match a {
                Some(s) => self@.markets[0].quotes.len() > 0 && s@ == self@.markets[0].quotes[0].asset_id,
                None => self@.markets[0].quotes.len() == 0,
            }),
    {
        if self.markets.len() == 0 {
            return None;
        }
        let m = &self.markets[0];
        if m.outcomes.len() == 0 {
            None
        } else {
            Some(m.outcomes[0].asset_id.clone())
        }
    }

    /// Tracks every listing afresh, as the first scan does, and returns all
    /// their tokens in order (the assets to subscribe to).
    pub fn track_all(&mut self, listings: &Vec<MarketListing>, now: u64) -> (tokens: Vec<String>)
        ensures
            final(self)@ == track_all_spec(old(self)@, listing_views(listings@), now).0,
            str_views(tokens@) == track_all_spec(old(self)@, listing_views(listings@), now).1,
    {
        proof {
            use_type_invariant(&*self);
        }
        let mut tokens: Vec<String> = Vec::new();
        let n = listings.len();
        let mut i: usize = 0;
        while i < n
            invariant
                n == listings@.len(),
                i <= n,
                self@.wf(),
                (self@, str_views(tokens@)) == track_all_spec(old(self)@, listing_views(listings@).take(i as int), now),
            decreases n - i,
        {
            let ghost ls = listing_views(listings@);
            assert(ls.take(i + 1).drop_last() =~= ls.take(i as int));
            assert(ls.take(i + 1).last() == listings@[i as int]@);
            let l = &listings[i];
            extend_strings(&mut tokens, &l.token_ids);
            self.track_market(l.condition_id.clone(), &l.token_ids, now);
            proof {
                use_type_invariant(&*self);
            }
            i = i + 1;
        }
        assert(listing_views(listings@).take(n as int) =~= listing_views(listings@));
        tokens
    }

    /// Admits fresh listings on a rotation: listings whose market is already
    /// tracked are skipped, and at most `max` markets are added. Returns how
    /// many were added and their tokens (the assets to subscribe to).
    pub fn admit_markets(&mut self, listings: &Vec<MarketListing>, max: usize, now: u64) -> (r: (usize, Vec<String>))
        ensures
            final(self)@ == admit_spec(old(self)@, listing_views(listings@), max as nat, now).0,
            r.0 == admit_spec(old(self)@, listing_views(listings@), max as nat, now).1,
            str_views(r.1@) == admit_spec(old(self)@, listing_views(listings@), max as nat, now).2,
    {
        proof {
            use_type_invariant(&*self);
        }
        let mut tokens: Vec<String> = Vec::new();
        let mut added: usize = 0;
        let n = listings.len();
        let mut i: usize = 0;
        while i < n
            invariant
                n == listings@.len(),
                i <= n,
                self@.wf(),
                added <= max,
                (self@, added as nat, str_views(tokens@)) == admit_spec(old(self)@, listing_views(listings@).take(i as int), max as nat, now),
            decreases n - i,
        {
            let ghost ls = listing_views(listings@);
            assert(ls.take(i + 1).drop_last() =~= ls.take(i as int));
            assert(ls.take(i + 1).last() == listings@[i as int]@);
            let l = &listings[i];
            if added < max && !self.contains_market(&l.condition_id) {
                extend_strings(&mut tokens, &l.token_ids);
                self.track_market(l.condition_id.clone(), &l.token_ids, now);
                proof {
                    use_type_invariant(&*self);
                }
                added = added + 1;
            }
            i = i + 1;
        }
        assert(listing_views(listings@).take(n as int) =~= listing_views(listings@));
        (added, tokens)
    }
}

/// Market `a` was updated before market `b`, the earlier position first
/// among equal times.
pub open spec fn staler(ms: Seq<MarketView>, a: int, b: int) -> bool {
    ms[a].last_update_ts < ms[b].last_update_ts || (ms[a].last_update_ts == ms[b].last_update_ts && a < b)
}

/// `sel` lists, stalest first, the `min(k, n)` stalest markets: positions
/// are distinct and valid, listed in staleness order, and every market left
/// out is fresher than every market listed. This is the first `k` of the
/// markets stably sorted by update time.
pub open spec fn is_stale_selection(ms: Seq<MarketView>, k: nat, sel: Seq<usize>) -> bool {
    &&& sel.len() == if k < ms.len() { k } else { ms.len() }
    &&& forall|a: int| 0 <= a < sel.len() ==> (#[trigger] sel[a]) < ms.len()
    &&& forall|a: int, b: int| 0 <= a < b < sel.len() ==> staler(ms, sel[a] as int, sel[b] as int)
    &&& forall|a: int, j: int|
        0 <= a < sel.len() && 0 <= j < ms.len() && !sel.contains(j as usize) ==> #[trigger] staler(ms, sel[a] as int, j)
}

/// Values that cover `0..n` are at least `n` many.
proof fn lemma_cover_needs_length(s: Seq<usize>, n: nat)
    requires
        n <= usize::MAX,
        forall|j: usize| j < n ==> #[trigger] s.contains(j),
    ensures
        s.len() >= n,
{
    let t = s.map_values(|x: usize| x as int);
    assert forall|j: int| set_int_range(0, n as int).contains(j) implies t.to_set().contains(j) by {
        assert(s.contains(j as usize));
        let k = choose|k: int| 0 <= k < s.len() && s[k] == j as usize;
        assert(t[k] == j);
    }
    lemma_int_range(0, n as int);
    lemma_len_subset(set_int_range(0, n as int), t.to_set());
    t.lemma_cardinality_of_set();
}

/// Whether a position was already selected.
fn contains_position(sel: &Vec<usize>, j: usize) -> (b: bool)
    ensures
        b == sel@.contains(j),
{
    let n = sel.len();
    let mut i: usize = 0;
    while i < n
        invariant
            n == sel@.len(),
            i <= n,
            forall|k: int| 0 <= k < i ==> sel@[k] != j,
        decreases n - i,
    {
        if sel[i] == j {
            return true;
        }
        i = i + 1;
    }
    false
}

impl MarketCache {
    /// The positions of the `k` stalest markets, stalest first.
    pub fn stale_positions(&self, k: usize) -> (sel: Vec<usize>)
        ensures
            is_stale_selection(self@.markets, k as nat, sel@),
    {
        let ghost ms = self@.markets;
        let n = self.markets.len();
        let want = if k < n { k } else { n };
        let mut sel: Vec<usize> = Vec::new();
        while sel.len() < want
            invariant
                n == ms.len(),
                ms == self@.markets,
                want <= n,
                want == if k < n { k } else { n },
                sel@.len() <= want,
                forall|a: int| 0 <= a < sel@.len() ==> (#[trigger] sel@[a]) < n,
                forall|a: int, b: int| 0 <= a < b < sel@.len() ==> staler(ms, sel@[a] as int, sel@[b] as int),
                forall|a: int, j: int|
                    0 <= a < sel@.len() && 0 <= j < n && !sel@.contains(j as usize) ==> #[trigger] staler(ms, sel@[a] as int, j),
            decreases want - sel@.len(),
        {
            let mut best: Option<usize> = None;
            let mut j: usize = 0;
            while j < n
                invariant
                    n == ms.len(),
                    ms == self@.markets,
                    j <= n,
                    best matches Some(b) ==> b < j && !sel@.contains(b) && forall|x: int|
                        0 <= x < j && !sel@.contains(x as usize) && x != b ==> staler(ms, b as int, x),
                    best is None ==> forall|x: usize| x < j ==> #[trigger] sel@.contains(x),
                decreases n - j,
            {
                if !contains_position(&sel, j) {
                    match best {
                        None => {
                            best = Some(j);
                        },
                        Some(b) => {
                            if self.markets[j].last_update_ts < self.markets[b].last_update_ts {
                                proof {
                                    assert forall|x: int|
                                        0 <= x < j + 1 && !sel@.contains(x as usize) && x != j implies staler(ms, j as int, x) by {
                                        if x != b {
                                            assert(staler(ms, b as int, x));
                                        }
                                    }
                                }
                                best = Some(j);
                            }
                        },
                    }
                }
                j = j + 1;
            }
            match best {
                Some(b) => {
                    let ghost old_sel = sel@;
                    sel.push(b);
                    proof {
                        assert forall|a: int, j2: int|
                            0 <= a < sel@.len() && 0 <= j2 < n && !sel@.contains(j2 as usize) implies #[trigger] staler(ms, sel@[a] as int, j2) by {
                            assert(!old_sel.contains(j2 as usize)) by {
                                if old_sel.contains(j2 as usize) {
                                    let q = choose|q: int| 0 <= q < old_sel.len() && old_sel[q] == j2 as usize;
                                    assert(sel@[q] == j2 as usize);
                                }
                            }
                            if a < old_sel.len() {
                                assert(sel@[a] == old_sel[a]);
                            } else {
                                assert(j2 as usize != b) by {
                                    assert(sel@[old_sel.len() as int] == b);
                                }
                            }
                        }
                        assert forall|a: int, c: int| 0 <= a < c < sel@.len() implies staler(ms, sel@[a] as int, sel@[c] as int) by {
                            if c < old_sel.len() {
                            } else {
                                assert(sel@[c] == b);
                                assert(sel@[a] == old_sel[a]);
                            }
                        }
                    }
                },
                None => {
                    proof {
                        lemma_cover_needs_length(sel@, n as nat);
                    }
                    assert(false);
                },
            }
        }
        sel
    }

    /// The condition ids of the `k` stalest markets, stalest first.
    pub fn stale_markets(&self, k: usize) -> (ids: Vec<String>)
        ensures
            exists|sel: Seq<usize>| #[trigger] is_stale_selection(self@.markets, k as nat, sel) && ids@.len() == sel.len()
                && forall|a: int| 0 <= a < sel.len() ==> (#[trigger] ids@[a])@ == self@.markets[sel[a] as int].condition_id,
    {
        let sel = self.stale_positions(k);
        let mut ids: Vec<String> = Vec::new();
        let n = sel.len();
        let mut a: usize = 0;
        while a < n
            invariant
                n == sel@.len(),
                a <= n,
                forall|x: int| 0 <= x < n ==> (#[trigger] sel@[x]) < self@.markets.len(),
                ids@.len() == a,
                forall|x: int| 0 <= x < a ==> (#[trigger] ids@[x])@ == self@.markets[sel@[x] as int].condition_id,
            decreases n - a,
        {
            ids.push(self.markets[sel[a]].condition_id.clone());
            a = a + 1;
        }
        assert(is_stale_selection(self@.markets, k as nat, sel@));
        ids
    }
}

/// The index without the link of `asset_id`.
pub open spec fn unlink(links: Seq<LinkView>, asset_id: Seq<char>) -> Seq<LinkView> {
    match key_index(link_assets(links), asset_id) {
        Some(i) => links.remove(i),
        None => links,
    }
}

/// The index without the links of each of `assets`, removed in order.
pub open spec fn unlink_all(links: Seq<LinkView>, assets: Seq<Seq<char>>) -> Seq<LinkView>
    decreases assets.len(),
{
    if assets.len() == 0 {
        links
    } else {
        unlink(unlink_all(links, assets.drop_last()), assets.last())
    }
}

/// The cache without the market `condition_id` and the links of its
/// tokens, and those tokens in order; nothing when it is not tracked.
pub open spec fn drop_one(c: CacheView, condition_id: Seq<char>) -> (CacheView, Seq<Seq<char>>) {
    match c.market_index(condition_id) {
        None => (c, Seq::empty()),
        Some(i) => {
            let assets = quote_assets(c.markets[i].quotes);
            (CacheView { markets: c.markets.remove(i), links: unlink_all(c.links, assets) }, assets)
        },
    }
}

/// Dropping each of `ids` in turn, and all tokens dropped, in order.
pub open spec fn drop_all(c: CacheView, ids: Seq<Seq<char>>) -> (CacheView, Seq<Seq<char>>)
    decreases ids.len(),
{
    if ids.len() == 0 {
        (c, Seq::empty())
    } else {
        let (c1, a1) = drop_all(c, ids.drop_last());
        let (c2, a2) = drop_one(c1, ids.last());
        (c2, a1 + a2)
    }
}

/// Removing an element keeps a sequence free of duplicates.
proof fn lemma_remove_keeps_distinct(s: Seq<Seq<char>>, i: int)
    requires
        s.no_duplicates(),
        0 <= i < s.len(),
    ensures
        s.remove(i).no_duplicates(),
{
    let r = s.remove(i);
    assert forall|a: int, b: int| 0 <= a < r.len() && 0 <= b < r.len() && a != b implies r[a] != r[b] by {
        let a2 = if a < i { a } else { a + 1 };
        let b2 = if b < i { b } else { b + 1 };
        assert(r[a] == s[a2]);
        assert(r[b] == s[b2]);
    }
}

impl MarketCache {
    /// Removes the link of a token, if there is one.
    fn unlink_asset(&mut self, asset_id: &String)
        ensures
            final(self)@.links == unlink(old(self)@.links, asset_id@),
            final(self)@.markets == old(self)@.markets,
    {
        proof {
            use_type_invariant(&*self);
        }
        match self.find_link(asset_id) {
            Some(i) => {
                let ghost before = self@.links;
                let mut links: Vec<AssetLink> = Vec::new();
                assert(link_assets(link_views(links@)) =~= Seq::<Seq<char>>::empty());
                std::mem::swap(&mut links, &mut self.links);
                links.remove(i);
                proof {
                    assert(link_views(links@) =~= before.remove(i as int));
                    assert(link_assets(link_views(links@)) =~= link_assets(before).remove(i as int));
                    lemma_remove_keeps_distinct(link_assets(before), i as int);
                }
                self.links = links;
            },
            None => {},
        }
    }

    /// Stops tracking one market, unlinks its tokens and appends them to
    /// `dropped`.
    fn drop_market(&mut self, condition_id: &String, dropped: &mut Vec<String>)
        ensures
            final(self)@ == drop_one(old(self)@, condition_id@).0,
            str_views(final(dropped)@) == str_views(old(dropped)@) + drop_one(old(self)@, condition_id@).1,
    {
        proof {
            use_type_invariant(&*self);
        }
        let i = match self.find_market(condition_id) {
            Some(i) => i,
            None => {
                assert(str_views(dropped@) =~= str_views(old(dropped)@) + Seq::<Seq<char>>::empty());
                return;
            },
        };
        let ghost before = self@.markets;
        let mut markets: Vec<MarketState> = Vec::new();
        assert(market_ids(market_views(markets@)) =~= Seq::<Seq<char>>::empty());
        std::mem::swap(&mut markets, &mut self.markets);
        let m = markets.remove(i);
        proof {
            let after = market_views(markets@);
            assert(after =~= before.remove(i as int));
            assert(market_ids(after) =~= market_ids(before).remove(i as int));
            lemma_remove_keeps_distinct(market_ids(before), i as int);
            assert forall|k: int| 0 <= k < after.len() implies (#[trigger] after[k]).wf() by {
                if k < i {
                    assert(after[k] == before[k]);
                } else {
                    assert(after[k] == before[k + 1]);
                }
            }
        }
        self.markets = markets;
        let ghost assets = quote_assets(m@.quotes);
        assert(m@ == before[i as int]);
        let n = m.outcomes.len();
        let mut j: usize = 0;
        while j < n
            invariant
                n == m.outcomes@.len(),
                assets == quote_assets(m@.quotes),
                j <= n,
                self@.wf(),
                self@.markets == before.remove(i as int),
                self@.links == unlink_all(old(self)@.links, assets.take(j as int)),
                str_views(dropped@) == str_views(old(dropped)@) + assets.take(j as int),
            decreases n - j,
        {
            assert(assets.take(j + 1).drop_last() =~= assets.take(j as int));
            assert(assets.take(j + 1).last() == m.outcomes@[j as int].asset_id@);
            self.unlink_asset(&m.outcomes[j].asset_id);
            proof {
                use_type_invariant(&*self);
            }
            let ghost prev = dropped@;
            let a = m.outcomes[j].asset_id.clone();
            dropped.push(a);
            proof {
                assert(str_views(dropped@) =~= str_views(prev).push(m.outcomes@[j as int].asset_id@));
                assert(assets.take(j + 1) =~= assets.take(j as int).push(m.outcomes@[j as int].asset_id@));
            }
            j = j + 1;
        }
        assert(assets.take(n as int) =~= assets);
    }

    /// Stops tracking each listed market in turn and unlinks its tokens.
    /// Returns the tokens dropped, in order (the assets to unsubscribe from).
    pub fn drop_markets(&mut self, ids: &Vec<String>) -> (dropped: Vec<String>)
        ensures
            final(self)@ == drop_all(old(self)@, str_views(ids@)).0,
            str_views(dropped@) == drop_all(old(self)@, str_views(ids@)).1,
    {
        proof {
            use_type_invariant(&*self);
        }
        let mut dropped: Vec<String> = Vec::new();
        let n = ids.len();
        let mut k: usize = 0;
        while k < n
            invariant
                n == ids@.len(),
                k <= n,
                self@.wf(),
                (self@, str_views(dropped@)) == drop_all(old(self)@, str_views(ids@).take(k as int)),
            decreases n - k,
        {
            let ghost vs = str_views(ids@);
            assert(vs.take(k + 1).drop_last() =~= vs.take(k as int));
            assert(vs.take(k + 1).last() == ids@[k as int]@);
            self.drop_market(&ids[k], &mut dropped);
            proof {
                use_type_invariant(&*self);
            }
            k = k + 1;
        }
        assert(str_views(ids@).take(n as int) =~= str_views(ids@));
        dropped
    }
}

} // verus!
