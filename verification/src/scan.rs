//! The pacing of the bot: scanning market listings, counting feed events
//! for heartbeats and rotations, the steps of a rotation, and batching
//! order-book requests.
use vstd::prelude::*;

use crate::market::str_views;
use crate::websocket::WsCommand;

verus! {

/// How many active negative-risk markets the first scan looks for.
pub const MIN_SAMPLES_TO_FIND: usize = 100usize;

/// How many listings one scan reads at most.
pub const MAX_SCANS_PER_TICK: usize = 5000usize;

/// A scan reports its totals when it looks for more than this many markets.
pub const SCAN_REPORT_LIMIT: usize = 20usize;

/// A heartbeat happens every this many feed events.
pub const HEARTBEAT_EVERY: i32 = 100i32;

/// A market rotation happens every this many feed events.
pub const ROTATION_EVERY: i32 = 500i32;

/// How many stale markets a rotation drops.
pub const ROTATION_DROP: usize = 5usize;

/// How many listings a rotation reads to find fresh markets.
pub const ROTATION_FETCH: usize = 10usize;

/// How many fresh markets a rotation admits at most.
pub const ROTATION_ADMIT: usize = 5usize;

/// How many order books one snapshot request asks for.
pub const BOOK_BATCH: usize = 20usize;

/// A listing is kept when its market is active, negative-risk and not closed.
pub open spec fn listing_wanted(active: bool, neg_risk: bool, closed: bool) -> bool {
    active && neg_risk && !closed
}

/// The progress of one scan over market listings.
#[derive(Debug, Clone, Copy)]
pub struct MarketScan {
    /// How many wanted markets the scan looks for.
    pub limit: usize,
    /// How many listings were read.
    pub scanned: usize,
    /// How many wanted markets were found.
    pub found: usize,
}

/// What to do with one listing, and whether the scan is over.
#[derive(Debug, Clone, Copy, PartialEq, Eq, Structural)]
pub struct ScanStep {
    pub keep: bool,
    pub stop: bool,
}

impl MarketScan {
    /// A scan that has read nothing.
    pub fn new(limit: usize) -> (s: MarketScan)
        ensures
            s.limit == limit,
            s.scanned == 0,
            s.found == 0,
    {
        MarketScan { limit, scanned: 0, found: 0 }
    }

    /// Reads one listing: it is kept when wanted, and the scan stops once
    /// enough markets were found or `MAX_SCANS_PER_TICK` listings were read.
    pub fn observe(&mut self, active: bool, neg_risk: bool, closed: bool) -> (step: ScanStep)
        requires
            old(self).scanned < usize::MAX,
            old(self).found < usize::MAX,
        ensures
            step.keep == listing_wanted(active, neg_risk, closed),
            step.keep == (active && neg_risk && !closed),
            final(self).limit == old(self).limit,
            final(self).scanned == old(self).scanned + 1,
            final(self).found == old(self).found + if step.keep { 1int } else { 0int },
            step.stop == (final(self).found >= final(self).limit || final(self).scanned >= MAX_SCANS_PER_TICK),
    {
        self.scanned = self.scanned + 1;
        let keep = active && neg_risk && !closed;
        if keep {
            self.found = self.found + 1;
        }
        let stop = self.found >= self.limit || self.scanned >= MAX_SCANS_PER_TICK;
        ScanStep { keep, stop }
    }

    /// Whether the scan's totals are worth reporting.
    pub fn reports_totals(&self) -> (b: bool)
        ensures
            b == (self.limit > SCAN_REPORT_LIMIT),
    {
        self.limit > SCAN_REPORT_LIMIT
    }
}

/// The periodic work due after a feed event.
#[derive(Debug, Clone, Copy, PartialEq, Eq, Structural)]
pub struct TickPlan {
    pub heartbeat: bool,
    pub rotate: bool,
}

/// Counts feed events (a 32-bit count, as the event loop keeps it).
#[derive(Debug, Clone, Copy)]
pub struct EventCounter {
    pub total: i32,
}

impl EventCounter {
    /// No event yet.
    pub fn new() -> (c: EventCounter)
        ensures
            c.total == 0,
    {
        EventCounter { total: 0 }
    }

    /// Counts one more event and says what periodic work is due: a
    /// heartbeat every `HEARTBEAT_EVERY` events, and on every
    /// `ROTATION_EVERY`-th event a rotation as part of the heartbeat.
    pub fn record(&mut self) -> (plan: TickPlan)
        requires
            0 <= old(self).total < i32::MAX,
        ensures
            final(self).total == old(self).total + 1,
            plan.heartbeat == (final(self).total % HEARTBEAT_EVERY == 0),
            plan.rotate == (final(self).total % HEARTBEAT_EVERY == 0 && final(self).total % ROTATION_EVERY == 0),
            plan.rotate ==> plan.heartbeat,
    {
        self.total = self.total + 1;
        let heartbeat = self.total % HEARTBEAT_EVERY == 0;
        let rotate = heartbeat && self.total % ROTATION_EVERY == 0;
        TickPlan { heartbeat, rotate }
    }
}

/// `s` cut into consecutive pieces of `size`, the last one possibly shorter.
pub open spec fn chunks(s: Seq<Seq<char>>, size: nat) -> Seq<Seq<Seq<char>>>
    decreases s.len(),
{
    if s.len() == 0 || size == 0 {
        Seq::empty()
    } else if s.len() <= size {
        seq![s]
    } else {
        seq![s.take(size as int)] + chunks(s.skip(size as int), size)
    }
}

/// Cutting into pieces keeps every element in order.
pub proof fn lemma_chunks_flatten(s: Seq<Seq<char>>, size: nat)
    requires
        size > 0,
    ensures
        chunks(s, size).flatten() == s,
        forall|i: int| 0 <= i < chunks(s, size).len() ==> 0 < (#[trigger] chunks(s, size)[i]).len() <= size,
    decreases s.len(),
{
    if s.len() == 0 {
        assert(chunks(s, size) =~= Seq::<Seq<Seq<char>>>::empty());
    } else if s.len() <= size {
        let one = seq![s];
        assert(one.drop_first() =~= Seq::<Seq<Seq<char>>>::empty());
        assert(one.drop_first().flatten() =~= Seq::<Seq<char>>::empty());
        assert(one.flatten() == one.first().add(one.drop_first().flatten()));
        assert(one.flatten() =~= s);
    } else {
        lemma_chunks_flatten(s.skip(size as int), size);
        let rest = chunks(s.skip(size as int), size);
        assert((seq![s.take(size as int)] + rest).drop_first() =~= rest);
        assert(s.take(size as int) + s.skip(size as int) =~= s);
        let c = chunks(s, size);
        assert forall|i: int| 0 <= i < c.len() implies 0 < (#[trigger] c[i]).len() <= size by {
            if i > 0 {
                assert(c[i] == rest[i - 1]);
            }
        }
    }
}

/// The views of some vectors of strings.
pub open spec fn chunk_views(v: Seq<Vec<String>>) -> Seq<Seq<Seq<char>>> {
    v.map_values(|c: Vec<String>| str_views(c@))
}

/// Copies `tokens[start..end]`.
fn copy_range(tokens: &Vec<String>, start: usize, end: usize) -> (c: Vec<String>)
    requires
        start <= end <= tokens@.len(),
    ensures
        str_views(c@) == str_views(tokens@).subrange(start as int, end as int),
{
    let mut c: Vec<String> = Vec::new();
    let mut j = start;
    while j < end
        invariant
            start <= j <= end,
            end <= tokens@.len(),
            str_views(c@) == str_views(tokens@).subrange(start as int, j as int),
        decreases end - j,
    {
        let ghost prev = c@;
        let t = tokens[j].clone();
        c.push(t);
        proof {
            assert(str_views(c@) =~= str_views(prev).push(tokens@[j as int]@));
        }
        j = j + 1;
        assert(str_views(c@) =~= str_views(tokens@).subrange(start as int, j as int));
    }
    c
}

/// Cuts the token list into consecutive batches of `size` for order-book
/// requests, the last batch possibly shorter.
pub fn chunk_tokens(tokens: &Vec<String>, size: usize) -> (out: Vec<Vec<String>>)
    requires
        size > 0,
    ensures
        chunk_views(out@) == chunks(str_views(tokens@), size as nat),
{
    let ghost all = str_views(tokens@);
    let n = tokens.len();
    let mut out: Vec<Vec<String>> = Vec::new();
    let mut start: usize = 0;
    assert(all.skip(0) =~= all);
    while start < n
        invariant
            n == tokens@.len(),
            all == str_views(tokens@),
            size > 0,
            start <= n,
            chunk_views(out@) + chunks(all.skip(start as int), size as nat) == chunks(all, size as nat),
        decreases n - start,
    {
        let ghost rest = all.skip(start as int);
        let end = if n - start <= size { n } else { start + size };
        let c = copy_range(tokens, start, end);
        let ghost prev = out@;
        out.push(c);
        proof {
            assert(chunk_views(out@) =~= chunk_views(prev).push(str_views(c@)));
            if n - start <= size {
                assert(str_views(c@) =~= rest);
                assert(chunks(rest, size as nat) == seq![rest]);
                assert(all.skip(end as int) =~= Seq::<Seq<char>>::empty());
                assert(chunks(all.skip(end as int), size as nat) =~= Seq::<Seq<Seq<char>>>::empty());
                assert(chunk_views(out@) + chunks(all.skip(end as int), size as nat) =~= chunk_views(prev) + chunks(rest, size as nat));
            } else {
                assert(str_views(c@) =~= rest.take(size as int));
                assert(rest.skip(size as int) =~= all.skip(end as int));
                assert(chunks(rest, size as nat) == seq![rest.take(size as int)] + chunks(rest.skip(size as int), size as nat));
                assert(chunk_views(out@) + chunks(all.skip(end as int), size as nat) =~= chunk_views(prev) + chunks(rest, size as nat));
            }
        }
        start = end;
    }
    assert(all.skip(n as int) =~= Seq::<Seq<char>>::empty());
    assert(chunk_views(out@) + chunks(all.skip(n as int), size as nat) =~= chunk_views(out@));
    out
}

/// Whether a rotation goes on to fetch fresh listings: only once it has
/// dropped at least one stale market.
pub fn rotation_fetches(dropped: &Vec<String>) -> (fetch: bool)
    ensures
        fetch == (dropped@.len() > 0),
{
    dropped.len() > 0
}

/// The command a rotation sends the feed once fresh markets are admitted:
/// a subscription to exactly the newly tracked tokens, or nothing when no
/// token is new.
pub fn rotation_subscription(new_assets: Vec<String>) -> (cmd: Option<WsCommand>)
    ensures
        new_assets@.len() == 0 ==> cmd is None,
        new_assets@.len() > 0 ==> (cmd matches Some(WsCommand::Subscribe(a)) && a@ == new_assets@),
{
    if new_assets.len() == 0 {
        None
    } else {
        Some(WsCommand::Subscribe(new_assets))
    }
}

} // verus!
