//! Market-feed messages: the subscription text sent over the socket and the
//! decisions of the feed loop, one input at a time.
use vstd::prelude::*;
use vstd::string::*;

use crate::json::{json_list_body, json_string_array, string_views};

verus! {

/// One price level change from the market feed.
#[derive(Debug, Clone)]
pub struct PriceChange {
    pub asset_id: String,
    pub price: String,
    /// "BUY" or "SELL".
    pub side: String,
    pub size: String,
}

/// One message of the market feed.
#[derive(Debug, Clone)]
pub struct WsEvent {
    /// "price_change" or "market".
    pub event_type: String,
    /// The condition (market) the event belongs to, where the feed says.
    pub market: Option<String>,
    pub asset_id: Option<String>,
    pub price_changes: Option<Vec<PriceChange>>,
    pub timestamp: String,
}

/// A request to the feed task to change what it listens to.
#[derive(Debug, Clone)]
pub enum WsCommand {
    Subscribe(Vec<String>),
    Unsubscribe(Vec<String>),
}

/// The compact JSON array of asset ids.
pub open spec fn assets_json(assets: Seq<String>) -> Seq<char> {
    seq!['['] + json_list_body(string_views(assets)) + seq![']']
}

/// `{"assets_ids":[...],"type":"market"}`.
pub open spec fn subscribe_text(assets: Seq<String>) -> Seq<char> {
    "{\"assets_ids\":"@ + assets_json(assets) + ",\"type\":\"market\"}"@
}

/// `{"action":"unsubscribe","assets_ids":[...],"type":"market"}`.
pub open spec fn unsubscribe_text(assets: Seq<String>) -> Seq<char> {
    "{\"action\":\"unsubscribe\",\"assets_ids\":"@ + assets_json(assets)
        + ",\"type\":\"market\"}"@
}

/// The subscription message for `assets`, with its keys in the sorted order
/// that a `serde_json` object prints them in.
pub fn subscribe_message(assets: &Vec<String>) -> (m: String)
    ensures
        m@ == subscribe_text(assets@),
{
    let mut m = String::new();
    m.append("{\"assets_ids\":");
    let arr = json_string_array(assets);
    m.append(arr.as_str());
    m.append(",\"type\":\"market\"}");
    m
}

/// The unsubscription message for `assets`.
pub fn unsubscribe_message(assets: &Vec<String>) -> (m: String)
    ensures
        m@ == unsubscribe_text(assets@),
{
    let mut m = String::new();
    m.append("{\"action\":\"unsubscribe\",\"assets_ids\":");
    let arr = json_string_array(assets);
    m.append(arr.as_str());
    m.append(",\"type\":\"market\"}");
    m
}

/// The message sent right after connecting: a subscription to the initial
/// assets, or nothing when there are none.
pub fn initial_subscription(assets: &Vec<String>) -> (m: Option<String>)
    ensures
        assets@.len() == 0 ==> m is None,
        assets@.len() > 0 ==> (m matches Some(t) && t@ == subscribe_text(assets@)),
{
    if assets.len() == 0 {
        None
    } else {
        Some(subscribe_message(assets))
    }
}

/// What the feed loop received: a socket frame or a command.
#[derive(Debug, Clone)]
pub enum FeedInput {
    /// A text frame.
    Text(String),
    Ping,
    /// The socket signalled an error.
    Failure,
    /// The socket stream ended.
    Closed,
    /// Any other frame (binary, pong, close).
    OtherFrame,
    Command(WsCommand),
    /// The command channel was closed.
    CommandsClosed,
}

/// Which kind of message a `FeedAction::Send` carries.
#[derive(Debug, Clone, Copy, PartialEq, Eq, Structural)]
pub enum SendKind {
    Subscribe,
    Unsubscribe,
}

/// What the feed loop does next.
#[derive(Debug, Clone)]
pub enum FeedAction {
    /// Decode the text as a feed event and pass it on if it decodes.
    Decode(String),
    Ignore,
    /// Send this text over the socket.
    Send(String, SendKind),
    /// Leave the loop.
    Stop,
}

/// The action the feed loop takes for one input.
pub open spec fn feed_action_spec(input: FeedInput, action: FeedAction) -> bool {
    match input {
        FeedInput::Text(t) => action matches FeedAction::Decode(u) && u == t,
        FeedInput::Ping => action is Ignore,
        FeedInput::OtherFrame => action is Ignore,
        FeedInput::Failure => action is Stop,
        FeedInput::Closed => action is Stop,
        FeedInput::CommandsClosed => action is Stop,
        FeedInput::Command(WsCommand::Subscribe(assets)) => action matches FeedAction::Send(
            m,
            k,
        ) && k == SendKind::Subscribe && m@ == subscribe_text(assets@),
        FeedInput::Command(WsCommand::Unsubscribe(assets)) => action matches FeedAction::Send(
            m,
            k,
        ) && k == SendKind::Unsubscribe && m@ == unsubscribe_text(assets@),
    }
}

/// Decides what the feed loop does with one input.
pub fn feed_step(input: FeedInput) -> (action: FeedAction)
    ensures
        feed_action_spec(input, action),
        input matches FeedInput::Text(t) ==> (action matches FeedAction::Decode(u) && u == t),
        (input is Ping || input is OtherFrame) ==> action is Ignore,
        (input is Failure || input is Closed || input is CommandsClosed) <==> action is Stop,
        input matches FeedInput::Command(WsCommand::Subscribe(assets)) ==> (action matches FeedAction::Send(m, k)
            && k == SendKind::Subscribe && m@ == subscribe_text(assets@)),
        input matches FeedInput::Command(WsCommand::Unsubscribe(assets)) ==> (action matches FeedAction::Send(m, k)
            && k == SendKind::Unsubscribe && m@ == unsubscribe_text(assets@)),
{
    match input {
        FeedInput::Text(t) => FeedAction::Decode(t),
        FeedInput::Ping => FeedAction::Ignore,
        FeedInput::OtherFrame => FeedAction::Ignore,
        FeedInput::Failure => FeedAction::Stop,
        FeedInput::Closed => FeedAction::Stop,
        FeedInput::CommandsClosed => FeedAction::Stop,
        FeedInput::Command(WsCommand::Subscribe(assets)) => FeedAction::Send(
            subscribe_message(&assets),
            SendKind::Subscribe,
        ),
        FeedInput::Command(WsCommand::Unsubscribe(assets)) => FeedAction::Send(
            unsubscribe_message(&assets),
            SendKind::Unsubscribe,
        ),
    }
}

/// How carrying out one feed action went.
#[derive(Debug, Clone, Copy, PartialEq, Eq, Structural)]
pub enum StepOutcome {
    /// A text frame did not decode as a feed event; it is dropped.
    Undecodable,
    /// A decoded event was handed on to the bot; `accepted` is false when
    /// the bot's end of the channel is gone.
    HandedOn { accepted: bool },
    /// A message was written to the socket; `ok` is false when the write
    /// failed.
    Written { ok: bool },
    /// The action asked for nothing to be done.
    Nothing,
    /// The action was to leave the loop.
    Stopped,
}

/// Whether the feed loop goes on after an action: it goes on after a frame
/// that does not decode, after an ignored input and after a successful hand
/// over or write; it stops when the bot no longer takes events, when a
/// socket write fails, and when it was told to stop.
pub fn feed_continues(outcome: StepOutcome) -> (go_on: bool)
    ensures
        go_on == match outcome {
            StepOutcome::Undecodable => true,
            StepOutcome::HandedOn { accepted } => accepted,
            StepOutcome::Written { ok } => ok,
            StepOutcome::Nothing => true,
            StepOutcome::Stopped => false,
        },
{
    match outcome {
        StepOutcome::Undecodable => true,
        StepOutcome::HandedOn { accepted } => accepted,
        StepOutcome::Written { ok } => ok,
        StepOutcome::Nothing => true,
        StepOutcome::Stopped => false,
    }
}

} // verus!
