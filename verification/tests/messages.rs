use polybot::websocket::{feed_continues, StepOutcome};
use polybot::config::{clob_host, rpc_url, token_balance};
use polybot::decimal::Dec;
use polybot::discord::{alert_payload, format_arb_alert, webhook_target};
use polybot::keys::normalize_private_key;
use polybot::scan::{chunk_tokens, EventCounter, MarketScan};
use polybot::tui::{header_text, level_color, log_line, stats_text, AppLog, AppState, LogColor};
use polybot::websocket::{feed_step, initial_subscription, subscribe_message, unsubscribe_message, FeedAction, FeedInput, SendKind, WsCommand};

fn s(x: &str) -> String {
    x.to_string()
}

#[test]
fn arb_alert_text() {
    let t = format_arb_alert("0xabc", s("1.23"), s("0.94"), "https://polymarket.com/x");
    assert_eq!(
        t,
        "🚨 **Arbitrage Detected!** 🚨\n\n**Condition**: `0xabc`\n**Profit**: `$1.23`\n**Sum**: `0.94`\n[View Market](https://polymarket.com/x)"
    );
}

#[test]
fn webhook_body_and_target() {
    assert_eq!(alert_payload("hi \"you\""), "{\"content\":\"hi \\\"you\\\"\"}");
    assert_eq!(webhook_target(Some(s(""))), None);
    assert_eq!(webhook_target(None), None);
    assert_eq!(webhook_target(Some(s("https://x"))), Some(s("https://x")));
}

#[test]
fn subscription_messages() {
    let assets = vec![s("11"), s("22")];
    assert_eq!(subscribe_message(&assets), "{\"assets_ids\":[\"11\",\"22\"],\"type\":\"market\"}");
    assert_eq!(unsubscribe_message(&assets), "{\"action\":\"unsubscribe\",\"assets_ids\":[\"11\",\"22\"],\"type\":\"market\"}");
    assert_eq!(initial_subscription(&vec![]), None);
    assert_eq!(initial_subscription(&vec![s("7")]), Some(s("{\"assets_ids\":[\"7\"],\"type\":\"market\"}")));
}

#[test]
fn feed_loop_decisions() {
    assert!(matches!(feed_step(FeedInput::Text(s("{}"))), FeedAction::Decode(t) if t == "{}"));
    assert!(matches!(feed_step(FeedInput::Ping), FeedAction::Ignore));
    assert!(matches!(feed_step(FeedInput::OtherFrame), FeedAction::Ignore));
    assert!(matches!(feed_step(FeedInput::Failure), FeedAction::Stop));
    assert!(matches!(feed_step(FeedInput::Closed), FeedAction::Stop));
    assert!(matches!(feed_step(FeedInput::CommandsClosed), FeedAction::Stop));
    match feed_step(FeedInput::Command(WsCommand::Unsubscribe(vec![s("1")]))) {
        FeedAction::Send(m, k) => {
            assert_eq!(k, SendKind::Unsubscribe);
            assert_eq!(m, "{\"action\":\"unsubscribe\",\"assets_ids\":[\"1\"],\"type\":\"market\"}");
        }
        _ => panic!("expected a send"),
    }
}

#[test]
fn key_normalization() {
    assert_eq!(normalize_private_key("  \"0xABCDEF\"\n"), "ABCDEF");
    assert_eq!(normalize_private_key("'abc'"), "abc");
    assert_eq!(normalize_private_key("\"'0x12'\""), "12");
    assert_eq!(normalize_private_key("0x"), "");
    assert_eq!(normalize_private_key("\u{3000}beef\u{a0}"), "beef");
    assert_eq!(normalize_private_key("0xx"), "x");
    assert_eq!(normalize_private_key(""), "");
}

#[test]
fn dashboard_state_and_log_window() {
    let mut st = AppState::new();
    assert_eq!(st.balance, "Loading...");
    assert_eq!(st.shard, "Unknown");
    assert_eq!(st.total_profit, "$0.00");
    assert_eq!(st.active_arbs, 0);
    assert_eq!(st.events_processed, 0);
    assert!(st.logs.is_empty());
    for i in 0..60 {
        st.add_log(s("INFO"), format!("m{}", i));
    }
    assert_eq!(st.logs.len(), 50);
    assert_eq!(st.logs.front().unwrap().msg, "m10");
    assert_eq!(st.logs.back().unwrap().msg, "m59");
    let ts = &st.logs.back().unwrap().timestamp;
    assert_eq!(ts.len(), 8);
    assert_eq!(&ts[2..3], ":");
    assert_eq!(&ts[5..6], ":");
}

#[test]
fn dashboard_texts() {
    let mut st = AppState::new();
    st.events_processed = 42;
    st.active_arbs = 3;
    assert_eq!(header_text(&st), " POLYBOT SWARM | SHARD: Unknown | BALANCE: Loading... | EVENTS: 42");
    assert_eq!(stats_text(&st), "Active Arbitrages: 3\nTotal Profit (Est): $0.00");
    let log = AppLog { level: s("WARN"), msg: s("careful"), timestamp: s("12:00:01") };
    assert_eq!(log_line(&log), "12:00:01 [WARN] careful");
    assert_eq!(level_color(&s("ERROR")), LogColor::Red);
    assert_eq!(level_color(&s("WARN")), LogColor::Yellow);
    assert_eq!(level_color(&s("INFO")), LogColor::White);
    assert_eq!(level_color(&s("ARBITRAGE")), LogColor::Green);
    assert_eq!(level_color(&s("NEAR_MISS")), LogColor::White);
}

#[test]
fn scan_keeps_wanted_and_stops() {
    let mut scan = MarketScan::new(2);
    let a = scan.observe(true, true, false);
    assert!(a.keep && !a.stop);
    let b = scan.observe(true, false, false);
    assert!(!b.keep && !b.stop);
    let c = scan.observe(true, true, true);
    assert!(!c.keep && !c.stop);
    let d = scan.observe(true, true, false);
    assert!(d.keep && d.stop);
    assert_eq!(scan.scanned, 4);
    assert!(!scan.reports_totals());
    assert!(MarketScan::new(100).reports_totals());
    let mut long = MarketScan::new(1_000_000);
    let mut last = long.observe(false, false, false);
    while !last.stop {
        last = long.observe(false, false, false);
    }
    assert_eq!(long.scanned, 5000);
}

#[test]
fn heartbeat_and_rotation_pacing() {
    let mut c = EventCounter::new();
    let mut beats = 0;
    let mut rotations = 0;
    for _ in 0..1000 {
        let p = c.record();
        if p.heartbeat {
            beats += 1;
        }
        if p.rotate {
            rotations += 1;
            assert!(p.heartbeat);
        }
    }
    assert_eq!(beats, 10);
    assert_eq!(rotations, 2);
}

#[test]
fn token_batches() {
    let tokens: Vec<String> = (0..45).map(|i| i.to_string()).collect();
    let batches = chunk_tokens(&tokens, 20);
    assert_eq!(batches.len(), 3);
    assert_eq!(batches[0].len(), 20);
    assert_eq!(batches[2].len(), 5);
    assert_eq!(batches[2][4], "44");
    assert!(chunk_tokens(&vec![], 20).is_empty());
}

#[test]
fn config_defaults_and_balance() {
    assert_eq!(clob_host(None), "https://clob.polymarket.com");
    assert_eq!(clob_host(Some(s("http://h"))), "http://h");
    assert_eq!(rpc_url(None), "https://polygon-rpc.com");
    assert_eq!(token_balance("2500000"), Some(Dec::new(250, 2)));
    assert_eq!(token_balance("0x10"), None);
}

#[test]
fn feed_goes_on_after_undecodable_frames_and_stops_on_failed_hand_over_or_write() {
    assert!(feed_continues(StepOutcome::Undecodable));
    assert!(feed_continues(StepOutcome::Nothing));
    assert!(feed_continues(StepOutcome::HandedOn { accepted: true }));
    assert!(!feed_continues(StepOutcome::HandedOn { accepted: false }));
    assert!(feed_continues(StepOutcome::Written { ok: true }));
    assert!(!feed_continues(StepOutcome::Written { ok: false }));
    assert!(!feed_continues(StepOutcome::Stopped));
}
