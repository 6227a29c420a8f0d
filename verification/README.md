# polybot

A negative-risk arbitrage scanner for Polymarket-style order books. The
library under `src/` holds the decisions, each proved against its
contract; `app/` holds
the programs that talk to the exchange, the market feed, Discord and the
terminal.

- `decimal` — prices as mantissa and scale; arithmetic through `rust_decimal`.
- `market` — the order-book cache: tracking, price updates, book snapshots,
  stale-market selection, dropping and admitting markets.
- `arb` — the decision on a market (arbitrage below an ask sum of 0.99, near
  miss, miss) and how it is logged; the orders of an arbitrage (5 shares of
  each outcome, fewer where that would spend more than 5.00) and the sells
  that unwind a batch of which some order failed.
- `scan` — listing scans, heartbeat and rotation pacing and steps, request
  batches.
- `websocket` — feed types, subscription messages, the feed loop's steps and
  when it goes on.
- `discord`, `tui` — alert text and the dashboard state and text.
- `keys`, `config`, `text`, `json` — key clean-up, settings, decimal
  rendering of integers, JSON framing.
- `laws` — properties that span several operations.

`app/` also uses `alloy` (key generation and the on-chain balance) and the
Polymarket client SDK (`polymarket_client_sdk`). Neither is a dependency in
`Cargo.toml`: the library needs neither, and `alloy` alone pulls in several
hundred packages. `app/` builds where both are added.
