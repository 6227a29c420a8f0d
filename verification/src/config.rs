//! Settings read from the environment, with their defaults.
use vstd::prelude::*;

use crate::decimal::{Dec, decimal_checked_div, decimal_parse};
use crate::text::owned;

verus! {

/// The CLOB endpoint: the configured one, or the public endpoint.
pub fn clob_host(configured: Option<String>) -> (host: String)
    ensures
        host@ == match configured {
            Some(h) => h@,
            None => "https://clob.polymarket.com"@,
        },
{
    match configured {
        Some(h) => h,
        None => owned("https://clob.polymarket.com"),
    }
}

/// The Polygon RPC endpoint: the configured one, or the public endpoint.
pub fn rpc_url(configured: Option<String>) -> (url: String)
    ensures
        url@ == match configured {
            Some(u) => u@,
            None => "https://polygon-rpc.com"@,
        },
{
    match configured {
        Some(u) => u,
        None => owned("https://polygon-rpc.com"),
    }
}

/// Conditional-token balances have six decimals: 1_000_000.
pub open spec fn token_unit() -> Dec {
    Dec { mantissa: 1000000, scale: 0 }
}

/// A raw on-chain balance, given as decimal text, in whole tokens; `None`
/// when the text is not a decimal (or the division overflows).
pub fn token_balance(raw: &str) -> (b: Option<Dec>)
    ensures
        b == match decimal_parse(raw@) {
            Some(d) => decimal_checked_div(d, token_unit()),
            None => None,
        },
{
    match Dec::parse(raw) {
        Some(d) => d.checked_div(&Dec::new(1000000, 0)),
        None => None,
    }
}

} // verus!
