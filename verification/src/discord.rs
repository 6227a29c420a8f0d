//! Discord alert text: the message for a detected arbitrage and the JSON
//! body posted to the webhook.
use vstd::prelude::*;
use vstd::string::*;

use crate::json::{json_string, json_string_literal};

verus! {

/// The alert message for an arbitrage on `condition_id`.
pub open spec fn arb_alert_text(
    condition_id: Seq<char>,
    profit: Seq<char>,
    sum: Seq<char>,
    link: Seq<char>,
) -> Seq<char> {
    "🚨 **Arbitrage Detected!** 🚨\n\n**Condition**: `"@ + condition_id + "`\n**Profit**: `$"@
        + profit + "`\n**Sum**: `"@ + sum + "`\n[View Market]("@ + link + ")"@
}

/// Formats a robust alert message from arbitrage details.
pub fn format_arb_alert(condition_id: &str, profit: String, sum: String, link: &str) -> (s: String)
    ensures
        s@ == arb_alert_text(condition_id@, profit@, sum@, link@),
{
    let mut s = String::new();
    s.append("🚨 **Arbitrage Detected!** 🚨\n\n**Condition**: `");
    s.append(condition_id);
    s.append("`\n**Profit**: `$");
    s.append(profit.as_str());
    s.append("`\n**Sum**: `");
    s.append(sum.as_str());
    s.append("`\n[View Market](");
    s.append(link);
    s.append(")");
    s
}

/// The webhook body `{"content":"..."}` for an alert.
pub fn alert_payload(content: &str) -> (body: String)
    ensures
        body@ == "{\"content\":"@ + json_string(content@) + "}"@,
{
    let mut body = String::new();
    body.append("{\"content\":");
    let lit = json_string_literal(content);
    body.append(lit.as_str());
    body.append("}");
    body
}

/// The webhook to post to: the configured URL when it is set and not empty.
pub fn webhook_target(configured: Option<String>) -> (target: Option<String>)
    ensures
        target == (match configured {
            Some(url) => if url@.len() == 0 { None::<String> } else { Some(url) },
            None => None::<String>,
        }),
{
    match configured {
        Some(url) => if url.as_str().is_empty() { None } else { Some(url) },
        None => None,
    }
}

} // verus!
