//! JSON text for the messages the bot sends: string literals come from
//! `serde_json`, the surrounding objects and arrays are framed here.
use vstd::prelude::*;
use vstd::string::*;

verus! {

/// A digit of lower-case hexadecimal, for `0 <= n < 16`.
pub open spec fn hex_digit(n: int) -> char {
    if n < 10 {
        (('0' as int) + n) as char
    } else {
        (('a' as int) + n - 10) as char
    }
}

/// How a JSON string literal writes one character: a quote and a backslash
/// behind a backslash; backspace, tab, line feed, form feed and carriage
/// return by their short escapes; the other characters below U+0020 as
/// `\u00` and two lower-case hex digits; every other character as it is.
pub open spec fn json_escape_char(c: char) -> Seq<char> {
    if c == '"' {
        seq!['\\', '"']
    } else if c == '\\' {
        seq!['\\', '\\']
    } else if c == '\u{8}' {
        seq!['\\', 'b']
    } else if c == '\t' {
        seq!['\\', 't']
    } else if c == '\n' {
        seq!['\\', 'n']
    } else if c == '\u{c}' {
        seq!['\\', 'f']
    } else if c == '\r' {
        seq!['\\', 'r']
    } else if (c as u32) < 0x20 {
        seq!['\\', 'u', '0', '0', hex_digit((c as int) / 16), hex_digit((c as int) % 16)]
    } else {
        seq![c]
    }
}

/// The characters of a text as a JSON string literal writes them between
/// its quotes.
pub open spec fn json_escape(s: Seq<char>) -> Seq<char>
    decreases s.len(),
{
    if s.len() == 0 {
        Seq::empty()
    } else {
        json_escape(s.drop_last()) + json_escape_char(s.last())
    }
}

/// The JSON string literal of a text.
pub open spec fn json_string(s: Seq<char>) -> Seq<char> {
    seq!['"'] + json_escape(s) + seq!['"']
}

/// A text that JSON writes without escapes: no quote, no backslash and no
/// control character below U+0020.
pub open spec fn is_plain_json_text(s: Seq<char>) -> bool {
    forall|i: int|
        0 <= i < s.len() ==> #[trigger] s[i] != '"' && s[i] != '\\' && (s[i] as u32) >= 0x20
}

/// A text without quotes, backslashes and control characters is written
/// as it is.
pub proof fn lemma_plain_text_unescaped(s: Seq<char>)
    requires
        is_plain_json_text(s),
    ensures
        json_escape(s) == s,
    decreases s.len(),
{
    if s.len() > 0 {
        let p = s.drop_last();
        assert forall|i: int| 0 <= i < p.len() implies #[trigger] p[i] != '"' && p[i] != '\\' && (p[i] as u32) >= 0x20 by {
            assert(p[i] == s[i]);
        }
        lemma_plain_text_unescaped(p);
        let c = s.last();
        assert(c == s[s.len() - 1]);
        assert(json_escape_char(c) == seq![c]);
        assert(p + seq![c] =~= s);
    }
}

/// Calls `serde_json::to_string` on a `&str`. Its source (the compact
/// formatter over `format_escaped_str`) writes an opening quote, each
/// character of the text as `json_escape_char` says (the escape table marks
/// only the bytes below 0x20, the quote and the backslash; all bytes of a
/// character beyond ASCII pass unescaped), then a closing quote. Serialising a string into a
/// byte buffer cannot fail, so the error arm is never taken.
#[verifier::external_body]
fn serde_json_quote(s: &str) -> (r: String)
    ensures
        r@ == json_string(s@),
{
    match serde_json::to_string(s) {
        Ok(t) => t,
        Err(_) => String::new(),
    }
}

/// The JSON string literal of a text.
pub fn json_string_literal(s: &str) -> (r: String)
    ensures
        r@ == json_string(s@),
        is_plain_json_text(s@) ==> r@ == seq!['"'] + s@ + seq!['"'],
{
    proof {
        if is_plain_json_text(s@) {
            lemma_plain_text_unescaped(s@);
        }
    }
    serde_json_quote(s)
}

/// The comma-separated JSON string literals of `items`, as a compact JSON
/// array holds them between its brackets.
pub open spec fn json_list_body(items: Seq<Seq<char>>) -> Seq<char>
    decreases items.len(),
{
    if items.len() == 0 {
        Seq::empty()
    } else if items.len() == 1 {
        json_string(items[0])
    } else {
        json_list_body(items.drop_last()) + seq![','] + json_string(items.last())
    }
}

/// The views of a vector of strings.
pub open spec fn string_views(v: Seq<String>) -> Seq<Seq<char>> {
    v.map_values(|s: String| s@)
}

/// The compact JSON array of the strings in `items`.
pub fn json_string_array(items: &Vec<String>) -> (r: String)
    ensures
        r@ == seq!['['] + json_list_body(string_views(items@)) + seq![']'],
{
    let mut out = String::new();
    proof {
        reveal_strlit("[");
        reveal_strlit("]");
        reveal_strlit(",");
    }
    out.append("[");
    let n = items.len();
    let mut i: usize = 0;
    while i < n
        invariant
            n == items@.len(),
            0 <= i <= n,
            out@ == seq!['['] + json_list_body(string_views(items@).take(i as int)),
        decreases n - i,
    {
        let ghost views = string_views(items@);
        let ghost before = out@;
        let ghost next = views.take(i + 1);
        assert(next.drop_last() =~= views.take(i as int));
        assert(next.last() == items@[i as int]@);
        if i > 0 {
            out.append(",");
            proof {
                reveal_strlit(",");
            }
            assert(","@ =~= seq![',']);
            assert(out@ =~= before + seq![',']);
        }
        let ghost mid = out@;
        let lit = json_string_literal(items[i].as_str());
        out.append(lit.as_str());
        proof {
            if i == 0 {
                assert(next.len() == 1);
                assert(json_list_body(next) == json_string(next[0]));
                assert(views.take(0) =~= Seq::<Seq<char>>::empty());
                assert(out@ =~= seq!['['] + json_list_body(next));
            } else {
                assert(out@ =~= mid + lit@);
                assert(mid =~= seq!['['] + json_list_body(views.take(i as int)) + seq![',']);
                assert(json_list_body(next) == json_list_body(next.drop_last()) + seq![','] + json_string(next.last()));
                assert(out@ =~= seq!['['] + json_list_body(next));
            }
        }
        i = i + 1;
    }
    assert(string_views(items@).take(n as int) =~= string_views(items@));
    out.append("]");
    out
}

} // verus!
