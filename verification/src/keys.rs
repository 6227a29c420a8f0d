//! Clean-up of a private key read from the environment: surrounding
//! whitespace and quotes go, and so does a `0x` prefix.
use vstd::prelude::*;
use vstd::string::*;

verus! {

/// Whether `c` has the Unicode `White_Space` property, which is what
/// `char::is_whitespace` and `str::trim` go by.
pub open spec fn is_unicode_whitespace(c: char) -> bool {
    let v = c as u32;
    ||| 0x09 <= v <= 0x0D
    ||| v == 0x20
    ||| v == 0x85
    ||| v == 0xA0
    ||| v == 0x1680
    ||| 0x2000 <= v <= 0x200A
    ||| v == 0x2028
    ||| v == 0x2029
    ||| v == 0x202F
    ||| v == 0x205F
    ||| v == 0x3000
}

/// Which characters a trimming step removes.
#[derive(Debug, Clone, Copy, PartialEq, Eq, Structural)]
pub enum TrimSet {
    Whitespace,
    DoubleQuote,
    SingleQuote,
}

/// Whether a trimming step removes `c`.
pub open spec fn trims(set: TrimSet, c: char) -> bool {
    match set {
        TrimSet::Whitespace => is_unicode_whitespace(c),
        TrimSet::DoubleQuote => c == '"',
        TrimSet::SingleQuote => c == '\'',
    }
}

/// `s` without its leading characters of `set`.
pub open spec fn trim_start(s: Seq<char>, set: TrimSet) -> Seq<char>
    decreases s.len(),
{
    if s.len() > 0 && trims(set, s[0]) {
        trim_start(s.drop_first(), set)
    } else {
        s
    }
}

/// `s` without its trailing characters of `set`.
pub open spec fn trim_end(s: Seq<char>, set: TrimSet) -> Seq<char>
    decreases s.len(),
{
    if s.len() > 0 && trims(set, s.last()) {
        trim_end(s.drop_last(), set)
    } else {
        s
    }
}

/// `s` without leading and trailing characters of `set`, as `str::trim`
/// (for whitespace) and `str::trim_matches` (for one character) give it.
pub open spec fn trim_both(s: Seq<char>, set: TrimSet) -> Seq<char> {
    trim_end(trim_start(s, set), set)
}

/// The key as the bot uses it: trimmed of whitespace, then of double
/// quotes, then of single quotes, and without a leading `0x`.
pub open spec fn normalized_key(raw: Seq<char>) -> Seq<char> {
    let t = trim_both(trim_both(trim_both(raw, TrimSet::Whitespace), TrimSet::DoubleQuote), TrimSet::SingleQuote);
    if t.len() >= 2 && t[0] == '0' && t[1] == 'x' {
        t.skip(2)
    } else {
        t
    }
}

/// Whether a trimming step removes `c`.
fn trims_char(set: TrimSet, c: char) -> (b: bool)
    ensures
        b == trims(set, c),
{
    match set {
        TrimSet::Whitespace => {
            let v = c as u32;
            (0x09 <= v && v <= 0x0D) || v == 0x20 || v == 0x85 || v == 0xA0 || v == 0x1680 || (0x2000
                <= v && v <= 0x200A) || v == 0x2028 || v == 0x2029 || v == 0x202F || v == 0x205F || v
                == 0x3000
        },
        TrimSet::DoubleQuote => c == '"',
        TrimSet::SingleQuote => c == '\'',
    }
}

/// Narrows the character range `lo..hi` of `s` to its trimmed part.
fn trim_range(s: &str, lo: usize, hi: usize, set: TrimSet) -> (r: (usize, usize))
    requires
        lo <= hi <= s@.len(),
    ensures
        lo <= r.0 <= r.1 <= hi,
        s@.subrange(r.0 as int, r.1 as int) == trim_both(s@.subrange(lo as int, hi as int), set),
{
    let mut a = lo;
    while a < hi && trims_char(set, s.get_char(a))
        invariant
            lo <= a <= hi,
            hi <= s@.len(),
            trim_start(s@.subrange(lo as int, hi as int), set) == trim_start(s@.subrange(a as int, hi as int), set),
        decreases hi - a,
    {
        assert(s@.subrange(a as int, hi as int).drop_first() =~= s@.subrange(a + 1, hi as int));
        a = a + 1;
    }
    assert(trim_start(s@.subrange(a as int, hi as int), set) == s@.subrange(a as int, hi as int));
    let mut b = hi;
    while b > a && trims_char(set, s.get_char(b - 1))
        invariant
            a <= b <= hi,
            hi <= s@.len(),
            trim_end(s@.subrange(a as int, hi as int), set) == trim_end(s@.subrange(a as int, b as int), set),
        decreases b - a,
    {
        assert(s@.subrange(a as int, b as int).drop_last() =~= s@.subrange(a as int, b - 1));
        b = b - 1;
    }
    assert(trim_end(s@.subrange(a as int, b as int), set) == s@.subrange(a as int, b as int));
    (a, b)
}

/// Cleans a private key read from the environment: trims whitespace, then
/// double quotes, then single quotes, and drops a leading `0x`.
pub fn normalize_private_key(raw: &str) -> (key: String)
    ensures
        key@ == normalized_key(raw@),
{
    let n = raw.unicode_len();
    assert(raw@.subrange(0, n as int) =~= raw@);
    let (a1, b1) = trim_range(raw, 0, n, TrimSet::Whitespace);
    let (a2, b2) = trim_range(raw, a1, b1, TrimSet::DoubleQuote);
    let (a3, b3) = trim_range(raw, a2, b2, TrimSet::SingleQuote);
    let ghost t = raw@.subrange(a3 as int, b3 as int);
    assert(t == trim_both(trim_both(trim_both(raw@, TrimSet::Whitespace), TrimSet::DoubleQuote), TrimSet::SingleQuote));
    if b3 - a3 >= 2 && raw.get_char(a3) == '0' && raw.get_char(a3 + 1) == 'x' {
        assert(raw@.subrange(a3 + 2, b3 as int) =~= t.skip(2));
        raw.substring_char(a3 + 2, b3).to_owned()
    } else {
        raw.substring_char(a3, b3).to_owned()
    }
}

} // verus!
