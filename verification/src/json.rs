//! JSON documents as the configuration logic reads them.
use vstd::prelude::*;

verus! {

/// A JSON value: what the `json` crate parses. A number is kept in the crate's
/// decimal parts: whether it is positive, its mantissa and its exponent. An
/// object's entries come in the order in which the crate yields them.
pub enum JsonData {
    Null,
    Bool(bool),
    Number(bool, u64, i16),
    Str(String),
    Array(Vec<JsonData>),
    Object(Vec<(String, JsonData)>),
}

/// What `json::parse` makes of a text: `None` when the text is no JSON document.
pub uninterp spec fn json_parse(text: Seq<char>) -> Option<JsonData>;

#[verifier::external_type_specification]
#[verifier::external_body]
pub struct ExJsonValue(json::JsonValue);

/// Turns a value of the `json` crate into a [`JsonData`], variant for variant.
#[verifier::external_body]
fn from_json_value(v: &json::JsonValue) -> JsonData {
    match v {
        json::JsonValue::Null => JsonData::Null,
        json::JsonValue::Boolean(b) => JsonData::Bool(*b),
        json::JsonValue::Number(n) => JsonData::Number(n.as_parts().0, n.as_parts().1, n.as_parts().2),
        json::JsonValue::Short(s) => JsonData::Str(s.as_str().to_string()),
        json::JsonValue::String(s) => JsonData::Str(s.clone()),
        json::JsonValue::Array(a) => JsonData::Array(a.iter().map(from_json_value).collect()),
        json::JsonValue::Object(o) => JsonData::Object(
            o.iter().map(|(k, v)| (k.to_string(), from_json_value(v))).collect(),
        ),
    }
}

/// The most fraction digits the parser can count. It keeps a number's decimal
/// exponent in an `i16`, one lower for each fraction digit it takes into the
/// mantissa; after a zero integer part the exponent starts at zero, so one digit
/// more takes it below `i16::MIN`.
pub const FRACTION_DIGIT_LIMIT: usize = 32768;

/// An ASCII digit.
pub open spec fn is_digit(c: char) -> bool {
    '0' <= c && c <= '9'
}

/// The value of an ASCII digit.
pub open spec fn digit_value(c: char) -> int {
    c as int - '0' as int
}

/// How many digits of the run starting at `k` the parser takes into a mantissa
/// that holds `num`: a digit is taken when `num * 10 + digit` still fits a `u64`
/// (the mantissa then grows), and skipped otherwise.
pub open spec fn counted_digits(t: Seq<char>, k: int, num: int) -> int
    decreases t.len() - k,
{
    if 0 <= k < t.len() && is_digit(t[k]) {
        let next = num * 10 + digit_value(t[k]);
        if next <= u64::MAX {
            1 + counted_digits(t, k + 1, next)
        } else {
            counted_digits(t, k + 1, num)
        }
    } else {
        0
    }
}

/// Before the character at `n`: whether the text is inside a JSON string, and
/// whether that character is escaped by a backslash.
pub open spec fn string_state(t: Seq<char>, n: int) -> (bool, bool)
    decreases n,
{
    if n <= 0 || n > t.len() {
        (false, false)
    } else {
        let (inside, escaped) = string_state(t, n - 1);
        let c = t[n - 1];
        if !inside {
            (c == '"', false)
        } else if escaped {
            (true, false)
        } else if c == '\\' {
            (true, true)
        } else {
            (c != '"', false)
        }
    }
}

/// A character after which a JSON value may begin: what the parser skips as
/// white space (a space, or a control character from tab to carriage return),
/// `:`, `,` or `[`.
pub open spec fn opens_value(c: char) -> bool {
    c == ' ' || ('\t' <= c && c <= '\r') || c == ':' || c == ',' || c == '['
}

/// The character at `i` begins a number, or its digits after a leading `-`: it
/// stands at the start of the text or after a character that opens a value,
/// with at most a `-` between.
pub open spec fn number_starts_at(t: Seq<char>, i: int) -> bool {
    let j = if i > 0 && t[i - 1] == '-' {
        i - 1
    } else {
        i
    };
    j == 0 || opens_value(t[j - 1])
}

/// A number with a zero integer part at `i`, outside strings, whose fraction
/// the parser counts past [`FRACTION_DIGIT_LIMIT`] digits.
pub open spec fn long_fraction_at(t: Seq<char>, i: int) -> bool {
    &&& 0 <= i
    &&& i + 1 < t.len()
    &&& t[i] == '0'
    &&& t[i + 1] == '.'
    &&& !string_state(t, i).0
    &&& number_starts_at(t, i)
    &&& counted_digits(t, i + 2, 0) > FRACTION_DIGIT_LIMIT
}

/// Some number in the text has a fraction longer than the parser can count.
pub open spec fn long_fraction(text: Seq<char>) -> bool {
    exists|i: int| long_fraction_at(text, i)
}

/// How many digits of the run starting at `s` the parser counts (see
/// [`counted_digits`]), for a mantissa that starts at zero.
fn count_fraction_digits(cs: &Vec<char>, s: usize) -> (r: usize)
    requires
        s <= cs@.len(),
    ensures
        r == counted_digits(cs@, s as int, 0),
{
    let mut k: usize = s;
    let mut count: usize = 0;
    let mut num: u64 = 0;
    while k < cs.len() && '0' <= cs[k] && cs[k] <= '9'
        invariant
            s <= k <= cs@.len(),
            count <= k - s,
            count + counted_digits(cs@, k as int, num as int) == counted_digits(cs@, s as int, 0),
        decreases cs@.len() - k,
    {
        let c = cs[k];
        let d: u64 = if c == '0' { 0 } else if c == '1' { 1 } else if c == '2' { 2 } else if c
            == '3' { 3 } else if c == '4' { 4 } else if c == '5' { 5 } else if c == '6' { 6 } else if c
            == '7' { 7 } else if c == '8' { 8 } else { 9 };
        assert(d == digit_value(c));
        match num.checked_mul(10) {
            Some(m) => match m.checked_add(d) {
                Some(n) => {
                    num = n;
                    count = count + 1;
                },
                None => {},
            },
            None => {},
        }
        k = k + 1;
    }
    count
}

/// Whether some number in the text has a fraction longer than the parser can
/// count (see [`long_fraction`]).
pub fn has_long_fraction(text: &str) -> (r: bool)
    ensures
        r == long_fraction(text@),
{
    let cs = crate::text::chars_of(text);
    let ghost t = text@;
    let mut inside = false;
    let mut escaped = false;
    let mut i: usize = 0;
    while i < cs.len()
        invariant
            cs@ == t,
            t == text@,
            i <= t.len(),
            string_state(t, i as int) == (inside, escaped),
            forall|k: int| 0 <= k < i ==> !long_fraction_at(t, k),
        decreases t.len() - i,
    {
        let c = cs[i];
        if !inside && c == '0' && i + 1 < cs.len() && cs[i + 1] == '.' {
            let j = if i > 0 && cs[i - 1] == '-' { i - 1 } else { i };
            let starts = j == 0 || {
                let o = cs[j - 1];
                o == ' ' || ('\t' <= o && o <= '\r') || o == ':' || o == ',' || o == '['
            };
            if starts && count_fraction_digits(&cs, i + 2) > FRACTION_DIGIT_LIMIT {
                assert(long_fraction_at(t, i as int));
                return true;
            }
        }
        if !inside {
            inside = c == '"';
            escaped = false;
        } else if escaped {
            escaped = false;
        } else if c == '\\' {
            escaped = true;
        } else {
            inside = c != '"';
        }
        i = i + 1;
    }
    false
}

/// Trusted: `json::parse` reads `text`; its result, as a [`JsonData`], is the
/// value named [`json_parse`] (a function of the text alone), and it fails exactly
/// where that value is `None`. What the parser accepts is not restated here. A
/// number with a zero integer part whose fraction the parser counts past
/// [`FRACTION_DIGIT_LIMIT`] digits overflows its `i16` exponent (a panic where
/// overflow is checked), so texts holding such a number outside strings are left
/// out; that includes the rare text where a syntax error before the number would
/// have stopped the parser first.
#[verifier::external_body]
pub(crate) fn parse_json(text: &str) -> (r: Option<JsonData>)
    requires
        !long_fraction(text@),
    ensures
        r == json_parse(text@),
{
    match json::parse(text) {
        Ok(v) => Some(from_json_value(&v)),
        Err(_) => None,
    }
}

} // verus!
