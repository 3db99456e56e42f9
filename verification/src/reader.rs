//! Reading standard JSON text into the library's values. The engine
//! hands its parse results over as standard JSON, and this is where they
//! become [`Value`]s: numbers keep their decimal digits, and an object
//! keeps its keys in the order the text gives them.

use vstd::prelude::*;

use crate::args::{insert_entry, insert_exec};
use crate::merge::lemma_key_index;
use crate::number::Num;
use crate::value::{
    NumModel, entry_models, keys_unique, lemma_all_entries_wf, lemma_all_wf, lemma_entry_models,
    lemma_models, models, Json, Value,
};

verus! {

// ---------------------------------------------------------------------
// The grammar, as spec functions over the text's characters
// ---------------------------------------------------------------------

pub open spec fn is_space(c: char) -> bool {
    c == ' ' || c == '\n' || c == '\r' || c == '\t'
}

/// The first position at or after `pos` that is not whitespace.
pub open spec fn skip_from(chars: Seq<char>, pos: int) -> int
    decreases chars.len() - pos,
{
    if 0 <= pos < chars.len() && is_space(chars[pos]) {
        skip_from(chars, pos + 1)
    } else {
        pos
    }
}

/// `word` stands at `pos`.
pub open spec fn word_at(chars: Seq<char>, pos: int, word: Seq<char>) -> bool {
    0 <= pos && pos + word.len() <= chars.len() && chars.subrange(pos, pos + word.len()) == word
}

pub open spec fn hex_digit_value(c: char) -> Option<int> {
    if '0' <= c && c <= '9' {
        Some(c as int - 48)
    } else if 'a' <= c && c <= 'f' {
        Some(c as int - 87)
    } else if 'A' <= c && c <= 'F' {
        Some(c as int - 55)
    } else {
        None
    }
}

/// Four hex digits at `pos`, as a number.
pub open spec fn hex4_at(chars: Seq<char>, pos: int) -> Option<int> {
    if 0 <= pos && pos + 4 <= chars.len() {
        match (
            hex_digit_value(chars[pos]),
            hex_digit_value(chars[pos + 1]),
            hex_digit_value(chars[pos + 2]),
            hex_digit_value(chars[pos + 3]),
        ) {
            (Some(a), Some(b), Some(c), Some(d)) => Some(((a * 16 + b) * 16 + c) * 16 + d),
            _ => None,
        }
    } else {
        None
    }
}

/// A Unicode scalar value: not a surrogate, and at most U+10FFFF.
pub open spec fn is_scalar(code: int) -> bool {
    (0 <= code < 0xD800) || (0xE000 <= code <= 0x10FFFF)
}

/// The body of a string literal from `at`, after what `acc` already
/// holds: its characters and the position after the closing quote.
pub open spec fn string_body(chars: Seq<char>, at: int, acc: Seq<char>) -> Option<
    (Seq<char>, int),
>
    decreases chars.len() - at,
{
    if at < 0 || at >= chars.len() {
        None
    } else if chars[at] == '"' {
        Some((acc, at + 1))
    } else if chars[at] != '\\' {
        string_body(chars, at + 1, acc.push(chars[at]))
    } else if at + 1 >= chars.len() {
        None
    } else {
        let e = chars[at + 1];
        if e == '"' || e == '\\' || e == '/' {
            string_body(chars, at + 2, acc.push(e))
        } else if e == 'b' {
            string_body(chars, at + 2, acc.push('\u{8}'))
        } else if e == 'f' {
            string_body(chars, at + 2, acc.push('\u{c}'))
        } else if e == 'n' {
            string_body(chars, at + 2, acc.push('\n'))
        } else if e == 'r' {
            string_body(chars, at + 2, acc.push('\r'))
        } else if e == 't' {
            string_body(chars, at + 2, acc.push('\t'))
        } else if e == 'u' {
            match hex4_at(chars, at + 2) {
                None => None,
                Some(code) => if 0xD800 <= code < 0xDC00 {
                    if at + 7 < chars.len() && chars[at + 6] == '\\' && chars[at + 7] == 'u' {
                        match hex4_at(chars, at + 8) {
                            Some(low) => if 0xDC00 <= low < 0xE000 {
                                let joined = 0x10000 + (code - 0xD800) * 0x400 + (low - 0xDC00);
                                string_body(chars, at + 12, acc.push(joined as char))
                            } else {
                                None
                            },
                            None => None,
                        }
                    } else {
                        None
                    }
                } else if is_scalar(code) {
                    string_body(chars, at + 6, acc.push(code as char))
                } else {
                    None
                },
            }
        } else {
            None
        }
    }
}

/// A string literal whose opening quote is at `pos`.
pub open spec fn string_at(chars: Seq<char>, pos: int) -> Option<(Seq<char>, int)> {
    if 0 <= pos < chars.len() && chars[pos] == '"' {
        string_body(chars, pos + 1, Seq::empty())
    } else {
        None
    }
}

pub open spec fn is_digit_at(chars: Seq<char>, at: int) -> bool {
    0 <= at < chars.len() && '0' <= chars[at] && chars[at] <= '9'
}

/// The end of the run of decimal digits starting at `at`.
pub open spec fn digit_run_end(chars: Seq<char>, at: int) -> int
    decreases chars.len() - at,
{
    if is_digit_at(chars, at) {
        digit_run_end(chars, at + 1)
    } else {
        at
    }
}

/// The digit values of a run of digit characters.
pub open spec fn digit_values(s: Seq<char>) -> Seq<u8> {
    Seq::new(s.len(), |i: int| (s[i] as int - 48) as u8)
}

/// The position of the first non-zero digit at or after `i`.
pub open spec fn lead_end(d: Seq<u8>, i: int) -> int
    decreases d.len() - i,
{
    if 0 <= i < d.len() && d[i] == 0 {
        lead_end(d, i + 1)
    } else {
        i
    }
}

/// The end of `d[lead..e]` once its trailing zero digits are dropped.
pub open spec fn trail_end(d: Seq<u8>, lead: int, e: int) -> int
    decreases e,
{
    if e > lead && 0 < e <= d.len() && d[e - 1] == 0 {
        trail_end(d, lead, e - 1)
    } else {
        e
    }
}

/// The largest exponent magnitude, and digit count, the reader takes.
pub open spec fn read_limit() -> int {
    100_000_000
}

/// The number made of the digits `all`, `point` of them before the
/// decimal point, times `10^exp`: leading and trailing zero digits
/// dropped, and the exponent moved to match.
pub open spec fn normalized(negative: bool, all: Seq<u8>, point: int, exp: int) -> NumModel {
    let lead = lead_end(all, 0);
    let end = trail_end(all, lead, all.len() as int);
    let digits = all.subrange(lead, end);
    NumModel {
        negative,
        digits,
        exponent: if digits.len() == 0 {
            0
        } else {
            point - lead + exp
        },
    }
}

/// The digits of a number's integer and fraction parts from `s`: their
/// values, how many stand before the point, and the position after them.
pub open spec fn mantissa_at(chars: Seq<char>, s: int) -> Option<(Seq<u8>, int, int)> {
    let e1 = digit_run_end(chars, s);
    if e1 == s {
        None
    } else {
        let has_frac = e1 < chars.len() && chars[e1] == '.';
        let e2 = if has_frac { digit_run_end(chars, e1 + 1) } else { e1 };
        if has_frac && e2 == e1 + 1 {
            None
        } else {
            let frac = if has_frac { chars.subrange(e1 + 1, e2) } else { Seq::empty() };
            Some((digit_values(chars.subrange(s, e1) + frac), e1 - s, e2))
        }
    }
}

/// A number's optional exponent part at `at`: its value and the position
/// after it; zero when there is none.
pub open spec fn exponent_at(chars: Seq<char>, at: int) -> Option<(int, int)> {
    let has_exp = 0 <= at < chars.len() && (chars[at] == 'e' || chars[at] == 'E');
    if !has_exp {
        Some((0, at))
    } else {
        let p = at + 1;
        let signed = p < chars.len() && (chars[p] == '+' || chars[p] == '-');
        let p2 = if signed { p + 1 } else { p };
        let e3 = digit_run_end(chars, p2);
        let magnitude = crate::stringify::decimal_value(chars.subrange(p2, e3)) as int;
        if e3 == p2 || magnitude > read_limit() {
            None
        } else if signed && chars[p] == '-' {
            Some((-magnitude, e3))
        } else {
            Some((magnitude, e3))
        }
    }
}

/// A number at `pos` in the standard grammar: an optional `-`, integer
/// digits, an optional fraction and an optional exponent.
pub open spec fn number_at(chars: Seq<char>, pos: int) -> Option<(NumModel, int)> {
    let negative = 0 <= pos < chars.len() && chars[pos] == '-';
    let s = if negative { pos + 1 } else { pos };
    match mantissa_at(chars, s) {
        None => None,
        Some((all, point, e2)) => match exponent_at(chars, e2) {
            None => None,
            Some((exp, end)) => if all.len() > read_limit() {
                None
            } else {
                Some((normalized(negative, all, point, exp), end))
            },
        },
    }
}

pub proof fn lemma_skip_from(chars: Seq<char>, pos: int)
    requires
        0 <= pos <= chars.len(),
    ensures
        pos <= skip_from(chars, pos) <= chars.len(),
    decreases chars.len() - pos,
{
    if pos < chars.len() && is_space(chars[pos]) {
        lemma_skip_from(chars, pos + 1);
    }
}

/// One value at `pos`, after any whitespace: the value and the position
/// after it.
pub open spec fn value_at(chars: Seq<char>, pos: int) -> Option<(Json, int)>
    decreases chars.len() - pos, 0int,
{
    if pos < 0 || pos > chars.len() {
        None
    } else {
        let at = skip_from(chars, pos);
        proof {
            lemma_skip_from(chars, pos);
        }
        if at >= chars.len() {
            None
        } else if chars[at] == 'n' {
            if word_at(chars, at, seq!['n', 'u', 'l', 'l']) {
                Some((Json::Null, at + 4))
            } else {
                None
            }
        } else if chars[at] == 't' {
            if word_at(chars, at, seq!['t', 'r', 'u', 'e']) {
                Some((Json::Bool(true), at + 4))
            } else {
                None
            }
        } else if chars[at] == 'f' {
            if word_at(chars, at, seq!['f', 'a', 'l', 's', 'e']) {
                Some((Json::Bool(false), at + 5))
            } else {
                None
            }
        } else if chars[at] == '"' {
            match string_at(chars, at) {
                Some((s, end)) => Some((Json::Str(s), end)),
                None => None,
            }
        } else if chars[at] == '[' {
            let p = skip_from(chars, at + 1);
            proof {
                lemma_skip_from(chars, at + 1);
            }
            if p < chars.len() && chars[p] == ']' {
                Some((Json::Array(Seq::empty()), p + 1))
            } else {
                array_items(chars, p, Seq::empty())
            }
        } else if chars[at] == '{' {
            let p = skip_from(chars, at + 1);
            proof {
                lemma_skip_from(chars, at + 1);
            }
            if p < chars.len() && chars[p] == '}' {
                Some((Json::Object(Seq::empty()), p + 1))
            } else {
                object_entries(chars, p, Seq::empty())
            }
        } else {
            match number_at(chars, at) {
                Some((n, end)) => Some((Json::Number(n), end)),
                None => None,
            }
        }
    }
}

/// The rest of an array from `at`, after the items `acc`: each item, then
/// `,` and the next, or `]` and the end.
pub open spec fn array_items(chars: Seq<char>, at: int, acc: Seq<Json>) -> Option<(Json, int)>
    decreases chars.len() - at, 1int,
{
    if at < 0 || at > chars.len() {
        None
    } else {
        match value_at(chars, at) {
            None => None,
            Some((v, end)) => if end <= at || end > chars.len() {
                None
            } else {
                let q = skip_from(chars, end);
                proof {
                    lemma_skip_from(chars, end);
                }
                if q >= chars.len() {
                    None
                } else if chars[q] == ']' {
                    Some((Json::Array(acc.push(v)), q + 1))
                } else if chars[q] == ',' {
                    array_items(chars, q + 1, acc.push(v))
                } else {
                    None
                }
            },
        }
    }
}

/// The rest of an object from `at`, after the entries `acc`: a string
/// key, `:`, a value, then `,` and the next entry, or `}` and the end. A
/// repeated key keeps its first position and takes the later value.
pub open spec fn object_entries(chars: Seq<char>, at: int, acc: Seq<(Seq<char>, Json)>) -> Option<
    (Json, int),
>
    decreases chars.len() - at, 1int,
{
    if at < 0 || at >= chars.len() {
        None
    } else {
        match string_at(chars, at) {
            None => None,
            Some((key, after)) => if after <= at || after > chars.len() {
                None
            } else {
                let colon = skip_from(chars, after);
                proof {
                    lemma_skip_from(chars, after);
                }
                if colon >= chars.len() || chars[colon] != ':' {
                    None
                } else {
                    match value_at(chars, colon + 1) {
                        None => None,
                        Some((v, end)) => if end <= colon + 1 || end > chars.len() {
                            None
                        } else {
                            let entries = insert_entry(acc, key, v);
                            let q = skip_from(chars, end);
                            proof {
                                lemma_skip_from(chars, end);
                            }
                            if q >= chars.len() {
                                None
                            } else if chars[q] == '}' {
                                Some((Json::Object(entries), q + 1))
                            } else if chars[q] == ',' {
                                let next = skip_from(chars, q + 1);
                                proof {
                                    lemma_skip_from(chars, q + 1);
                                }
                                object_entries(chars, next, entries)
                            } else {
                                None
                            }
                        },
                    }
                }
            },
        }
    }
}

/// The value a whole standard JSON text spells: one value with nothing
/// but whitespace around it.
pub open spec fn json_value(text: Seq<char>) -> Option<Json> {
    match value_at(text, 0) {
        Some((v, end)) => if skip_from(text, end) == text.len() {
            Some(v)
        } else {
            None
        },
        None => None,
    }
}

// ---------------------------------------------------------------------
// Executable readers
// ---------------------------------------------------------------------

/// The character whose scalar value is `code`, when there is one, by
/// std's `char::from_u32`; the contract claims what its documentation
/// says: `None` for a surrogate or a value past U+10FFFF, and the
/// character with that value otherwise.
#[verifier::external_body]
fn char_from_code(code: u32) -> (r: Option<char>)
    ensures
        r == if is_scalar(code as int) {
            Some(code as char)
        } else {
            None::<char>
        },
{
    char::from_u32(code)
}

fn skip_space(chars: &Vec<char>, pos: usize) -> (r: usize)
    requires
        pos <= chars@.len(),
    ensures
        pos <= r <= chars@.len(),
        r as int == skip_from(chars@, pos as int),
{
    let mut at = pos;
    while at < chars.len() && (chars[at] == ' ' || chars[at] == '\n' || chars[at] == '\r'
        || chars[at] == '\t')
        invariant
            pos <= at <= chars@.len(),
            skip_from(chars@, pos as int) == skip_from(chars@, at as int),
        decreases chars@.len() - at,
    {
        at = at + 1;
    }
    at
}

/// Match the literal `word` at `pos`.
fn expect_word(chars: &Vec<char>, pos: usize, word: &[char]) -> (r: bool)
    requires
        pos <= chars@.len(),
    ensures
        r == word_at(chars@, pos as int, word@),
        r ==> pos + word@.len() <= chars@.len(),
{
    let n = chars.len();
    if word.len() > n - pos {
        return false;
    }
    let mut i: usize = 0;
    while i < word.len()
        invariant
            i <= word@.len(),
            n == chars@.len(),
            pos + word@.len() <= n,
            forall|k: int| 0 <= k < i ==> chars@[pos + k] == word@[k],
        decreases word@.len() - i,
    {
        if chars[pos + i] != word[i] {
            assert(chars@.subrange(pos as int, pos + word@.len())[i as int] != word@[i as int]);
            return false;
        }
        i = i + 1;
    }
    assert(chars@.subrange(pos as int, pos + word@.len()) =~= word@);
    true
}

fn hex_value(c: char) -> (r: Option<u32>)
    ensures
        r matches Some(v) ==> v < 16,
        match hex_digit_value(c) {
            Some(v) => r == Some(v as u32),
            None => r is None,
        },
{
    if '0' <= c && c <= '9' {
        Some((c as u32) - 48)
    } else if 'a' <= c && c <= 'f' {
        Some((c as u32) - 87)
    } else if 'A' <= c && c <= 'F' {
        Some((c as u32) - 55)
    } else {
        None
    }
}

/// Four hex digits at `pos`.
fn read_hex4(chars: &Vec<char>, pos: usize) -> (r: Option<u32>)
    requires
        pos <= chars@.len(),
    ensures
        r is Some ==> pos + 4 <= chars@.len(),
        r matches Some(v) ==> v < 0x10000,
        match hex4_at(chars@, pos as int) {
            Some(v) => r == Some(v as u32),
            None => r is None,
        },
{
    let n = chars.len();
    if n - pos < 4 {
        return None;
    }
    let a = match hex_value(chars[pos]) {
        Some(v) => v,
        None => {
            return None;
        },
    };
    let b = match hex_value(chars[pos + 1]) {
        Some(v) => v,
        None => {
            return None;
        },
    };
    let c = match hex_value(chars[pos + 2]) {
        Some(v) => v,
        None => {
            return None;
        },
    };
    let d = match hex_value(chars[pos + 3]) {
        Some(v) => v,
        None => {
            return None;
        },
    };
    Some(((a * 16 + b) * 16 + c) * 16 + d)
}

/// A string literal whose opening quote is at `pos`: its text and the
/// position after the closing quote.
fn read_string(chars: &Vec<char>, pos: usize) -> (r: Option<(Vec<char>, usize)>)
    requires
        pos < chars@.len(),
    ensures
        r matches Some((s, end)) ==> pos < end <= chars@.len(),
        match string_at(chars@, pos as int) {
            Some((s, end)) => r matches Some((t, e)) && t@ == s && e == end,
            None => r is None,
        },
{
    let n = chars.len();
    if chars[pos] != '"' {
        return None;
    }
    let mut out: Vec<char> = Vec::new();
    let mut at = pos + 1;
    while at < n
        invariant
            n == chars@.len(),
            pos < at <= n,
            string_at(chars@, pos as int) == string_body(chars@, at as int, out@),
        decreases n - at,
    {
        let c = chars[at];
        if c == '"' {
            return Some((out, at + 1));
        }
        if c != '\\' {
            out.push(c);
            at = at + 1;
        } else {
            if at + 1 >= n {
                return None;
            }
            let e = chars[at + 1];
            if e == '"' || e == '\\' || e == '/' {
                out.push(e);
                at = at + 2;
            } else if e == 'b' {
                out.push('\u{8}');
                at = at + 2;
            } else if e == 'f' {
                out.push('\u{c}');
                at = at + 2;
            } else if e == 'n' {
                out.push('\n');
                at = at + 2;
            } else if e == 'r' {
                out.push('\r');
                at = at + 2;
            } else if e == 't' {
                out.push('\t');
                at = at + 2;
            } else if e == 'u' {
                let code = match read_hex4(chars, at + 2) {
                    Some(code) => code,
                    None => {
                        return None;
                    },
                };
                if 0xD800 <= code && code < 0xDC00 {
                    if n - at > 7 && chars[at + 6] == '\\' && chars[at + 7] == 'u' {
                        let low = match read_hex4(chars, at + 8) {
                            Some(low) => low,
                            None => {
                                return None;
                            },
                        };
                        if !(0xDC00 <= low && low < 0xE000) {
                            return None;
                        }
                        let joined = 0x10000 + (code - 0xD800) * 0x400 + (low - 0xDC00);
                        match char_from_code(joined) {
                            Some(ch) => out.push(ch),
                            None => {
                                return None;
                            },
                        }
                        at = at + 12;
                    } else {
                        return None;
                    }
                } else {
                    match char_from_code(code) {
                        Some(ch) => out.push(ch),
                        None => {
                            return None;
                        },
                    }
                    at = at + 6;
                }
            } else {
                return None;
            }
        }
    }
    None
}

fn is_digit(c: char) -> (r: bool)
    ensures
        r == ('0' <= c && c <= '9'),
{
    '0' <= c && c <= '9'
}

fn digit_run_end_exec(chars: &Vec<char>, at: usize) -> (r: usize)
    requires
        at <= chars@.len(),
    ensures
        r as int == digit_run_end(chars@, at as int),
        at <= r <= chars@.len(),
        forall|k: int| at <= k < r ==> is_digit_at(chars@, k),
{
    let mut i = at;
    while i < chars.len() && is_digit(chars[i])
        invariant
            at <= i <= chars@.len(),
            digit_run_end(chars@, at as int) == digit_run_end(chars@, i as int),
            forall|k: int| at <= k < i ==> is_digit_at(chars@, k),
        decreases chars@.len() - i,
    {
        i = i + 1;
    }
    i
}

proof fn lemma_decimal_prefix(s: Seq<char>, i: int)
    requires
        0 <= i <= s.len(),
        forall|k: int| 0 <= k < s.len() ==> '0' <= #[trigger] s[k] && s[k] <= '9',
    ensures
        crate::stringify::decimal_value(s.take(i)) <= crate::stringify::decimal_value(s),
    decreases s.len(),
{
    if i < s.len() {
        let t = s.drop_last();
        assert forall|k: int| 0 <= k < t.len() implies '0' <= #[trigger] t[k] && t[k] <= '9' by {
            assert(t[k] == s[k]);
        }
        lemma_decimal_prefix(t, i);
        assert(t.take(i) =~= s.take(i));
    } else {
        assert(s.take(i) =~= s);
    }
}

/// The value of the digits `chars[from..to]`, when it is at most the
/// reader's limit.
fn decimal_within_limit(chars: &Vec<char>, from: usize, to: usize) -> (r: Option<i64>)
    requires
        from <= to <= chars@.len(),
        forall|k: int| from <= k < to ==> is_digit_at(chars@, k),
    ensures
        ({
            let v = crate::stringify::decimal_value(chars@.subrange(from as int, to as int)) as int;
            if v <= read_limit() {
                r == Some(v as i64)
            } else {
                r is None
            }
        }),
{
    let ghost full = chars@.subrange(from as int, to as int);
    let mut value: i64 = 0;
    let mut i = from;
    while i < to
        invariant
            from <= i <= to <= chars@.len(),
            full == chars@.subrange(from as int, to as int),
            forall|k: int| from <= k < to ==> is_digit_at(chars@, k),
            value == crate::stringify::decimal_value(full.take(i - from)),
            0 <= value <= read_limit(),
        decreases to - i,
    {
        assert(full.take(i - from + 1).drop_last() =~= full.take(i - from));
        assert(full.take(i - from + 1).last() == chars@[i as int]);
        assert(is_digit_at(chars@, i as int));
        value = value * 10 + ((chars[i] as u32) - 48) as i64;
        i = i + 1;
        if value > 100_000_000 {
            proof {
                assert forall|k: int| 0 <= k < full.len() implies '0' <= #[trigger] full[k]
                    && full[k] <= '9' by {
                    assert(full[k] == chars@[from + k]);
                    assert(is_digit_at(chars@, from + k));
                }
                lemma_decimal_prefix(full, i - from);
            }
            return None;
        }
    }
    assert(full.take(to - from) =~= full);
    Some(value)
}

fn push_digit_values(all: &mut Vec<u8>, chars: &Vec<char>, from: usize, to: usize)
    requires
        from <= to <= chars@.len(),
        forall|k: int| from <= k < to ==> is_digit_at(chars@, k),
    ensures
        final(all)@ == old(all)@ + digit_values(chars@.subrange(from as int, to as int)),
{
    let mut i = from;
    while i < to
        invariant
            from <= i <= to <= chars@.len(),
            forall|k: int| from <= k < to ==> is_digit_at(chars@, k),
            all@ == old(all)@ + digit_values(chars@.subrange(from as int, i as int)),
        decreases to - i,
    {
        assert(is_digit_at(chars@, i as int));
        let ghost before = all@;
        all.push(((chars[i] as u32) - 48) as u8);
        i = i + 1;
        assert(digit_values(chars@.subrange(from as int, i as int)) =~= digit_values(
            chars@.subrange(from as int, i - 1),
        ).push((chars@[i - 1] as int - 48) as u8));
        assert(all@ =~= old(all)@ + digit_values(chars@.subrange(from as int, i as int)));
    }
}

fn read_mantissa(chars: &Vec<char>, s: usize) -> (r: Option<(Vec<u8>, usize, usize)>)
    requires
        s <= chars@.len(),
    ensures
        match mantissa_at(chars@, s as int) {
            Some((all, point, end)) => r matches Some((a, p, e)) && a@ == all && p == point && e
                == end,
            None => r is None,
        },
        r matches Some((a, p, e)) ==> s < e <= chars@.len() && p <= a@.len() && a@.len() <= e
            - s && forall|k: int| 0 <= k < a@.len() ==> #[trigger] a@[k] < 10,
{
    let n = chars.len();
    let e1 = digit_run_end_exec(chars, s);
    if e1 == s {
        return None;
    }
    let has_frac = e1 < n && chars[e1] == '.';
    let e2 = if has_frac {
        digit_run_end_exec(chars, e1 + 1)
    } else {
        e1
    };
    if has_frac && e2 == e1 + 1 {
        return None;
    }
    let mut all: Vec<u8> = Vec::new();
    push_digit_values(&mut all, chars, s, e1);
    if has_frac {
        push_digit_values(&mut all, chars, e1 + 1, e2);
    }
    let ghost frac = if has_frac {
        chars@.subrange(e1 + 1, e2 as int)
    } else {
        Seq::<char>::empty()
    };
    assert(all@ =~= digit_values(chars@.subrange(s as int, e1 as int) + frac));
    proof {
        assert forall|k: int| 0 <= k < all@.len() implies #[trigger] all@[k] < 10 by {
            let src = chars@.subrange(s as int, e1 as int) + frac;
            if k < e1 - s {
                assert(src[k] == chars@[s + k]);
                assert(is_digit_at(chars@, s + k));
            } else {
                assert(src[k] == chars@[e1 + 1 + (k - (e1 - s))]);
                assert(is_digit_at(chars@, e1 + 1 + (k - (e1 - s))));
            }
        }
    }
    Some((all, e1 - s, e2))
}

fn read_exponent(chars: &Vec<char>, at: usize) -> (r: Option<(i64, usize)>)
    requires
        at <= chars@.len(),
    ensures
        match exponent_at(chars@, at as int) {
            Some((exp, end)) => r matches Some((x, e)) && x == exp && e == end,
            None => r is None,
        },
        r matches Some((x, e)) ==> at <= e <= chars@.len() && -read_limit() <= x <= read_limit(),
{
    let n = chars.len();
    if !(at < n && (chars[at] == 'e' || chars[at] == 'E')) {
        return Some((0, at));
    }
    let p = at + 1;
    let signed = p < n && (chars[p] == '+' || chars[p] == '-');
    let p2 = if signed {
        p + 1
    } else {
        p
    };
    let e3 = digit_run_end_exec(chars, p2);
    if e3 == p2 {
        return None;
    }
    let magnitude = match decimal_within_limit(chars, p2, e3) {
        Some(m) => m,
        None => {
            return None;
        },
    };
    if signed && chars[p] == '-' {
        Some((-magnitude, e3))
    } else {
        Some((magnitude, e3))
    }
}

/// A number at `pos`, in the standard grammar: its normalized digits and
/// exponent, and the position after it.
fn read_number(chars: &Vec<char>, pos: usize) -> (r: Option<(Num, usize)>)
    requires
        pos < chars@.len(),
    ensures
        r matches Some((n, end)) ==> pos < end <= chars@.len() && n@.wf(),
        match number_at(chars@, pos as int) {
            Some((m, end)) => r matches Some((n, e)) && n@ == m && e == end,
            None => r is None,
        },
{
    let n = chars.len();
    let negative = chars[pos] == '-';
    let s = if negative {
        pos + 1
    } else {
        pos
    };
    let (all, point, e2) = match read_mantissa(chars, s) {
        Some(found) => found,
        None => {
            return None;
        },
    };
    let (exp, end) = match read_exponent(chars, e2) {
        Some(found) => found,
        None => {
            return None;
        },
    };
    if all.len() > 100_000_000 {
        return None;
    }
    let num = normalize(negative, &all, point, exp);
    Some((num, end))
}

/// The number `(-1)^negative * 0.all * 10^(point + exp)`, normalized:
/// see [`normalized`].
fn normalize(negative: bool, all: &Vec<u8>, point: usize, exp: i64) -> (num: Num)
    requires
        all@.len() <= read_limit(),
        point <= all@.len(),
        -read_limit() <= exp <= read_limit(),
        forall|k: int| 0 <= k < all@.len() ==> #[trigger] all@[k] < 10,
    ensures
        num@ == normalized(negative, all@, point as int, exp as int),
        num@.wf(),
{
    let mut lead: usize = 0;
    while lead < all.len() && all[lead] == 0
        invariant
            lead <= all@.len(),
            lead_end(all@, 0) == lead_end(all@, lead as int),
        decreases all@.len() - lead,
    {
        lead = lead + 1;
    }
    let mut stop = all.len();
    while stop > lead && all[stop - 1] == 0
        invariant
            lead <= stop <= all@.len(),
            trail_end(all@, lead as int, all@.len() as int) == trail_end(
                all@,
                lead as int,
                stop as int,
            ),
        decreases stop,
    {
        stop = stop - 1;
    }
    let digits = slice_u8(all, lead, stop);
    let exponent: i64 = if digits.len() == 0 {
        0
    } else {
        point as i64 - lead as i64 + exp
    };
    let num = Num { negative, digits, exponent };
    proof {
        if num.digits@.len() > 0 {
            assert(num.digits@[0] == all@[lead as int]);
            assert(num.digits@[num.digits@.len() - 1] == all@[stop - 1]);
        }
    }
    num
}

fn slice_u8(v: &Vec<u8>, from: usize, to: usize) -> (r: Vec<u8>)
    requires
        from <= to <= v@.len(),
    ensures
        r@ == v@.subrange(from as int, to as int),
{
    let mut out: Vec<u8> = Vec::new();
    let mut i = from;
    while i < to
        invariant
            from <= i <= to <= v@.len(),
            out@ == v@.subrange(from as int, i as int),
        decreases to - i,
    {
        out.push(v[i]);
        i = i + 1;
        assert(out@ =~= v@.subrange(from as int, i as int));
    }
    out
}

/// The value [`value_at`] reads at `pos`, as a [`Value`].
pub open spec fn read_matches(r: Option<(Value, usize)>, expected: Option<(Json, int)>) -> bool {
    match expected {
        Some((j, e)) => r matches Some((v, end)) && v@ == j && end == e,
        None => r is None,
    }
}

/// One value at `pos` (after any whitespace), and the position after it.
pub(crate) fn read_value(chars: &Vec<char>, pos: usize) -> (r: Option<(Value, usize)>)
    requires
        pos <= chars@.len(),
    ensures
        r matches Some((v, end)) ==> pos < end <= chars@.len() && v@.wf(),
        read_matches(r, value_at(chars@, pos as int)),
    decreases chars@.len() - pos, 1int,
{
    let n = chars.len();
    let at = skip_space(chars, pos);
    if at >= n {
        return None;
    }
    let c = chars[at];
    if c == 'n' {
        let word = ['n', 'u', 'l', 'l'];
        assert(word@ =~= seq!['n', 'u', 'l', 'l']);
        if expect_word(chars, at, &word) {
            return Some((Value::Null, at + 4));
        }
        None
    } else if c == 't' {
        let word = ['t', 'r', 'u', 'e'];
        assert(word@ =~= seq!['t', 'r', 'u', 'e']);
        if expect_word(chars, at, &word) {
            return Some((Value::Bool(true), at + 4));
        }
        None
    } else if c == 'f' {
        let word = ['f', 'a', 'l', 's', 'e'];
        assert(word@ =~= seq!['f', 'a', 'l', 's', 'e']);
        if expect_word(chars, at, &word) {
            return Some((Value::Bool(false), at + 5));
        }
        None
    } else if c == '"' {
        match read_string(chars, at) {
            Some((text, end)) => Some((Value::Str(crate::text::string_of(&text)), end)),
            None => None,
        }
    } else if c == '[' {
        read_array(chars, at)
    } else if c == '{' {
        read_object(chars, at)
    } else {
        match read_number(chars, at) {
            Some((num, end)) => {
                let v = Value::Number(num);
                Some((v, end))
            },
            None => None,
        }
    }
}

/// What [`value_at`] reads for an array whose `[` is at `at`.
pub open spec fn array_from(chars: Seq<char>, at: int) -> Option<(Json, int)> {
    let p = skip_from(chars, at + 1);
    if p < chars.len() && chars[p] == ']' {
        Some((Json::Array(Seq::empty()), p + 1))
    } else {
        array_items(chars, p, Seq::empty())
    }
}

/// What [`value_at`] reads for an object whose `{` is at `at`.
pub open spec fn object_from(chars: Seq<char>, at: int) -> Option<(Json, int)> {
    let p = skip_from(chars, at + 1);
    if p < chars.len() && chars[p] == '}' {
        Some((Json::Object(Seq::empty()), p + 1))
    } else {
        object_entries(chars, p, Seq::empty())
    }
}

fn read_array(chars: &Vec<char>, pos: usize) -> (r: Option<(Value, usize)>)
    requires
        pos < chars@.len(),
    ensures
        r matches Some((v, end)) ==> pos < end <= chars@.len() && v@.wf(),
        read_matches(r, array_from(chars@, pos as int)),
    decreases chars@.len() - pos, 0int,
{
    let n = chars.len();
    let mut items: Vec<Value> = Vec::new();
    let mut at = skip_space(chars, pos + 1);
    if at < n && chars[at] == ']' {
        let v = Value::Array(items);
        proof {
            assert(models(items@) =~= Seq::<Json>::empty());
        }
        return Some((v, at + 1));
    }
    assert(models(items@) =~= Seq::<Json>::empty());
    loop
        invariant
            n == chars@.len(),
            pos < at <= n,
            forall|j: int| 0 <= j < items@.len() ==> (#[trigger] items@[j])@.wf(),
            array_from(chars@, pos as int) == array_items(chars@, at as int, models(items@)),
        decreases n - at,
    {
        let (item, end) = match read_value(chars, at) {
            Some(found) => found,
            None => {
                return None;
            },
        };
        let ghost before_items = items@;
        let ghost before = models(items@);
        let ghost im = item@;
        items.push(item);
        assert(items@.drop_last() =~= before_items);
        assert(models(items@) == before.push(im));
        at = skip_space(chars, end);
        if at >= n {
            return None;
        }
        if chars[at] == ']' {
            let ghost all = models(items@);
            proof {
                lemma_models(items@);
                assert forall|j: int| 0 <= j < all.len() implies #[trigger] all[j].wf() by {
                    assert(all[j] == items@[j]@);
                }
                lemma_all_wf(all);
            }
            return Some((Value::Array(items), at + 1));
        }
        if chars[at] != ',' {
            return None;
        }
        at = at + 1;
    }
}

fn read_object(chars: &Vec<char>, pos: usize) -> (r: Option<(Value, usize)>)
    requires
        pos < chars@.len(),
    ensures
        r matches Some((v, end)) ==> pos < end <= chars@.len() && v@.wf(),
        read_matches(r, object_from(chars@, pos as int)),
    decreases chars@.len() - pos, 0int,
{
    let n = chars.len();
    let mut entries: Vec<(String, Value)> = Vec::new();
    let mut at = skip_space(chars, pos + 1);
    if at < n && chars[at] == '}' {
        let v = Value::Object(entries);
        proof {
            assert(entry_models(entries@) =~= Seq::<(Seq<char>, Json)>::empty());
        }
        return Some((v, at + 1));
    }
    assert(entry_models(entries@) =~= Seq::<(Seq<char>, Json)>::empty());
    loop
        invariant
            n == chars@.len(),
            pos < at <= n,
            forall|j: int| 0 <= j < entries@.len() ==> (#[trigger] entries@[j]).1@.wf(),
            forall|i: int, j: int|
                0 <= i < j < entries@.len() ==> (#[trigger] entries@[i]).0@ != (
                #[trigger] entries@[j]).0@,
            object_from(chars@, pos as int) == object_entries(
                chars@,
                at as int,
                entry_models(entries@),
            ),
        decreases n - at,
    {
        if at >= n {
            return None;
        }
        let (key_chars, after_key) = match read_string(chars, at) {
            Some(found) => found,
            None => {
                return None;
            },
        };
        let key = crate::text::string_of(&key_chars);
        let colon = skip_space(chars, after_key);
        if colon >= n || chars[colon] != ':' {
            return None;
        }
        let (value, end) = match read_value(chars, colon + 1) {
            Some(found) => found,
            None => {
                return None;
            },
        };
        let ghost before = entries@;
        proof {
            lemma_entry_models(entries@);
            lemma_key_index(entry_models(entries@), key@);
        }
        insert_exec(&mut entries, key, value);
        proof {
            lemma_entry_models(entries@);
            lemma_entry_models(before);
            let em = entry_models(entries@);
            let bm = entry_models(before);
            assert forall|j: int| 0 <= j < entries@.len() implies (#[trigger] entries@[j]).1@.wf() by {
                assert(em[j] == (entries@[j].0@, entries@[j].1@));
                if j < before.len() && em[j] == bm[j] {
                    assert(bm[j] == (before[j].0@, before[j].1@));
                }
            }
            assert forall|i: int, j: int|
                0 <= i < j < entries@.len() implies (#[trigger] entries@[i]).0@ != (
                #[trigger] entries@[j]).0@ by {
                assert(em[i] == (entries@[i].0@, entries@[i].1@));
                assert(em[j] == (entries@[j].0@, entries@[j].1@));
                if i < before.len() {
                    assert(bm[i] == (before[i].0@, before[i].1@));
                }
                if j < before.len() {
                    assert(bm[j] == (before[j].0@, before[j].1@));
                }
            }
        }
        at = skip_space(chars, end);
        if at >= n {
            return None;
        }
        if chars[at] == '}' {
            let ghost em = entry_models(entries@);
            proof {
                lemma_entry_models(entries@);
                assert forall|j: int| 0 <= j < em.len() implies #[trigger] em[j].1.wf() by {
                    assert(em[j] == (entries@[j].0@, entries@[j].1@));
                }
                lemma_all_entries_wf(em);
                assert forall|i: int, j: int| 0 <= i < j < em.len() implies #[trigger] em[i].0
                    != #[trigger] em[j].0 by {
                    assert(em[i] == (entries@[i].0@, entries@[i].1@));
                    assert(em[j] == (entries@[j].0@, entries@[j].1@));
                }
                assert(keys_unique(em));
            }
            return Some((Value::Object(entries), at + 1));
        }
        if chars[at] != ',' {
            return None;
        }
        at = skip_space(chars, at + 1);
    }
}

/// The value a whole standard JSON text spells, or `None` when the text
/// is not one value with nothing but whitespace around it.
pub(crate) fn read_json(text: &str) -> (r: Option<Value>)
    ensures
        r matches Some(v) ==> v@.wf(),
        match json_value(text@) {
            Some(j) => r matches Some(v) && v@ == j,
            None => r is None,
        },
{
    let chars = crate::text::chars_of(text);
    match read_value(&chars, 0) {
        Some((v, end)) => {
            let rest = skip_space(&chars, end);
            if rest == chars.len() {
                Some(v)
            } else {
                None
            }
        },
        None => None,
    }
}

} // verus!
