//! `JSON.stringify(value, replacer, space)` over the library's values:
//! what the command prints is what `JSON.stringify` prints for the same
//! value, key order, number text, escaping and both optional arguments
//! included.

use vstd::prelude::*;

use crate::merge::{find_key, key_index, lemma_key_index};
use crate::number::{digit_char, js_number};
use crate::value::{entry_models, lemma_entry_models, lemma_models, models, Json, Value};
use crate::text::push_all;
use crate::number::push_number;
use crate::args::defined;
use crate::engine::{parse_relaxed, relaxed_value};
use crate::value::NumModel;

verus! {

// ---------------------------------------------------------------------
// Key enumeration order
// ---------------------------------------------------------------------

pub open spec fn is_digit_char(c: char) -> bool {
    '0' <= c && c <= '9'
}

/// The value of a run of decimal digit characters.
pub open spec fn decimal_value(s: Seq<char>) -> nat
    decreases s.len(),
{
    if s.len() == 0 {
        0
    } else {
        decimal_value(s.drop_last()) * 10 + ((s.last() as int - '0' as int) as nat)
    }
}

/// The largest array index: `2^32 - 2`.
pub open spec fn max_array_index() -> nat {
    4294967294
}

/// A canonical numeric string of an array index: decimal digits, no
/// leading zero unless it is `0` itself, and at most `2^32 - 2`. A
/// JavaScript object enumerates these keys first.
pub open spec fn is_array_index(key: Seq<char>) -> bool {
    &&& key.len() > 0
    &&& forall|i: int| 0 <= i < key.len() ==> is_digit_char(#[trigger] key[i])
    &&& (key.len() == 1 || key[0] != '0')
    &&& key.len() <= 10
    &&& decimal_value(key) <= max_array_index()
}

/// Insert position `p` into `sorted` ahead of the first position whose
/// key is a larger index.
pub open spec fn insert_by_index(
    entries: Seq<(Seq<char>, Json)>,
    sorted: Seq<int>,
    p: int,
) -> Seq<int>
    decreases sorted.len(),
{
    if sorted.len() == 0 {
        seq![p]
    } else if decimal_value(entries[sorted[0]].0) > decimal_value(entries[p].0) {
        seq![p] + sorted
    } else {
        seq![sorted[0]] + insert_by_index(entries, sorted.drop_first(), p)
    }
}

/// The positions among the first `n` entries whose keys are array
/// indices, in ascending numeric order of the key.
pub open spec fn index_positions(entries: Seq<(Seq<char>, Json)>, n: int) -> Seq<int>
    decreases n,
{
    if n <= 0 {
        Seq::empty()
    } else {
        let prev = index_positions(entries, n - 1);
        if is_array_index(entries[n - 1].0) {
            insert_by_index(entries, prev, n - 1)
        } else {
            prev
        }
    }
}

/// The positions among the first `n` entries whose keys are not array
/// indices, in the order the entries stand.
pub open spec fn other_positions(entries: Seq<(Seq<char>, Json)>, n: int) -> Seq<int>
    decreases n,
{
    if n <= 0 {
        Seq::empty()
    } else {
        let prev = other_positions(entries, n - 1);
        if is_array_index(entries[n - 1].0) {
            prev
        } else {
            prev.push(n - 1)
        }
    }
}

/// The positions of `positions` whose entries are not `undefined`.
pub open spec fn defined_positions(entries: Seq<(Seq<char>, Json)>, positions: Seq<int>) -> Seq<
    int,
>
    decreases positions.len(),
{
    if positions.len() == 0 {
        Seq::empty()
    } else {
        let prev = defined_positions(entries, positions.drop_last());
        if entries[positions.last()].1 is Undefined {
            prev
        } else {
            prev.push(positions.last())
        }
    }
}

/// For each replacer key in turn, the position of the entry it names,
/// when there is one and its value is not `undefined`.
pub open spec fn replacer_positions(entries: Seq<(Seq<char>, Json)>, keys: Seq<Seq<char>>) -> Seq<
    int,
>
    decreases keys.len(),
{
    if keys.len() == 0 {
        Seq::empty()
    } else {
        let prev = replacer_positions(entries, keys.drop_last());
        let at = key_index(entries, keys.last());
        if at >= 0 && !(entries[at].1 is Undefined) {
            prev.push(at)
        } else {
            prev
        }
    }
}

/// The entries `JSON.stringify` writes, as positions, in the order it
/// writes them: with a replacer list, the list's order; without one, the
/// object's own enumeration order, array-index keys first in ascending
/// numeric order and the rest as they stand. An `undefined` value is
/// never written.
pub open spec fn written_positions(
    entries: Seq<(Seq<char>, Json)>,
    replacer: Option<Seq<Seq<char>>>,
) -> Seq<int> {
    match replacer {
        Some(keys) => replacer_positions(entries, keys),
        None => defined_positions(
            entries,
            index_positions(entries, entries.len() as int) + other_positions(
                entries,
                entries.len() as int,
            ),
        ),
    }
}

// ---------------------------------------------------------------------
// Strings
// ---------------------------------------------------------------------

pub open spec fn hex_char(d: int) -> char {
    if d < 10 {
        digit_char(d)
    } else {
        ((87 + d) as u8) as char
    }
}

/// The escape `JSON.stringify` writes for one character: the two-letter
/// escapes, `\u00xx` for the rest of the controls below U+0020, and the
/// character itself otherwise.
pub open spec fn escape_char(c: char) -> Seq<char> {
    if c == '"' {
        seq!['\\', '"']
    } else if c == '\\' {
        seq!['\\', '\\']
    } else if c == '\n' {
        seq!['\\', 'n']
    } else if c == '\r' {
        seq!['\\', 'r']
    } else if c == '\t' {
        seq!['\\', 't']
    } else if c == '\u{8}' {
        seq!['\\', 'b']
    } else if c == '\u{c}' {
        seq!['\\', 'f']
    } else if (c as int) < 32 {
        seq!['\\', 'u', '0', '0', hex_char((c as int) / 16), hex_char((c as int) % 16)]
    } else {
        seq![c]
    }
}

pub open spec fn escaped(s: Seq<char>) -> Seq<char>
    decreases s.len(),
{
    if s.len() == 0 {
        Seq::empty()
    } else {
        escaped(s.drop_last()) + escape_char(s.last())
    }
}

/// A double-quoted, escaped string.
pub open spec fn quoted(s: Seq<char>) -> Seq<char> {
    seq!['"'] + escaped(s) + seq!['"']
}

// ---------------------------------------------------------------------
// Values
// ---------------------------------------------------------------------

/// A line break and the indent, when there is a space at all.
pub open spec fn line(space: Seq<char>, indent: Seq<char>) -> Seq<char> {
    if space.len() == 0 {
        Seq::empty()
    } else {
        seq!['\n'] + indent
    }
}

/// The text of one value at the indent `indent`.
pub open spec fn value_text(
    v: Json,
    replacer: Option<Seq<Seq<char>>>,
    space: Seq<char>,
    indent: Seq<char>,
) -> Seq<char>
    decreases v, 0int,
{
    match v {
        Json::Undefined => seq!['n', 'u', 'l', 'l'],
        Json::Null => seq!['n', 'u', 'l', 'l'],
        Json::Bool(b) => if b {
            seq!['t', 'r', 'u', 'e']
        } else {
            seq!['f', 'a', 'l', 's', 'e']
        },
        Json::Number(n) => js_number(n.digits, n.negative, n.exponent),
        Json::Str(s) => quoted(s),
        Json::Array(items) => if items.len() == 0 {
            seq!['[', ']']
        } else {
            seq!['['] + items_text(items, items.len() as int, replacer, space, indent + space)
                + line(space, indent) + seq![']']
        },
        Json::Object(entries) => {
            let written = written_positions(entries, replacer);
            if written.len() == 0 {
                seq!['{', '}']
            } else {
                seq!['{'] + entries_text(entries, written, replacer, space, indent + space) + line(
                    space,
                    indent,
                ) + seq!['}']
            }
        },
    }
}

/// The first `n` items, comma separated, each on its own line when there
/// is a space.
pub open spec fn items_text(
    items: Seq<Json>,
    n: int,
    replacer: Option<Seq<Seq<char>>>,
    space: Seq<char>,
    inner: Seq<char>,
) -> Seq<char>
    decreases items, n,
{
    if n <= 0 || n > items.len() {
        Seq::empty()
    } else {
        items_text(items, n - 1, replacer, space, inner) + (if n > 1 {
            seq![',']
        } else {
            Seq::empty()
        }) + line(space, inner) + value_text(items[n - 1], replacer, space, inner)
    }
}

/// The entries at `positions`, comma separated, as `"key":value`, with a
/// space after the colon when there is a space.
pub open spec fn entries_text(
    entries: Seq<(Seq<char>, Json)>,
    positions: Seq<int>,
    replacer: Option<Seq<Seq<char>>>,
    space: Seq<char>,
    inner: Seq<char>,
) -> Seq<char>
    decreases entries, positions.len(),
{
    if positions.len() == 0 {
        Seq::empty()
    } else {
        let p = positions.last();
        let head = entries_text(entries, positions.drop_last(), replacer, space, inner);
        if 0 <= p < entries.len() {
            head + (if positions.len() > 1 {
                seq![',']
            } else {
                Seq::empty()
            }) + line(space, inner) + quoted(entries[p].0) + seq![':'] + (if space.len() == 0 {
                Seq::empty()
            } else {
                seq![' ']
            }) + value_text(entries[p].1, replacer, space, inner)
        } else {
            head
        }
    }
}

/// `JSON.stringify(v, replacer, space)` as the command prints it: the
/// word `undefined` for an `undefined` value, which has no JSON form.
pub open spec fn stringify_text(
    v: Json,
    replacer: Option<Seq<Seq<char>>>,
    space: Seq<char>,
) -> Seq<char> {
    if v is Undefined {
        seq!['u', 'n', 'd', 'e', 'f', 'i', 'n', 'e', 'd']
    } else {
        value_text(v, replacer, space, Seq::empty())
    }
}


// ---------------------------------------------------------------------
// Executable writers
// ---------------------------------------------------------------------

fn hex_digit(d: u32) -> (c: char)
    requires
        d < 16,
    ensures
        c == hex_char(d as int),
{
    if d < 10 {
        ((48 + d) as u8) as char
    } else {
        ((87 + d) as u8) as char
    }
}

/// Append the escape of one character.
pub fn push_escaped_char(out: &mut Vec<char>, c: char)
    ensures
        final(out)@ == old(out)@ + escape_char(c),
{
    if c == '"' {
        out.push('\\');
        out.push('"');
    } else if c == '\\' {
        out.push('\\');
        out.push('\\');
    } else if c == '\n' {
        out.push('\\');
        out.push('n');
    } else if c == '\r' {
        out.push('\\');
        out.push('r');
    } else if c == '\t' {
        out.push('\\');
        out.push('t');
    } else if c == '\u{8}' {
        out.push('\\');
        out.push('b');
    } else if c == '\u{c}' {
        out.push('\\');
        out.push('f');
    } else if (c as u32) < 32 {
        let code = c as u32;
        out.push('\\');
        out.push('u');
        out.push('0');
        out.push('0');
        out.push(hex_digit(code / 16));
        out.push(hex_digit(code % 16));
    } else {
        out.push(c);
    }
    assert(out@ =~= old(out)@ + escape_char(c));
}

/// Append `text` double-quoted and escaped, as `JSON.stringify` writes a
/// string.
pub fn write_string(out: &mut Vec<char>, text: &str)
    ensures
        final(out)@ == old(out)@ + quoted(text@),
{
    let chars = crate::text::chars_of(text);
    out.push('"');
    let ghost start = out@;
    let mut i: usize = 0;
    while i < chars.len()
        invariant
            i <= chars@.len(),
            chars@ == text@,
            out@ == start + escaped(text@.take(i as int)),
        decreases chars@.len() - i,
    {
        push_escaped_char(out, chars[i]);
        proof {
            assert(text@.take(i + 1).drop_last() =~= text@.take(i as int));
        }
        i = i + 1;
        assert(out@ =~= start + escaped(text@.take(i as int)));
    }
    assert(text@.take(i as int) =~= text@);
    out.push('"');
    assert(out@ =~= old(out)@ + quoted(text@));
}


/// `10^n`.
pub open spec fn pow10(n: nat) -> nat
    decreases n,
{
    if n == 0 {
        1
    } else {
        10 * pow10((n - 1) as nat)
    }
}

proof fn lemma_pow10_ten(n: nat)
    requires
        n <= 10,
    ensures
        pow10(n) <= 10_000_000_000,
    decreases 10 - n,
{
    if n < 10 {
        lemma_pow10_ten(n + 1);
        assert(pow10(n + 1) == 10 * pow10(n));
    } else {
        reveal_with_fuel(pow10, 11);
    }
}

/// The array index `key` spells, or `None` when it is not one.
pub fn array_index_of(key: &String) -> (r: Option<u64>)
    ensures
        r is Some <==> is_array_index(key@),
        r matches Some(v) ==> v == decimal_value(key@),
{
    let chars = crate::text::chars_of(key.as_str());
    let n = chars.len();
    if n == 0 || n > 10 {
        return None;
    }
    if n > 1 && chars[0] == '0' {
        return None;
    }
    let mut value: u64 = 0;
    let mut i: usize = 0;
    while i < n
        invariant
            n == chars@.len(),
            chars@ == key@,
            n <= 10,
            i <= n,
            forall|j: int| 0 <= j < i ==> is_digit_char(#[trigger] key@[j]),
            value == decimal_value(key@.take(i as int)),
            value < pow10(i as nat),
        decreases n - i,
    {
        let c = chars[i];
        if !('0' <= c && c <= '9') {
            assert(!is_digit_char(key@[i as int]));
            return None;
        }
        proof {
            lemma_pow10_ten(i as nat);
            assert(key@.take(i + 1).drop_last() =~= key@.take(i as int));
            assert(value * 10 + 9 < 10 * pow10(i as nat)) by (nonlinear_arith)
                requires
                    value < pow10(i as nat),
            ;
        }
        value = value * 10 + ((c as u32) - 48) as u64;
        i = i + 1;
    }
    assert(key@.take(n as int) =~= key@);
    if value <= 4294967294 {
        Some(value)
    } else {
        None
    }
}

/// Positions as the contracts see them.
pub open spec fn positions_view(v: Seq<usize>) -> Seq<int> {
    Seq::new(v.len(), |i: int| v[i] as int)
}

proof fn lemma_insert_by_index(e: Seq<(Seq<char>, Json)>, s: Seq<int>, p: int, j: int)
    requires
        0 <= j <= s.len(),
        forall|k: int| 0 <= k < j ==> decimal_value(e[#[trigger] s[k]].0) <= decimal_value(e[p].0),
        j < s.len() ==> decimal_value(e[s[j]].0) > decimal_value(e[p].0),
    ensures
        insert_by_index(e, s, p) == s.insert(j, p),
    decreases s.len(),
{
    if s.len() == 0 {
        assert(s.insert(j, p) =~= seq![p]);
    } else if j == 0 {
        assert(s.insert(j, p) =~= seq![p] + s);
    } else {
        assert(decimal_value(e[s[0]].0) <= decimal_value(e[p].0));
        let t = s.drop_first();
        assert forall|k: int| 0 <= k < j - 1 implies decimal_value(e[#[trigger] t[k]].0)
            <= decimal_value(e[p].0) by {
            assert(t[k] == s[k + 1]);
        }
        lemma_insert_by_index(e, t, p, j - 1);
        assert(seq![s[0]] + t.insert(j - 1, p) =~= s.insert(j, p));
    }
}

/// The positions of `entries` in the object's own enumeration order:
/// array-index keys in ascending numeric order, then the other keys as
/// they stand.
pub fn enumeration_order(entries: &Vec<(String, Value)>) -> (r: Vec<usize>)
    ensures
        positions_view(r@) == index_positions(entry_models(entries@), entries@.len() as int)
            + other_positions(entry_models(entries@), entries@.len() as int),
        forall|k: int| 0 <= k < r@.len() ==> #[trigger] r@[k] < entries@.len(),
{
    let ghost e = entry_models(entries@);
    proof {
        lemma_entry_models(entries@);
    }
    let n = entries.len();
    let mut sorted: Vec<usize> = Vec::new();
    let mut values: Vec<u64> = Vec::new();
    let mut others: Vec<usize> = Vec::new();
    let mut i: usize = 0;
    while i < n
        invariant
            n == entries@.len(),
            e == entry_models(entries@),
            e.len() == n,
            forall|j: int| 0 <= j < n ==> (#[trigger] e[j]).0 == entries@[j].0@,
            i <= n,
            positions_view(sorted@) == index_positions(e, i as int),
            positions_view(others@) == other_positions(e, i as int),
            values@.len() == sorted@.len(),
            forall|j: int| 0 <= j < sorted@.len() ==> sorted@[j] < i,
            forall|j: int| 0 <= j < others@.len() ==> others@[j] < i,
            forall|j: int|
                0 <= j < sorted@.len() ==> #[trigger] values@[j] == decimal_value(
                    e[sorted@[j] as int].0,
                ),
        decreases n - i,
    {
        let ghost before = positions_view(sorted@);
        let ghost before_values = values@;
        match array_index_of(&entries[i].0) {
            Some(v) => {
                let mut j: usize = 0;
                while j < values.len() && values[j] <= v
                    invariant
                        j <= values@.len(),
                        values@.len() == sorted@.len(),
                        forall|k: int| 0 <= k < j ==> values@[k] <= v,
                    decreases values@.len() - j,
                {
                    j = j + 1;
                }
                proof {
                    assert forall|k: int| 0 <= k < j implies decimal_value(
                        e[#[trigger] before[k]].0,
                    ) <= decimal_value(e[i as int].0) by {
                        assert(values@[k] == decimal_value(e[sorted@[k] as int].0));
                    }
                    if j < values@.len() {
                        assert(values@[j as int] == decimal_value(e[sorted@[j as int] as int].0));
                    }
                    lemma_insert_by_index(e, before, i as int, j as int);
                }
                sorted.insert(j, i);
                values.insert(j, v);
                assert(positions_view(sorted@) =~= before.insert(j as int, i as int));
                assert(forall|k: int|
                    0 <= k < sorted@.len() ==> #[trigger] values@[k] == decimal_value(
                        e[sorted@[k] as int].0,
                    )) by {
                    assert forall|k: int| 0 <= k < sorted@.len() implies #[trigger] values@[k]
                        == decimal_value(e[sorted@[k] as int].0) by {
                        if k < j {
                        } else if k == j {
                        } else {
                            assert(values@[k] == before_values[k - 1]);
                        }
                    }
                }
            },
            None => {
                let ghost before_others = positions_view(others@);
                others.push(i);
                assert(positions_view(others@) =~= before_others.push(i as int));
            },
        }
        i = i + 1;
    }
    let ghost sv = positions_view(sorted@);
    let ghost ov = positions_view(others@);
    sorted.append(&mut others);
    assert(positions_view(sorted@) =~= sv + ov);
    sorted
}


/// A replacer list as the contracts see it.
pub open spec fn keys_view(keys: Seq<String>) -> Seq<Seq<char>> {
    Seq::new(keys.len(), |i: int| keys[i]@)
}

pub open spec fn replacer_view(replacer: Option<Vec<String>>) -> Option<Seq<Seq<char>>> {
    match replacer {
        Some(keys) => Some(keys_view(keys@)),
        None => None,
    }
}

/// The positions of `positions` whose values are not `undefined`.
fn keep_defined(entries: &Vec<(String, Value)>, positions: &Vec<usize>) -> (r: Vec<usize>)
    requires
        forall|k: int| 0 <= k < positions@.len() ==> #[trigger] positions@[k] < entries@.len(),
    ensures
        positions_view(r@) == defined_positions(entry_models(entries@), positions_view(positions@)),
        forall|k: int| 0 <= k < r@.len() ==> #[trigger] r@[k] < entries@.len(),
{
    let ghost e = entry_models(entries@);
    let ghost pv = positions_view(positions@);
    proof {
        lemma_entry_models(entries@);
        assert(pv.take(0) =~= Seq::<int>::empty());
    }
    let mut out: Vec<usize> = Vec::new();
    let mut i: usize = 0;
    while i < positions.len()
        invariant
            i <= positions@.len(),
            e == entry_models(entries@),
            e.len() == entries@.len(),
            forall|j: int| 0 <= j < entries@.len() ==> (#[trigger] e[j]).1 == entries@[j].1@,
            forall|k: int| 0 <= k < positions@.len() ==> #[trigger] positions@[k] < entries@.len(),
            pv == positions_view(positions@),
            positions_view(out@) == defined_positions(e, pv.take(i as int)),
            forall|k: int| 0 <= k < out@.len() ==> #[trigger] out@[k] < entries@.len(),
        decreases positions@.len() - i,
    {
        let p = positions[i];
        proof {
            assert(pv.take(i + 1).drop_last() =~= pv.take(i as int));
            assert(pv.take(i + 1).last() == p as int);
        }
        let ghost before = positions_view(out@);
        let undefined = match &entries[p].1 {
            Value::Undefined => true,
            _ => false,
        };
        if !undefined {
            out.push(p);
            assert(positions_view(out@) =~= before.push(p as int));
        }
        i = i + 1;
    }
    assert(pv.take(i as int) =~= pv);
    out
}

/// The position of each replacer key's entry, in the replacer's order,
/// skipping a key that names no entry or an `undefined` one.
fn replacer_order(entries: &Vec<(String, Value)>, keys: &Vec<String>) -> (r: Vec<usize>)
    ensures
        positions_view(r@) == replacer_positions(entry_models(entries@), keys_view(keys@)),
        forall|k: int| 0 <= k < r@.len() ==> #[trigger] r@[k] < entries@.len(),
{
    let ghost e = entry_models(entries@);
    let ghost kv = keys_view(keys@);
    proof {
        lemma_entry_models(entries@);
        assert(kv.take(0) =~= Seq::<Seq<char>>::empty());
    }
    let mut out: Vec<usize> = Vec::new();
    let mut i: usize = 0;
    while i < keys.len()
        invariant
            i <= keys@.len(),
            e == entry_models(entries@),
            e.len() == entries@.len(),
            forall|j: int| 0 <= j < entries@.len() ==> (#[trigger] e[j]).1 == entries@[j].1@,
            kv == keys_view(keys@),
            positions_view(out@) == replacer_positions(e, kv.take(i as int)),
            forall|k: int| 0 <= k < out@.len() ==> #[trigger] out@[k] < entries@.len(),
        decreases keys@.len() - i,
    {
        proof {
            assert(kv.take(i + 1).drop_last() =~= kv.take(i as int));
            assert(kv.take(i + 1).last() == keys@[i as int]@);
        }
        let ghost before = positions_view(out@);
        proof {
            lemma_key_index(e, keys@[i as int]@);
        }
        match find_key(entries, &keys[i]) {
            Some(at) => {
                let undefined = match &entries[at].1 {
                    Value::Undefined => true,
                    _ => false,
                };
                if !undefined {
                    out.push(at);
                    assert(positions_view(out@) =~= before.push(at as int));
                }
            },
            None => {},
        }
        i = i + 1;
    }
    assert(kv.take(i as int) =~= kv);
    out
}

/// The positions `JSON.stringify` writes, in the order it writes them.
pub fn written_order(entries: &Vec<(String, Value)>, replacer: &Option<Vec<String>>) -> (out: Vec<usize>)
    ensures
        positions_view(out@) == written_positions(entry_models(entries@), replacer_view(*replacer)),
        forall|k: int| 0 <= k < out@.len() ==> #[trigger] out@[k] < entries@.len(),
{
    proof {
        lemma_entry_models(entries@);
    }
    if let Some(keys) = replacer {
        let r = replacer_order(entries, keys);
        assert(replacer_view(*replacer) == Some(keys_view(keys@)));
        r
    } else {
        let order = enumeration_order(entries);
        let r = keep_defined(entries, &order);
        r
    }
}


fn push_line(out: &mut Vec<char>, space: &Vec<char>, indent: &Vec<char>)
    ensures
        final(out)@ == old(out)@ + line(space@, indent@),
{
    if space.len() > 0 {
        out.push('\n');
        push_all(out, indent);
    }
    assert(out@ =~= old(out)@ + line(space@, indent@));
}

fn push_literal(out: &mut Vec<char>, word: &[char])
    ensures
        final(out)@ == old(out)@ + word@,
{
    let mut i: usize = 0;
    while i < word.len()
        invariant
            i <= word@.len(),
            out@ == old(out)@ + word@.take(i as int),
        decreases word@.len() - i,
    {
        out.push(word[i]);
        i = i + 1;
        assert(out@ =~= old(out)@ + word@.take(i as int));
    }
    assert(word@.take(i as int) =~= word@);
}

/// Append the text of `v` at the indent `indent`.
pub fn write_value(
    out: &mut Vec<char>,
    v: &Value,
    replacer: &Option<Vec<String>>,
    space: &Vec<char>,
    indent: &Vec<char>,
)
    requires
        v@.wf(),
    ensures
        final(out)@ == old(out)@ + value_text(v@, replacer_view(*replacer), space@, indent@),
    decreases v@, 1int,
{
    match v {
        Value::Undefined | Value::Null => {
            let word = ['n', 'u', 'l', 'l'];
            push_literal(out, &word);
            assert(word@ =~= seq!['n', 'u', 'l', 'l']);
        },
        Value::Bool(b) => {
            if *b {
                let word = ['t', 'r', 'u', 'e'];
                push_literal(out, &word);
                assert(word@ =~= seq!['t', 'r', 'u', 'e']);
            } else {
                let word = ['f', 'a', 'l', 's', 'e'];
                push_literal(out, &word);
                assert(word@ =~= seq!['f', 'a', 'l', 's', 'e']);
            }
        },
        Value::Number(n) => {
            push_number(out, n);
        },
        Value::Str(text) => {
            write_string(out, text.as_str());
        },
        Value::Array(items) => {
            proof {
                assert(decreases_to!(v@ => models(items@)));
            }
            write_array(out, items, replacer, space, indent);
        },
        Value::Object(entries) => {
            proof {
                assert(decreases_to!(v@ => entry_models(entries@)));
            }
            write_object(out, entries, replacer, space, indent);
        },
    }
}

fn write_array(
    out: &mut Vec<char>,
    items: &Vec<Value>,
    replacer: &Option<Vec<String>>,
    space: &Vec<char>,
    indent: &Vec<char>,
)
    requires
        Json::Array(models(items@)).wf(),
    ensures
        final(out)@ == old(out)@ + value_text(
            Json::Array(models(items@)),
            replacer_view(*replacer),
            space@,
            indent@,
        ),
    decreases models(items@), 0int,
{
    let ghost r = replacer_view(*replacer);
    let ghost im = models(items@);
    proof {
        lemma_models(items@);
        crate::value::lemma_all_wf(im);
    }
    if items.len() == 0 {
        out.push('[');
        out.push(']');
        assert(out@ =~= old(out)@ + seq!['[', ']']);
        return;
    }
    let mut inner = indent.clone();
    push_all(&mut inner, space);
    assert(inner@ =~= indent@ + space@);
    out.push('[');
    let ghost start = out@;
    let mut i: usize = 0;
    while i < items.len()
        invariant
            i <= items@.len(),
            im == models(items@),
            im.len() == items@.len(),
            forall|j: int| 0 <= j < items@.len() ==> #[trigger] im[j] == items@[j]@,
            forall|j: int| 0 <= j < items@.len() ==> #[trigger] im[j].wf(),
            inner@ == indent@ + space@,
            r == replacer_view(*replacer),
            out@ == start + items_text(im, i as int, r, space@, inner@),
        decreases items@.len() - i,
    {
        if i > 0 {
            out.push(',');
        }
        push_line(out, space, &inner);
        proof {
            assert(im[i as int] == items@[i as int]@);
            assert(im[i as int].wf());
            assert(decreases_to!(im => im[i as int]));
        }
        write_value(out, &items[i], replacer, space, &inner);
        i = i + 1;
        assert(out@ =~= start + items_text(im, i as int, r, space@, inner@));
    }
    push_line(out, space, indent);
    out.push(']');
    assert(out@ =~= old(out)@ + value_text(Json::Array(im), r, space@, indent@));
}

fn write_object(
    out: &mut Vec<char>,
    entries: &Vec<(String, Value)>,
    replacer: &Option<Vec<String>>,
    space: &Vec<char>,
    indent: &Vec<char>,
)
    requires
        Json::Object(entry_models(entries@)).wf(),
    ensures
        final(out)@ == old(out)@ + value_text(
            Json::Object(entry_models(entries@)),
            replacer_view(*replacer),
            space@,
            indent@,
        ),
    decreases entry_models(entries@), 0int,
{
    let ghost r = replacer_view(*replacer);
    let ghost em = entry_models(entries@);
    proof {
        lemma_entry_models(entries@);
        crate::value::lemma_all_entries_wf(em);
    }
    let order = written_order(entries, replacer);
    let ghost wv = positions_view(order@);
    if order.len() == 0 {
        out.push('{');
        out.push('}');
        assert(out@ =~= old(out)@ + seq!['{', '}']);
        return;
    }
    let mut inner = indent.clone();
    push_all(&mut inner, space);
    assert(inner@ =~= indent@ + space@);
    out.push('{');
    let ghost start = out@;
    assert(wv.take(0) =~= Seq::<int>::empty());
    let mut k: usize = 0;
    while k < order.len()
        invariant
            k <= order@.len(),
            em == entry_models(entries@),
            em.len() == entries@.len(),
            forall|j: int|
                0 <= j < entries@.len() ==> #[trigger] em[j] == (entries@[j].0@, entries@[j].1@),
            forall|j: int| 0 <= j < entries@.len() ==> #[trigger] em[j].1.wf(),
            forall|j: int| 0 <= j < order@.len() ==> #[trigger] order@[j] < entries@.len(),
            wv == positions_view(order@),
            inner@ == indent@ + space@,
            r == replacer_view(*replacer),
            out@ == start + entries_text(em, wv.take(k as int), r, space@, inner@),
        decreases order@.len() - k,
    {
        let p = order[k];
        proof {
            assert(wv.take(k + 1).drop_last() =~= wv.take(k as int));
            assert(wv.take(k + 1).last() == p as int);
            assert(em[p as int] == (entries@[p as int].0@, entries@[p as int].1@));
            assert(em[p as int].1.wf());
            assert(decreases_to!(em => em[p as int]));
            assert(decreases_to!(em[p as int] => em[p as int].1));
        }
        if k > 0 {
            out.push(',');
        }
        push_line(out, space, &inner);
        write_string(out, entries[p].0.as_str());
        out.push(':');
        if space.len() > 0 {
            out.push(' ');
        }
        write_value(out, &entries[p].1, replacer, space, &inner);
        k = k + 1;
        assert(out@ =~= start + entries_text(em, wv.take(k as int), r, space@, inner@));
    }
    assert(wv.take(k as int) =~= wv);
    push_line(out, space, indent);
    out.push('}');
    assert(out@ =~= old(out)@ + value_text(Json::Object(em), r, space@, indent@));
}


// ---------------------------------------------------------------------
// The command's two output options
// ---------------------------------------------------------------------

/// The `JSON.stringify` text of a whole value, with the options resolved:
/// see [`stringify_text`].
pub fn json_text(value: &Value, replacer: &Option<Vec<String>>, space: &str) -> (r: String)
    requires
        value@.wf(),
    ensures
        r@ == stringify_text(value@, replacer_view(*replacer), space@),
{
    if let Value::Undefined = value {
        let r = String::from_str("undefined");
        proof {
            reveal_strlit("undefined");
        }
        assert(r@ =~= seq!['u', 'n', 'd', 'e', 'f', 'i', 'n', 'e', 'd']);
        return r;
    }
    let mut out: Vec<char> = Vec::new();
    let space_chars = crate::text::chars_of(space);
    let indent: Vec<char> = Vec::new();
    write_value(&mut out, value, replacer, &space_chars, &indent);
    assert(indent@ =~= Seq::<char>::empty());
    assert(out@ =~= value_text(value@, replacer_view(*replacer), space@, Seq::empty()));
    crate::text::string_of(&out)
}

/// The string key a replacer entry filters by: a string as it stands and
/// a number as `JSON.stringify` writes it. Any other entry is ignored.
pub open spec fn key_of(v: Json) -> Option<Seq<char>> {
    match v {
        Json::Str(s) => Some(s),
        Json::Number(n) => Some(js_number(n.digits, n.negative, n.exponent)),
        _ => None,
    }
}

/// The keys of replacer entries, in order, each kept at its first
/// occurrence only.
pub open spec fn replacer_keys(items: Seq<Json>) -> Seq<Seq<char>>
    decreases items.len(),
{
    if items.len() == 0 {
        Seq::empty()
    } else {
        let rest = replacer_keys(items.drop_last());
        match key_of(items.last()) {
            Some(k) => if rest.contains(k) {
                rest
            } else {
                rest.push(k)
            },
            None => rest,
        }
    }
}

/// The `JSON.replacer` option as a key list: none for no option, `null`
/// or `undefined`; the keys of an array; and the key of a single entry,
/// as if it were an array of one.
pub open spec fn replacer_of(value: Option<Json>) -> Option<Seq<Seq<char>>> {
    match value {
        None => None,
        Some(Json::Null) => None,
        Some(Json::Undefined) => None,
        Some(Json::Array(items)) => Some(replacer_keys(items)),
        Some(single) => Some(replacer_keys(seq![single])),
    }
}

/// A replacer entry as the string key it filters by: see [`key_of`].
pub fn key_string(value: &Value) -> (r: Option<String>)
    requires
        value@.wf(),
    ensures
        match key_of(value@) {
            Some(k) => r matches Some(s) && s@ == k,
            None => r is None,
        },
{
    match value {
        Value::Str(text) => Some(text.clone()),
        Value::Number(n) => {
            let mut out: Vec<char> = Vec::new();
            push_number(&mut out, n);
            assert(out@ =~= crate::number::num_text(*n));
            Some(crate::text::string_of(&out))
        },
        _ => None,
    }
}

fn contains_key(keys: &Vec<String>, key: &String) -> (r: bool)
    ensures
        r == keys_view(keys@).contains(key@),
{
    let mut i: usize = 0;
    while i < keys.len()
        invariant
            i <= keys@.len(),
            forall|j: int| 0 <= j < i ==> keys@[j]@ != key@,
        decreases keys@.len() - i,
    {
        if keys[i] == *key {
            assert(keys_view(keys@)[i as int] == key@);
            return true;
        }
        i = i + 1;
    }
    proof {
        if keys_view(keys@).contains(key@) {
            let j = choose|j: int| 0 <= j < keys_view(keys@).len() && keys_view(keys@)[j] == key@;
            assert(keys@[j]@ == key@);
        }
    }
    false
}

/// Add the keys of `items` to `keys`, skipping repeats: see
/// [`replacer_keys`].
fn push_keys(keys: &mut Vec<String>, items: &Vec<Value>)
    requires
        forall|j: int| 0 <= j < items@.len() ==> (#[trigger] items@[j])@.wf(),
        keys_view(old(keys)@) == Seq::<Seq<char>>::empty(),
    ensures
        keys_view(final(keys)@) == replacer_keys(models(items@)),
{
    let ghost im = models(items@);
    proof {
        lemma_models(items@);
    }
    let mut i: usize = 0;
    assert(im.take(0) =~= Seq::<Json>::empty());
    while i < items.len()
        invariant
            i <= items@.len(),
            im == models(items@),
            im.len() == items@.len(),
            forall|j: int| 0 <= j < items@.len() ==> #[trigger] im[j] == items@[j]@,
            forall|j: int| 0 <= j < items@.len() ==> (#[trigger] items@[j])@.wf(),
            keys_view(keys@) == replacer_keys(im.take(i as int)),
        decreases items@.len() - i,
    {
        assert(im.take(i + 1).drop_last() =~= im.take(i as int));
        assert(im.take(i + 1).last() == items@[i as int]@);
        match key_string(&items[i]) {
            Some(k) => {
                if !contains_key(keys, &k) {
                    let ghost before = keys@;
                    keys.push(k);
                    assert(keys_view(keys@) =~= keys_view(before).push(keys@[before.len() as int]@));
                }
            },
            None => {},
        }
        i = i + 1;
    }
    assert(im.take(i as int) =~= im);
}

pub open spec fn option_model(value: Option<&Value>) -> Option<Json> {
    match value {
        Some(v) => Some(v@),
        None => None,
    }
}

/// The `JSON.replacer` option as an ordered key list: see
/// [`replacer_of`].
pub fn parse_replacer(value: Option<&Value>) -> (r: Option<Vec<String>>)
    requires
        value matches Some(v) ==> v@.wf(),
    ensures
        replacer_view(r) == replacer_of(option_model(value)),
{
    let v = match value {
        None => {
            return None;
        },
        Some(v) => v,
    };
    let mut keys: Vec<String> = Vec::new();
    assert(keys_view(keys@) =~= Seq::<Seq<char>>::empty());
    match v {
        Value::Null | Value::Undefined => {
            return None;
        },
        Value::Array(items) => {
            proof {
                lemma_models(items@);
                crate::value::lemma_all_wf(models(items@));
                assert forall|j: int| 0 <= j < items@.len() implies (#[trigger] items@[j])@.wf() by {
                    assert(models(items@)[j] == items@[j]@);
                }
            }
            push_keys(&mut keys, items);
        },
        _ => {
            let ghost single = seq![v@];
            assert(single.drop_last() =~= Seq::<Json>::empty());
            assert(replacer_keys(Seq::<Json>::empty()) =~= Seq::<Seq<char>>::empty());
            assert(single.last() == v@);
            match key_string(v) {
                Some(k) => {
                    keys.push(k);
                    assert(keys_view(keys@) =~= seq![k@]);
                    assert(!Seq::<Seq<char>>::empty().contains(k@));
                    assert(replacer_keys(single) =~= Seq::<Seq<char>>::empty().push(k@));
                },
                None => {
                    assert(replacer_keys(single) =~= Seq::<Seq<char>>::empty());
                },
            }
            assert(replacer_of(option_model(value)) == Some(replacer_keys(single)));
        },
    }
    Some(keys)
}

/// How many UTF-16 code units `c` takes.
pub open spec fn utf16_width(c: char) -> int {
    if c > '\u{FFFF}' {
        2
    } else {
        1
    }
}

/// The leading `units` UTF-16 code units of `s`, as `substring(0, units)`
/// takes them. A character cut through the middle leaves its first half,
/// which is written as U+FFFD.
pub open spec fn truncated(s: Seq<char>, units: int) -> Seq<char>
    decreases s.len(),
{
    if s.len() == 0 || units <= 0 {
        Seq::empty()
    } else if utf16_width(s[0]) <= units {
        seq![s[0]] + truncated(s.drop_first(), units - utf16_width(s[0]))
    } else {
        seq!['\u{FFFD}']
    }
}

/// The leading `units` UTF-16 code units of `text`: see [`truncated`].
pub fn truncate_utf16(text: &str, units: usize) -> (r: String)
    ensures
        r@ == truncated(text@, units as int),
{
    let chars = crate::text::chars_of(text);
    let mut out: Vec<char> = Vec::new();
    let mut used: usize = 0;
    let mut i: usize = 0;
    assert(chars@.skip(0) =~= chars@);
    while i < chars.len() && used < units
        invariant
            i <= chars@.len(),
            chars@ == text@,
            used <= units,
            truncated(text@, units as int) == out@ + truncated(chars@.skip(i as int), units - used),
        decreases chars@.len() - i,
    {
        let ghost rest = chars@.skip(i as int);
        assert(rest[0] == chars@[i as int]);
        assert(rest.drop_first() =~= chars@.skip(i + 1));
        let c = chars[i];
        let width: usize = if c > '\u{FFFF}' {
            2
        } else {
            1
        };
        assert(width == utf16_width(c));
        let ghost before = out@;
        if width <= units - used {
            assert(truncated(rest, units - used) == seq![c] + truncated(rest.drop_first(), units - used - width));
            out.push(c);
            used = used + width;
            i = i + 1;
            assert(before + (seq![c] + truncated(chars@.skip(i as int), units - used)) =~= out@ + truncated(chars@.skip(i as int), units - used));
        } else {
            assert(truncated(rest, units - used) == seq!['\u{FFFD}']);
            out.push('\u{FFFD}');
            assert(out@ =~= before + seq!['\u{FFFD}']);
            return crate::text::string_of(&out);
        }
    }
    if i < chars.len() {
        assert(truncated(chars@.skip(i as int), units - used) =~= Seq::<char>::empty());
    } else {
        assert(chars@.skip(i as int) =~= Seq::<char>::empty());
    }
    assert(out@ + Seq::<char>::empty() =~= out@);
    crate::text::string_of(&out)
}

/// How many spaces a number `space` indents by: its floor, clamped to
/// `0..=10`.
pub open spec fn space_count(n: NumModel) -> nat {
    if n.digits.len() == 0 || n.negative {
        0
    } else if n.exponent >= 2 {
        10
    } else if n.exponent == 1 {
        n.digits[0] as nat
    } else {
        0
    }
}

/// The `JSON.space` option as an indent: a number is that many spaces,
/// clamped to ten, a string is its first ten UTF-16 units, and anything
/// else is no indent.
pub open spec fn space_of(value: Option<Json>) -> Seq<char> {
    match value {
        Some(Json::Str(s)) => truncated(s, 10),
        Some(Json::Number(n)) => Seq::new(space_count(n), |i: int| ' '),
        _ => Seq::empty(),
    }
}

/// The `JSON.space` option as an indent string: see [`space_of`].
pub fn parse_space(value: Option<&Value>) -> (r: String)
    requires
        value matches Some(v) ==> v@.wf(),
    ensures
        r@ == space_of(option_model(value)),
{
    match value {
        Some(Value::Str(text)) => truncate_utf16(text.as_str(), 10),
        Some(Value::Number(n)) => {
            let count: usize = if n.digits.len() == 0 || n.negative {
                0
            } else if n.exponent >= 2 {
                10
            } else if n.exponent == 1 {
                n.digits[0] as usize
            } else {
                0
            };
            let mut out: Vec<char> = Vec::new();
            let mut i: usize = 0;
            while i < count
                invariant
                    i <= count,
                    out@ == Seq::new(i as nat, |j: int| ' '),
                decreases count - i,
            {
                out.push(' ');
                i = i + 1;
                assert(out@ =~= Seq::new(i as nat, |j: int| ' '));
            }
            assert(out@ =~= space_of(option_model(value)));
            crate::text::string_of(&out)
        },
        _ => {
            let r = String::new();
            assert(r@ =~= Seq::<char>::empty());
            r
        },
    }
}

/// One of the two `JSON` options as the command reads it: absent when
/// the bag has no such key, the value as it stands when it is not a
/// string, and a string parsed a second time by jsonic, whose error is
/// the command's.
pub open spec fn json_option_of(bag: Option<Seq<(Seq<char>, Json)>>, key: Seq<char>) -> Result<
    Option<Json>,
    Seq<char>,
> {
    match bag {
        None => Ok(None),
        Some(entries) => {
            let i = key_index(entries, key);
            if i < 0 || i >= entries.len() {
                Ok(None)
            } else {
                match entries[i].1 {
                    Json::Str(text) => match relaxed_value(text) {
                        Ok(v) => Ok(Some(defined(v))),
                        Err(report) => Err(report),
                    },
                    raw => Ok(Some(raw)),
                }
            }
        },
    }
}

pub open spec fn bag_model(bag: Option<&Vec<(String, Value)>>) -> Option<Seq<(Seq<char>, Json)>> {
    match bag {
        Some(entries) => Some(entry_models(entries@)),
        None => None,
    }
}

pub open spec fn option_result_view(r: Result<Option<Value>, String>) -> Result<Option<Json>, Seq<char>> {
    match r {
        Ok(Some(v)) => Ok(Some(v@)),
        Ok(None) => Ok(None),
        Err(report) => Err(report@),
    }
}

/// One of the two `JSON` options: see [`json_option_of`].
pub fn json_option(json_bag: Option<&Vec<(String, Value)>>, key: &str) -> (r: Result<Option<Value>, String>)
    requires
        json_bag matches Some(entries) ==> Json::Object(entry_models(entries@)).wf(),
    ensures
        option_result_view(r) == json_option_of(bag_model(json_bag), key@),
        r matches Ok(Some(v)) ==> v@.wf(),
{
    let entries = match json_bag {
        None => {
            return Ok(None);
        },
        Some(entries) => entries,
    };
    let key = String::from_str(key);
    proof {
        lemma_entry_models(entries@);
        lemma_key_index(entry_models(entries@), key@);
        crate::value::lemma_all_entries_wf(entry_models(entries@));
    }
    let i = match find_key(entries, &key) {
        None => {
            return Ok(None);
        },
        Some(i) => i,
    };
    assert(entry_models(entries@)[i as int] == (entries@[i as int].0@, entries@[i as int].1@));
    match &entries[i].1 {
        Value::Str(text) => match parse_relaxed(text.as_str()) {
            Ok(v) => {
                let v = match v {
                    Value::Undefined => Value::Null,
                    other => other,
                };
                Ok(Some(v))
            },
            Err(report) => Err(report),
        },
        raw => Ok(Some(raw.copy())),
    }
}


/// A replacer list names each key at most once.
pub proof fn lemma_replacer_keys_distinct(items: Seq<Json>)
    ensures
        forall|i: int, j: int|
            0 <= i < j < replacer_keys(items).len() ==> #[trigger] replacer_keys(items)[i]
                != #[trigger] replacer_keys(items)[j],
    decreases items.len(),
{
    if items.len() > 0 {
        lemma_replacer_keys_distinct(items.drop_last());
        let rest = replacer_keys(items.drop_last());
        match key_of(items.last()) {
            Some(k) => if !rest.contains(k) {
                let next = rest.push(k);
                assert forall|i: int, j: int| 0 <= i < j < next.len() implies #[trigger] next[i]
                    != #[trigger] next[j] by {
                    if j == rest.len() {
                        if next[i] == k {
                            assert(rest[i] == k);
                            assert(rest.contains(k));
                        }
                    } else {
                        assert(rest[i] != rest[j]);
                    }
                }
            },
            None => {},
        }
    }
}

/// A string cut to `units` UTF-16 units has at most that many
/// characters.
pub proof fn lemma_truncated_len(text: Seq<char>, units: int)
    requires
        units >= 0,
    ensures
        truncated(text, units).len() <= units,
    decreases text.len(),
{
    if text.len() > 0 && units > 0 && utf16_width(text[0]) <= units {
        lemma_truncated_len(text.drop_first(), units - utf16_width(text[0]));
    }
}

/// The indent `JSON.space` gives is never longer than ten.
pub proof fn lemma_space_at_most_ten(value: Option<Json>)
    requires
        value matches Some(Json::Number(n)) ==> n.wf(),
    ensures
        space_of(value).len() <= 10,
{
    match value {
        Some(Json::Str(text)) => lemma_truncated_len(text, 10),
        Some(Json::Number(n)) => if n.digits.len() > 0 {
            assert(n.digits[0] < 10);
        },
        _ => {},
    }
}


/// How many UTF-16 code units `s` takes.
pub open spec fn utf16_len(s: Seq<char>) -> int
    decreases s.len(),
{
    if s.len() == 0 {
        0
    } else {
        utf16_width(s[0]) + utf16_len(s.drop_first())
    }
}

/// A string `space` is cut to at most ten UTF-16 code units, the
/// replacement for a split character counting as one.
pub proof fn lemma_truncated_units(text: Seq<char>, units: int)
    requires
        units >= 0,
    ensures
        utf16_len(truncated(text, units)) <= units,
    decreases text.len(),
{
    if text.len() > 0 && units > 0 {
        if utf16_width(text[0]) <= units {
            lemma_truncated_units(text.drop_first(), units - utf16_width(text[0]));
            let rest = truncated(text.drop_first(), units - utf16_width(text[0]));
            let whole = seq![text[0]] + rest;
            assert(whole[0] == text[0]);
            assert(whole.drop_first() =~= rest);
            assert(utf16_len(whole) == utf16_width(text[0]) + utf16_len(rest));
        } else {
            let half = seq!['\u{FFFD}'];
            assert(half.drop_first() =~= Seq::<char>::empty());
            assert(utf16_len(Seq::<char>::empty()) == 0);
            assert(utf16_len(half) == utf16_width(half[0]) + utf16_len(half.drop_first()));
        }
    } else {
        assert(utf16_len(Seq::<char>::empty()) == 0);
    }
}


// ---------------------------------------------------------------------
// Without a space, the output is one line
// ---------------------------------------------------------------------

/// `s` holds no line break.
pub open spec fn one_line(s: Seq<char>) -> bool {
    forall|i: int| 0 <= i < s.len() ==> s[i] != '\n'
}

proof fn lemma_one_line_join(a: Seq<char>, b: Seq<char>)
    requires
        one_line(a),
        one_line(b),
    ensures
        one_line(a + b),
{
    assert forall|i: int| 0 <= i < (a + b).len() implies (a + b)[i] != '\n' by {
        if i < a.len() {
            assert((a + b)[i] == a[i]);
        } else {
            assert((a + b)[i] == b[i - a.len()]);
        }
    }
}

proof fn lemma_digit_char(d: int)
    requires
        0 <= d < 10,
    ensures
        digit_char(d) != '\n',
{
}

proof fn lemma_escape_char_one_line(c: char)
    ensures
        one_line(escape_char(c)),
{
    if (c as int) < 32 && c != '"' && c != '\\' && c != '\n' && c != '\r' && c != '\t' && c
        != '\u{8}' && c != '\u{c}' {
        let d1 = (c as int) / 16;
        let d2 = (c as int) % 16;
        assert(0 <= d1 < 2);
        lemma_digit_char(d1);
        if d2 < 10 {
            lemma_digit_char(d2);
        }
        assert(hex_char(d1) != '\n');
        assert(hex_char(d2) != '\n');
    }
}

proof fn lemma_escaped_one_line(s: Seq<char>)
    ensures
        one_line(escaped(s)),
    decreases s.len(),
{
    if s.len() > 0 {
        lemma_escaped_one_line(s.drop_last());
        lemma_escape_char_one_line(s.last());
        lemma_one_line_join(escaped(s.drop_last()), escape_char(s.last()));
    }
}

proof fn lemma_quoted_one_line(s: Seq<char>)
    ensures
        one_line(quoted(s)),
{
    lemma_escaped_one_line(s);
    lemma_one_line_join(seq!['"'], escaped(s));
    lemma_one_line_join(seq!['"'] + escaped(s), seq!['"']);
}

proof fn lemma_uint_text_one_line(n: nat)
    ensures
        one_line(crate::number::uint_text(n)),
    decreases n,
{
    if n < 10 {
        lemma_digit_char(n as int);
    } else {
        lemma_uint_text_one_line(n / 10);
        lemma_digit_char((n % 10) as int);
        lemma_one_line_join(crate::number::uint_text(n / 10), seq![digit_char((n % 10) as int)]);
    }
}

proof fn lemma_digits_one_line(t: Seq<char>, from: int, to: int)
    requires
        one_line(t),
        0 <= from <= to <= t.len(),
    ensures
        one_line(t.subrange(from, to)),
{
    assert forall|i: int| 0 <= i < t.subrange(from, to).len() implies t.subrange(from, to)[i]
        != '\n' by {
        assert(t.subrange(from, to)[i] == t[from + i]);
    }
}

proof fn lemma_number_one_line(n: NumModel)
    requires
        n.wf(),
    ensures
        one_line(js_number(n.digits, n.negative, n.exponent)),
{
    let ds = n.digits;
    let t = crate::number::digits_text(ds);
    assert forall|i: int| 0 <= i < t.len() implies t[i] != '\n' by {
        lemma_digit_char(ds[i] as int);
    }
    assert forall|count: nat| #[trigger] one_line(crate::number::zeros(count)) by {}
    if ds.len() > 0 {
        let k = ds.len() as int;
        let e = n.exponent;
        if k <= e && e <= 21 {
            lemma_one_line_join(t, crate::number::zeros((e - k) as nat));
        } else if 0 < e && e <= 21 {
            lemma_digits_one_line(t, 0, e);
            lemma_digits_one_line(t, e, k);
            assert(t.take(e) =~= t.subrange(0, e));
            assert(t.skip(e) =~= t.subrange(e, k));
            lemma_one_line_join(t.take(e), seq!['.']);
            lemma_one_line_join(t.take(e) + seq!['.'], t.skip(e));
        } else if -6 < e && e <= 0 {
            lemma_one_line_join(seq!['0', '.'], crate::number::zeros((-e) as nat));
            lemma_one_line_join(seq!['0', '.'] + crate::number::zeros((-e) as nat), t);
        } else {
            let x = e - 1;
            let m = (if x < 0 { -x } else { x }) as nat;
            lemma_uint_text_one_line(m);
            let tail = crate::number::exponent_tail(x);
            lemma_one_line_join(seq!['e', if x < 0 { '-' } else { '+' }], crate::number::uint_text(m));
            if k == 1 {
                lemma_one_line_join(t, tail);
            } else {
                lemma_digits_one_line(t, 0, 1);
                lemma_digits_one_line(t, 1, k);
                assert(t.take(1) =~= t.subrange(0, 1));
                assert(t.skip(1) =~= t.subrange(1, k));
                lemma_one_line_join(t.take(1), seq!['.']);
                lemma_one_line_join(t.take(1) + seq!['.'], t.skip(1));
                lemma_one_line_join(t.take(1) + seq!['.'] + t.skip(1), tail);
            }
        }
        let p = crate::number::js_positive(ds, e);
        assert(one_line(p));
        lemma_one_line_join(seq!['-'], p);
    }
}

proof fn lemma_value_one_line(v: Json, replacer: Option<Seq<Seq<char>>>, indent: Seq<char>)
    requires
        v.wf(),
    ensures
        one_line(value_text(v, replacer, Seq::empty(), indent)),
    decreases v, 0int,
{
    let empty = Seq::<char>::empty();
    assert(line(empty, indent) =~= empty);
    assert(indent + empty =~= indent);
    match v {
        Json::Number(n) => lemma_number_one_line(n),
        Json::Str(s) => lemma_quoted_one_line(s),
        Json::Array(items) => {
            if items.len() > 0 {
                crate::value::lemma_all_wf(items);
                lemma_items_one_line(items, items.len() as int, replacer, indent);
                lemma_one_line_join(seq!['['], items_text(items, items.len() as int, replacer, empty, indent));
                lemma_one_line_join(seq!['['] + items_text(items, items.len() as int, replacer, empty, indent), seq![']']);
                assert(value_text(v, replacer, empty, indent) =~= seq!['['] + items_text(items, items.len() as int, replacer, empty, indent) + seq![']']);
            }
        },
        Json::Object(entries) => {
            let written = written_positions(entries, replacer);
            if written.len() > 0 {
                crate::value::lemma_all_entries_wf(entries);
                lemma_entries_one_line(entries, written, replacer, indent);
                let body = entries_text(entries, written, replacer, empty, indent);
                lemma_one_line_join(seq!['{'], body);
                lemma_one_line_join(seq!['{'] + body, seq!['}']);
                assert(value_text(v, replacer, empty, indent) =~= seq!['{'] + body + seq!['}']);
            }
        },
        _ => {},
    }
}

proof fn lemma_items_one_line(items: Seq<Json>, n: int, replacer: Option<Seq<Seq<char>>>, indent: Seq<char>)
    requires
        forall|i: int| 0 <= i < items.len() ==> #[trigger] items[i].wf(),
    ensures
        one_line(items_text(items, n, replacer, Seq::empty(), indent)),
    decreases items, n,
{
    let empty = Seq::<char>::empty();
    if 0 < n <= items.len() {
        lemma_items_one_line(items, n - 1, replacer, indent);
        assert(decreases_to!(items => items[n - 1]));
        lemma_value_one_line(items[n - 1], replacer, indent);
        let head = items_text(items, n - 1, replacer, empty, indent);
        let sep = if n > 1 { seq![','] } else { empty };
        assert(line(empty, indent) =~= empty);
        lemma_one_line_join(head, sep);
        lemma_one_line_join(head + sep, value_text(items[n - 1], replacer, empty, indent));
        assert(items_text(items, n, replacer, empty, indent) =~= head + sep + value_text(items[n - 1], replacer, empty, indent));
    }
}

proof fn lemma_entries_one_line(
    entries: Seq<(Seq<char>, Json)>,
    positions: Seq<int>,
    replacer: Option<Seq<Seq<char>>>,
    indent: Seq<char>,
)
    requires
        forall|i: int| 0 <= i < entries.len() ==> #[trigger] entries[i].1.wf(),
    ensures
        one_line(entries_text(entries, positions, replacer, Seq::empty(), indent)),
    decreases entries, positions.len(),
{
    let empty = Seq::<char>::empty();
    if positions.len() > 0 {
        let p = positions.last();
        lemma_entries_one_line(entries, positions.drop_last(), replacer, indent);
        if 0 <= p < entries.len() {
            assert(decreases_to!(entries => entries[p]));
            assert(decreases_to!(entries[p] => entries[p].1));
            lemma_value_one_line(entries[p].1, replacer, indent);
            lemma_quoted_one_line(entries[p].0);
            let head = entries_text(entries, positions.drop_last(), replacer, empty, indent);
            let sep = if positions.len() > 1 { seq![','] } else { empty };
            assert(line(empty, indent) =~= empty);
            lemma_one_line_join(head, sep);
            lemma_one_line_join(head + sep, quoted(entries[p].0));
            lemma_one_line_join(head + sep + quoted(entries[p].0), seq![':']);
            lemma_one_line_join(head + sep + quoted(entries[p].0) + seq![':'], value_text(entries[p].1, replacer, empty, indent));
            assert(entries_text(entries, positions, replacer, empty, indent) =~= head + sep + quoted(entries[p].0) + seq![':'] + value_text(entries[p].1, replacer, empty, indent));
        }
    }
}

/// Without a space the output is one line: no line break is written,
/// whatever the value, since every line break inside a string is
/// escaped.
pub proof fn lemma_compact_is_one_line(v: Json, replacer: Option<Seq<Seq<char>>>)
    requires
        v.wf(),
    ensures
        one_line(stringify_text(v, replacer, Seq::empty())),
{
    if !(v is Undefined) {
        lemma_value_one_line(v, replacer, Seq::empty());
    }
}


// ---------------------------------------------------------------------
// What the string writer writes reads back as the string
// ---------------------------------------------------------------------

proof fn lemma_escaped_front(s: Seq<char>)
    requires
        s.len() > 0,
    ensures
        escaped(s) == escape_char(s[0]) + escaped(s.drop_first()),
    decreases s.len(),
{
    if s.len() == 1 {
        assert(s.drop_last() =~= Seq::<char>::empty());
        assert(s.drop_first() =~= Seq::<char>::empty());
        assert(escaped(Seq::<char>::empty()) == Seq::<char>::empty());
        assert(escape_char(s[0]) + Seq::<char>::empty() =~= escape_char(s[0]));
    } else {
        let init = s.drop_last();
        lemma_escaped_front(init);
        assert(init[0] == s[0]);
        assert(init.drop_first() =~= s.drop_first().drop_last());
        assert(s.drop_first().last() == s.last());
        assert(escaped(s.drop_first()) == escaped(s.drop_first().drop_last()) + escape_char(s.last()));
        assert(escaped(s) =~= escape_char(s[0]) + escaped(s.drop_first()));
    }
}

proof fn lemma_hex_char_value(d: int)
    requires
        0 <= d < 16,
    ensures
        crate::reader::hex_digit_value(hex_char(d)) == Some(d),
{
    if d < 10 {
        assert(hex_char(d) as int == 48 + d);
    } else {
        assert(hex_char(d) as int == 87 + d);
    }
}

proof fn lemma_decode_char(chars: Seq<char>, at: int, acc: Seq<char>, c: char)
    requires
        0 <= at,
        at + escape_char(c).len() <= chars.len(),
        chars.subrange(at, at + escape_char(c).len()) == escape_char(c),
    ensures
        crate::reader::string_body(chars, at, acc) == crate::reader::string_body(
            chars,
            at + escape_char(c).len(),
            acc.push(c),
        ),
{
    let e = escape_char(c);
    assert forall|i: int| 0 <= i < e.len() implies chars[at + i] == e[i] by {
        assert(chars.subrange(at, at + e.len())[i] == chars[at + i]);
    }
    if c == '"' || c == '\\' || c == '\n' || c == '\r' || c == '\t' || c == '\u{8}' || c == '\u{c}' {
    } else if (c as int) < 32 {
        let d1 = (c as int) / 16;
        let d2 = (c as int) % 16;
        lemma_hex_char_value(d1);
        lemma_hex_char_value(d2);
        assert(crate::reader::hex_digit_value('0') == Some(0int));
        assert(crate::reader::hex4_at(chars, at + 2) == Some(d1 * 16 + d2));
        assert(d1 * 16 + d2 == c as int);
        assert(crate::reader::is_scalar(c as int));
        assert((c as int) as char == c);
    } else {
        assert(e == seq![c]);
        assert(chars[at + 0] == e[0]);
        assert(chars[at] == c);
    }
}

proof fn lemma_decode_escaped(chars: Seq<char>, at: int, acc: Seq<char>, s: Seq<char>)
    requires
        0 <= at,
        at + escaped(s).len() < chars.len(),
        chars.subrange(at, at + escaped(s).len()) == escaped(s),
        chars[at + escaped(s).len()] == '"',
    ensures
        crate::reader::string_body(chars, at, acc) == Some((acc + s, at + escaped(s).len() + 1)),
    decreases s.len(),
{
    if s.len() == 0 {
        assert(escaped(s) == Seq::<char>::empty());
        assert(acc + s =~= acc);
    } else {
        lemma_escaped_front(s);
        let e0 = escape_char(s[0]);
        let rest = s.drop_first();
        let er = escaped(rest);
        assert(chars.subrange(at, at + e0.len()) =~= e0) by {
            assert forall|i: int| 0 <= i < e0.len() implies chars.subrange(at, at + e0.len())[i]
                == e0[i] by {
                assert(chars.subrange(at, at + escaped(s).len())[i] == escaped(s)[i]);
            }
        }
        assert(chars.subrange(at + e0.len(), at + e0.len() + er.len()) =~= er) by {
            assert forall|i: int| 0 <= i < er.len() implies chars.subrange(
                at + e0.len(),
                at + e0.len() + er.len(),
            )[i] == er[i] by {
                assert(chars.subrange(at, at + escaped(s).len())[e0.len() + i] == escaped(s)[e0.len() + i]);
            }
        }
        lemma_decode_char(chars, at, acc, s[0]);
        lemma_decode_escaped(chars, at + e0.len(), acc.push(s[0]), rest);
        assert(acc.push(s[0]) + rest =~= acc + s);
    }
}

/// What the string writer writes reads back as the string: the quoted
/// text is one standard JSON string whose value is exactly `s`, and it
/// holds no raw control character, since every character below U+0020
/// is escaped.
pub proof fn lemma_write_string_reads_back(s: Seq<char>)
    ensures
        crate::reader::json_value(quoted(s)) == Some(Json::Str(s)),
        forall|i: int| 0 <= i < quoted(s).len() ==> quoted(s)[i] >= ' ',
{
    let q = quoted(s);
    let e = escaped(s);
    assert(q[0] == '"');
    assert(q.subrange(1, 1 + e.len() as int) =~= e);
    assert(q[1 + e.len() as int] == '"');
    lemma_decode_escaped(q, 1, Seq::empty(), s);
    assert(Seq::<char>::empty() + s =~= s);
    assert(crate::reader::string_at(q, 0) == Some((s, q.len() as int)));
    assert(crate::reader::skip_from(q, 0) == 0);
    assert(crate::reader::skip_from(q, q.len() as int) == q.len());
    lemma_escaped_printable(s);
}

proof fn lemma_escape_char_printable(c: char)
    ensures
        forall|i: int| 0 <= i < escape_char(c).len() ==> escape_char(c)[i] >= ' ',
{
    if (c as int) < 32 && c != '"' && c != '\\' && c != '\n' && c != '\r' && c != '\t' && c
        != '\u{8}' && c != '\u{c}' {
        let d1 = (c as int) / 16;
        let d2 = (c as int) % 16;
        assert(hex_char(d1) as int >= 48);
        assert(hex_char(d2) as int >= 48);
    }
}

proof fn lemma_escaped_printable(s: Seq<char>)
    ensures
        forall|i: int| 0 <= i < quoted(s).len() ==> quoted(s)[i] >= ' ',
    decreases s.len(),
{
    lemma_escaped_all_printable(s);
    let q = quoted(s);
    assert forall|i: int| 0 <= i < q.len() implies q[i] >= ' ' by {
        if i > 0 && i < q.len() - 1 {
            assert(q[i] == escaped(s)[i - 1]);
        }
    }
}

proof fn lemma_escaped_all_printable(s: Seq<char>)
    ensures
        forall|i: int| 0 <= i < escaped(s).len() ==> escaped(s)[i] >= ' ',
    decreases s.len(),
{
    if s.len() > 0 {
        lemma_escaped_all_printable(s.drop_last());
        lemma_escape_char_printable(s.last());
        let a = escaped(s.drop_last());
        let b = escape_char(s.last());
        assert forall|i: int| 0 <= i < (a + b).len() implies (a + b)[i] >= ' ' by {
            if i < a.len() {
                assert((a + b)[i] == a[i]);
            } else {
                assert((a + b)[i] == b[i - a.len()]);
            }
        }
    }
}

/// The lowercase hexadecimal digits, in order.
pub open spec fn lower_hex_digits() -> Seq<char> {
    seq!['0', '1', '2', '3', '4', '5', '6', '7', '8', '9', 'a', 'b', 'c', 'd', 'e', 'f']
}

proof fn lemma_hex_char_lowercase(d: int)
    requires
        0 <= d < 16,
    ensures
        hex_char(d) == lower_hex_digits()[d],
{
    if d < 10 {
        assert(digit_char(d) == lower_hex_digits()[d]);
    } else {
        assert(((87 + d) as u8) as char == lower_hex_digits()[d]);
    }
}

proof fn lemma_escaped_flattens(s: Seq<char>)
    ensures
        escaped(s) == s.map_values(|c: char| escape_char(c)).flatten_alt(),
    decreases s.len(),
{
    if s.len() > 0 {
        lemma_escaped_flattens(s.drop_last());
        assert(s.map_values(|c: char| escape_char(c)).drop_last() =~= s.drop_last().map_values(
            |c: char| escape_char(c),
        ));
    }
}

proof fn lemma_control_escape(c: char)
    requires
        c < ' ',
        c != '\n' && c != '\r' && c != '\t' && c != '\u{8}' && c != '\u{c}',
    ensures
        escape_char(c) == seq![
            '\\',
            'u',
            '0',
            '0',
            lower_hex_digits()[(c as int) / 16],
            lower_hex_digits()[(c as int) % 16],
        ],
{
    let k = c as int;
    assert(0 <= k < 32);
    assert(0 <= k / 16 < 2) by (nonlinear_arith)
        requires
            0 <= k < 32,
    ;
    lemma_hex_char_lowercase(k / 16);
    lemma_hex_char_lowercase(k % 16);
}

/// How the string writer writes a string: a `"`, then each character in
/// turn by its own escape, then a `"`. A character other than `"`, `\`
/// and those below U+0020 stands for itself, U+007F and every non-ASCII
/// character included; `"`, `\`, line feed, carriage return, tab,
/// backspace and form feed become `\"`, `\\`, `\n`, `\r`, `\t`, `\b` and
/// `\f`; every other character below U+0020 becomes `\u00` and two
/// lowercase hexadecimal digits. So no character below U+0020 is left in
/// the text.
pub proof fn lemma_write_string_escapes(s: Seq<char>)
    ensures
        quoted(s) == seq!['"'] + s.map_values(|c: char| escape_char(c)).flatten() + seq!['"'],
        forall|i: int| 0 <= i < quoted(s).len() ==> quoted(s)[i] >= ' ',
        forall|c: char| c != '"' && c != '\\' && c >= ' ' ==> #[trigger] escape_char(c) == seq![c],
        escape_char('"') == seq!['\\', '"'],
        escape_char('\\') == seq!['\\', '\\'],
        escape_char('\n') == seq!['\\', 'n'],
        escape_char('\r') == seq!['\\', 'r'],
        escape_char('\t') == seq!['\\', 't'],
        escape_char('\u{8}') == seq!['\\', 'b'],
        escape_char('\u{c}') == seq!['\\', 'f'],
        forall|c: char|
            c < ' ' && c != '\n' && c != '\r' && c != '\t' && c != '\u{8}' && c != '\u{c}'
                ==> #[trigger] escape_char(c) == seq![
                '\\',
                'u',
                '0',
                '0',
                lower_hex_digits()[(c as int) / 16],
                lower_hex_digits()[(c as int) % 16],
            ],
{
    lemma_escaped_flattens(s);
    s.map_values(|c: char| escape_char(c)).lemma_flatten_and_flatten_alt_are_equivalent();
    lemma_escaped_printable(s);
    assert forall|c: char|
        c < ' ' && c != '\n' && c != '\r' && c != '\t' && c != '\u{8}' && c != '\u{c}'
            implies #[trigger] escape_char(c) == seq![
            '\\',
            'u',
            '0',
            '0',
            lower_hex_digits()[(c as int) / 16],
            lower_hex_digits()[(c as int) % 16],
        ] by {
        lemma_control_escape(c);
    }
}

/// What one element of an array adds to its text at the inner indent
/// `inner`: a comma after an earlier element, a line break and the inner
/// indent when there is a space, and the element written at `inner`.
pub open spec fn array_piece(
    items: Seq<Json>,
    k: int,
    replacer: Option<Seq<Seq<char>>>,
    space: Seq<char>,
    inner: Seq<char>,
) -> Seq<char> {
    (if k > 0 {
        seq![',']
    } else {
        Seq::<char>::empty()
    }) + (if space.len() == 0 {
        Seq::<char>::empty()
    } else {
        seq!['\n'] + inner
    }) + value_text(items[k], replacer, space, inner)
}

proof fn lemma_items_pieces(
    items: Seq<Json>,
    m: int,
    replacer: Option<Seq<Seq<char>>>,
    space: Seq<char>,
    inner: Seq<char>,
)
    requires
        0 <= m <= items.len(),
    ensures
        items_text(items, m, replacer, space, inner) == Seq::new(
            m as nat,
            |k: int| array_piece(items, k, replacer, space, inner),
        ).flatten_alt(),
    decreases m,
{
    let f = |k: int| array_piece(items, k, replacer, space, inner);
    if m > 0 {
        lemma_items_pieces(items, m - 1, replacer, space, inner);
        assert(Seq::new(m as nat, f).drop_last() =~= Seq::new((m - 1) as nat, f));
        assert(line(space, inner) == (if space.len() == 0 {
            Seq::<char>::empty()
        } else {
            seq!['\n'] + inner
        }));
        assert(items_text(items, m, replacer, space, inner) =~= items_text(items, m - 1, replacer, space, inner) + f(m - 1));
    }
}

/// How an array is laid out: `[`, then each element in turn, preceded by
/// a comma after the first and, when there is a space, by a line break
/// and the array's indent followed by one more `space`, and written
/// itself at that deeper indent; then, when there is a space, a line
/// break and the array's own indent; then `]`.
pub proof fn lemma_array_layout(
    items: Seq<Json>,
    replacer: Option<Seq<Seq<char>>>,
    space: Seq<char>,
    indent: Seq<char>,
)
    requires
        items.len() > 0,
    ensures
        value_text(Json::Array(items), replacer, space, indent) == seq!['['] + Seq::new(
            items.len(),
            |k: int|
                (if k > 0 {
                    seq![',']
                } else {
                    Seq::<char>::empty()
                }) + (if space.len() == 0 {
                    Seq::<char>::empty()
                } else {
                    seq!['\n'] + indent + space
                }) + value_text(items[k], replacer, space, indent + space),
        ).flatten() + (if space.len() == 0 {
            Seq::<char>::empty()
        } else {
            seq!['\n'] + indent
        }) + seq![']'],
{
    let inner = indent + space;
    let f = |k: int| array_piece(items, k, replacer, space, inner);
    lemma_items_pieces(items, items.len() as int, replacer, space, inner);
    Seq::new(items.len(), f).lemma_flatten_and_flatten_alt_are_equivalent();
    let g = |k: int|
        (if k > 0 {
            seq![',']
        } else {
            Seq::<char>::empty()
        }) + (if space.len() == 0 {
            Seq::<char>::empty()
        } else {
            seq!['\n'] + indent + space
        }) + value_text(items[k], replacer, space, indent + space);
    assert(Seq::new(items.len(), f) =~= Seq::new(items.len(), g)) by {
        assert forall|k: int| 0 <= k < items.len() implies #[trigger] Seq::new(items.len(), f)[k] == Seq::new(items.len(), g)[k] by {
            if space.len() > 0 {
                assert(seq!['\n'] + inner =~= seq!['\n'] + indent + space);
            }
        }
    }
}

/// What one written entry of an object adds to its text at the inner
/// indent `inner`: a comma after an earlier entry, a line break and the
/// inner indent when there is a space, the quoted key, `:`, a blank when
/// there is a space, and the entry's value written at `inner`.
pub open spec fn object_piece(
    entries: Seq<(Seq<char>, Json)>,
    positions: Seq<int>,
    k: int,
    replacer: Option<Seq<Seq<char>>>,
    space: Seq<char>,
    inner: Seq<char>,
) -> Seq<char> {
    (if k > 0 {
        seq![',']
    } else {
        Seq::<char>::empty()
    }) + (if space.len() == 0 {
        Seq::<char>::empty()
    } else {
        seq!['\n'] + inner
    }) + quoted(entries[positions[k]].0) + seq![':'] + (if space.len() == 0 {
        Seq::<char>::empty()
    } else {
        seq![' ']
    }) + value_text(entries[positions[k]].1, replacer, space, inner)
}

proof fn lemma_entries_pieces(
    entries: Seq<(Seq<char>, Json)>,
    positions: Seq<int>,
    replacer: Option<Seq<Seq<char>>>,
    space: Seq<char>,
    inner: Seq<char>,
)
    requires
        forall|k: int| 0 <= k < positions.len() ==> 0 <= #[trigger] positions[k] < entries.len(),
    ensures
        entries_text(entries, positions, replacer, space, inner) == Seq::new(
            positions.len(),
            |k: int| object_piece(entries, positions, k, replacer, space, inner),
        ).flatten_alt(),
    decreases positions.len(),
{
    if positions.len() > 0 {
        let init = positions.drop_last();
        assert forall|k: int| 0 <= k < init.len() implies 0 <= #[trigger] init[k] < entries.len() by {
            assert(init[k] == positions[k]);
        }
        lemma_entries_pieces(entries, init, replacer, space, inner);
        let f = |k: int| object_piece(entries, positions, k, replacer, space, inner);
        let fi = |k: int| object_piece(entries, init, k, replacer, space, inner);
        assert(Seq::new(positions.len(), f).drop_last() =~= Seq::new(init.len(), fi)) by {
            assert forall|k: int| 0 <= k < init.len() implies #[trigger] Seq::new(positions.len(), f)[k] == Seq::new(init.len(), fi)[k] by {
                assert(init[k] == positions[k]);
            }
        }
        let n = positions.len() - 1;
        assert(positions.last() == positions[n]);
        assert(0 <= positions[n] < entries.len());
        assert(entries_text(entries, positions, replacer, space, inner) =~= entries_text(entries, init, replacer, space, inner) + f(n));
    }
}

/// How an object is laid out: `{`, then each written entry in turn,
/// preceded by a comma after the first and, when there is a space, by a
/// line break and the object's indent followed by one more `space`; the
/// entry is its quoted key, `:`, a blank when there is a space, and its
/// value written at that deeper indent; then, when there is a space, a
/// line break and the object's own indent; then `}`.
pub proof fn lemma_object_layout(
    entries: Seq<(Seq<char>, Json)>,
    replacer: Option<Seq<Seq<char>>>,
    space: Seq<char>,
    indent: Seq<char>,
)
    requires
        written_positions(entries, replacer).len() > 0,
        forall|k: int|
            0 <= k < written_positions(entries, replacer).len() ==> 0 <= #[trigger] written_positions(
                entries,
                replacer,
            )[k] < entries.len(),
    ensures
        ({
            let w = written_positions(entries, replacer);
            value_text(Json::Object(entries), replacer, space, indent) == seq!['{'] + Seq::new(
                w.len(),
                |k: int|
                    (if k > 0 {
                        seq![',']
                    } else {
                        Seq::<char>::empty()
                    }) + (if space.len() == 0 {
                        Seq::<char>::empty()
                    } else {
                        seq!['\n'] + indent + space
                    }) + quoted(entries[w[k]].0) + seq![':'] + (if space.len() == 0 {
                        Seq::<char>::empty()
                    } else {
                        seq![' ']
                    }) + value_text(entries[w[k]].1, replacer, space, indent + space),
            ).flatten() + (if space.len() == 0 {
                Seq::<char>::empty()
            } else {
                seq!['\n'] + indent
            }) + seq!['}']
        }),
{
    let w = written_positions(entries, replacer);
    let inner = indent + space;
    let f = |k: int| object_piece(entries, w, k, replacer, space, inner);
    lemma_entries_pieces(entries, w, replacer, space, inner);
    Seq::new(w.len(), f).lemma_flatten_and_flatten_alt_are_equivalent();
    let g = |k: int|
        (if k > 0 {
            seq![',']
        } else {
            Seq::<char>::empty()
        }) + (if space.len() == 0 {
            Seq::<char>::empty()
        } else {
            seq!['\n'] + indent + space
        }) + quoted(entries[w[k]].0) + seq![':'] + (if space.len() == 0 {
            Seq::<char>::empty()
        } else {
            seq![' ']
        }) + value_text(entries[w[k]].1, replacer, space, indent + space);
    assert(Seq::new(w.len(), f) =~= Seq::new(w.len(), g)) by {
        assert forall|k: int| 0 <= k < w.len() implies #[trigger] Seq::new(w.len(), f)[k] == Seq::new(w.len(), g)[k] by {
            if space.len() > 0 {
                assert(seq!['\n'] + inner =~= seq!['\n'] + indent + space);
            }
        }
    }
}

} // verus!
