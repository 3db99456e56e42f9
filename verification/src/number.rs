//! Numbers as the library holds them: a sign, the significant decimal
//! digits and a decimal exponent, and the text `JSON.stringify` writes for
//! one, which is ECMAScript's `Number::toString`.

use vstd::prelude::*;

use crate::stringify::pow10;

verus! {

/// The largest exponent magnitude, and the largest digit count, a number
/// may carry. Far past anything a double reaches; it keeps the layout
/// arithmetic inside `i64`.
pub const EXPONENT_LIMIT: i64 = 1_000_000_000;

/// A finite number: `(-1)^negative * 0.d1 d2 ... dk * 10^exponent`, with
/// `digits` holding `d1 ... dk` as values `0..=9`. No digits at all is
/// zero, of either sign.
#[derive(Debug)]
pub struct Num {
    pub negative: bool,
    pub digits: Vec<u8>,
    pub exponent: i64,
}

impl Num {
    /// Digits in range, no leading or trailing zero digit, and the
    /// exponent and length inside [`EXPONENT_LIMIT`].
    pub open spec fn wf(&self) -> bool {
        &&& forall|i: int| 0 <= i < self.digits.len() ==> #[trigger] self.digits[i] < 10
        &&& self.digits.len() > 0 ==> self.digits[0] != 0 && self.digits[self.digits.len() - 1] != 0
        &&& -EXPONENT_LIMIT <= self.exponent <= EXPONENT_LIMIT
        &&& self.digits.len() <= EXPONENT_LIMIT
    }

    /// Equal sign, digits and exponent.
    pub open spec fn same(&self, other: Num) -> bool {
        &&& self.negative == other.negative
        &&& self.digits@ == other.digits@
        &&& self.exponent == other.exponent
    }

    /// A copy with the same sign, digits and exponent.
    pub fn copy(&self) -> (out: Num)
        ensures
            out.same(*self),
    {
        let digits = self.digits.clone();
        assert(digits@ =~= self.digits@);
        Num { negative: self.negative, digits, exponent: self.exponent }
    }
}

/// The character of one decimal digit.
pub open spec fn digit_char(d: int) -> char {
    ((48 + d) as u8) as char
}

/// The digits as characters.
pub open spec fn digits_text(ds: Seq<u8>) -> Seq<char> {
    Seq::new(ds.len(), |i: int| digit_char(ds[i] as int))
}

/// `count` zero characters.
pub open spec fn zeros(count: nat) -> Seq<char> {
    Seq::new(count, |i: int| '0')
}

/// The decimal numeral of `n`, without sign or leading zeros.
pub open spec fn uint_text(n: nat) -> Seq<char>
    decreases n,
{
    if n < 10 {
        seq![digit_char(n as int)]
    } else {
        uint_text(n / 10) + seq![digit_char((n % 10) as int)]
    }
}

/// ECMAScript `Number::toString` for a positive number whose shortest
/// digits are `ds` (length `k`) and whose value is `0.ds * 10^n`: plain
/// digits up to 21 integer digits, a leading `0.` down to 1e-6, and an
/// exponent form outside that window.
pub open spec fn js_positive(ds: Seq<u8>, n: int) -> Seq<char> {
    let k = ds.len() as int;
    let s = digits_text(ds);
    if k <= n && n <= 21 {
        s + zeros((n - k) as nat)
    } else if 0 < n && n <= 21 {
        s.take(n) + seq!['.'] + s.skip(n)
    } else if -6 < n && n <= 0 {
        seq!['0', '.'] + zeros((-n) as nat) + s
    } else {
        let e = n - 1;
        let tail = exponent_tail(e);
        if k == 1 {
            s + tail
        } else {
            s.take(1) + seq!['.'] + s.skip(1) + tail
        }
    }
}

/// What `JSON.stringify` writes for a finite number: `0` for either zero,
/// and otherwise the sign and [`js_positive`].
pub open spec fn js_number(digits: Seq<u8>, negative: bool, exponent: int) -> Seq<char> {
    if digits.len() == 0 {
        seq!['0']
    } else if negative {
        seq!['-'] + js_positive(digits, exponent)
    } else {
        js_positive(digits, exponent)
    }
}

pub open spec fn num_text(num: Num) -> Seq<char> {
    js_number(num.digits@, num.negative, num.exponent as int)
}

fn digit_to_char(d: u8) -> (c: char)
    requires
        d < 10,
    ensures
        c == digit_char(d as int),
{
    ((48u8 + d) as u8) as char
}

/// Append the decimal numeral of `n`.
pub fn push_uint(out: &mut Vec<char>, n: u64)
    ensures
        final(out)@ == old(out)@ + uint_text(n as nat),
    decreases n,
{
    if n < 10 {
        out.push(digit_to_char(n as u8));
    } else {
        push_uint(out, n / 10);
        out.push(digit_to_char((n % 10) as u8));
    }
}

/// Append `count` zero characters.
fn push_zeros(out: &mut Vec<char>, count: usize)
    ensures
        final(out)@ == old(out)@ + zeros(count as nat),
{
    let mut i: usize = 0;
    while i < count
        invariant
            i <= count,
            out@ == old(out)@ + zeros(i as nat),
        decreases count - i,
    {
        out.push('0');
        i = i + 1;
        assert(out@ =~= old(out)@ + zeros(i as nat));
    }
}

/// Append the characters of `ds[from..to]`.
fn push_digits(out: &mut Vec<char>, ds: &Vec<u8>, from: usize, to: usize)
    requires
        from <= to <= ds@.len(),
        forall|i: int| 0 <= i < ds.len() ==> #[trigger] ds[i] < 10,
    ensures
        final(out)@ == old(out)@ + digits_text(ds@).subrange(from as int, to as int),
{
    let mut i: usize = from;
    while i < to
        invariant
            from <= i <= to,
            to <= ds@.len(),
            forall|j: int| 0 <= j < ds.len() ==> #[trigger] ds[j] < 10,
            out@ == old(out)@ + digits_text(ds@).subrange(from as int, i as int),
        decreases to - i,
    {
        out.push(digit_to_char(ds[i]));
        i = i + 1;
        assert(out@ =~= old(out)@ + digits_text(ds@).subrange(from as int, i as int));
    }
}

/// The exponent tail `e+N` / `e-N` of the exponential form.
pub open spec fn exponent_tail(e: int) -> Seq<char> {
    seq!['e', if e < 0 { '-' } else { '+' }] + uint_text((if e < 0 { -e } else { e }) as nat)
}

proof fn lemma_js_positive_exponential(ds: Seq<u8>, n: int)
    requires
        !(ds.len() <= n && n <= 21),
        !(0 < n && n <= 21),
        !(-6 < n && n <= 0),
    ensures
        js_positive(ds, n) == (if ds.len() == 1 {
            digits_text(ds) + exponent_tail(n - 1)
        } else {
            digits_text(ds).take(1) + seq!['.'] + digits_text(ds).skip(1) + exponent_tail(n - 1)
        }),
{
}

fn push_positive(out: &mut Vec<char>, ds: &Vec<u8>, n: i64)
    requires
        ds@.len() > 0,
        ds@.len() <= EXPONENT_LIMIT,
        -EXPONENT_LIMIT <= n <= EXPONENT_LIMIT,
        forall|i: int| 0 <= i < ds.len() ==> #[trigger] ds[i] < 10,
    ensures
        final(out)@ == old(out)@ + js_positive(ds@, n as int),
{
    let k = ds.len();
    let ki = k as i64;
    let ghost s = digits_text(ds@);
    if ki <= n && n <= 21 {
        push_digits(out, ds, 0, k);
        push_zeros(out, (n - ki) as usize);
        assert(s.subrange(0, k as int) =~= s);
        assert(out@ =~= old(out)@ + js_positive(ds@, n as int));
    } else if 0 < n && n <= 21 {
        push_digits(out, ds, 0, n as usize);
        out.push('.');
        push_digits(out, ds, n as usize, k);
        assert(s.subrange(0, n as int) =~= s.take(n as int));
        assert(s.subrange(n as int, k as int) =~= s.skip(n as int));
        assert(out@ =~= old(out)@ + js_positive(ds@, n as int));
    } else if -6 < n && n <= 0 {
        out.push('0');
        out.push('.');
        push_zeros(out, (-n) as usize);
        push_digits(out, ds, 0, k);
        assert(s.subrange(0, k as int) =~= s);
        assert(out@ =~= old(out)@ + js_positive(ds@, n as int));
    } else {
        proof {
            lemma_js_positive_exponential(ds@, n as int);
        }
        let ghost before = out@;
        if k == 1 {
            push_digits(out, ds, 0, 1);
            assert(s.subrange(0, 1) =~= s);
        } else {
            push_digits(out, ds, 0, 1);
            out.push('.');
            push_digits(out, ds, 1, k);
            assert(s.subrange(0, 1) =~= s.take(1));
            assert(s.subrange(1, k as int) =~= s.skip(1));
        }
        let ghost mid = out@;
        push_exponent_tail(out, n - 1);
        assert(out@ =~= old(out)@ + js_positive(ds@, n as int));
    }
}

fn push_exponent_tail(out: &mut Vec<char>, e: i64)
    requires
        -EXPONENT_LIMIT - 1 <= e <= EXPONENT_LIMIT,
    ensures
        final(out)@ == old(out)@ + exponent_tail(e as int),
{
    out.push('e');
    if e < 0 {
        out.push('-');
        push_uint(out, (-e) as u64);
    } else {
        out.push('+');
        push_uint(out, e as u64);
    }
    assert(out@ =~= old(out)@ + exponent_tail(e as int));
}

/// The text `JSON.stringify` writes for `num`, appended to `out`.
pub fn push_number(out: &mut Vec<char>, num: &Num)
    requires
        num.wf(),
    ensures
        final(out)@ == old(out)@ + num_text(*num),
{
    if num.digits.len() == 0 {
        out.push('0');
        assert(out@ =~= old(out)@ + num_text(*num));
        return;
    }
    if num.negative {
        out.push('-');
    }
    push_positive(out, &num.digits, num.exponent);
    assert(out@ =~= old(out)@ + num_text(*num));
}


// ---------------------------------------------------------------------
// Where the exponent form starts
// ---------------------------------------------------------------------

/// The value of the digits `ds` read as one decimal numeral.
pub open spec fn digits_value(ds: Seq<u8>) -> nat
    decreases ds.len(),
{
    if ds.len() == 0 {
        0
    } else {
        digits_value(ds.drop_last()) * 10 + ds.last() as nat
    }
}

proof fn lemma_pow10_add(a: nat, b: nat)
    ensures
        pow10(a + b) == pow10(a) * pow10(b),
    decreases a,
{
    if a == 0 {
        assert(pow10(0) == 1);
        assert(a + b == b);
    } else {
        let a1 = (a - 1) as nat;
        lemma_pow10_add(a1, b);
        let s1 = a1 + b;
        assert(a + b == s1 + 1);
        assert(pow10(s1 + 1) == 10 * pow10(s1));
        assert(pow10(a) == 10 * pow10(a1));
        let x = pow10(a1);
        let y = pow10(b);
        assert(10 * (x * y) == (10 * x) * y) by (nonlinear_arith);
    }
}

proof fn lemma_pow10_positive(a: nat)
    ensures
        pow10(a) >= 1,
    decreases a,
{
    if a > 0 {
        lemma_pow10_positive((a - 1) as nat);
    }
}

proof fn lemma_pow10_grows(a: nat, b: nat)
    requires
        a <= b,
    ensures
        1 <= pow10(a) <= pow10(b),
    decreases b,
{
    lemma_pow10_positive(a);
    if b > a {
        lemma_pow10_grows(a, (b - 1) as nat);
        assert(pow10(b) == 10 * pow10((b - 1) as nat));
    }
}

/// A numeral of `k` digits whose first is not zero lies in
/// `[10^(k-1), 10^k)`.
pub proof fn lemma_digits_magnitude(ds: Seq<u8>)
    requires
        ds.len() > 0,
        ds[0] != 0,
        forall|i: int| 0 <= i < ds.len() ==> #[trigger] ds[i] < 10,
    ensures
        pow10((ds.len() - 1) as nat) <= digits_value(ds) < pow10(ds.len()),
    decreases ds.len(),
{
    if ds.len() == 1 {
        assert(ds.drop_last().len() == 0);
        assert(digits_value(ds.drop_last()) == 0);
        assert(ds.last() == ds[0]);
        assert(ds[0] < 10);
        assert(pow10(0) == 1);
        assert(pow10(1) == 10) by {
            reveal_with_fuel(pow10, 2);
        }
    } else {
        let init = ds.drop_last();
        assert(init[0] == ds[0]);
        assert forall|i: int| 0 <= i < init.len() implies #[trigger] init[i] < 10 by {
            assert(init[i] == ds[i]);
        }
        lemma_digits_magnitude(init);
        assert(ds.last() == ds[ds.len() - 1]);
        assert(ds[ds.len() - 1] < 10);
        assert(digits_value(ds) == digits_value(init) * 10 + ds.last() as nat);
        assert(pow10((ds.len() - 1) as nat) == 10 * pow10((ds.len() - 2) as nat));
        assert(pow10(ds.len()) == 10 * pow10((ds.len() - 1) as nat));
    }
}

/// With the digits `ds` and the exponent `n`, a positive number is
/// `0.ds * 10^n`, that is `digits_value(ds) * 10^(n - k)`. Such a number
/// is at least `1e21` exactly when `n >= 22`, stated here for `n >= 0`
/// with both sides scaled by `10^k` (a number with `n < 0` is below one).
pub proof fn lemma_number_at_least_1e21(ds: Seq<u8>, n: int)
    requires
        ds.len() > 0,
        ds[0] != 0,
        forall|i: int| 0 <= i < ds.len() ==> #[trigger] ds[i] < 10,
        n >= 0,
    ensures
        (digits_value(ds) * pow10(n as nat) >= pow10((21 + ds.len()) as nat)) <==> n >= 22,
{
    let k = ds.len();
    let d = digits_value(ds);
    lemma_digits_magnitude(ds);
    lemma_pow10_add((k - 1) as nat, n as nat);
    lemma_pow10_add(k, n as nat);
    let lo = pow10((k - 1) as nat);
    let hi = pow10(k);
    let p = pow10(n as nat);
    lemma_pow10_grows(0, n as nat);
    assert(lo * p <= d * p) by (nonlinear_arith)
        requires
            lo <= d,
            p >= 1,
    ;
    assert(d * p < hi * p) by (nonlinear_arith)
        requires
            d < hi,
            p >= 1,
    ;
    if n >= 22 {
        lemma_pow10_grows((21 + k) as nat, (k - 1 + n) as nat);
    } else {
        lemma_pow10_grows((k + n) as nat, (21 + k) as nat);
    }
}

/// Such a number is below `1e-6` exactly when `n <= -6`, stated here for
/// `n <= 0` with both sides scaled by `10^(k - n + 6)` (a number with
/// `n > 0` is at least one tenth).
pub proof fn lemma_number_below_1e_6(ds: Seq<u8>, n: int)
    requires
        ds.len() > 0,
        ds[0] != 0,
        forall|i: int| 0 <= i < ds.len() ==> #[trigger] ds[i] < 10,
        n <= 0,
    ensures
        (digits_value(ds) * pow10(6) < pow10((ds.len() - n) as nat)) <==> n <= -6,
{
    let k = ds.len();
    let d = digits_value(ds);
    lemma_digits_magnitude(ds);
    lemma_pow10_add((k - 1) as nat, 6);
    lemma_pow10_add(k, 6);
    let lo = pow10((k - 1) as nat);
    let hi = pow10(k);
    let p = pow10(6);
    lemma_pow10_grows(0, 6);
    assert(lo * p <= d * p) by (nonlinear_arith)
        requires
            lo <= d,
            p >= 1,
    ;
    assert(d * p < hi * p) by (nonlinear_arith)
        requires
            d < hi,
            p >= 1,
    ;
    if n <= -6 {
        lemma_pow10_grows((k + 6) as nat, (k - n) as nat);
    } else {
        lemma_pow10_grows((k - n) as nat, (k - 1 + 6) as nat);
    }
}

proof fn lemma_uint_text_lead(m: nat)
    requires
        m >= 1,
    ensures
        uint_text(m).len() >= 1,
        uint_text(m)[0] != '0',
    decreases m,
{
    if m >= 10 {
        lemma_uint_text_lead(m / 10);
    }
}

proof fn lemma_avoids_join(a: Seq<char>, b: Seq<char>, c: char)
    requires
        forall|i: int| 0 <= i < a.len() ==> a[i] != c,
        forall|i: int| 0 <= i < b.len() ==> b[i] != c,
    ensures
        forall|i: int| 0 <= i < (a + b).len() ==> (a + b)[i] != c,
{
    assert forall|i: int| 0 <= i < (a + b).len() implies (a + b)[i] != c by {
        if i < a.len() {
            assert((a + b)[i] == a[i]);
        } else {
            assert((a + b)[i] == b[i - a.len()]);
        }
    }
}

/// The layout `JSON.stringify` gives a positive number: the exponent form
/// exactly when `n >= 22` or `n <= -6` (by the two lemmas above, at least
/// `1e21` or below `1e-6`), and then one digit, the rest of the digits
/// after a `.` when there are more, `e`, the exponent's sign and its
/// digits without a leading zero; plain digits otherwise.
pub proof fn lemma_number_layout(ds: Seq<u8>, n: int)
    requires
        ds.len() > 0,
        forall|i: int| 0 <= i < ds.len() ==> #[trigger] ds[i] < 10,
    ensures
        js_positive(ds, n).contains('e') <==> (n >= 22 || n <= -6),
        (n >= 22 || n <= -6) ==> {
            &&& js_positive(ds, n) == (if ds.len() == 1 {
                digits_text(ds)
            } else {
                digits_text(ds).take(1) + seq!['.'] + digits_text(ds).skip(1)
            }) + exponent_tail(n - 1)
            &&& uint_text((if n - 1 < 0 { -(n - 1) } else { n - 1 }) as nat)[0] != '0'
        },
{
    let k = ds.len() as int;
    let t = digits_text(ds);
    assert forall|i: int| 0 <= i < t.len() implies t[i] != 'e' by {
        assert(t[i] == digit_char(ds[i] as int));
    }
    let js = js_positive(ds, n);
    if n >= 22 || n <= -6 {
        lemma_js_positive_exponential(ds, n);
        let m = (if n - 1 < 0 { -(n - 1) } else { n - 1 }) as nat;
        lemma_uint_text_lead(m);
        let head = if k == 1 {
            t
        } else {
            t.take(1) + seq!['.'] + t.skip(1)
        };
        assert(js[head.len() as int] == 'e');
    } else {
        let z = |count: nat| zeros(count);
        assert forall|count: nat, i: int| 0 <= i < zeros(count).len() implies zeros(count)[i] != 'e' by {}
        if k <= n && n <= 21 {
            lemma_avoids_join(t, zeros((n - k) as nat), 'e');
        } else if 0 < n && n <= 21 {
            assert forall|i: int| 0 <= i < t.take(n).len() implies t.take(n)[i] != 'e' by {
                assert(t.take(n)[i] == t[i]);
            }
            assert forall|i: int| 0 <= i < t.skip(n).len() implies t.skip(n)[i] != 'e' by {
                assert(t.skip(n)[i] == t[i + n]);
            }
            lemma_avoids_join(t.take(n), seq!['.'], 'e');
            lemma_avoids_join(t.take(n) + seq!['.'], t.skip(n), 'e');
        } else {
            lemma_avoids_join(seq!['0', '.'], zeros((-n) as nat), 'e');
            lemma_avoids_join(seq!['0', '.'] + zeros((-n) as nat), t, 'e');
        }
        assert(!js.contains('e'));
    }
}

} // verus!
