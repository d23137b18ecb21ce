//! Exact decimal numbers: an integer mantissa and a decimal scale, with the
//! arithmetic done by `bigdecimal`.
use vstd::prelude::*;
use vstd::string::StrSliceExecFns;
use bigdecimal::BigDecimal;
use bigdecimal::num_bigint::BigInt;

verus! {

/// A value `mantissa / 10^scale`, as a pair of mathematical integers.
pub type DecView = (int, int);

pub open spec fn is_digit(c: char) -> bool {
    '0' <= c && c <= '9'
}

pub open spec fn all_digits(s: Seq<char>) -> bool {
    s.len() > 0 && forall|i: int| 0 <= i < s.len() ==> is_digit(#[trigger] s[i])
}

/// The natural number written by a string of decimal digits.
pub open spec fn nat_of(s: Seq<char>) -> nat
    decreases s.len(),
{
    if s.len() == 0 {
        0
    } else {
        nat_of(s.drop_last()) * 10 + (s.last() as nat - '0' as nat) as nat
    }
}

/// Integer text: digits, optionally after a minus sign.
pub open spec fn is_int_text(s: Seq<char>) -> bool {
    all_digits(s) || (s.len() > 1 && s[0] == '-' && all_digits(s.drop_first()))
}

pub open spec fn int_of(s: Seq<char>) -> int {
    if s.len() > 0 && s[0] == '-' {
        -(nat_of(s.drop_first()) as int)
    } else {
        nat_of(s) as int
    }
}

/// Plain decimal text: integer text, or integer text, a point and digits.
pub open spec fn is_decimal_text(s: Seq<char>) -> bool {
    is_int_text(s) || exists|p: int|
        0 < p < s.len() && #[trigger] s[p] == '.' && is_int_text(s.take(p)) && all_digits(
            s.skip(p + 1),
        )
}

/// The mantissa and scale written by plain decimal text: all digits form
/// the mantissa, the digits after the point count as the scale.
pub open spec fn decimal_value(s: Seq<char>) -> DecView {
    if is_int_text(s) {
        (int_of(s), 0)
    } else {
        let p = choose|p: int|
            0 < p < s.len() && #[trigger] s[p] == '.' && is_int_text(s.take(p)) && all_digits(
                s.skip(p + 1),
            );
        (int_of(s.take(p) + s.skip(p + 1)), s.len() - p - 1)
    }
}

pub open spec fn pow10(n: nat) -> int
    decreases n,
{
    if n == 0 {
        1
    } else {
        10 * pow10((n - 1) as nat)
    }
}

pub open spec fn max(a: int, b: int) -> int {
    if a >= b {
        a
    } else {
        b
    }
}

/// The mantissa of `v` written at scale `k` (where `k >= v.1`).
pub open spec fn scaled_to(v: DecView, k: int) -> int {
    v.0 * pow10((k - v.1) as nat)
}

/// `a` and `b` stand for the same rational number.
pub open spec fn same_value(a: DecView, b: DecView) -> bool {
    scaled_to(a, max(a.1, b.1)) == scaled_to(b, max(a.1, b.1))
}

pub open spec fn value_lt(a: DecView, b: DecView) -> bool {
    scaled_to(a, max(a.1, b.1)) < scaled_to(b, max(a.1, b.1))
}

/// The exact difference, written at the larger of the two scales.
pub open spec fn exact_difference(a: DecView, b: DecView) -> DecView {
    (scaled_to(a, max(a.1, b.1)) - scaled_to(b, max(a.1, b.1)), max(a.1, b.1))
}

pub proof fn lemma_pow10_add(a: nat, b: nat)
    ensures
        pow10(a + b) == pow10(a) * pow10(b),
        pow10(a) > 0,
    decreases a,
{
    if a > 0 {
        lemma_pow10_add((a - 1) as nat, b);
        assert(pow10(a + b) == 10 * pow10((a - 1 + b) as nat));
        assert(pow10(a) == 10 * pow10((a - 1) as nat));
        assert(10 * (pow10((a - 1) as nat) * pow10(b)) == (10 * pow10((a - 1) as nat)) * pow10(b))
            by (nonlinear_arith);
    }
}

/// Writing a value at a larger scale multiplies its mantissa.
pub proof fn lemma_scaled_up(v: DecView, k: int, m: nat)
    requires
        k >= v.1,
    ensures
        scaled_to(v, k + m) == scaled_to(v, k) * pow10(m),
{
    lemma_pow10_add((k - v.1) as nat, m);
    assert(((k + m - v.1) as nat) == ((k - v.1) as nat + m) as nat);
    assert(v.0 * (pow10((k - v.1) as nat) * pow10(m)) == (v.0 * pow10((k - v.1) as nat)) * pow10(m))
        by (nonlinear_arith);
}

/// Two values are the same exactly when they agree at any common scale.
pub proof fn lemma_same_value_at(a: DecView, b: DecView, k: int)
    requires
        k >= a.1,
        k >= b.1,
    ensures
        same_value(a, b) <==> scaled_to(a, k) == scaled_to(b, k),
{
    let m = max(a.1, b.1);
    let d = (k - m) as nat;
    lemma_scaled_up(a, m, d);
    lemma_scaled_up(b, m, d);
    lemma_pow10_add(d, 0);
    let p = pow10(d);
    assert(p > 0);
    assert(k == m + d);
    let x = scaled_to(a, m);
    let y = scaled_to(b, m);
    assert(x * p == y * p ==> x == y) by (nonlinear_arith)
        requires
            p > 0,
    ;
}

/// What `bigdecimal` returns for `a - b`: `a` itself where `b` is zero,
/// `-b` where `a` is zero, and else the exact difference at the larger scale.
pub open spec fn difference_of(a: DecView, b: DecView) -> DecView {
    if b.0 == 0 {
        a
    } else if a.0 == 0 {
        (-b.0, b.1)
    } else {
        exact_difference(a, b)
    }
}

/// What `bigdecimal` returns for `a * b`; its value is the exact product.
pub uninterp spec fn product_of(a: DecView, b: DecView) -> DecView;

/// What `bigdecimal` returns for `a / b`, rounded to its default precision.
pub uninterp spec fn quotient_of(a: DecView, b: DecView) -> DecView;

/// The text that `bigdecimal`'s `Display` writes for a value.
pub uninterp spec fn display_of(a: DecView) -> Seq<char>;

/// Text no longer than `i32::MAX` characters; the scales of the values read
/// from such text, and of what is computed from them, stay far inside `i64`.
pub open spec fn short_text(s: Seq<char>) -> bool {
    s.len() <= i32::MAX
}

/// The scale of plain decimal text counts digits after the point.
pub proof fn lemma_decimal_scale(s: Seq<char>)
    requires
        is_decimal_text(s),
    ensures
        0 <= decimal_value(s).1 < s.len(),
{
    if !is_int_text(s) {
        let p = choose|p: int|
            0 < p < s.len() && #[trigger] s[p] == '.' && is_int_text(s.take(p)) && all_digits(
                s.skip(p + 1),
            );
        assert(s.skip(p + 1).len() > 0);
    } else if !all_digits(s) {
        assert(s.len() > 1);
    }
}

pub open spec fn fits_i64(x: int) -> bool {
    i64::MIN <= x <= i64::MAX
}

pub open spec fn abs(x: int) -> int {
    if x < 0 {
        -x
    } else {
        x
    }
}

/// Digits that `bigdecimal` computes of a quotient that does not terminate:
/// its default precision, which holds where `RUST_BIGDECIMAL_DEFAULT_PRECISION`
/// is not set when it is built.
pub open spec fn division_precision() -> nat {
    100
}

/// `a - b` rescales one side to the other's scale; the difference of the
/// scales, taken either way round, must fit in an `i64`.
pub open spec fn sub_ok(a: DecView, b: DecView) -> bool {
    fits_i64(a.1 - b.1) && fits_i64(b.1 - a.1)
}

/// `a * b` adds the scales.
pub open spec fn mul_ok(a: DecView, b: DecView) -> bool {
    fits_i64(a.1 + b.1)
}

/// `a / b`, with `b` written in `b_len` characters: the divisor is not zero,
/// and the scale, which starts at `a.1 - b.1` and grows by at most one per
/// digit of `b` and one per digit of precision, stays within `i64`.
pub open spec fn div_ok(a: DecView, b: DecView, b_len: int) -> bool {
    b.0 != 0 && i64::MIN <= a.1 - b.1 && a.1 - b.1 + b_len + division_precision() <= i64::MAX
}

/// `a / b` terminates within the computed precision.
pub open spec fn exact_quotient(a: DecView, b: DecView) -> bool {
    exists|k: nat|
        (a.0 * #[trigger] pow10(k)) % b.0 == 0 && abs((a.0 * pow10(k)) / b.0) < pow10(
            division_precision(),
        )
}

/// A decimal number `digits / 10^scale`, `digits` being integer text.
#[derive(Debug, Clone)]
pub struct Decimal {
    pub digits: String,
    pub scale: i64,
}

impl View for Decimal {
    type V = DecView;

    open spec fn view(&self) -> DecView {
        (int_of(self.digits@), self.scale as int)
    }
}

impl Decimal {
    pub open spec fn wf(&self) -> bool {
        is_int_text(self.digits@)
    }
}

/// Relies on `BigDecimal::from_str`: plain decimal text parses to all its
/// digits as mantissa and the count of digits after the point as scale.
#[verifier::external_body]
pub(crate) fn parse_decimal(s: &str) -> (r: Option<Decimal>)
    ensures
        r is Some ==> r->Some_0.wf(),
        is_decimal_text(s@) ==> r is Some && r->Some_0@ == decimal_value(s@),
{
    match s.parse::<BigDecimal>() {
        Ok(d) => {
            let (m, e) = d.into_bigint_and_exponent();
            Some(Decimal { digits: m.to_string(), scale: e })
        },
        Err(_) => None,
    }
}

/// Relies on `BigDecimal`'s `Sub`: it hands back `a` where `b` is zero and
/// `-b` where `a` is zero, and else rescales to the larger scale and
/// subtracts; the rescaling panics where the difference of the scales,
/// either way round, leaves `i64`.
#[verifier::external_body]
pub(crate) fn dec_sub(a: &Decimal, b: &Decimal) -> (r: Decimal)
    requires
        a.wf(),
        b.wf(),
        sub_ok(a@, b@),
    ensures
        r.wf(),
        r@ == difference_of(a@, b@),
        same_value(r@, exact_difference(a@, b@)),
{
    let x = BigDecimal::new(a.digits.parse::<BigInt>().unwrap(), a.scale);
    let y = BigDecimal::new(b.digits.parse::<BigInt>().unwrap(), b.scale);
    let (m, e) = (x - y).into_bigint_and_exponent();
    Decimal { digits: m.to_string(), scale: e }
}

/// Relies on `BigDecimal`'s `Mul`: an exact product. Where one side is one
/// it hands back the other; else the scales are added, which must not
/// overflow.
#[verifier::external_body]
pub(crate) fn dec_mul(a: &Decimal, b: &Decimal) -> (r: Decimal)
    requires
        a.wf(),
        b.wf(),
        mul_ok(a@, b@),
    ensures
        r.wf(),
        r@ == product_of(a@, b@),
        same_value(r@, (a@.0 * b@.0, a@.1 + b@.1)),
        r@.1 == a@.1 || r@.1 == b@.1 || r@.1 == a@.1 + b@.1,
{
    let x = BigDecimal::new(a.digits.parse::<BigInt>().unwrap(), a.scale);
    let y = BigDecimal::new(b.digits.parse::<BigInt>().unwrap(), b.scale);
    let (m, e) = (x * y).into_bigint_and_exponent();
    Decimal { digits: m.to_string(), scale: e }
}

/// Relies on `BigDecimal`'s `Div` (`impl_division`): it panics on a zero
/// divisor and hands back `a` where `a` is zero or `b` is one; else it
/// starts from `a.scale - b.scale` and adds one to the scale for each digit
/// it shifts in (at most the digits of `b`) and each digit of precision; a
/// quotient that terminates within the precision is exact.
#[verifier::external_body]
pub(crate) fn dec_div(a: &Decimal, b: &Decimal) -> (r: Decimal)
    requires
        a.wf(),
        b.wf(),
        div_ok(a@, b@, b.digits@.len() as int),
    ensures
        r.wf(),
        r@ == quotient_of(a@, b@),
        exact_quotient(a@, b@) ==> same_value((r@.0 * b@.0, r@.1 + b@.1), a@),
        r@ == a@ || (a@.1 - b@.1 <= r@.1 && r@.1 <= a@.1 - b@.1 + b.digits@.len()
            + division_precision()),
{
    let x = BigDecimal::new(a.digits.parse::<BigInt>().unwrap(), a.scale);
    let y = BigDecimal::new(b.digits.parse::<BigInt>().unwrap(), b.scale);
    let (m, e) = (x / y).into_bigint_and_exponent();
    Decimal { digits: m.to_string(), scale: e }
}

/// Relies on `BigDecimal`'s `Ord`, which compares values.
#[verifier::external_body]
pub(crate) fn dec_lt(a: &Decimal, b: &Decimal) -> (r: bool)
    requires
        a.wf(),
        b.wf(),
    ensures
        r == value_lt(a@, b@),
{
    let x = BigDecimal::new(a.digits.parse::<BigInt>().unwrap(), a.scale);
    let y = BigDecimal::new(b.digits.parse::<BigInt>().unwrap(), b.scale);
    x < y
}

/// Relies on `BigDecimal`'s `Display`.
#[verifier::external_body]
pub(crate) fn dec_display(a: &Decimal) -> (r: String)
    requires
        a.wf(),
    ensures
        r@ == display_of(a@),
{
    let x = BigDecimal::new(a.digits.parse::<BigInt>().unwrap(), a.scale);
    x.to_string()
}


/// Whether the mantissa's text is zero, read digit by digit.
pub fn is_zero(d: &Decimal) -> (r: bool)
    requires
        d.wf(),
    ensures
        r == (d@.0 == 0),
{
    let text = d.digits.as_str();
    let n = text.unicode_len();
    let start: usize = if text.get_char(0) == '-' { 1 } else { 0 };
    proof {
        if start == 1 {
            assert(text@.skip(1) =~= text@.drop_first());
        } else {
            assert(text@.skip(0) =~= text@);
        }
    }
    let mut i: usize = start;
    while i < n
        invariant
            n == text@.len(),
            text@ == d.digits@,
            start <= i <= n,
            start <= 1,
            all_digits(text@.skip(start as int)),
            (d@.0 == 0) == (nat_of(text@.skip(start as int)) == 0),
            forall|j: int| start <= j < i ==> text@[j] == '0',
        decreases n - i,
    {
        if text.get_char(i) != '0' {
            proof { lemma_nonzero_digit(text@.skip(start as int), (i - start) as int); }
            return false;
        }
        i = i + 1;
    }
    proof {
        let t = text@.skip(start as int);
        assert forall|j: int| 0 <= j < t.len() implies t[j] == '0' by {
            assert(t[j] == text@[j + start]);
        };
        lemma_all_zero(t);
    }
    true
}

proof fn lemma_nonzero_digit(s: Seq<char>, k: int)
    requires
        all_digits(s),
        0 <= k < s.len(),
        s[k] != '0',
    ensures
        nat_of(s) > 0,
    decreases s.len(),
{
    if k < s.len() - 1 {
        assert(s.drop_last()[k] == s[k]);
        lemma_nonzero_digit(s.drop_last(), k);
    }
}

proof fn lemma_all_zero(s: Seq<char>)
    requires
        forall|j: int| 0 <= j < s.len() ==> s[j] == '0',
    ensures
        nat_of(s) == 0,
    decreases s.len(),
{
    if s.len() > 0 {
        lemma_all_zero(s.drop_last());
    }
}

/// Whether `a - b` can be computed.
pub fn can_sub(a: &Decimal, b: &Decimal) -> (r: bool)
    ensures
        r == sub_ok(a@, b@),
{
    a.scale.checked_sub(b.scale).is_some() && b.scale.checked_sub(a.scale).is_some()
}

/// Whether `a * b` can be computed.
pub fn can_mul(a: &Decimal, b: &Decimal) -> (r: bool)
    ensures
        r == mul_ok(a@, b@),
{
    a.scale.checked_add(b.scale).is_some()
}

/// Whether `a / b` can be computed.
pub fn can_div(a: &Decimal, b: &Decimal) -> (r: bool)
    requires
        b.wf(),
    ensures
        r == div_ok(a@, b@, b.digits@.len() as int),
{
    if is_zero(b) {
        return false;
    }
    let len = b.digits.as_str().unicode_len();
    let diff: i128 = a.scale as i128 - b.scale as i128;
    diff >= i64::MIN as i128 && diff + len as i128 + 100 <= i64::MAX as i128
}

/// Whether `text[lo..hi]` is all decimal digits (and not empty).
fn digits_between(text: &str, lo: usize, hi: usize) -> (r: bool)
    requires
        lo <= hi <= text@.len(),
    ensures
        r == all_digits(text@.subrange(lo as int, hi as int)),
{
    if lo == hi {
        return false;
    }
    let mut i: usize = lo;
    while i < hi
        invariant
            lo <= i <= hi <= text@.len(),
            forall|j: int| lo <= j < i ==> is_digit(#[trigger] text@[j]),
        decreases hi - i,
    {
        let c = text.get_char(i);
        if !('0' <= c && c <= '9') {
            proof {
                assert(text@.subrange(lo as int, hi as int)[i - lo] == c);
            }
            return false;
        }
        i = i + 1;
    }
    proof {
        let t = text@.subrange(lo as int, hi as int);
        assert forall|j: int| 0 <= j < t.len() implies is_digit(#[trigger] t[j]) by {
            assert(t[j] == text@[lo + j]);
        };
    }
    true
}

/// Whether `text[0..hi]` is integer text.
fn int_text_before(text: &str, hi: usize) -> (r: bool)
    requires
        hi <= text@.len(),
    ensures
        r == is_int_text(text@.take(hi as int)),
{
    let t = Ghost(text@.take(hi as int));
    let plain = digits_between(text, 0, hi);
    proof {
        assert(text@.subrange(0, hi as int) =~= t@);
    }
    if plain {
        return true;
    }
    if hi > 1 && text.get_char(0) == '-' {
        let rest = digits_between(text, 1, hi);
        proof {
            assert(text@.subrange(1, hi as int) =~= t@.drop_first());
        }
        rest
    } else {
        proof {
            if hi > 1 {
                assert(t@[0] == text@[0]);
            }
        }
        false
    }
}

/// Whether `s` is plain decimal text: integer text, optionally followed by
/// a point and one or more digits.
pub fn is_decimal(s: &str) -> (r: bool)
    ensures
        r == is_decimal_text(s@),
{
    let n = s.unicode_len();
    let mut p: usize = 0;
    while p < n && s.get_char(p) != '.'
        invariant
            n == s@.len(),
            p <= n,
            forall|j: int| 0 <= j < p ==> s@[j] != '.',
        decreases n - p,
    {
        p = p + 1;
    }
    if p == n {
        proof {
            assert(s@.take(n as int) =~= s@);
            if is_decimal_text(s@) && !is_int_text(s@) {
                let q = choose|q: int|
                    0 < q < s@.len() && #[trigger] s@[q] == '.' && is_int_text(s@.take(q))
                        && all_digits(s@.skip(q + 1));
                assert(s@[q] != '.');
            }
        }
        return int_text_before(s, n);
    }
    let head = int_text_before(s, p);
    let tail = digits_between(s, p + 1, n);
    proof {
        assert(s@.subrange(p + 1, n as int) =~= s@.skip(p + 1));
        assert(!all_digits(s@)) by {
            assert(!is_digit(s@[p as int]));
        };
        assert(!is_int_text(s@)) by {
            if s@.len() > 1 && s@[0] == '-' {
                if p > 0 {
                    assert(s@.drop_first()[p - 1] == s@[p as int]);
                    assert(!is_digit(s@.drop_first()[p - 1]));
                }
            }
        };
        if is_decimal_text(s@) {
            let q = choose|q: int|
                0 < q < s@.len() && #[trigger] s@[q] == '.' && is_int_text(s@.take(q)) && all_digits(
                    s@.skip(q + 1),
                );
            if q > p {
                let t = s@.take(q);
                assert(t[p as int] == '.');
                assert(!is_digit(t[p as int]));
                if t.len() > 1 && t[0] == '-' {
                    if p > 0 {
                        assert(t.drop_first()[p - 1] == t[p as int]);
                    }
                }
            }
            assert(q == p);
        }
        if head && tail {
            assert(0 < p) by {
                assert(s@.take(p as int).len() > 0);
            };
            assert(s@[p as int] == '.');
        }
    }
    head && tail
}

/// The first point of `s`, if there is one.
pub open spec fn first_point(s: Seq<char>) -> Option<int> {
    if exists|i: int| 0 <= i < s.len() && s[i] == '.' {
        Some(
            choose|i: int|
                0 <= i < s.len() && s[i] == '.' && forall|j: int| 0 <= j < i ==> s[j] != '.',
        )
    } else {
        None
    }
}

/// Decimal text cut (not rounded) to at most three digits after the point.
pub open spec fn cut_to_three(s: Seq<char>) -> Seq<char> {
    match first_point(s) {
        Some(i) => s.take(if s.len() < i + 4 { s.len() as int } else { i + 4 }),
        None => s,
    }
}

/// The display text of `value`, cut to three digits after the point.
pub fn two_dec(value: &Decimal) -> (r: String)
    requires
        value.wf(),
    ensures
        r@ == cut_to_three(display_of(value@)),
{
    let num = dec_display(value);
    let text = num.as_str();
    let n = text.unicode_len();
    let mut i: usize = 0;
    while i < n
        invariant
            n == text@.len(),
            text@ == num@,
            num@ == display_of(value@),
            i <= n,
            forall|j: int| 0 <= j < i ==> text@[j] != '.',
        decreases n - i,
    {
        if text.get_char(i) == '.' {
            let end: usize = if n - i < 4 { n } else { i + 4 };
            proof {
                let s = text@;
                assert(s[i as int] == '.');
                assert(exists|k: int| 0 <= k < s.len() && s[k] == '.');
                assert(0 <= i < s.len() && s[i as int] == '.' && forall|j: int|
                    0 <= j < i ==> s[j] != '.');
                let k = choose|k: int|
                    0 <= k < s.len() && s[k] == '.' && forall|j: int| 0 <= j < k ==> s[j] != '.';
                assert(k == i as int);
                assert(first_point(s) == Some(i as int));
            }
            let cut = text.substring_char(0, end);
            let r = cut.to_owned();
            return r;
        }
        i = i + 1;
    }
    num
}

} // verus!
