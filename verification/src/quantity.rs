//! Swap requests as Kubernetes writes them, and as a cgroup reads them.
//!
//! A Pod states its swap as a quantity: a number in decimal digits, with or
//! without a point, followed by nothing, by one of the suffixes
//! `n u m k M G T P E` (powers of ten), by one of `Ki Mi Gi Ti Pi Ei` (powers
//! of 1024), or by an exponent such as `e3`. The control file of a cgroup
//! takes a plain count of bytes. So a quantity is read exactly, and only one
//! that comes to a whole number of bytes is taken: `1.5Gi` is 1610612736
//! bytes, `1500m` is not a number of bytes. Nothing is rounded, and a
//! quantity below zero is no swap.

use crate::error::WaspError;
use crate::membership::char_is_digit;
use crate::text::{chars_of, is_digit, leading_run, lemma_leading_run};
use vstd::prelude::*;
use vstd::string::StringExecFns;

verus! {

/// The most digits that a written exponent may have.
pub const MAX_EXPONENT_DIGITS: usize = 9;

/// The value of the decimal digit `c`.
pub open spec fn digit_value(c: char) -> nat {
    (c as u32 - '0' as u32) as nat
}

/// The digit that stands for `d`, which is below ten.
pub open spec fn digit_char(d: nat) -> char {
    if d == 0 {
        '0'
    } else if d == 1 {
        '1'
    } else if d == 2 {
        '2'
    } else if d == 3 {
        '3'
    } else if d == 4 {
        '4'
    } else if d == 5 {
        '5'
    } else if d == 6 {
        '6'
    } else if d == 7 {
        '7'
    } else if d == 8 {
        '8'
    } else {
        '9'
    }
}

/// The number that the decimal digits stand for. No digits stand for zero.
pub open spec fn decimal_value(digits: Seq<char>) -> nat
    decreases digits.len(),
{
    if digits.len() == 0 {
        0
    } else {
        decimal_value(digits.drop_last()) * 10 + digit_value(digits.last())
    }
}

/// The decimal digits of `n`, without leading zeros.
pub open spec fn decimal_digits(n: nat) -> Seq<char>
    decreases n,
{
    if n < 10 {
        seq![digit_char(n)]
    } else {
        decimal_digits(n / 10).push(digit_char(n % 10))
    }
}

/// Ten to the power of `n`.
pub open spec fn pow10(n: nat) -> nat
    decreases n,
{
    if n == 0 {
        1
    } else {
        10 * pow10((n - 1) as nat)
    }
}

/// The power of ten that the letter `c` stands for, as its exponent.
pub open spec fn decimal_exponent(c: char) -> Option<int> {
    if c == 'n' {
        Some(-9)
    } else if c == 'u' {
        Some(-6)
    } else if c == 'm' {
        Some(-3)
    } else if c == 'k' {
        Some(3)
    } else if c == 'M' {
        Some(6)
    } else if c == 'G' {
        Some(9)
    } else if c == 'T' {
        Some(12)
    } else if c == 'P' {
        Some(15)
    } else if c == 'E' {
        Some(18)
    } else {
        None
    }
}

/// The power of 1024 that the letter `c`, followed by `i`, stands for.
pub open spec fn binary_factor(c: char) -> Option<nat> {
    if c == 'K' {
        Some(0x400)
    } else if c == 'M' {
        Some(0x10_0000)
    } else if c == 'G' {
        Some(0x4000_0000)
    } else if c == 'T' {
        Some(0x100_0000_0000)
    } else if c == 'P' {
        Some(0x4_0000_0000_0000)
    } else if c == 'E' {
        Some(0x1000_0000_0000_0000)
    } else {
        None
    }
}

/// The exponent written in `text`, which follows an `e` or `E`: an optional
/// sign and one to `MAX_EXPONENT_DIGITS` digits, and nothing else.
pub open spec fn written_exponent(text: Seq<char>) -> Option<int> {
    let signed = text.len() > 0 && (text[0] == '+' || text[0] == '-');
    let digits = if signed {
        text.skip(1)
    } else {
        text
    };
    if 0 < digits.len() <= MAX_EXPONENT_DIGITS && leading_run(digits, |c: char| is_digit(c))
        == digits.len() {
        if text[0] == '-' {
            Some(-(decimal_value(digits) as int))
        } else {
            Some(decimal_value(digits) as int)
        }
    } else {
        None
    }
}

/// What a suffix stands for: a factor and a power of ten, as its exponent.
/// `None` for what is no suffix.
///
/// No suffix leaves the number as it is. A single letter is a power of ten,
/// from `n` to `E`. A letter and `i` is a power of 1024. An `e` or `E` with a
/// number behind it is that power of ten.
pub open spec fn scale(suffix: Seq<char>) -> Option<(nat, int)> {
    if suffix.len() == 0 {
        Some((1, 0))
    } else if suffix.len() == 1 {
        match decimal_exponent(suffix[0]) {
            Some(exponent) => Some((1, exponent)),
            None => None,
        }
    } else if suffix.len() == 2 && suffix[1] == 'i' {
        match binary_factor(suffix[0]) {
            Some(factor) => Some((factor, 0)),
            None => None,
        }
    } else if suffix[0] == 'e' || suffix[0] == 'E' {
        match written_exponent(suffix.skip(1)) {
            Some(exponent) => Some((1, exponent)),
            None => None,
        }
    } else {
        None
    }
}

/// A power of ten as it is written: the sign of its exponent, and the size.
pub struct Exponent {
    pub negative: bool,
    pub size: u64,
}

/// What a suffix stands for, as it is written: a factor, and a power of ten.
pub struct Scale {
    pub factor: u64,
    pub power: Exponent,
}

impl Exponent {
    /// The exponent as a number.
    pub open spec fn value(self) -> int {
        if self.negative {
            -(self.size as int)
        } else {
            self.size as int
        }
    }
}

/// `amount` times ten to the power of `shift`, where that is a whole number
/// within `u64`.
pub open spec fn shifted(amount: nat, shift: int) -> Option<nat> {
    if shift >= 0 {
        let bytes = amount * pow10(shift as nat);
        if bytes <= u64::MAX {
            Some(bytes)
        } else {
            None
        }
    } else {
        let divisor = pow10((-shift) as nat);
        if amount % divisor == 0 && amount / divisor <= u64::MAX {
            Some(amount / divisor)
        } else {
            None
        }
    }
}

/// `r` holds the number `n`, or nothing where there is none.
pub open spec fn holds(r: Option<u64>, n: Option<nat>) -> bool {
    match n {
        Some(v) => r == Some(v as u64) && v <= u64::MAX,
        None => r is None,
    }
}

/// The parts of the quantity `q`: the digits of its number without the
/// point, how many of them stand behind the point, and what follows the
/// number. An optional `+` at the front is no part of the number.
pub open spec fn written_parts(q: Seq<char>) -> (Seq<char>, int, Seq<char>) {
    let start: int = if q.len() > 0 && q[0] == '+' {
        1
    } else {
        0
    };
    let point = start + leading_run(q.skip(start), |c: char| is_digit(c));
    let pointed = point < q.len() && q[point] == '.';
    let after = if pointed {
        point + 1
    } else {
        point
    };
    let places: int = if pointed {
        leading_run(q.skip(after), |c: char| is_digit(c)) as int
    } else {
        0
    };
    (q.subrange(start, point) + q.subrange(after, after + places), places, q.skip(after + places))
}

/// The number of bytes that the quantity `q` stands for.
///
/// A quantity is an optional `+`, digits with an optional point among them,
/// and a suffix. Its value is the number written, times what the suffix
/// stands for. `None` where `q` is not of this form, where its value is no
/// whole number, or where it is beyond `u64`.
pub open spec fn quantity_bytes(q: Seq<char>) -> Option<nat> {
    let (digits, places, suffix) = written_parts(q);
    if digits.len() == 0 {
        None
    } else {
        match scale(suffix) {
            Some((factor, exponent)) => shifted(decimal_value(digits) * factor, exponent - places),
            None => None,
        }
    }
}

/// What is written to the control file for the swap request `q`: the bytes
/// it stands for, in decimal digits.
pub open spec fn normalized(q: Seq<char>) -> Option<Seq<char>> {
    match quantity_bytes(q) {
        Some(bytes) => Some(decimal_digits(bytes)),
        None => None,
    }
}

/// More digits never stand for less.
pub proof fn lemma_decimal_value_grows(digits: Seq<char>, n: int)
    requires
        0 <= n <= digits.len(),
    ensures
        decimal_value(digits.take(n)) <= decimal_value(digits),
    decreases digits.len(),
{
    if n == digits.len() {
        assert(digits.take(n) =~= digits);
    } else {
        assert(digits.drop_last().take(n) =~= digits.take(n));
        lemma_decimal_value_grows(digits.drop_last(), n);
    }
}

/// The digits of a number are digits, and they stand for the number.
pub proof fn lemma_decimal_digits_value(n: nat)
    ensures
        decimal_digits(n).len() > 0,
        forall|i: int| 0 <= i < decimal_digits(n).len() ==> is_digit(#[trigger] decimal_digits(n)[i]),
        decimal_value(decimal_digits(n)) == n,
    decreases n,
{
    let digits = decimal_digits(n);
    if n < 10 {
        assert(digits.drop_last() =~= Seq::<char>::empty());
        assert(digits.last() == digit_char(n));
        assert(decimal_value(digits.drop_last()) == 0);
    } else {
        lemma_decimal_digits_value(n / 10);
        let front = decimal_digits(n / 10);
        assert(digits.drop_last() =~= front);
        assert(digits.last() == digit_char(n % 10));
        assert forall|i: int| 0 <= i < digits.len() implies is_digit(#[trigger] digits[i]) by {
            if i < front.len() {
                assert(digits[i] == front[i]);
            }
        }
    }
}

/// A count of bytes in decimal digits is a quantity, and stands for itself:
/// what is written to a control file reads back as the same number.
pub proof fn lemma_plain_bytes_are_a_quantity(n: nat)
    requires
        n <= u64::MAX,
    ensures
        quantity_bytes(decimal_digits(n)) == Some(n),
        normalized(decimal_digits(n)) == Some(decimal_digits(n)),
{
    let digits = decimal_digits(n);
    let len = digits.len() as int;
    lemma_decimal_digits_value(n);
    assert(is_digit(digits[0]));
    assert(digits.skip(0) =~= digits);
    lemma_leading_run(digits, |c: char| is_digit(c), len);
    assert(digits.subrange(0, len) + digits.subrange(len, len) =~= digits);
    assert(digits.skip(len) =~= Seq::<char>::empty());
    assert(written_parts(digits) == (digits, 0int, Seq::<char>::empty()));
    assert(n * 1 == n) by (nonlinear_arith);
    assert(n * 1 * pow10(0) == n) by (nonlinear_arith)
        requires
            pow10(0) == 1,
    ;
}

/// Normalizing a request that was normalized changes nothing.
pub proof fn lemma_normalized_twice(q: Seq<char>)
    requires
        normalized(q) is Some,
    ensures
        normalized(normalized(q)->0) == normalized(q),
{
    lemma_plain_bytes_are_a_quantity(quantity_bytes(q)->0);
}

/// The value of the decimal digit `c`.
pub(crate) fn digit_of(c: char) -> (d: u64)
    requires
        is_digit(c),
    ensures
        d == digit_value(c),
        d < 10,
{
    (c as u32 - '0' as u32) as u64
}

/// The digit `d` as a string of one character.
pub(crate) fn digit_str(d: u64) -> (s: &'static str)
    requires
        d < 10,
    ensures
        s@ == seq![digit_char(d as nat)],
{
    proof {
        reveal_strlit("0");
        reveal_strlit("1");
        reveal_strlit("2");
        reveal_strlit("3");
        reveal_strlit("4");
        reveal_strlit("5");
        reveal_strlit("6");
        reveal_strlit("7");
        reveal_strlit("8");
        reveal_strlit("9");
    }
    let s = if d == 0 {
        "0"
    } else if d == 1 {
        "1"
    } else if d == 2 {
        "2"
    } else if d == 3 {
        "3"
    } else if d == 4 {
        "4"
    } else if d == 5 {
        "5"
    } else if d == 6 {
        "6"
    } else if d == 7 {
        "7"
    } else if d == 8 {
        "8"
    } else {
        "9"
    };
    assert(s@ =~= seq![digit_char(d as nat)]);
    s
}

/// The decimal digits of `n`.
pub fn render_decimal(n: u64) -> (s: String)
    ensures
        s@ == decimal_digits(n as nat),
    decreases n,
{
    if n < 10 {
        digit_str(n).to_owned()
    } else {
        let mut s = render_decimal(n / 10);
        s.append(digit_str(n % 10));
        s
    }
}

/// Ten to any power is at least one.
pub proof fn lemma_pow10_positive(n: nat)
    ensures
        1 <= pow10(n),
    decreases n,
{
    if n > 0 {
        lemma_pow10_positive((n - 1) as nat);
    }
}

/// A higher power of ten is no smaller.
pub proof fn lemma_pow10_grows(a: nat, b: nat)
    requires
        a <= b,
    ensures
        pow10(a) <= pow10(b),
    decreases b,
{
    if a < b {
        lemma_pow10_grows(a, (b - 1) as nat);
        lemma_pow10_positive((b - 1) as nat);
    }
}

/// The digits of a number, cut in two: the front counts as many powers of
/// ten as the back has digits.
pub proof fn lemma_decimal_value_split(digits: Seq<char>, n: int)
    requires
        0 <= n <= digits.len(),
    ensures
        decimal_value(digits) == decimal_value(digits.take(n)) * pow10((digits.len() - n) as nat)
            + decimal_value(digits.skip(n)),
    decreases digits.len(),
{
    if n == digits.len() {
        assert(digits.take(n) =~= digits);
        assert(digits.skip(n).len() == 0);
        assert(decimal_value(digits) * 1 == decimal_value(digits)) by (nonlinear_arith);
    } else {
        let front = digits.drop_last();
        let last = digit_value(digits.last());
        lemma_decimal_value_split(front, n);
        assert(front.take(n) =~= digits.take(n));
        assert(digits.skip(n).drop_last() =~= front.skip(n));
        assert(digits.skip(n).last() == digits.last());
        let a = decimal_value(digits.take(n));
        let p = pow10((front.len() - n) as nat);
        let b = decimal_value(front.skip(n));
        assert(pow10((digits.len() - n) as nat) == 10 * p);
        assert((a * p + b) * 10 + last == a * (10 * p) + (b * 10 + last)) by (nonlinear_arith);
    }
}

/// Where one digit run ends: the index behind the digits that begin at
/// `from`.
fn digits_end(chars: &Vec<char>, from: usize) -> (end: usize)
    requires
        from <= chars.len(),
    ensures
        from <= end <= chars.len(),
        end - from == leading_run(chars@.skip(from as int), |c: char| is_digit(c)),
        forall|i: int| from <= i < end ==> is_digit(#[trigger] chars@[i]),
{
    let mut end: usize = from;
    while end < chars.len() && char_is_digit(chars[end])
        invariant
            from <= end <= chars.len(),
            forall|i: int| from <= i < end ==> is_digit(#[trigger] chars@[i]),
        decreases chars.len() - end,
    {
        end += 1;
    }
    proof {
        let rest = chars@.skip(from as int);
        assert forall|i: int| 0 <= i < end - from implies is_digit(#[trigger] rest[i]) by {
            assert(rest[i] == chars@[from + i]);
        }
        lemma_leading_run(rest, |c: char| is_digit(c), end - from);
    }
    end
}

/// Puts the characters of `chars` from `from` up to `to` behind `out`.
fn append_range(out: &mut Vec<char>, chars: &Vec<char>, from: usize, to: usize)
    requires
        from <= to <= chars.len(),
    ensures
        final(out)@ == old(out)@ + chars@.subrange(from as int, to as int),
{
    let mut i: usize = from;
    while i < to
        invariant
            from <= i <= to <= chars.len(),
            out@ == old(out)@ + chars@.subrange(from as int, i as int),
        decreases to - i,
    {
        out.push(chars[i]);
        assert(out@ =~= old(out)@ + chars@.subrange(from as int, i + 1));
        i += 1;
    }
}

/// The number that the first `upto` digits stand for, or `None` where it is
/// beyond `u64`.
fn value_of(digits: &Vec<char>, upto: usize) -> (r: Option<u64>)
    requires
        upto <= digits.len(),
        forall|i: int| 0 <= i < digits.len() ==> is_digit(#[trigger] digits@[i]),
    ensures
        match r {
            Some(v) => v == decimal_value(digits@.take(upto as int)),
            None => decimal_value(digits@.take(upto as int)) > u64::MAX,
        },
{
    let ghost all = digits@.take(upto as int);
    let mut value: u64 = 0;
    let mut i: usize = 0;
    while i < upto
        invariant
            i <= upto <= digits.len(),
            all == digits@.take(upto as int),
            forall|j: int| 0 <= j < digits.len() ==> is_digit(#[trigger] digits@[j]),
            value == decimal_value(all.take(i as int)),
        decreases upto - i,
    {
        let d = digit_of(digits[i]);
        proof {
            assert(all.take(i + 1).drop_last() =~= all.take(i as int));
            assert(all.take(i + 1).last() == digits@[i as int]);
            lemma_decimal_value_grows(all, i + 1);
        }
        let next = match value.checked_mul(10) {
            Some(tens) => tens.checked_add(d),
            None => None,
        };
        match next {
            Some(v) => {
                value = v;
            },
            None => {
                return None;
            },
        }
        i += 1;
    }
    assert(all.take(upto as int) =~= all);
    Some(value)
}

/// The exponent written from `from` on, as its sign and its size.
fn exponent_of(chars: &Vec<char>, from: usize) -> (r: Option<Exponent>)
    requires
        from <= chars.len(),
    ensures
        match written_exponent(chars@.skip(from as int)) {
            Some(e) => r matches Some(found) && found.size < 1_000_000_000 && found.value() == e,
            None => r is None,
        },
{
    let ghost text = chars@.skip(from as int);
    let signed: bool = from < chars.len() && (chars[from] == '+' || chars[from] == '-');
    let negative: bool = from < chars.len() && chars[from] == '-';
    let start: usize = if signed {
        from + 1
    } else {
        from
    };
    let ghost digits = chars@.skip(start as int);
    assert(digits =~= if signed {
        text.skip(1)
    } else {
        text
    });
    let end = digits_end(chars, start);
    if end != chars.len() || end == start || end - start > MAX_EXPONENT_DIGITS {
        return None;
    }
    let mut value: u64 = 0;
    let mut i: usize = start;
    proof {
        reveal_with_fuel(pow10, 10);
        assert(pow10(9) == 1_000_000_000);
    }
    while i < end
        invariant
            start <= i <= end,
            end == chars.len(),
            end - start <= 9,
            digits == chars@.skip(start as int),
            forall|j: int| start <= j < end ==> is_digit(#[trigger] chars@[j]),
            value == decimal_value(digits.take(i - start)),
            value < pow10((i - start) as nat),
            pow10((i - start) as nat) <= 1_000_000_000,
            pow10(9) == 1_000_000_000,
        decreases end - i,
    {
        let d = digit_of(chars[i]);
        proof {
            assert(digits.take(i + 1 - start).drop_last() =~= digits.take(i - start));
            assert(digits.take(i + 1 - start).last() == chars@[i as int]);
            lemma_pow10_grows((i + 1 - start) as nat, 9);
        }
        value = value * 10 + d;
        i += 1;
    }
    assert(digits.take(end - start) =~= digits);
    Some(Exponent { negative, size: value })
}

/// A scale of the given factor and exponent.
fn power_of(factor: u64, negative: bool, size: u64) -> (r: Scale)
    ensures
        r == (Scale { factor, power: Exponent { negative, size } }),
{
    Scale { factor, power: Exponent { negative, size } }
}

/// What the suffix of `chars` from `from` on stands for: its factor, and
/// the sign and the size of its exponent.
fn scale_of(chars: &Vec<char>, from: usize) -> (r: Option<Scale>)
    requires
        from <= chars.len(),
    ensures
        match scale(chars@.skip(from as int)) {
            Some((factor, exponent)) => r matches Some(found) && found.factor == factor && 1
                <= factor <= 0x1000_0000_0000_0000 && found.power.size < 1_000_000_000
                && found.power.value() == exponent,
            None => r is None,
        },
{
    let ghost suffix = chars@.skip(from as int);
    let rest: usize = chars.len() - from;
    if rest == 0 {
        return Some(power_of(1, false, 0));
    }
    let c = chars[from];
    assert(suffix[0] == c);
    if rest == 1 {
        return if c == 'n' {
            Some(power_of(1, true, 9))
        } else if c == 'u' {
            Some(power_of(1, true, 6))
        } else if c == 'm' {
            Some(power_of(1, true, 3))
        } else if c == 'k' {
            Some(power_of(1, false, 3))
        } else if c == 'M' {
            Some(power_of(1, false, 6))
        } else if c == 'G' {
            Some(power_of(1, false, 9))
        } else if c == 'T' {
            Some(power_of(1, false, 12))
        } else if c == 'P' {
            Some(power_of(1, false, 15))
        } else if c == 'E' {
            Some(power_of(1, false, 18))
        } else {
            None
        };
    }
    assert(suffix[1] == chars@[from + 1]);
    if rest == 2 && chars[from + 1] == 'i' {
        return if c == 'K' {
            Some(power_of(0x400, false, 0))
        } else if c == 'M' {
            Some(power_of(0x10_0000, false, 0))
        } else if c == 'G' {
            Some(power_of(0x4000_0000, false, 0))
        } else if c == 'T' {
            Some(power_of(0x100_0000_0000, false, 0))
        } else if c == 'P' {
            Some(power_of(0x4_0000_0000_0000, false, 0))
        } else if c == 'E' {
            Some(power_of(0x1000_0000_0000_0000, false, 0))
        } else {
            None
        };
    }
    if c == 'e' || c == 'E' {
        assert(suffix.skip(1) =~= chars@.skip(from + 1));
        match exponent_of(chars, from + 1) {
            Some(power) => Some(Scale { factor: 1, power }),
            None => None,
        }
    } else {
        None
    }
}

/// `amount` times ten to the power of `shift`, or `None` where that is
/// beyond `u64`.
fn scale_up(amount: u64, shift: u64) -> (r: Option<u64>)
    ensures
        holds(r, shifted(amount as nat, shift as int)),
{
    if amount == 0 {
        assert(0 * pow10(shift as nat) == 0) by (nonlinear_arith);
        return Some(0);
    }
    let mut value: u64 = amount;
    let mut i: u64 = 0;
    assert(amount * 1 == amount) by (nonlinear_arith);
    while i < shift
        invariant
            i <= shift,
            1 <= amount,
            value == amount * pow10(i as nat),
        decreases shift - i,
    {
        proof {
            lemma_pow10_grows((i + 1) as nat, shift as nat);
            assert(amount * pow10((i + 1) as nat) <= amount * pow10(shift as nat))
                by (nonlinear_arith)
                requires
                    pow10((i + 1) as nat) <= pow10(shift as nat),
            ;
            assert(amount * (10 * pow10(i as nat)) == (amount * pow10(i as nat)) * 10)
                by (nonlinear_arith);
        }
        match value.checked_mul(10) {
            Some(v) => {
                value = v;
            },
            None => {
                return None;
            },
        }
        i += 1;
    }
    Some(value)
}

/// `digits` times `factor`, divided by ten to the power of `places`, where
/// nothing is left over and the quotient is within `u64`.
///
/// The digits are gone through from the last one on. Each takes its share
/// of `factor` and hands a tenth of what has gathered on to the next; what
/// does not divide by ten is left over for good.
fn scale_down(digits: &Vec<char>, factor: u64, places: u128) -> (r: Option<u64>)
    requires
        forall|i: int| 0 <= i < digits.len() ==> is_digit(#[trigger] digits@[i]),
        1 <= factor <= 0x1000_0000_0000_0000,
        1 <= places,
    ensures
        holds(r, shifted(decimal_value(digits@) * (factor as nat), -(places as int))),
{
    let n: usize = digits.len();
    let ghost amount: nat = decimal_value(digits@) * (factor as nat);
    let ghost divisor: nat = pow10(places as nat);
    let mut carry: u64 = 0;
    let mut exact: bool = true;
    let ghost mut left: nat = 0;
    let mut j: usize = 0;
    proof {
        assert(digits@.skip(n as int).len() == 0);
        assert(0 * factor == 0 * 1 + 0) by (nonlinear_arith);
        lemma_pow10_positive(places as nat);
    }
    while j < n && (j as u128) < places
        invariant
            j <= n,
            n == digits.len(),
            j <= places,
            forall|i: int| 0 <= i < digits.len() ==> is_digit(#[trigger] digits@[i]),
            1 <= factor <= 0x1000_0000_0000_0000,
            carry <= factor,
            decimal_value(digits@.skip(n - j)) * factor == carry * pow10(j as nat) + left,
            left < pow10(j as nat),
            exact == (left == 0),
        decreases n - j,
    {
        let d = digit_of(digits[n - 1 - j]);
        assert(d * factor <= 9 * factor) by (nonlinear_arith)
            requires
                d <= 9,
                factor >= 0,
        ;
        let gathered: u64 = d * factor + carry;
        let ghost back = digits@.skip(n - j);
        let ghost more = digits@.skip(n - 1 - j);
        let ghost p = pow10(j as nat);
        proof {
            lemma_decimal_value_split(more, 1);
            assert(more.skip(1) =~= back);
            let one = more.take(1);
            assert(one.len() == 1);
            assert(one.drop_last() =~= Seq::<char>::empty());
            assert(decimal_value(one.drop_last()) == 0);
            assert(one.last() == digits@[n - 1 - j]);
            assert(decimal_value(one) == decimal_value(one.drop_last()) * 10 + digit_value(
                one.last(),
            ));
            assert(decimal_value(one) == d);
            assert(pow10((more.len() - 1) as nat) == pow10(j as nat));
            lemma_pow10_positive(j as nat);
            assert((d * p + decimal_value(back)) * factor == (d * factor) * p + decimal_value(back)
                * factor) by (nonlinear_arith);
            assert((d * factor + carry) * p == (d * factor) * p + carry * p) by (nonlinear_arith);
            assert(gathered == (gathered / 10) * 10 + gathered % 10);
            assert(gathered * p == (gathered / 10) * (10 * p) + (gathered % 10) * p)
                by (nonlinear_arith)
                requires
                    gathered == (gathered / 10) * 10 + gathered % 10,
            ;
            assert((gathered % 10) * p + left < 10 * p) by (nonlinear_arith)
                requires
                    gathered % 10 <= 9,
                    left < p,
            ;
            assert((gathered % 10) * p >= 0) by (nonlinear_arith)
                requires
                    gathered % 10 >= 0,
                    p >= 1,
            ;
            if gathered % 10 != 0 {
                assert((gathered % 10) * p >= 1) by (nonlinear_arith)
                    requires
                        gathered % 10 >= 1,
                        p >= 1,
                ;
            } else {
                assert((gathered % 10) * p == 0) by (nonlinear_arith)
                    requires
                        gathered % 10 == 0,
                ;
            }
            left = ((gathered % 10) * p + left) as nat;
        }
        exact = exact && gathered % 10 == 0;
        carry = gathered / 10;
        j += 1;
    }
    if (j as u128) == places {
        let ghost front = digits@.take(n - j);
        proof {
            lemma_decimal_value_split(digits@, n - j);
            let a = decimal_value(front);
            let p = pow10(j as nat);
            let b = decimal_value(digits@.skip(n - j));
            assert((a * p + b) * factor == (a * factor) * p + b * factor) by (nonlinear_arith);
            assert((a * factor) * p + (carry * p + left) == (a * factor + carry) * p + left)
                by (nonlinear_arith);
            vstd::arithmetic::div_mod::lemma_fundamental_div_mod_converse(
                amount as int,
                p as int,
                (a * factor + carry) as int,
                left as int,
            );
        }
        if !exact {
            return None;
        }
        match value_of(digits, n - j) {
            Some(a) => match a.checked_mul(factor) {
                Some(scaled) => scaled.checked_add(carry),
                None => None,
            },
            None => {
                proof {
                    let a = decimal_value(front);
                    assert(a * factor + carry > u64::MAX) by (nonlinear_arith)
                        requires
                            a > u64::MAX,
                            factor >= 1,
                            carry >= 0,
                    ;
                }
                None
            },
        }
    } else {
        let mut k: u128 = n as u128;
        proof {
            assert(digits@.skip(0) =~= digits@);
        }
        while carry != 0 && k < places
            invariant
                n <= k <= places,
                amount == carry * pow10(k as nat) + left,
                left < pow10(k as nat),
                exact == (left == 0),
            decreases carry,
        {
            let ghost p = pow10(k as nat);
            proof {
                lemma_pow10_positive(k as nat);
                assert(carry == (carry / 10) * 10 + carry % 10);
                assert(carry * p == (carry / 10) * (10 * p) + (carry % 10) * p) by (nonlinear_arith)
                    requires
                        carry == (carry / 10) * 10 + carry % 10,
                ;
                assert((carry % 10) * p + left < 10 * p) by (nonlinear_arith)
                    requires
                        carry % 10 <= 9,
                        left < p,
                ;
                if carry % 10 != 0 {
                    assert((carry % 10) * p >= 1) by (nonlinear_arith)
                        requires
                            carry % 10 >= 1,
                            p >= 1,
                    ;
                } else {
                    assert((carry % 10) * p == 0) by (nonlinear_arith)
                        requires
                            carry % 10 == 0,
                    ;
                }
                left = ((carry % 10) * p + left) as nat;
            }
            exact = exact && carry % 10 == 0;
            carry = carry / 10;
            k += 1;
        }
        proof {
            let p = pow10(k as nat);
            lemma_pow10_positive(k as nat);
            lemma_pow10_grows(k as nat, places as nat);
            if carry == 0 {
                assert(0 * p == 0) by (nonlinear_arith);
                assert(amount == left);
                assert(0 * divisor == 0) by (nonlinear_arith);
                assert(amount < divisor);
                assert(amount == 0 * divisor + amount);
                vstd::arithmetic::div_mod::lemma_fundamental_div_mod_converse(
                    amount as int,
                    divisor as int,
                    0,
                    amount as int,
                );
            } else {
                vstd::arithmetic::div_mod::lemma_fundamental_div_mod_converse(
                    amount as int,
                    divisor as int,
                    carry as int,
                    left as int,
                );
            }
        }
        if exact {
            Some(carry)
        } else {
            None
        }
    }
}

/// The number that `digits` stand for, times `scale`, with the point
/// `places` digits before the end: the bytes, where they are a whole number
/// within `u64`.
fn scaled_value(digits: &Vec<char>, places: usize, scale: Scale) -> (r: Option<u64>)
    requires
        forall|i: int| 0 <= i < digits.len() ==> is_digit(#[trigger] digits@[i]),
        1 <= scale.factor <= 0x1000_0000_0000_0000,
        scale.power.size < 1_000_000_000,
    ensures
        holds(
            r,
            shifted(
                decimal_value(digits@) * (scale.factor as nat),
                scale.power.value() - places,
            ),
        ),
{
    let factor: u64 = scale.factor;
    let size: u64 = scale.power.size;
    let ghost amount: nat = decimal_value(digits@) * (factor as nat);
    let ghost shift: int = scale.power.value() - places;
    assert(digits@.take(digits.len() as int) =~= digits@);
    if scale.power.negative && (size > 0 || places > 0) {
        scale_down(digits, factor, size as u128 + places as u128)
    } else if size < places as u64 {
        scale_down(digits, factor, places as u128 - size as u128)
    } else {
        let up: u64 = size - places as u64;
        assert(shift == up);
        proof {
            lemma_pow10_positive(up as nat);
        }
        match value_of(digits, digits.len()) {
            Some(number) => match number.checked_mul(factor) {
                Some(product) => scale_up(product, up),
                None => {
                    assert(amount * pow10(up as nat) > u64::MAX) by (nonlinear_arith)
                        requires
                            amount > u64::MAX,
                            pow10(up as nat) >= 1,
                    ;
                    None
                },
            },
            None => {
                assert(amount * pow10(up as nat) > u64::MAX) by (nonlinear_arith)
                    requires
                        amount == decimal_value(digits@) * (factor as nat),
                        decimal_value(digits@) > u64::MAX,
                        factor >= 1,
                        pow10(up as nat) >= 1,
                ;
                None
            },
        }
    }
}

/// A quantity taken apart: the digits of its number, how many of them stand
/// behind the point, and where its suffix begins.
pub struct Written {
    pub digits: Vec<char>,
    pub places: usize,
    pub suffix_at: usize,
}

/// Takes the quantity `chars` apart.
fn take_apart(chars: &Vec<char>) -> (w: Written)
    ensures
        w.suffix_at <= chars.len(),
        written_parts(chars@) == (w.digits@, w.places as int, chars@.skip(w.suffix_at as int)),
        forall|i: int| 0 <= i < w.digits.len() ==> is_digit(#[trigger] w.digits@[i]),
{
    let len: usize = chars.len();
    let start: usize = if len > 0 && chars[0] == '+' {
        1
    } else {
        0
    };
    let point = digits_end(chars, start);
    let pointed: bool = point < len && chars[point] == '.';
    let after: usize = if pointed {
        point + 1
    } else {
        point
    };
    let end: usize = if pointed {
        digits_end(chars, after)
    } else {
        after
    };
    let places: usize = end - after;
    let mut digits: Vec<char> = Vec::new();
    append_range(&mut digits, chars, start, point);
    append_range(&mut digits, chars, after, end);
    proof {
        assert forall|i: int| 0 <= i < digits.len() implies is_digit(#[trigger] digits@[i]) by {
            if i < point - start {
                assert(digits@[i] == chars@[start + i]);
            } else {
                assert(digits@[i] == chars@[after + (i - (point - start))]);
            }
        }
    }
    Written { digits, places, suffix_at: end }
}

/// The number of bytes that the quantity `q` stands for, or
/// `InvalidQuantity`.
pub fn parse_quantity(q: &str) -> (r: Result<u64, WaspError>)
    ensures
        match quantity_bytes(q@) {
            Some(bytes) => r == Ok::<u64, WaspError>(bytes as u64),
            None => r == Err::<u64, WaspError>(WaspError::InvalidQuantity),
        },
{
    let chars = chars_of(q);
    let written = take_apart(&chars);
    if written.digits.len() == 0 {
        return Err(WaspError::InvalidQuantity);
    }
    let answer = match scale_of(&chars, written.suffix_at) {
        Some(scale) => scaled_value(&written.digits, written.places, scale),
        None => None,
    };
    match answer {
        Some(bytes) => Ok(bytes),
        None => Err(WaspError::InvalidQuantity),
    }
}

/// The swap request `q` as the control file takes it: a count of bytes in
/// decimal digits, or `InvalidQuantity`.
pub fn normalize_swap_request(q: &str) -> (r: Result<String, WaspError>)
    ensures
        match normalized(q@) {
            Some(text) => r is Ok && r->Ok_0@ == text,
            None => r == Err::<String, WaspError>(WaspError::InvalidQuantity),
        },
{
    match parse_quantity(q) {
        Ok(bytes) => Ok(render_decimal(bytes)),
        Err(e) => Err(e),
    }
}

} // verus!
