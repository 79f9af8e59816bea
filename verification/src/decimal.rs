//! Decimal text and its value.
//!
//! Decimal text is written as a float is: an optional `+`, digits with at
//! most one `.` among them, and an optional exponent, which is `e` or `E`, an
//! optional sign and digits. Its value is held as a whole number of a unit:
//! the nearest one, and the greater where two are as near.

use vstd::prelude::*;

verus! {

/// The largest exponent that is read digit by digit; a larger one is only
/// known to be larger.
pub const EXPONENT_LIMIT: u128 = 0x10_0000_0000_0000_0000_0000_0000;

/// `c` is one of the ten decimal digits.
pub open spec fn is_digit(c: char) -> bool {
    '0' <= c <= '9'
}

/// The number that a decimal digit stands for.
pub open spec fn digit_value(c: char) -> nat {
    (c as int - 48) as nat
}

/// `s` holds decimal digits only.
pub open spec fn all_digits(s: Seq<char>) -> bool {
    forall|i: int| 0 <= i < s.len() ==> is_digit(#[trigger] s[i])
}

/// `s` holds the digit `0` only.
pub open spec fn all_zeros(s: Seq<char>) -> bool {
    forall|i: int| 0 <= i < s.len() ==> #[trigger] s[i] == '0'
}

/// The number that a string of digits writes.
pub open spec fn digits_value(s: Seq<char>) -> nat
    decreases s.len(),
{
    if s.len() == 0 {
        0
    } else {
        digits_value(s.drop_last()) * 10 + digit_value(s.last())
    }
}

/// Ten to the power `n`.
pub open spec fn pow10(n: nat) -> nat
    decreases n,
{
    if n == 0 {
        1
    } else {
        10 * pow10((n - 1) as nat)
    }
}

/// The first position in `s` that holds `a` or `b`, or `s.len()` if there is
/// none.
pub open spec fn first_mark(s: Seq<char>, a: char, b: char) -> int
    decreases s.len(),
{
    if s.len() == 0 {
        0
    } else {
        let d = first_mark(s.drop_last(), a, b);
        if d < s.len() - 1 {
            d
        } else if s.last() == a || s.last() == b {
            s.len() - 1
        } else {
            s.len() as int
        }
    }
}

/// `text` without the `+` that it may begin with.
pub open spec fn unsigned(text: Seq<char>) -> Seq<char> {
    if text.len() > 0 && text[0] == '+' {
        text.skip(1)
    } else {
        text
    }
}

/// What the part before the exponent writes: its digits, the `.` left out,
/// and how many of them stand behind the `.`.
pub struct Mantissa {
    pub digits: Seq<char>,
    pub frac_len: nat,
}

/// What `text` writes as the part before the exponent: digits with at most
/// one `.` among them, and at least one digit.
pub open spec fn mantissa_of(text: Seq<char>) -> Option<Mantissa> {
    let d = first_mark(text, '.', '.');
    let whole = text.take(d);
    let frac = if d < text.len() {
        text.skip(d + 1)
    } else {
        Seq::empty()
    };
    if all_digits(whole) && all_digits(frac) && whole.len() + frac.len() > 0 {
        Some(Mantissa { digits: whole + frac, frac_len: frac.len() })
    } else {
        None
    }
}

/// Whether the text of an exponent begins with `-`.
pub open spec fn exponent_negative(text: Seq<char>) -> bool {
    text.len() > 0 && text[0] == '-'
}

/// The text of an exponent without the sign that it may begin with.
pub open spec fn exponent_digits(text: Seq<char>) -> Seq<char> {
    if text.len() > 0 && (text[0] == '+' || text[0] == '-') {
        text.skip(1)
    } else {
        text
    }
}

/// What `text` writes as an exponent, the `e` left out: an optional sign and
/// at least one digit.
pub open spec fn exponent_of(text: Seq<char>) -> Option<int> {
    let digits = exponent_digits(text);
    if digits.len() > 0 && all_digits(digits) {
        Some(
            if exponent_negative(text) {
                -(digits_value(digits) as int)
            } else {
                digits_value(digits) as int
            },
        )
    } else {
        None
    }
}

/// The number that `digits` write, times ten to the power `shift`, as the
/// nearest whole number; where two are as near, the greater.
///
/// A negative shift takes digits away at the end. What is kept goes up by one
/// where the first digit taken away is 5 or more. Where more digits are to be
/// taken away than there are, nothing is kept and the first one taken away is
/// a zero.
pub open spec fn shifted(digits: Seq<char>, shift: int) -> nat {
    if shift >= 0 {
        digits_value(digits) * pow10(shift as nat)
    } else if digits.len() + shift < 0 {
        0
    } else {
        let cut = digits.len() + shift;
        if digit_value(digits[cut]) >= 5 {
            digits_value(digits.take(cut)) + 1
        } else {
            digits_value(digits.take(cut))
        }
    }
}

/// The value of decimal text times ten to the power `places`, as the nearest
/// whole number, halves going up, where the text is well written.
pub open spec fn decimal_scaled(text: Seq<char>, places: nat) -> Option<nat> {
    let body = unsigned(text);
    let m = first_mark(body, 'e', 'E');
    let exponent = if m < body.len() {
        exponent_of(body.skip(m + 1))
    } else {
        Some(0int)
    };
    match mantissa_of(body.take(m)) {
        Some(mantissa) => match exponent {
            Some(e) => Some(shifted(mantissa.digits, places + e - mantissa.frac_len)),
            None => None,
        },
        None => None,
    }
}

/// `v` where it is at most `limit`, else nothing.
pub open spec fn within(v: Option<nat>, limit: nat) -> Option<nat> {
    match v {
        Some(n) => if n <= limit {
            Some(n)
        } else {
            None
        },
        None => None,
    }
}

/// `first_mark` returns the first position of a mark, if there is one.
pub proof fn lemma_first_mark(s: Seq<char>, a: char, b: char)
    ensures
        0 <= first_mark(s, a, b) <= s.len(),
        first_mark(s, a, b) < s.len() ==> s[first_mark(s, a, b)] == a || s[first_mark(s, a, b)]
            == b,
        forall|j: int| 0 <= j < first_mark(s, a, b) ==> #[trigger] s[j] != a && s[j] != b,
    decreases s.len(),
{
    if s.len() > 0 {
        lemma_first_mark(s.drop_last(), a, b);
        let d = first_mark(s.drop_last(), a, b);
        assert forall|j: int| 0 <= j < first_mark(s, a, b) implies #[trigger] s[j] != a && s[j]
            != b by {
            if j < s.len() - 1 {
                assert(s[j] == s.drop_last()[j]);
            }
        }
        if d < s.len() - 1 {
            assert(s[d] == s.drop_last()[d]);
        }
    }
}

/// A position that holds a mark and has none before it is the one that
/// `first_mark` returns.
pub proof fn lemma_first_mark_is(s: Seq<char>, a: char, b: char, d: int)
    requires
        0 <= d <= s.len(),
        d < s.len() ==> s[d] == a || s[d] == b,
        forall|j: int| 0 <= j < d ==> #[trigger] s[j] != a && s[j] != b,
    ensures
        first_mark(s, a, b) == d,
{
    lemma_first_mark(s, a, b);
    let f = first_mark(s, a, b);
    if f < d {
        assert(s[f] != a && s[f] != b);
    }
    if d < f {
        assert(s[d] != a && s[d] != b);
    }
}

/// Ten to the power eleven, and that the powers of ten grow.
pub proof fn lemma_pow10_grows(a: nat, b: nat)
    requires
        a <= b,
    ensures
        1 <= pow10(a) <= pow10(b),
        pow10(11) == 100_000_000_000,
    decreases b,
{
    if a < b {
        lemma_pow10_grows(a, (b - 1) as nat);
    } else if a > 0 {
        lemma_pow10_grows((a - 1) as nat, (b - 1) as nat);
    }
    assert(pow10(0) == 1);
    assert(pow10(1) == 10);
    assert(pow10(2) == 100);
    assert(pow10(3) == 1_000);
    assert(pow10(4) == 10_000);
    assert(pow10(5) == 100_000);
    assert(pow10(6) == 1_000_000);
    assert(pow10(7) == 10_000_000);
    assert(pow10(8) == 100_000_000);
    assert(pow10(9) == 1_000_000_000);
    assert(pow10(10) == 10_000_000_000);
}

/// A shift of eleven places or more leaves zero or a number above any limit
/// of 32 bits; a shift that takes more digits away than there are leaves
/// zero. So a shift beyond either bound gives what the bound gives.
pub proof fn lemma_shift_far(digits: Seq<char>, shift: int, limit: nat)
    requires
        limit <= 0xffff_ffff,
    ensures
        shift >= 11 ==> (shifted(digits, shift) <= limit <==> shifted(digits, 11) <= limit),
        shift >= 11 && shifted(digits, 11) <= limit ==> shifted(digits, shift) == shifted(
            digits,
            11,
        ),
        shift < -digits.len() ==> shifted(digits, shift) == 0,
{
    if shift >= 11 {
        let v = digits_value(digits);
        lemma_pow10_grows(11, shift as nat);
        let far = pow10(shift as nat);
        let near = pow10(11);
        if v == 0 {
            assert(v * far == 0 && v * near == 0) by (nonlinear_arith)
                requires
                    v == 0,
            ;
        } else {
            assert(v * far >= near && v * near >= near) by (nonlinear_arith)
                requires
                    v >= 1,
                    far >= near,
                    near >= 1,
            ;
        }
    }
}

/// The number that digits write is the number that the first `c` of them
/// write, shifted by the count of the others, and the number that the others
/// write.
pub proof fn lemma_digits_split(digits: Seq<char>, c: int)
    requires
        0 <= c <= digits.len(),
    ensures
        digits_value(digits) == digits_value(digits.take(c)) * pow10((digits.len() - c) as nat)
            + digits_value(digits.skip(c)),
    decreases digits.len(),
{
    let n = digits.len() as int;
    if c == n {
        assert(digits.take(c) =~= digits);
        assert(digits.skip(c).len() == 0);
        assert(digits_value(digits) * pow10(0) == digits_value(digits)) by (nonlinear_arith)
            requires
                pow10(0) == 1,
        ;
    } else {
        let front = digits.drop_last();
        lemma_digits_split(front, c);
        assert(front.take(c) =~= digits.take(c));
        assert(digits.skip(c).drop_last() =~= front.skip(c));
        assert(digits.skip(c).last() == digits.last());
        let a = digits_value(digits.take(c));
        let b = digits_value(front.skip(c));
        let p = pow10((n - 1 - c) as nat);
        let d = digit_value(digits.last());
        assert(pow10((n - c) as nat) == 10 * p);
        assert(digits_value(front) == a * p + b);
        assert(digits_value(digits.skip(c)) == b * 10 + d);
        assert((a * p + b) * 10 + d == a * (10 * p) + (b * 10 + d)) by (nonlinear_arith);
    }
}

/// Digits write less than ten to the power of their count.
pub proof fn lemma_digits_bound(digits: Seq<char>)
    requires
        all_digits(digits),
    ensures
        digits_value(digits) < pow10(digits.len()),
    decreases digits.len(),
{
    if digits.len() > 0 {
        let front = digits.drop_last();
        assert forall|i: int| 0 <= i < front.len() implies is_digit(#[trigger] front[i]) by {
            assert(front[i] == digits[i]);
        }
        lemma_digits_bound(front);
        assert(is_digit(digits[digits.len() - 1]));
        assert(pow10(digits.len()) == 10 * pow10(front.len()));
    }
}

/// A shift that takes digits away gives the nearest whole number, halves
/// going up: the number that the digits write lies no more than half of the
/// power of ten below the result put back by that power, and less than half
/// above it.
pub proof fn lemma_shifted_nearest(digits: Seq<char>, back: nat)
    requires
        all_digits(digits),
        back >= 1,
    ensures
        2 * (shifted(digits, -(back as int)) * pow10(back)) <= 2 * digits_value(digits) + pow10(
            back,
        ),
        2 * digits_value(digits) < 2 * (shifted(digits, -(back as int)) * pow10(back)) + pow10(
            back,
        ),
{
    let n = digits.len();
    let v = shifted(digits, -(back as int));
    let x = digits_value(digits);
    let q = pow10((back - 1) as nat);
    assert(pow10(back) == 10 * q);
    lemma_pow10_grows(0, (back - 1) as nat);
    if back > n {
        lemma_digits_bound(digits);
        lemma_pow10_grows(n, (back - 1) as nat);
        assert(v * (10 * q) == 0) by (nonlinear_arith)
            requires
                v == 0,
        ;
    } else {
        let c = (n - back) as int;
        let rest = digits.skip(c);
        let a = digits_value(digits.take(c));
        let r = digits_value(rest);
        let d = digit_value(digits[c]);
        lemma_digits_split(digits, c);
        assert(x == a * (10 * q) + r);
        assert forall|i: int| 0 <= i < rest.len() implies is_digit(#[trigger] rest[i]) by {
            assert(rest[i] == digits[c + i]);
        }
        lemma_digits_split(rest, 1);
        let tail = rest.skip(1);
        assert forall|i: int| 0 <= i < tail.len() implies is_digit(#[trigger] tail[i]) by {
            assert(tail[i] == rest[i + 1]);
        }
        lemma_digits_bound(tail);
        let head = rest.take(1);
        assert(head.len() == 1);
        assert(head.drop_last() =~= Seq::<char>::empty());
        assert(digits_value(head.drop_last()) == 0);
        assert(head.last() == digits[c]);
        assert(digits_value(head) == digits_value(head.drop_last()) * 10 + digit_value(
            head.last(),
        ));
        assert(digits_value(head) == d);
        assert(is_digit(digits[c]));
        let t = digits_value(tail);
        assert(r == d * q + t);
        assert(t < q);
        if d >= 5 {
            assert(v == a + 1);
            assert(2 * ((a + 1) * (10 * q)) <= 2 * (a * (10 * q) + (d * q + t)) + 10 * q && 2 * (a
                * (10 * q) + (d * q + t)) < 2 * ((a + 1) * (10 * q)) + 10 * q)
                by (nonlinear_arith)
                requires
                    5 <= d <= 9,
                    0 <= t < q,
            ;
        } else {
            assert(v == a);
            assert(2 * (a * (10 * q)) <= 2 * (a * (10 * q) + (d * q + t)) + 10 * q && 2 * (a * (10
                * q) + (d * q + t)) < 2 * (a * (10 * q)) + 10 * q) by (nonlinear_arith)
                requires
                    0 <= d <= 4,
                    0 <= t < q,
            ;
        }
    }
}

/// The first position in `text` that holds `a` or `b`, or its length if there
/// is none.
pub fn find_mark(text: &Vec<char>, a: char, b: char) -> (i: usize)
    ensures
        i == first_mark(text@, a, b),
{
    let mut i: usize = 0;
    while i < text.len()
        invariant
            i <= text.len(),
            forall|j: int| 0 <= j < i ==> #[trigger] text@[j] != a && text@[j] != b,
        decreases text.len() - i,
    {
        if text[i] == a || text[i] == b {
            proof {
                lemma_first_mark_is(text@, a, b, i as int);
            }
            return i;
        }
        i += 1;
    }
    proof {
        lemma_first_mark_is(text@, a, b, i as int);
    }
    i
}

/// The characters of `text` from `from` up to `to`.
pub fn slice_of(text: &Vec<char>, from: usize, to: usize) -> (out: Vec<char>)
    requires
        from <= to <= text.len(),
    ensures
        out@ == text@.subrange(from as int, to as int),
{
    let mut out: Vec<char> = Vec::new();
    let mut i: usize = from;
    while i < to
        invariant
            from <= i <= to,
            to <= text.len(),
            out@ == text@.subrange(from as int, i as int),
        decreases to - i,
    {
        out.push(text[i]);
        assert(out@ =~= text@.subrange(from as int, i + 1));
        i += 1;
    }
    out
}

/// Reads the digits of `text` from `from` up to `to`: nothing if one of the
/// characters is no digit; else the number they write and `false`, or, where
/// that number is above `limit`, `true`.
pub fn read_digits(text: &Vec<char>, from: usize, to: usize, limit: u128) -> (r: Option<
    (u128, bool),
>)
    requires
        from <= to <= text.len(),
        limit <= EXPONENT_LIMIT,
    ensures
        r is Some == all_digits(text@.subrange(from as int, to as int)),
        r is Some ==> {
            let written = digits_value(text@.subrange(from as int, to as int));
            if r.unwrap().1 {
                written > limit
            } else {
                r.unwrap().0 == written && written <= limit
            }
        },
{
    let mut value: u128 = 0;
    let mut over = false;
    let mut i: usize = from;
    while i < to
        invariant
            from <= i <= to,
            to <= text.len(),
            limit <= EXPONENT_LIMIT,
            all_digits(text@.subrange(from as int, i as int)),
            over ==> digits_value(text@.subrange(from as int, i as int)) > limit,
            !over ==> value == digits_value(text@.subrange(from as int, i as int)) && value
                <= limit,
        decreases to - i,
    {
        let c = text[i];
        let ghost read = text@.subrange(from as int, i as int);
        let ghost more = text@.subrange(from as int, i + 1);
        if !(c >= '0' && c <= '9') {
            assert(text@.subrange(from as int, to as int)[i - from] == c);
            return None;
        }
        proof {
            assert(more.drop_last() =~= read);
            assert(more.last() == c);
            assert forall|j: int| 0 <= j < more.len() implies is_digit(#[trigger] more[j]) by {
                if j < read.len() {
                    assert(more[j] == read[j]);
                }
            }
        }
        if !over {
            let digit: u128 = ((c as u32) - 48) as u128;
            let next: u128 = value * 10 + digit;
            if next > limit {
                over = true;
            } else {
                value = next;
            }
        }
        i += 1;
    }
    Some((value, over))
}

/// Whether `text` holds decimal digits only.
pub fn holds_digits_only(text: &Vec<char>) -> (r: bool)
    ensures
        r == all_digits(text@),
{
    let mut i: usize = 0;
    while i < text.len()
        invariant
            i <= text.len(),
            forall|j: int| 0 <= j < i ==> is_digit(#[trigger] text@[j]),
        decreases text.len() - i,
    {
        let c = text[i];
        if !(c >= '0' && c <= '9') {
            return false;
        }
        i += 1;
    }
    true
}

/// Reads the part before the exponent: its digits and how many of them stand
/// behind the `.`.
pub fn parse_mantissa(text: &Vec<char>) -> (r: Option<(Vec<char>, usize)>)
    ensures
        match r {
            Some((digits, frac_len)) => mantissa_of(text@) == Some(
                Mantissa { digits: digits@, frac_len: frac_len as nat },
            ) && all_digits(digits@) && digits@.len() > 0 && frac_len <= digits@.len(),
            None => mantissa_of(text@) is None,
        },
{
    let n = text.len();
    let d = find_mark(text, '.', '.');
    proof {
        lemma_first_mark(text@, '.', '.');
        assert(text@.take(d as int) =~= text@.subrange(0, d as int));
        if d < n {
            assert(text@.skip(d + 1) =~= text@.subrange(d + 1, n as int));
        }
    }
    let mut digits = slice_of(text, 0, d);
    let mut frac = if d < n {
        slice_of(text, d + 1, n)
    } else {
        Vec::new()
    };
    if !holds_digits_only(&digits) || !holds_digits_only(&frac) {
        return None;
    }
    let frac_len = frac.len();
    digits.append(&mut frac);
    if digits.len() == 0 {
        return None;
    }
    Some((digits, frac_len))
}

/// Reads an exponent, the `e` left out: whether it is negative, and its size
/// and `false` or, where the size is above `EXPONENT_LIMIT`, `true`.
pub fn parse_exponent(text: &Vec<char>) -> (r: Option<(bool, u128, bool)>)
    ensures
        r is Some == exponent_of(text@) is Some,
        r is Some ==> {
            let size = digits_value(exponent_digits(text@));
            &&& r.unwrap().0 == exponent_negative(text@)
            &&& if r.unwrap().2 {
                size > EXPONENT_LIMIT
            } else {
                r.unwrap().1 == size && size <= EXPONENT_LIMIT
            }
        },
{
    let n = text.len();
    let negative = n > 0 && text[0] == '-';
    let start: usize = if n > 0 && (text[0] == '+' || text[0] == '-') {
        1
    } else {
        0
    };
    proof {
        assert(text@.subrange(start as int, n as int) =~= exponent_digits(text@));
    }
    if start == n {
        return None;
    }
    match read_digits(text, start, n, EXPONENT_LIMIT) {
        Some((size, over)) => Some((negative, size, over)),
        None => None,
    }
}

/// The number that `digits` write, times ten to the power `shift`, as the
/// nearest whole number, halves going up, where that is at most `limit`.
pub fn shift_digits(digits: &Vec<char>, shift: i128, limit: u32) -> (r: Option<u32>)
    requires
        all_digits(digits@),
        -digits@.len() - 1 <= shift <= 11,
    ensures
        match r {
            Some(v) => shifted(digits@, shift as int) == v && v <= limit,
            None => shifted(digits@, shift as int) > limit,
        },
        shift < 0 ==> {
            let near = shifted(digits@, shift as int) * pow10((-shift) as nat);
            let half = pow10((-shift) as nat);
            2 * near <= 2 * digits_value(digits@) + half && 2 * digits_value(digits@) < 2 * near
                + half
        },
{
    let n = digits.len();
    if shift < 0 {
        proof {
            lemma_shifted_nearest(digits@, (-shift) as nat);
        }
        let back = -shift;
        if back > n as i128 {
            return Some(0);
        }
        let cut: usize = n - (back as usize);
        proof {
            assert(digits@.subrange(0, cut as int) =~= digits@.take(cut as int));
            assert forall|j: int| 0 <= j < digits@.take(cut as int).len() implies is_digit(
                #[trigger] digits@.take(cut as int)[j],
            ) by {
                assert(digits@.take(cut as int)[j] == digits@[j]);
            }
            assert(is_digit(digits@[cut as int]));
        }
        let up = digits[cut] >= '5';
        return match read_digits(digits, 0, cut, limit as u128) {
            Some((kept, over)) => {
                if over {
                    None
                } else if up {
                    if kept >= limit as u128 {
                        None
                    } else {
                        Some((kept + 1) as u32)
                    }
                } else {
                    Some(kept as u32)
                }
            },
            None => None,
        };
    }
    proof {
        assert(digits@.subrange(0, n as int) =~= digits@);
    }
    let ghost written = digits_value(digits@);
    let (mut value, mut over) = match read_digits(digits, 0, n, limit as u128) {
        Some(read) => read,
        None => {
            return None;
        },
    };
    let pad: u8 = shift as u8;
    let mut p: u8 = 0;
    assert(written * pow10(0) == written) by (nonlinear_arith)
        requires
            pow10(0) == 1,
    ;
    while p < pad
        invariant
            p <= pad <= 11,
            over ==> written * pow10(p as nat) > limit,
            !over ==> value == written * pow10(p as nat) && value <= limit,
        decreases pad - p,
    {
        proof {
            let b = pow10(p as nat);
            assert(pow10((p + 1) as nat) == 10 * b);
            assert(written * (10 * b) == (written * b) * 10) by (nonlinear_arith);
        }
        if !over {
            let next: u128 = value * 10;
            if next > limit as u128 {
                over = true;
            } else {
                value = next;
            }
        }
        p += 1;
    }
    if over {
        None
    } else {
        Some(value as u32)
    }
}

/// Reads decimal text and scales it by ten to the power `places`: its value
/// times that power as the nearest whole number, halves going up, where the
/// text is well written and that number is at most `limit`.
pub fn scale_decimal(text: &Vec<char>, places: u8, limit: u32) -> (r: Option<u32>)
    ensures
        match r {
            Some(v) => within(decimal_scaled(text@, places as nat), limit as nat) == Some(
                v as nat,
            ),
            None => within(decimal_scaled(text@, places as nat), limit as nat) is None,
        },
{
    let n = text.len();
    let start: usize = if n > 0 && text[0] == '+' {
        1
    } else {
        0
    };
    let body = slice_of(text, start, n);
    assert(body@ =~= unsigned(text@));
    let m = find_mark(&body, 'e', 'E');
    proof {
        lemma_first_mark(body@, 'e', 'E');
        assert(body@.take(m as int) =~= body@.subrange(0, m as int));
    }
    let mantissa_text = slice_of(&body, 0, m);
    let exponent = if m < body.len() {
        let exponent_text = slice_of(&body, m + 1, body.len());
        assert(exponent_text@ =~= body@.skip(m + 1));
        parse_exponent(&exponent_text)
    } else {
        assert(digits_value(exponent_digits(Seq::<char>::empty())) == 0);
        Some((false, 0u128, false))
    };
    let (digits, frac_len) = match parse_mantissa(&mantissa_text) {
        Some(read) => read,
        None => {
            return None;
        },
    };
    let (negative, size, over) = match exponent {
        Some(read) => read,
        None => {
            return None;
        },
    };
    let count = digits.len();
    let ghost written: int = if m < body.len() {
        exponent_of(body@.skip(m + 1)).unwrap()
    } else {
        0
    };
    let ghost true_shift: int = places + written - frac_len;
    let shift: i128 = if over {
        if negative {
            -(count as i128) - 1
        } else {
            11
        }
    } else {
        let signed: i128 = if negative {
            -(size as i128)
        } else {
            size as i128
        };
        let exact: i128 = places as i128 + signed - frac_len as i128;
        if exact > 11 {
            11
        } else if exact < -(count as i128) - 1 {
            -(count as i128) - 1
        } else {
            exact
        }
    };
    proof {
        lemma_shift_far(digits@, true_shift, limit as nat);
    }
    shift_digits(&digits, shift, limit)
}

} // verus!
