//! Decimal text: the grammar of a written number and its value in millionths.

use crate::state::{clamp_setpoint, FULL_POWER};
use vstd::prelude::*;
use vstd::slice::slice_subrange;
use vstd::string::StringSliceAdditionalSpecFns;

verus! {

/// The character `0`.
pub const DIGIT_0: u8 = 0x30;

/// The character `9`.
pub const DIGIT_9: u8 = 0x39;

/// The character `+`.
pub const PLUS: u8 = 0x2B;

/// The character `-`.
pub const MINUS: u8 = 0x2D;

/// The character `.`.
pub const POINT: u8 = 0x2E;

/// The character `A`.
pub const UPPER_A: u8 = 0x41;

/// The character `E`.
pub const UPPER_E: u8 = 0x45;

/// The character `Z`.
pub const UPPER_Z: u8 = 0x5A;

/// The character `e`.
pub const LOWER_E: u8 = 0x65;

/// `b` is one of the characters `0` to `9`.
pub open spec fn is_digit(b: u8) -> bool {
    DIGIT_0 <= b <= DIGIT_9
}

/// Ten to the power `n`.
pub open spec fn pow10(n: nat) -> nat
    decreases n,
{
    if n == 0 {
        1
    } else {
        10 * pow10((n - 1) as nat)
    }
}

/// The number that a run of digits writes; the empty run writes zero.
pub open spec fn digits_value(digits: Seq<u8>) -> nat
    decreases digits.len(),
{
    if digits.len() == 0 {
        0
    } else {
        digits_value(digits.drop_last()) * 10 + (digits.last() - DIGIT_0) as nat
    }
}

/// The index just past the digits that start at `from`; `from` itself where
/// no digit stands there.
pub open spec fn digits_end(text: Seq<u8>, from: int) -> int
    decreases text.len() - from,
{
    if 0 <= from < text.len() && is_digit(text[from]) {
        digits_end(text, from + 1)
    } else {
        from
    }
}

/// Length of the sign at the start of `text`: one where it starts with `+`
/// or `-`, else zero.
pub open spec fn sign_len(text: Seq<u8>) -> int {
    if text.len() > 0 && (text[0] == PLUS || text[0] == MINUS) {
        1
    } else {
        0
    }
}

/// `text` starts with a minus sign.
pub open spec fn is_negative(text: Seq<u8>) -> bool {
    text.len() > 0 && text[0] == MINUS
}

/// An upper-case letter as its lower-case letter, any other byte as itself.
pub open spec fn lower(b: u8) -> u8 {
    if UPPER_A <= b <= UPPER_Z {
        (b + 32) as u8
    } else {
        b
    }
}

/// `text` is `word`, whatever the case of its letters. `word` is in lower
/// case.
pub open spec fn spells(text: Seq<u8>, word: Seq<u8>) -> bool {
    &&& text.len() == word.len()
    &&& forall|i: int| 0 <= i < text.len() ==> lower(#[trigger] text[i]) == word[i]
}

/// `text` is one of the two words for infinity.
pub open spec fn is_infinity_word(text: Seq<u8>) -> bool {
    spells(text, "inf".spec_bytes()) || spells(text, "infinity".spec_bytes())
}

/// A written number without its sign.
pub enum Numeral {
    /// The digits of the integer and fraction parts, in order, and the power
    /// of ten that scales the number they write: the written exponent less
    /// the number of fraction digits.
    Finite { digits: Seq<u8>, exponent: int },
    /// One of the words for infinity.
    Infinite,
}

/// The exponent that `text` writes: an optional sign and at least one digit,
/// to the end of the text.
pub open spec fn written_exponent(text: Seq<u8>) -> Option<int> {
    let start = sign_len(text);
    if start < text.len() && digits_end(text, start) == text.len() {
        let size = digits_value(text.skip(start)) as int;
        Some(
            if is_negative(text) {
                -size
            } else {
                size
            },
        )
    } else {
        None
    }
}

/// The finite number that `text` writes: digits with an optional point among
/// them, before them or after them, then an optional exponent, which is `e` or
/// `E` and what [`written_exponent`] reads. At least one digit stands beside
/// the point.
pub open spec fn written_number(text: Seq<u8>) -> Option<Numeral> {
    let int_end = digits_end(text, 0);
    let has_point = int_end < text.len() && text[int_end] == POINT;
    let frac_start = if has_point {
        int_end + 1
    } else {
        int_end
    };
    let frac_end = digits_end(text, frac_start);
    let digits = text.subrange(0, int_end) + text.subrange(frac_start, frac_end);
    let frac_len = frac_end - frac_start;
    if digits.len() == 0 {
        None
    } else if frac_end == text.len() {
        Some(Numeral::Finite { digits, exponent: -frac_len })
    } else if text[frac_end] == LOWER_E || text[frac_end] == UPPER_E {
        match written_exponent(text.skip(frac_end + 1)) {
            Some(exponent) => Some(Numeral::Finite { digits, exponent: exponent - frac_len }),
            None => None,
        }
    } else {
        None
    }
}

/// The number that `text` writes after its sign, if it writes one: a word for
/// infinity or a finite number. Anything else, the words for "not a number"
/// among it, writes none.
pub open spec fn numeral(text: Seq<u8>) -> Option<Numeral> {
    let body = text.skip(sign_len(text));
    if is_infinity_word(body) {
        Some(Numeral::Infinite)
    } else {
        written_number(body)
    }
}

/// The number that `digits` write, times ten to the power `shift`, rounded
/// down.
pub open spec fn scaled(digits: Seq<u8>, shift: int) -> nat {
    if shift >= 0 {
        digits_value(digits) * pow10(shift as nat)
    } else {
        digits_value(digits) / pow10((-shift) as nat)
    }
}

/// The number that `digits` and `exponent` write, in millionths, rounded
/// down.
pub open spec fn millionths(digits: Seq<u8>, exponent: int) -> nat {
    scaled(digits, exponent + 6)
}

/// The fraction that `text` writes, in millionths and clamped to the range
/// from zero to one; `None` where `text` writes no number.
pub open spec fn clamped_fraction(text: Seq<u8>) -> Option<u32> {
    match numeral(text) {
        Some(Numeral::Finite { digits, exponent }) => Some(
            clamp_setpoint(
                if is_negative(text) {
                    -millionths(digits, exponent)
                } else {
                    millionths(digits, exponent) as int
                },
            ) as u32,
        ),
        Some(Numeral::Infinite) => Some(
            if is_negative(text) {
                0
            } else {
                FULL_POWER
            },
        ),
        None => None,
    }
}

/// Every byte of `text` from `from` up to `to` is a digit.
spec fn all_digits(text: Seq<u8>, from: int, to: int) -> bool {
    forall|i: int| from <= i < to ==> is_digit(#[trigger] text[i])
}

/// `x`, or `cap` where `x` is above it.
spec fn capped(x: nat, cap: nat) -> nat {
    if x > cap {
        cap
    } else {
        x
    }
}

/// Where every byte from `from` up to `to` is a digit, the run that starts at
/// `from` ends where the run that starts at `to` ends.
proof fn lemma_digits_end_skips_digits(text: Seq<u8>, from: int, to: int)
    requires
        0 <= from <= to <= text.len(),
        all_digits(text, from, to),
    ensures
        digits_end(text, from) == digits_end(text, to),
    decreases to - from,
{
    if from < to {
        assert(is_digit(text[from]));
        lemma_digits_end_skips_digits(text, from + 1, to);
    }
}

proof fn lemma_pow10_grows(a: nat, b: nat)
    requires
        a <= b,
    ensures
        1 <= pow10(a) <= pow10(b),
    decreases b,
{
    if b == 0 {
    } else if a == b {
        lemma_pow10_grows((a - 1) as nat, (b - 1) as nat);
    } else {
        lemma_pow10_grows(a, (b - 1) as nat);
    }
}

/// A run of `n` digits writes a number below ten to the power `n`.
proof fn lemma_digits_value_bound(digits: Seq<u8>)
    requires
        all_digits(digits, 0, digits.len() as int),
    ensures
        digits_value(digits) < pow10(digits.len()),
    decreases digits.len(),
{
    if digits.len() > 0 {
        let front = digits.drop_last();
        assert(all_digits(front, 0, front.len() as int)) by {
            assert forall|i: int| 0 <= i < front.len() implies is_digit(#[trigger] front[i]) by {
                assert(front[i] == digits[i]);
            }
        }
        lemma_digits_value_bound(front);
        assert(is_digit(digits[digits.len() - 1]));
    }
}

/// Dividing by ten to the power `k` takes the last `k` digits off a run.
proof fn lemma_digits_value_shift_right(digits: Seq<u8>, k: nat)
    requires
        all_digits(digits, 0, digits.len() as int),
        k <= digits.len(),
    ensures
        digits_value(digits) / pow10(k) == digits_value(digits.take(digits.len() - k)),
    decreases k,
{
    if k == 0 {
        assert(digits.take(digits.len() as int) =~= digits);
        assert(pow10(0) == 1);
    } else {
        let front = digits.drop_last();
        assert(all_digits(front, 0, front.len() as int)) by {
            assert forall|i: int| 0 <= i < front.len() implies is_digit(#[trigger] front[i]) by {
                assert(front[i] == digits[i]);
            }
        }
        lemma_digits_value_shift_right(front, (k - 1) as nat);
        assert(front.take(front.len() - (k - 1)) =~= digits.take(digits.len() - k));
        assert(is_digit(digits[digits.len() - 1]));
        let v = digits_value(digits) as int;
        let w = digits_value(front) as int;
        let p = pow10((k - 1) as nat) as int;
        lemma_pow10_grows(0, (k - 1) as nat);
        assert(v / 10 == w);
        assert(pow10(k) == 10 * p);
        assert(v / (10 * p) == (v / 10) / p) by (nonlinear_arith)
            requires
                v >= 0,
                p > 0,
        ;
        assert(digits_value(digits) / pow10(k) == w / p);
    }
}

/// The byte is a digit.
fn is_digit_byte(b: u8) -> (yes: bool)
    ensures
        yes == is_digit(b),
{
    DIGIT_0 <= b && b <= DIGIT_9
}

/// Finds the end of the digits that start at `from`.
fn scan_digits(text: &[u8], from: usize) -> (end: usize)
    requires
        from <= text@.len(),
    ensures
        end == digits_end(text@, from as int),
        from <= end <= text@.len(),
        all_digits(text@, from as int, end as int),
{
    let mut end: usize = from;
    while end < text.len() && is_digit_byte(text[end])
        invariant
            from <= end <= text@.len(),
            all_digits(text@, from as int, end as int),
        decreases text@.len() - end,
    {
        end += 1;
    }
    proof {
        lemma_digits_end_skips_digits(text@, from as int, end as int);
    }
    end
}

/// Reads the digits of `text` from `from` up to `to` onto the number in
/// `acc`, which stands for the digits in `before`, and stops counting at
/// `cap`.
fn fold_digits(
    text: &[u8],
    from: usize,
    to: usize,
    acc: u128,
    cap: u128,
    Ghost(before): Ghost<Seq<u8>>,
) -> (value: u128)
    requires
        from <= to <= text@.len(),
        all_digits(text@, from as int, to as int),
        cap <= 0x1_0000_0000_0000_0000_0000_0000_0000,
        acc == capped(digits_value(before), cap as nat),
    ensures
        value == capped(digits_value(before + text@.subrange(from as int, to as int)), cap as nat),
{
    let mut value: u128 = acc;
    let mut i: usize = from;
    assert(before + text@.subrange(from as int, from as int) =~= before);
    while i < to
        invariant
            from <= i <= to <= text@.len(),
            all_digits(text@, from as int, to as int),
            cap <= 0x1_0000_0000_0000_0000_0000_0000_0000,
            value == capped(
                digits_value(before + text@.subrange(from as int, i as int)),
                cap as nat,
            ),
        decreases to - i,
    {
        let digit: u128 = (text[i] - DIGIT_0) as u128;
        proof {
            let longer = before + text@.subrange(from as int, i + 1);
            assert(longer.drop_last() =~= before + text@.subrange(from as int, i as int));
            assert(longer.last() == text@[i as int]);
            assert(is_digit(text@[i as int]));
        }
        let next: u128 = value * 10 + digit;
        value = if next > cap {
            cap
        } else {
            next
        };
        i += 1;
    }
    value
}

/// Bound at which a written exponent stops being counted. It is larger than
/// any text is long, so an exponent at the bound outweighs every digit.
const EXPONENT_CAP: u128 = 1_000_000_000_000_000_000_000_000_000_000;

/// `e` brought into the range from `-EXPONENT_CAP` to `EXPONENT_CAP`.
spec fn clipped(e: int) -> int {
    if e > EXPONENT_CAP {
        EXPONENT_CAP as int
    } else if e < -EXPONENT_CAP {
        -EXPONENT_CAP
    } else {
        e
    }
}

/// Compares `text` with `word` without regard to case.
fn spells_word(text: &[u8], word: &[u8]) -> (yes: bool)
    ensures
        yes == spells(text@, word@),
{
    if text.len() != word.len() {
        return false;
    }
    let mut i: usize = 0;
    while i < text.len()
        invariant
            i <= text@.len() == word@.len(),
            forall|j: int| 0 <= j < i ==> lower(#[trigger] text@[j]) == word@[j],
        decreases text@.len() - i,
    {
        let b: u8 = text[i];
        let folded: u8 = if UPPER_A <= b && b <= UPPER_Z {
            b + 32
        } else {
            b
        };
        if folded != word[i] {
            assert(lower(text@[i as int]) != word@[i as int]);
            return false;
        }
        i += 1;
    }
    true
}

/// Reads a written exponent, clipped at `EXPONENT_CAP`.
fn read_exponent(text: &[u8]) -> (exponent: Option<i128>)
    ensures
        match written_exponent(text@) {
            Some(e) => exponent == Some(clipped(e) as i128),
            None => exponent is None,
        },
{
    let len = text.len();
    let signed = len > 0 && (text[0] == PLUS || text[0] == MINUS);
    let negative = len > 0 && text[0] == MINUS;
    let start: usize = if signed {
        1
    } else {
        0
    };
    let end = scan_digits(text, start);
    if start < len && end == len {
        let size = fold_digits(text, start, len, 0, EXPONENT_CAP, Ghost(Seq::empty()));
        proof {
            assert(Seq::<u8>::empty() + text@.subrange(start as int, len as int) =~= text@.skip(
                start as int,
            ));
        }
        Some(
            if negative {
                -(size as i128)
            } else {
                size as i128
            },
        )
    } else {
        None
    }
}

/// Computes the number written by the digits of `text` before `int_end` and
/// from `frac_start` up to `frac_end`, times ten to the power `exact`, rounded
/// down and capped at `FULL_POWER`. `shift` is `exact`, or stands for one so
/// large, or so far below zero, that only its sign counts.
fn scale_digits(
    text: &[u8],
    int_end: usize,
    frac_start: usize,
    frac_end: usize,
    shift: i128,
    Ghost(exact): Ghost<int>,
) -> (value: u32)
    requires
        int_end <= frac_start <= frac_end <= text@.len(),
        all_digits(text@, 0, int_end as int),
        all_digits(text@, frac_start as int, frac_end as int),
        int_end + (frac_end - frac_start) >= 1,
        -2 * EXPONENT_CAP <= shift <= 2 * EXPONENT_CAP,
        shift == exact || (shift >= 7 && exact >= shift) || (-shift >= int_end + (frac_end
            - frac_start) && exact <= shift),
    ensures
        value == capped(
            scaled(
                text@.subrange(0, int_end as int) + text@.subrange(
                    frac_start as int,
                    frac_end as int,
                ),
                exact,
            ),
            FULL_POWER as nat,
        ),
{
    let ghost whole = text@.subrange(0, int_end as int);
    let ghost digits = whole + text@.subrange(frac_start as int, frac_end as int);
    let count: usize = int_end + (frac_end - frac_start);
    let cap: u128 = FULL_POWER as u128;
    proof {
        assert(all_digits(digits, 0, digits.len() as int)) by {
            assert forall|i: int| 0 <= i < digits.len() implies is_digit(#[trigger] digits[i]) by {
                if i < int_end {
                    assert(digits[i] == text@[i]);
                } else {
                    assert(digits[i] == text@[frac_start + (i - int_end)]);
                }
            }
        }
        lemma_digits_value_bound(digits);
    }
    if shift >= 0 {
        let int_value = fold_digits(text, 0, int_end, 0, cap, Ghost(Seq::empty()));
        assert(Seq::<u8>::empty() + whole =~= whole);
        let all_value = fold_digits(text, frac_start, frac_end, int_value, cap, Ghost(whole));
        let ghost number = digits_value(digits);
        if shift >= 7 {
            proof {
                reveal_with_fuel(pow10, 8);
                lemma_pow10_grows(7, exact as nat);
                let p = pow10(exact as nat);
                if number == 0 {
                    assert(number * p == 0) by (nonlinear_arith)
                        requires
                            number == 0,
                    ;
                } else {
                    assert(number * p >= p) by (nonlinear_arith)
                        requires
                            number >= 1,
                            p >= 0,
                    ;
                }
            }
            if all_value == 0 {
                0
            } else {
                FULL_POWER
            }
        } else {
            let mut value: u128 = all_value;
            let mut done: i128 = 0;
            proof {
                assert(number * pow10(0) == number) by (nonlinear_arith)
                    requires
                        pow10(0) == 1,
                ;
            }
            while done < shift
                invariant
                    0 <= done <= shift < 7,
                    cap == FULL_POWER,
                    value == capped(number * pow10(done as nat), cap as nat),
                decreases shift - done,
            {
                proof {
                    let p = pow10(done as nat);
                    assert(pow10((done + 1) as nat) == 10 * p);
                    assert(number * (10 * p) == (number * p) * 10) by (nonlinear_arith);
                }
                let next: u128 = value * 10;
                value = if next > cap {
                    cap
                } else {
                    next
                };
                done += 1;
            }
            value as u32
        }
    } else {
        let dropped: i128 = -shift;
        if dropped >= count as i128 {
            proof {
                lemma_pow10_grows(digits.len(), (-exact) as nat);
                let number = digits_value(digits) as int;
                let p = pow10((-exact) as nat) as int;
                assert(number / p == 0) by (nonlinear_arith)
                    requires
                        0 <= number < p,
                ;
            }
            0
        } else {
            let keep: usize = count - dropped as usize;
            proof {
                lemma_digits_value_shift_right(digits, dropped as nat);
            }
            if keep <= int_end {
                assert(Seq::<u8>::empty() + text@.subrange(0, keep as int) =~= digits.take(
                    keep as int,
                ));
                fold_digits(text, 0, keep, 0, cap, Ghost(Seq::empty())) as u32
            } else {
                let int_value = fold_digits(text, 0, int_end, 0, cap, Ghost(Seq::empty()));
                assert(Seq::<u8>::empty() + whole =~= whole);
                let frac_keep: usize = frac_start + (keep - int_end);
                assert(whole + text@.subrange(frac_start as int, frac_keep as int) =~= digits.take(
                    keep as int,
                ));
                fold_digits(text, frac_start, frac_keep, int_value, cap, Ghost(whole)) as u32
            }
        }
    }
}

/// Reads a finite number without sign, in millionths, rounded down and
/// capped at `FULL_POWER`.
fn read_number(text: &[u8]) -> (value: Option<u32>)
    ensures
        match written_number(text@) {
            Some(Numeral::Finite { digits, exponent }) => value == Some(
                capped(millionths(digits, exponent), FULL_POWER as nat) as u32,
            ),
            _ => value is None,
        },
{
    let len = text.len();
    let int_end = scan_digits(text, 0);
    let has_point = int_end < len && text[int_end] == POINT;
    let frac_start: usize = if has_point {
        int_end + 1
    } else {
        int_end
    };
    let frac_end = scan_digits(text, frac_start);
    let frac_len: usize = frac_end - frac_start;
    if int_end == 0 && frac_len == 0 {
        return None;
    }
    if frac_end == len {
        let shift: i128 = 6 - frac_len as i128;
        Some(scale_digits(text, int_end, frac_start, frac_end, shift, Ghost(shift as int)))
    } else if text[frac_end] == LOWER_E || text[frac_end] == UPPER_E {
        let tail = slice_subrange(text, frac_end + 1, len);
        assert(tail@ =~= text@.skip(frac_end + 1));
        match read_exponent(tail) {
            Some(exponent) => {
                let shift: i128 = exponent - frac_len as i128 + 6;
                let ghost exact = written_exponent(tail@)->0 - frac_len + 6;
                Some(scale_digits(text, int_end, frac_start, frac_end, shift, Ghost(exact)))
            },
            None => None,
        }
    } else {
        None
    }
}

/// Reads a fraction from decimal text: the number that the text writes, in
/// millionths, rounded down and clamped to the range from zero to one.
///
/// The text is an optional sign followed by a word for infinity, `inf` or
/// `infinity` in any case, or by digits with an optional point and an
/// optional exponent, as in `1`, `.5`, `5.`, `0.25` or `25e-2`. Text around
/// the number, spaces among it, is not skipped. `None` is returned for
/// anything else.
pub fn parse_fraction(text: &[u8]) -> (value: Option<u32>)
    ensures
        value == clamped_fraction(text@),
        value matches Some(v) ==> v <= FULL_POWER,
{
    let len = text.len();
    let signed = len > 0 && (text[0] == PLUS || text[0] == MINUS);
    let negative = len > 0 && text[0] == MINUS;
    let start: usize = if signed {
        1
    } else {
        0
    };
    let body = slice_subrange(text, start, len);
    assert(body@ =~= text@.skip(start as int));
    if spells_word(body, "inf".as_bytes()) || spells_word(body, "infinity".as_bytes()) {
        return Some(
            if negative {
                0
            } else {
                FULL_POWER
            },
        );
    }
    match read_number(body) {
        Some(magnitude) => Some(
            if negative {
                0
            } else {
                magnitude
            },
        ),
        None => None,
    }
}

/// The digits that write `n`, without leading zeros; zero is written `0`.
pub open spec fn decimal_digits(n: nat) -> Seq<u8>
    decreases n,
{
    if n < 10 {
        seq![(DIGIT_0 + n) as u8]
    } else {
        decimal_digits(n / 10).push((DIGIT_0 + n % 10) as u8)
    }
}

/// The last `width` digits of `n`, with zeros in front where `n` has fewer.
pub open spec fn padded_digits(n: nat, width: nat) -> Seq<u8>
    decreases width,
{
    if width == 0 {
        Seq::empty()
    } else {
        padded_digits(n / 10, (width - 1) as nat).push((DIGIT_0 + n % 10) as u8)
    }
}

/// A number of `places` fraction digits, given as the count `units` of its
/// last place: the integer part, a point, and `places` digits.
pub open spec fn fixed_text(units: nat, places: nat) -> Seq<u8> {
    decimal_digits(units / pow10(places)) + seq![POINT] + padded_digits(
        units % pow10(places),
        places,
    )
}

/// `n / unit` rounded to the nearest integer, halves to the even neighbour.
pub open spec fn round_half_even(n: nat, unit: nat) -> nat
    recommends
        unit > 0,
{
    let quotient = n / unit;
    let rest = n % unit;
    if 2 * rest > unit || (2 * rest == unit && quotient % 2 == 1) {
        quotient + 1
    } else {
        quotient
    }
}

/// Rounds `n / unit` to the nearest integer, halves to the even neighbour.
pub fn rounded(n: u32, unit: u32) -> (nearest: u32)
    requires
        unit > 0,
    ensures
        nearest == round_half_even(n as nat, unit as nat),
{
    let quotient: u32 = n / unit;
    let rest: u64 = (n % unit) as u64;
    if 2 * rest > unit as u64 || (2 * rest == unit as u64 && quotient % 2 == 1) {
        assert(quotient <= n / 2) by (nonlinear_arith)
            requires
                quotient == n / unit,
                unit >= 2,
        ;
        quotient + 1
    } else {
        quotient
    }
}

/// Appends the digits of `n` to `out`.
pub fn push_decimal(out: &mut Vec<u8>, n: u32)
    ensures
        final(out)@ == old(out)@ + decimal_digits(n as nat),
    decreases n,
{
    if n >= 10 {
        push_decimal(out, n / 10);
    }
    out.push(DIGIT_0 + (n % 10) as u8);
}

/// Appends the last `width` digits of `n` to `out`, with zeros in front
/// where `n` has fewer.
pub fn push_padded(out: &mut Vec<u8>, n: u32, width: u32)
    ensures
        final(out)@ == old(out)@ + padded_digits(n as nat, width as nat),
    decreases width,
{
    if width > 0 {
        push_padded(out, n / 10, width - 1);
        out.push(DIGIT_0 + (n % 10) as u8);
    }
}

/// Appends to `out` the number of `places` fraction digits that counts
/// `units` of its last place.
pub fn push_fixed(out: &mut Vec<u8>, units: u32, places: u32)
    requires
        places <= 9,
    ensures
        final(out)@ == old(out)@ + fixed_text(units as nat, places as nat),
{
    let mut scale: u32 = 1;
    let mut i: u32 = 0;
    while i < places
        invariant
            i <= places <= 9,
            scale == pow10(i as nat),
        decreases places - i,
    {
        proof {
            reveal_with_fuel(pow10, 10);
            lemma_pow10_grows(i as nat, 8);
        }
        scale = scale * 10;
        i += 1;
    }
    proof {
        lemma_pow10_grows(0, places as nat);
    }
    push_decimal(out, units / scale);
    out.push(POINT);
    push_padded(out, units % scale, places);
}

} // verus!
