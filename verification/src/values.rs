//! The values a record is made of: unsigned integers, booleans and
//! floating-point literals, read from text.

use vstd::prelude::*;

use crate::error::{BoolError, FloatError, FloatErrorKind, IntError, IntErrorKind};
use crate::text::{chars_of, decimal, digit_char, is_whitespace, lemma_decimal_digits, same_text};

verus! {

pub open spec fn is_digit(c: char) -> bool {
    '0' <= c && c <= '9'
}

pub open spec fn digit_value(c: char) -> int {
    c as int - '0' as int
}

/// Reads `s` left to right as decimal digits into a `u32`: the first
/// character that is not a digit gives `InvalidDigit`, and the first digit
/// that makes the number exceed `u32::MAX` gives `PosOverflow`.
pub open spec fn scan_digits(s: Seq<char>) -> Result<int, IntErrorKind>
    decreases s.len(),
{
    if s.len() == 0 {
        Ok(0)
    } else {
        match scan_digits(s.drop_last()) {
            Err(k) => Err(k),
            Ok(v) => if !is_digit(s.last()) {
                Err(IntErrorKind::InvalidDigit)
            } else if v * 10 + digit_value(s.last()) > u32::MAX {
                Err(IntErrorKind::PosOverflow)
            } else {
                Ok(v * 10 + digit_value(s.last()))
            },
        }
    }
}

/// What `u32::from_str` makes of `s`: an optional `+`, then decimal digits.
pub open spec fn u32_from_text(s: Seq<char>) -> Result<u32, IntErrorKind> {
    if s.len() == 0 {
        Err(IntErrorKind::Empty)
    } else if s.len() == 1 && (s[0] == '+' || s[0] == '-') {
        Err(IntErrorKind::InvalidDigit)
    } else {
        let digits = if s[0] == '+' { s.drop_first() } else { s };
        match scan_digits(digits) {
            Ok(v) => Ok(v as u32),
            Err(k) => Err(k),
        }
    }
}

/// What `bool::from_str` makes of `s`: exactly `true` or `false`.
pub open spec fn bool_from_text(s: Seq<char>) -> Option<bool> {
    if s == "true"@ {
        Some(true)
    } else if s == "false"@ {
        Some(false)
    } else {
        None
    }
}

pub open spec fn is_exp_mark(c: char) -> bool {
    c == 'e' || c == 'E'
}

pub open spec fn without_sign(s: Seq<char>) -> Seq<char> {
    if s.len() > 0 && (s[0] == '+' || s[0] == '-') {
        s.drop_first()
    } else {
        s
    }
}

/// Digits with at most one `.` among them, and at least one digit.
pub open spec fn is_mantissa(m: Seq<char>) -> bool {
    &&& forall|i: int| 0 <= i < m.len() ==> is_digit(#[trigger] m[i]) || m[i] == '.'
    &&& forall|i: int, j: int| 0 <= i < j < m.len() && #[trigger] m[i] == '.' ==> #[trigger] m[j] != '.'
    &&& exists|i: int| 0 <= i < m.len() && is_digit(#[trigger] m[i])
}

/// An optional sign, then at least one digit.
pub open spec fn is_exponent(x: Seq<char>) -> bool {
    let d = without_sign(x);
    &&& d.len() > 0
    &&& forall|i: int| 0 <= i < d.len() ==> is_digit(#[trigger] d[i])
}

pub open spec fn is_decimal_literal(b: Seq<char>) -> bool {
    ||| is_mantissa(b)
    ||| exists|k: int|
        0 <= k < b.len() && is_exp_mark(#[trigger] b[k]) && is_mantissa(b.take(k)) && is_exponent(
            b.skip(k + 1),
        )
}

pub open spec fn either(c: char, lower: char, upper: char) -> bool {
    c == lower || c == upper
}

/// `inf`, `infinity` or `nan`, in any mix of letter case.
pub open spec fn is_special_literal(b: Seq<char>) -> bool {
    ||| (b.len() == 3 && either(b[0], 'i', 'I') && either(b[1], 'n', 'N') && either(b[2], 'f', 'F'))
    ||| (b.len() == 8 && either(b[0], 'i', 'I') && either(b[1], 'n', 'N') && either(b[2], 'f', 'F')
        && either(b[3], 'i', 'I') && either(b[4], 'n', 'N') && either(b[5], 'i', 'I') && either(
        b[6],
        't',
        'T',
    ) && either(b[7], 'y', 'Y'))
    ||| (b.len() == 3 && either(b[0], 'n', 'N') && either(b[1], 'a', 'A') && either(b[2], 'n', 'N'))
}

/// The texts that `f64::from_str` accepts, as its documentation gives the
/// grammar: an optional sign, then `inf`, `infinity`, `nan` or a decimal
/// number with an optional exponent, letters in any case.
pub open spec fn is_float_literal(s: Seq<char>) -> bool {
    is_special_literal(without_sign(s)) || is_decimal_literal(without_sign(s))
}

/// What `f64::from_str` reports of `s`, without the value itself.
pub open spec fn float_check(s: Seq<char>) -> Result<(), FloatErrorKind> {
    if s.len() == 0 {
        Err(FloatErrorKind::Empty)
    } else if is_float_literal(s) {
        Ok(())
    } else {
        Err(FloatErrorKind::Invalid)
    }
}

/// Once reading the digits has failed, more characters do not change the error.
pub proof fn lemma_scan_error_persists(s: Seq<char>, j: int)
    requires
        0 <= j <= s.len(),
        scan_digits(s.take(j)) is Err,
    ensures
        scan_digits(s) == scan_digits(s.take(j)),
    decreases s.len() - j,
{
    if j == s.len() {
        assert(s.take(j) =~= s);
    } else {
        let t = s.drop_last();
        assert(t.take(j) =~= s.take(j));
        lemma_scan_error_persists(t, j);
    }
}

/// The decimal notation of a `u32` reads back as that number.
pub proof fn lemma_decimal_reads_back(n: u32)
    ensures
        u32_from_text(decimal(n as nat)) == Ok::<u32, IntErrorKind>(n),
{
    lemma_scan_decimal(n as nat);
    lemma_decimal_digits(n as nat);
    let d = decimal(n as nat);
    assert('0' <= d[0] <= '9');
}

proof fn lemma_scan_decimal(n: nat)
    requires
        n <= u32::MAX,
    ensures
        scan_digits(decimal(n)) == Ok::<int, IntErrorKind>(n as int),
    decreases n,
{
    let d = decimal(n);
    if n < 10 {
        assert(d.drop_last() =~= Seq::<char>::empty());
        assert(scan_digits(d.drop_last()) == Ok::<int, IntErrorKind>(0));
        assert(digit_value(digit_char(n as int)) == n);
        assert(d.last() == digit_char(n as int));
        assert(is_digit(d.last()));
    } else {
        lemma_scan_decimal(n / 10);
        assert(d.drop_last() =~= decimal(n / 10));
        assert(scan_digits(d.drop_last()) == Ok::<int, IntErrorKind>((n / 10) as int));
        assert(digit_value(digit_char((n % 10) as int)) == n % 10);
        assert(d.last() == digit_char((n % 10) as int));
        assert(is_digit(d.last()));
        assert((n / 10) * 10 + n % 10 == n);
    }
}

/// A character that can occur in a floating-point literal.
pub open spec fn is_literal_char(c: char) -> bool {
    ||| is_digit(c)
    ||| c == '.' || c == '+' || c == '-' || c == 'e' || c == 'E'
    ||| c == 'i' || c == 'I' || c == 'n' || c == 'N' || c == 'f' || c == 'F'
    ||| c == 't' || c == 'T' || c == 'y' || c == 'Y' || c == 'a' || c == 'A'
}

/// A floating-point literal is not empty, and is made of characters that
/// can occur in one: neither commas nor whitespace.
pub proof fn lemma_float_literal_chars(s: Seq<char>)
    requires
        is_float_literal(s),
    ensures
        s.len() > 0,
        forall|i: int| 0 <= i < s.len() ==> is_literal_char(#[trigger] s[i]),
        forall|i: int| 0 <= i < s.len() ==> #[trigger] s[i] != ',' && !is_whitespace(s[i]),
{
    let b = without_sign(s);
    let off: int = if s.len() > 0 && (s[0] == '+' || s[0] == '-') { 1 } else { 0 };
    assert forall|i: int| 0 <= i < b.len() implies is_literal_char(#[trigger] b[i]) by {
        if is_special_literal(b) {
        } else if is_mantissa(b) {
            assert(is_digit(b[i]) || b[i] == '.');
        } else {
            let k = choose|k: int|
                0 <= k < b.len() && is_exp_mark(#[trigger] b[k]) && is_mantissa(b.take(k))
                    && is_exponent(b.skip(k + 1));
            if i < k {
                assert(b.take(k)[i] == b[i]);
                assert(is_digit(b.take(k)[i]) || b.take(k)[i] == '.');
            } else if i > k {
                let x = b.skip(k + 1);
                assert(x[i - k - 1] == b[i]);
                let x_off: int = if x.len() > 0 && (x[0] == '+' || x[0] == '-') { 1 } else { 0 };
                if i - k - 1 >= x_off {
                    assert(without_sign(x)[i - k - 1 - x_off] == x[i - k - 1]);
                    assert(is_digit(without_sign(x)[i - k - 1 - x_off]));
                }
            }
        }
    }
    assert(b.len() > 0) by {
        if !is_special_literal(b) && is_mantissa(b) {
        } else if !is_special_literal(b) {
            let k = choose|k: int|
                0 <= k < b.len() && is_exp_mark(#[trigger] b[k]) && is_mantissa(b.take(k))
                    && is_exponent(b.skip(k + 1));
        }
    }
    assert forall|i: int| 0 <= i < s.len() implies is_literal_char(#[trigger] s[i]) by {
        if i >= off {
            assert(s[i] == b[i - off]);
            assert(is_literal_char(b[i - off]));
        }
    }
    assert forall|i: int| 0 <= i < s.len() implies #[trigger] s[i] != ',' && !is_whitespace(s[i]) by {
        assert(is_literal_char(s[i]));
    }
}

/// Every character of `s` is a decimal digit.
pub open spec fn all_digits(s: Seq<char>) -> bool {
    forall|i: int| 0 <= i < s.len() ==> '0' <= #[trigger] s[i] && s[i] <= '9'
}

/// `s` is empty or a single `+` or `-`.
pub open spec fn optional_sign(s: Seq<char>) -> bool {
    s.len() == 0 || (s.len() == 1 && (s[0] == '+' || s[0] == '-'))
}

/// The text `sign digits [.] digits [e|E sign digits]`, the exponent present
/// when `mark` is a character.
pub open spec fn decimal_text(
    sign: Seq<char>,
    whole: Seq<char>,
    dot: bool,
    frac: Seq<char>,
    mark: Option<char>,
    exp_sign: Seq<char>,
    exp_digits: Seq<char>,
) -> Seq<char> {
    sign + whole + (if dot { seq!['.'] } else { Seq::<char>::empty() }) + frac + match mark {
        Some(c) => seq![c] + exp_sign + exp_digits,
        None => Seq::<char>::empty(),
    }
}

/// Every decimal number that `f64::from_str` accepts is accepted: an
/// optional sign, digits, an optional `.` and more digits (at least one
/// digit in all, on either side of the point, so `0.99`, `5.`, `.5` and
/// `12` alike), then optionally `e` or `E`, an optional sign and at least
/// one digit.
pub proof fn law_decimal_numbers_are_accepted(
    sign: Seq<char>,
    whole: Seq<char>,
    dot: bool,
    frac: Seq<char>,
    mark: Option<char>,
    exp_sign: Seq<char>,
    exp_digits: Seq<char>,
)
    requires
        optional_sign(sign),
        all_digits(whole),
        all_digits(frac),
        whole.len() + frac.len() > 0,
        mark matches Some(c) ==> (c == 'e' || c == 'E') && optional_sign(exp_sign) && all_digits(
            exp_digits,
        ) && exp_digits.len() > 0,
    ensures
        float_check(decimal_text(sign, whole, dot, frac, mark, exp_sign, exp_digits)) == Ok::<
            (),
            FloatErrorKind,
        >(()),
{
    let dp = if dot { seq!['.'] } else { Seq::<char>::empty() };
    let m = whole + dp + frac;
    let e = match mark {
        Some(c) => seq![c] + exp_sign + exp_digits,
        None => Seq::<char>::empty(),
    };
    let s = decimal_text(sign, whole, dot, frac, mark, exp_sign, exp_digits);
    assert(s =~= sign + (m + e));
    let b = without_sign(s);
    assert(m.len() > 0);
    assert(forall|i: int| 0 <= i < m.len() ==> is_digit(#[trigger] m[i]) || m[i] == '.') by {
        assert forall|i: int| 0 <= i < m.len() implies is_digit(#[trigger] m[i]) || m[i] == '.' by {
            if i < whole.len() {
                assert(m[i] == whole[i]);
            } else if i < whole.len() + dp.len() {
                assert(m[i] == '.');
            } else {
                assert(m[i] == frac[i - whole.len() - dp.len()]);
            }
        }
    }
    assert(b =~= m + e) by {
        if sign.len() == 1 {
            assert(s[0] == sign[0]);
            assert(s.drop_first() =~= m + e);
        } else {
            assert(s =~= m + e);
            assert(s[0] == m[0]);
        }
    }
    assert(is_mantissa(m)) by {
        assert forall|i: int, j: int| 0 <= i < j < m.len() && #[trigger] m[i] == '.' implies #[trigger] m[j] != '.' by {
            if i < whole.len() {
                assert(m[i] == whole[i]);
            }
            if j < whole.len() {
                assert(m[j] == whole[j]);
            } else if j >= whole.len() + dp.len() {
                assert(m[j] == frac[j - whole.len() - dp.len()]);
            } else {
                assert(i >= whole.len());
            }
        }
        if whole.len() > 0 {
            assert(m[0] == whole[0]);
            assert(is_digit(m[0]));
        } else {
            assert(m[dp.len() as int] == frac[0]);
            assert(is_digit(m[dp.len() as int]));
        }
    }
    match mark {
        None => {
            assert(b =~= m);
        },
        Some(c) => {
            let k = m.len() as int;
            assert(b[k] == c);
            assert(b.take(k) =~= m);
            let x = b.skip(k + 1);
            assert(x =~= exp_sign + exp_digits);
            assert(without_sign(x) =~= exp_digits) by {
                if exp_sign.len() == 1 {
                    assert(x[0] == exp_sign[0]);
                    assert(x.drop_first() =~= exp_digits);
                } else {
                    assert(x =~= exp_digits);
                    assert(x[0] == exp_digits[0]);
                }
            }
            assert(is_exponent(x));
            assert(is_exp_mark(b[k]));
        },
    }
    assert(s.len() > 0);
}

/// Texts that `f64::from_str` refuses are refused: the empty text, and any
/// text with a character that no floating-point literal holds (a comma, a
/// space, a letter other than those of `e`, `inf`, `infinity` and `nan`).
pub proof fn law_foreign_characters_are_refused(s: Seq<char>, i: int)
    requires
        0 <= i < s.len(),
        !is_literal_char(s[i]),
    ensures
        float_check(s) == Err::<(), FloatErrorKind>(FloatErrorKind::Invalid),
        float_check(Seq::<char>::empty()) == Err::<(), FloatErrorKind>(FloatErrorKind::Empty),
{
    if is_float_literal(s) {
        lemma_float_literal_chars(s);
    }
}

/// Reads `s` as `u32::from_str` does.
pub fn parse_u32(s: &str) -> (r: Result<u32, IntError>)
    ensures
        match r {
            Ok(v) => u32_from_text(s@) == Ok::<u32, IntErrorKind>(v),
            Err(e) => u32_from_text(s@) == Err::<u32, IntErrorKind>(e.kind),
        },
{
    let cs = chars_of(s);
    let n = cs.len();
    if n == 0 {
        return Err(IntError { kind: IntErrorKind::Empty });
    }
    if n == 1 && (cs[0] == '+' || cs[0] == '-') {
        return Err(IntError { kind: IntErrorKind::InvalidDigit });
    }
    let start: usize = if cs[0] == '+' { 1 } else { 0 };
    let ghost digits = if s@[0] == '+' { s@.drop_first() } else { s@ };
    assert(digits =~= s@.skip(start as int));
    let mut acc: u32 = 0;
    let mut i: usize = start;
    assert(digits.take(0) =~= Seq::<char>::empty());
    while i < n
        invariant
            n == cs@.len(),
            cs@ == s@,
            start <= i <= n,
            digits == s@.skip(start as int),
            s@.len() > 0,
            !(s@.len() == 1 && (s@[0] == '+' || s@[0] == '-')),
            digits == (if s@[0] == '+' { s@.drop_first() } else { s@ }),
            scan_digits(digits.take(i - start)) == Ok::<int, IntErrorKind>(acc as int),
        decreases n - i,
    {
        let c = cs[i];
        proof {
            let t = digits.take(i - start + 1);
            assert(t.drop_last() =~= digits.take(i - start));
            assert(t.last() == c);
        }
        if !('0' <= c && c <= '9') {
            proof {
                lemma_scan_error_persists(digits, i - start + 1);
            }
            return Err(IntError { kind: IntErrorKind::InvalidDigit });
        }
        let d = (c as u32) - ('0' as u32);
        if acc > 429496729 || (acc == 429496729 && d > 5) {
            proof {
                lemma_scan_error_persists(digits, i - start + 1);
            }
            return Err(IntError { kind: IntErrorKind::PosOverflow });
        }
        acc = acc * 10 + d;
        i = i + 1;
    }
    assert(digits.take(n - start) =~= digits);
    Ok(acc)
}

/// Reads `s` as `bool::from_str` does.
pub fn parse_bool(s: &str) -> (r: Result<bool, BoolError>)
    ensures
        match r {
            Ok(b) => bool_from_text(s@) == Some(b),
            Err(_) => bool_from_text(s@) is None,
        },
{
    if same_text(s, "true") {
        Ok(true)
    } else if same_text(s, "false") {
        Ok(false)
    } else {
        Err(BoolError)
    }
}

/// Whether `cs[lo..hi]` is a mantissa: digits, at most one `.`, at least one digit.
fn span_is_mantissa(cs: &Vec<char>, lo: usize, hi: usize) -> (r: bool)
    requires
        lo <= hi <= cs@.len(),
    ensures
        r == is_mantissa(cs@.subrange(lo as int, hi as int)),
{
    let ghost m = cs@.subrange(lo as int, hi as int);
    let mut i: usize = lo;
    let mut seen_dot = false;
    let mut seen_digit = false;
    while i < hi
        invariant
            lo <= i <= hi <= cs@.len(),
            m == cs@.subrange(lo as int, hi as int),
            forall|k: int| lo <= k < i ==> is_digit(#[trigger] cs@[k]) || cs@[k] == '.',
            seen_dot == exists|k: int| lo <= k < i && #[trigger] cs@[k] == '.',
            forall|k1: int, k2: int|
                lo <= k1 < k2 < i && #[trigger] cs@[k1] == '.' ==> #[trigger] cs@[k2] != '.',
            seen_digit == exists|k: int| lo <= k < i && is_digit(#[trigger] cs@[k]),
        decreases hi - i,
    {
        let c = cs[i];
        if c == '.' {
            if seen_dot {
                proof {
                    let k = choose|k: int| lo <= k < i && #[trigger] cs@[k] == '.';
                    assert(m[k - lo] == '.' && m[i - lo] == '.');
                }
                return false;
            }
            seen_dot = true;
        } else if '0' <= c && c <= '9' {
            seen_digit = true;
        } else {
            proof {
                assert(m[i - lo] == c);
            }
            return false;
        }
        i = i + 1;
    }
    proof {
        assert forall|j: int| 0 <= j < m.len() implies is_digit(#[trigger] m[j]) || m[j] == '.' by {
            assert(m[j] == cs@[lo + j]);
        }
        assert forall|j1: int, j2: int|
            0 <= j1 < j2 < m.len() && #[trigger] m[j1] == '.' implies #[trigger] m[j2] != '.' by {
            assert(m[j1] == cs@[lo + j1] && m[j2] == cs@[lo + j2]);
        }
        if seen_digit {
            let k = choose|k: int| lo <= k < i && is_digit(#[trigger] cs@[k]);
            assert(m[k - lo] == cs@[k]);
        }
        if exists|j: int| 0 <= j < m.len() && is_digit(#[trigger] m[j]) {
            let j = choose|j: int| 0 <= j < m.len() && is_digit(#[trigger] m[j]);
            assert(m[j] == cs@[lo + j]);
        }
    }
    seen_digit
}

/// Whether `cs[lo..hi]` is an exponent: an optional sign, then at least one digit.
fn span_is_exponent(cs: &Vec<char>, lo: usize, hi: usize) -> (r: bool)
    requires
        lo <= hi <= cs@.len(),
    ensures
        r == is_exponent(cs@.subrange(lo as int, hi as int)),
{
    let ghost x = cs@.subrange(lo as int, hi as int);
    let st: usize = if lo < hi && (cs[lo] == '+' || cs[lo] == '-') { lo + 1 } else { lo };
    let ghost d = without_sign(x);
    assert(d =~= cs@.subrange(st as int, hi as int));
    if st == hi {
        return false;
    }
    let mut i: usize = st;
    while i < hi
        invariant
            st <= i <= hi <= cs@.len(),
            lo <= st,
            d == cs@.subrange(st as int, hi as int),
            d == without_sign(cs@.subrange(lo as int, hi as int)),
            forall|k: int| st <= k < i ==> is_digit(#[trigger] cs@[k]),
        decreases hi - i,
    {
        let c = cs[i];
        if !('0' <= c && c <= '9') {
            assert(d[i - st] == c);
            assert(!is_digit(d[i - st]));
            return false;
        }
        i = i + 1;
    }
    assert forall|j: int| 0 <= j < d.len() implies is_digit(#[trigger] d[j]) by {
        assert(d[j] == cs@[st + j]);
    }
    true
}

/// Whether `cs[st..]` is `inf`, `infinity` or `nan`, in any letter case.
fn span_is_special(cs: &Vec<char>, st: usize) -> (r: bool)
    requires
        st <= cs@.len(),
    ensures
        r == is_special_literal(cs@.skip(st as int)),
{
    let ghost b = cs@.skip(st as int);
    let len = cs.len() - st;
    if len == 3 {
        assert(b[0] == cs@[st as int] && b[1] == cs@[st + 1] && b[2] == cs@[st + 2]);
        let c0 = cs[st];
        let c1 = cs[st + 1];
        let c2 = cs[st + 2];
        ((c0 == 'i' || c0 == 'I') && (c1 == 'n' || c1 == 'N') && (c2 == 'f' || c2 == 'F')) || (
        (c0 == 'n' || c0 == 'N') && (c1 == 'a' || c1 == 'A') && (c2 == 'n' || c2 == 'N'))
    } else if len == 8 {
        assert(b[0] == cs@[st as int] && b[1] == cs@[st + 1] && b[2] == cs@[st + 2] && b[3]
            == cs@[st + 3] && b[4] == cs@[st + 4] && b[5] == cs@[st + 5] && b[6] == cs@[st + 6]
            && b[7] == cs@[st + 7]);
        let c0 = cs[st];
        let c1 = cs[st + 1];
        let c2 = cs[st + 2];
        let c3 = cs[st + 3];
        let c4 = cs[st + 4];
        let c5 = cs[st + 5];
        let c6 = cs[st + 6];
        let c7 = cs[st + 7];
        (c0 == 'i' || c0 == 'I') && (c1 == 'n' || c1 == 'N') && (c2 == 'f' || c2 == 'F') && (c3
            == 'i' || c3 == 'I') && (c4 == 'n' || c4 == 'N') && (c5 == 'i' || c5 == 'I') && (c6
            == 't' || c6 == 'T') && (c7 == 'y' || c7 == 'Y')
    } else {
        false
    }
}

/// Whether `cs[st..]` is a decimal number with an optional exponent.
fn span_is_decimal(cs: &Vec<char>, st: usize) -> (r: bool)
    requires
        st <= cs@.len(),
    ensures
        r == is_decimal_literal(cs@.skip(st as int)),
{
    let ghost b = cs@.skip(st as int);
    let n = cs.len();
    let mut k: usize = st;
    while k < n && !(cs[k] == 'e' || cs[k] == 'E')
        invariant
            st <= k <= n == cs@.len(),
            forall|j: int| st <= j < k ==> !is_exp_mark(#[trigger] cs@[j]),
        decreases n - k,
    {
        k = k + 1;
    }
    assert(b =~= cs@.subrange(st as int, n as int));
    if k == n {
        let r = span_is_mantissa(cs, st, n);
        proof {
            if exists|k2: int|
                0 <= k2 < b.len() && is_exp_mark(#[trigger] b[k2]) && is_mantissa(b.take(k2))
                    && is_exponent(b.skip(k2 + 1)) {
                let k2 = choose|k2: int|
                    0 <= k2 < b.len() && is_exp_mark(#[trigger] b[k2]) && is_mantissa(b.take(k2))
                        && is_exponent(b.skip(k2 + 1));
                assert(b[k2] == cs@[st + k2]);
            }
        }
        r
    } else {
        let kb: usize = k - st;
        assert(b[kb as int] == cs@[k as int]);
        assert(b.take(kb as int) =~= cs@.subrange(st as int, k as int));
        assert(b.skip(kb + 1) =~= cs@.subrange(k + 1, n as int));
        let r = span_is_mantissa(cs, st, k) && span_is_exponent(cs, k + 1, n);
        proof {
            if is_mantissa(b) {
                assert(is_digit(b[kb as int]) || b[kb as int] == '.');
            }
            if exists|k2: int|
                0 <= k2 < b.len() && is_exp_mark(#[trigger] b[k2]) && is_mantissa(b.take(k2))
                    && is_exponent(b.skip(k2 + 1)) {
                let k2 = choose|k2: int|
                    0 <= k2 < b.len() && is_exp_mark(#[trigger] b[k2]) && is_mantissa(b.take(k2))
                        && is_exponent(b.skip(k2 + 1));
                if k2 < kb {
                    assert(b[k2] == cs@[st + k2]);
                } else if k2 > kb {
                    let t = b.take(k2);
                    assert(t[kb as int] == b[kb as int]);
                    assert(is_digit(t[kb as int]) || t[kb as int] == '.');
                }
            }
        }
        r
    }
}

/// Checks `s` as `f64::from_str` would, without computing the value.
pub fn check_float(s: &str) -> (r: Result<(), FloatError>)
    ensures
        match r {
            Ok(_) => float_check(s@) == Ok::<(), FloatErrorKind>(()),
            Err(e) => float_check(s@) == Err::<(), FloatErrorKind>(e.kind),
        },
{
    let cs = chars_of(s);
    let n = cs.len();
    if n == 0 {
        return Err(FloatError { kind: FloatErrorKind::Empty });
    }
    let st: usize = if cs[0] == '+' || cs[0] == '-' { 1 } else { 0 };
    assert(without_sign(s@) =~= cs@.skip(st as int));
    if span_is_special(&cs, st) || span_is_decimal(&cs, st) {
        Ok(())
    } else {
        Err(FloatError { kind: FloatErrorKind::Invalid })
    }
}

} // verus!
