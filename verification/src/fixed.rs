//! Fixed-point decimal numerals. Coordinates are held as integers counting
//! units of 1e-5, the finest precision the text format carries. This module
//! defines the numeral grammar (what a coordinate field may look like), a
//! verified parser, and a verified fixed-width formatter.

use crate::text::{
    all_digits, digit_val, first_non_ws, is_digit, is_digit_char, is_ws_char, last_non_ws,
    lemma_first_non_ws_bounds, lemma_first_non_ws_is, lemma_last_non_ws_above,
    lemma_last_non_ws_bounds, lemma_last_non_ws_is, scan_range_end, scan_range_start, trim_spec,
};
use vstd::prelude::*;

verus! {

/// Number of fixed-point units per 1.0: five decimal places.
pub const SCALE: i64 = 100_000;

/// Largest magnitude a parsed coordinate may have, in fixed-point units.
pub const FIXED_LIMIT: i64 = 100_000_000_000_000_000;

/// Ten to the `k`-th power.
pub open spec fn pow10(k: int) -> int
    decreases k,
{
    if k <= 0 {
        1
    } else {
        10 * pow10(k - 1)
    }
}

pub proof fn lemma_pow10_pos(k: int)
    ensures
        pow10(k) >= 1,
    decreases k,
{
    if k > 0 {
        lemma_pow10_pos(k - 1);
    }
}

pub proof fn lemma_pow10_adds(a: int, b: int)
    requires
        a >= 0,
        b >= 0,
    ensures
        pow10(a + b) == pow10(a) * pow10(b),
    decreases a,
{
    if a > 0 {
        lemma_pow10_adds(a - 1, b);
        assert(pow10(a + b) == 10 * pow10(a - 1 + b));
        assert(10 * (pow10(a - 1) * pow10(b)) == (10 * pow10(a - 1)) * pow10(b))
            by (nonlinear_arith);
    }
}

/// The value of a string of decimal digit characters.
pub open spec fn digits_val(s: Seq<char>) -> int
    decreases s.len(),
{
    if s.len() == 0 {
        0
    } else {
        digits_val(s.drop_last()) * 10 + digit_val(s.last())
    }
}

pub proof fn lemma_digits_val_nonneg(s: Seq<char>)
    requires
        all_digits(s),
    ensures
        digits_val(s) >= 0,
    decreases s.len(),
{
    if s.len() > 0 {
        assert(is_digit_char(s[s.len() - 1]));
        assert(all_digits(s.drop_last())) by {
            assert(forall|i: int|
                0 <= i < s.len() - 1 ==> #[trigger] s.drop_last()[i] == s[i]);
        }
        lemma_digits_val_nonneg(s.drop_last());
    }
}

/// Appending one digit multiplies the value by ten and adds the digit.
pub proof fn lemma_digits_val_push(s: Seq<char>, c: char)
    ensures
        digits_val(s.push(c)) == digits_val(s) * 10 + digit_val(c),
{
    assert(s.push(c).drop_last() =~= s);
    assert(s.push(c).last() == c);
}

/// A digit string is bounded by ten to its length.
pub proof fn lemma_digits_val_upper(s: Seq<char>)
    requires
        all_digits(s),
    ensures
        digits_val(s) < pow10(s.len() as int),
    decreases s.len(),
{
    if s.len() == 0 {
    } else {
        let p = s.drop_last();
        assert(all_digits(p)) by {
            assert(forall|i: int| 0 <= i < p.len() ==> #[trigger] p[i] == s[i]);
        }
        lemma_digits_val_upper(p);
        assert(is_digit_char(s.last()));
        assert(digit_val(s.last()) <= 9);
        assert(digits_val(p) * 10 <= (pow10(p.len() as int) - 1) * 10) by (nonlinear_arith)
            requires
                digits_val(p) <= pow10(p.len() as int) - 1,
        {
        }
    }
}

/// Index of the first `'.'` at or after `i`, or `s.len()` if none remains.
pub open spec fn dot_from(s: Seq<char>, i: int) -> int
    decreases s.len() - i,
{
    if i >= s.len() {
        s.len() as int
    } else if s[i] == '.' {
        i
    } else {
        dot_from(s, i + 1)
    }
}

pub proof fn lemma_dot_from_bounds(s: Seq<char>, i: int)
    requires
        0 <= i <= s.len(),
    ensures
        i <= dot_from(s, i) <= s.len(),
        dot_from(s, i) < s.len() ==> s[dot_from(s, i)] == '.',
        forall|j: int| i <= j < dot_from(s, i) ==> #[trigger] s[j] != '.',
    decreases s.len() - i,
{
    if i < s.len() && s[i] != '.' {
        lemma_dot_from_bounds(s, i + 1);
    }
}

/// The value of an unsigned numeral (digits with an optional decimal dot,
/// at most five fractional digits), in fixed-point units, or `None` if the
/// text is not such a numeral.
pub open spec fn unsigned_numeral_val(u: Seq<char>) -> Option<int> {
    let d = dot_from(u, 0);
    if d == u.len() {
        if u.len() >= 1 && all_digits(u) {
            Some(digits_val(u) * SCALE)
        } else {
            None
        }
    } else {
        let ip = u.subrange(0, d);
        let fp = u.subrange(d + 1, u.len() as int);
        if ip.len() + fp.len() >= 1 && all_digits(ip) && all_digits(fp) && fp.len() <= 5 {
            Some(digits_val(ip) * SCALE + digits_val(fp) * pow10(5 - fp.len()))
        } else {
            None
        }
    }
}

/// The value of a decimal numeral after trimming surrounding whitespace:
/// an optional sign followed by an unsigned numeral.
pub open spec fn numeral_val(s: Seq<char>) -> Option<int> {
    let t = trim_spec(s);
    if t.len() == 0 {
        None
    } else if t[0] == '-' {
        match unsigned_numeral_val(t.skip(1)) {
            Some(v) => Some(-v),
            None => None,
        }
    } else if t[0] == '+' {
        unsigned_numeral_val(t.skip(1))
    } else {
        unsigned_numeral_val(t)
    }
}

/// A numeral accepted as a coordinate: well-formed and within range.
pub open spec fn parse_fixed_num(s: Seq<char>) -> Option<int> {
    match numeral_val(s) {
        Some(v) => if -FIXED_LIMIT <= v <= FIXED_LIMIT {
            Some(v)
        } else {
            None
        },
        None => None,
    }
}

/// Exec result `r` holds exactly the spec-level optional value `m`.
pub open spec fn opt_val(r: Option<i64>, m: Option<int>) -> bool {
    match r {
        Some(v) => m == Some(v as int),
        None => m is None,
    }
}

/// Saturating cap used while accumulating integer-part digits.
const INT_CAP: i64 = 2_000_000_000_000;

/// Largest integer part a coordinate may have, in whole units.
const INT_LIMIT: i64 = 1_000_000_000_000;

spec fn min_cap(v: int) -> int {
    if v >= INT_CAP {
        INT_CAP as int
    } else {
        v
    }
}

/// Accumulate the digit-string value of `s[from..to]`, saturating at
/// `INT_CAP`; `None` if some character there is not a digit.
#[verifier::loop_isolation(false)]
fn digits_value_capped(s: &str, from: usize, to: usize) -> (r: Option<i64>)
    requires
        from <= to <= s@.len(),
    ensures
        ({
            let part = s@.subrange(from as int, to as int);
            match r {
                Some(v) => all_digits(part) && v == min_cap(digits_val(part)) && 0 <= v
                    <= INT_CAP,
                None => !all_digits(part),
            }
        }),
{
    let ghost part = s@.subrange(from as int, to as int);
    let mut acc: i64 = 0;
    let mut i = from;
    while i < to
        invariant
            from <= i <= to,
            all_digits(s@.subrange(from as int, i as int)),
            acc == min_cap(digits_val(s@.subrange(from as int, i as int))),
            0 <= acc <= INT_CAP,
        decreases to - i,
    {
        let ghost pref = s@.subrange(from as int, i as int);
        let c = s.get_char(i);
        if !is_digit(c) {
            proof {
                assert(part[i - from] == c);
            }
            return None;
        }
        let d = (c as u32) as i64;
        let d = d - 48;
        proof {
            let prefc = s@.subrange(from as int, i + 1);
            assert(prefc =~= pref.push(c));
            lemma_digits_val_push(pref, c);
            lemma_digits_val_nonneg(pref);
            assert(forall|j: int| 0 <= j < prefc.len() ==> is_digit_char(#[trigger] prefc[j]));
            if digits_val(pref) >= INT_CAP {
                assert(digits_val(pref) * 10 >= digits_val(pref)) by (nonlinear_arith)
                    requires
                        digits_val(pref) >= 0,
                {
                }
            }
        }
        let next = acc * 10 + d;
        acc = if next >= INT_CAP {
            INT_CAP
        } else {
            next
        };
        i = i + 1;
    }
    proof {
        assert(part =~= s@.subrange(from as int, to as int));
    }
    Some(acc)
}

/// Accumulate an at-most-five-digit fraction exactly.
#[verifier::loop_isolation(false)]
fn frac_value(s: &str, from: usize, to: usize) -> (r: Option<i64>)
    requires
        from <= to <= s@.len(),
        to - from <= 5,
    ensures
        ({
            let part = s@.subrange(from as int, to as int);
            match r {
                Some(v) => all_digits(part) && v == digits_val(part) && 0 <= v < 100_000,
                None => !all_digits(part),
            }
        }),
{
    let ghost part = s@.subrange(from as int, to as int);
    let mut acc: i64 = 0;
    let mut i = from;
    while i < to
        invariant
            from <= i <= to,
            all_digits(s@.subrange(from as int, i as int)),
            acc == digits_val(s@.subrange(from as int, i as int)),
            0 <= acc < pow10(i - from),
            pow10(i - from) <= 100_000,
        decreases to - i,
    {
        let ghost pref = s@.subrange(from as int, i as int);
        let c = s.get_char(i);
        if !is_digit(c) {
            proof {
                assert(part[i - from] == c);
            }
            return None;
        }
        let d = (c as u32) as i64;
        let d = d - 48;
        proof {
            let prefc = s@.subrange(from as int, i + 1);
            assert(prefc =~= pref.push(c));
            lemma_digits_val_push(pref, c);
            assert(forall|j: int| 0 <= j < prefc.len() ==> is_digit_char(#[trigger] prefc[j]));
            assert(pow10(i + 1 - from) == 10 * pow10(i - from));
            assert(acc * 10 + d < 10 * pow10(i - from)) by (nonlinear_arith)
                requires
                    0 <= acc < pow10(i - from),
                    d <= 9,
            {
            }
            assert(pow10(to - from) <= 100_000) by {
                lemma_pow10_le_5(to - from);
            }
            lemma_pow10_mono(i + 1 - from, to - from);
        }
        acc = acc * 10 + d;
        i = i + 1;
    }
    proof {
        assert(part =~= s@.subrange(from as int, to as int));
    }
    Some(acc)
}

proof fn lemma_pow10_le_5(k: int)
    requires
        k <= 5,
    ensures
        pow10(k) <= 100_000,
{
    reveal_with_fuel(pow10, 6);
}

pub proof fn lemma_pow10_mono(a: int, b: int)
    requires
        a <= b,
    ensures
        pow10(a) <= pow10(b),
    decreases b,
{
    if a < b && b > 0 {
        lemma_pow10_mono(a, b - 1);
        lemma_pow10_pos(b - 1);
    }
}

/// Absolute index of the first `'.'` in `s[from..to]`, or `to`.
#[verifier::loop_isolation(false)]
fn find_dot(s: &str, from: usize, to: usize) -> (r: usize)
    requires
        from <= to <= s@.len(),
    ensures
        r - from == dot_from(s@.subrange(from as int, to as int), 0),
        from <= r <= to,
{
    let ghost part = s@.subrange(from as int, to as int);
    let mut i = from;
    while i < to
        invariant
            from <= i <= to,
            dot_from(part, 0) == dot_from(part, i - from),
        decreases to - i,
    {
        proof {
            assert(part[i - from] == s@[i as int]);
        }
        if s.get_char(i) == '.' {
            return i;
        }
        i = i + 1;
    }
    i
}

/// Parse `s[from..to]` as a fixed-point coordinate numeral.
///
/// Accepts optional surrounding whitespace, an optional sign, digits with an
/// optional decimal dot and at most five fractional digits; rejects
/// anything else, and any value whose magnitude exceeds `FIXED_LIMIT`.
#[verifier::rlimit(60)]
pub fn parse_fixed_chunk(s: &str, from: usize, to: usize) -> (r: Option<i64>)
    requires
        from <= to <= s@.len(),
    ensures
        opt_val(r, parse_fixed_num(s@.subrange(from as int, to as int))),
{
    let ghost sub = s@.subrange(from as int, to as int);
    let a = scan_range_start(s, from, to);
    proof {
        lemma_first_non_ws_bounds(sub, 0);
    }
    if a == to {
        proof {
            lemma_last_non_ws_bounds(sub, sub.len() as int);
            assert(trim_spec(sub).len() == 0);
        }
        return None;
    }
    let b = scan_range_end(s, from, to);
    let ghost t = trim_spec(sub);
    proof {
        assert(!is_ws_char(sub[a - from]));
        lemma_last_non_ws_above(sub, sub.len() as int, a - from);
        lemma_last_non_ws_bounds(sub, sub.len() as int);
        assert(t =~= s@.subrange(a as int, b as int));
    }
    let c0 = s.get_char(a);
    let neg = c0 == '-';
    let a2 = if c0 == '-' || c0 == '+' {
        a + 1
    } else {
        a
    };
    let ghost u = s@.subrange(a2 as int, b as int);
    proof {
        assert(t[0] == s@[a as int]);
        if c0 == '-' || c0 == '+' {
            assert(u =~= t.skip(1));
        } else {
            assert(u =~= t);
        }
    }
    let dot = find_dot(s, a2, b);
    proof {
        lemma_dot_from_bounds(u, 0);
    }
    let int_to = dot;
    let frac_from = if dot < b {
        dot + 1
    } else {
        b
    };
    if dot == b {
        // No dot: the whole of `u` must be digits.
        if a2 == b {
            proof {
                assert(dot_from(u, 0) == u.len());
            }
            return None;
        }
        let iv = match digits_value_capped(s, a2, b) {
            Some(iv) => iv,
            None => {
                proof {
                    assert(s@.subrange(a2 as int, b as int) =~= u);
                }
                return None;
            },
        };
        proof {
            assert(s@.subrange(a2 as int, b as int) =~= u);
        }
        if iv > INT_LIMIT {
            proof {
                assert(digits_val(u) * SCALE > FIXED_LIMIT) by (nonlinear_arith)
                    requires
                        digits_val(u) > INT_LIMIT,
                {
                }
            }
            return None;
        }
        let v = iv * SCALE;
        if neg {
            Some(-v)
        } else {
            Some(v)
        }
    } else {
        let ghost ip = u.subrange(0, dot - a2);
        let ghost fp = u.subrange(dot - a2 + 1, u.len() as int);
        proof {
            assert(ip =~= s@.subrange(a2 as int, dot as int));
            assert(fp =~= s@.subrange(dot + 1, b as int));
        }
        if a2 == dot && dot + 1 == b {
            // A bare dot has no digits at all.
            return None;
        }
        if b - (dot + 1) > 5 {
            return None;
        }
        let iv = match digits_value_capped(s, a2, dot) {
            Some(iv) => iv,
            None => {
                return None;
            },
        };
        let fv = match frac_value(s, dot + 1, b) {
            Some(fv) => fv,
            None => {
                return None;
            },
        };
        let scale_pow = pow10_i64((5 - (b - (dot + 1))) as u32);
        proof {
            lemma_pow10_le_5(5 - fp.len());
            lemma_pow10_pos(5 - fp.len());
        }
        if iv > INT_LIMIT {
            proof {
                lemma_digits_val_nonneg(fp);
                assert(digits_val(ip) * SCALE + digits_val(fp) * pow10(5 - fp.len())
                    > FIXED_LIMIT) by (nonlinear_arith)
                    requires
                        digits_val(ip) > INT_LIMIT,
                        digits_val(fp) >= 0,
                        pow10(5 - fp.len()) >= 1,
                {
                }
            }
            return None;
        }
        proof {
            assert(fv * scale_pow < 100_000 * 100_000) by (nonlinear_arith)
                requires
                    0 <= fv < 100_000,
                    1 <= scale_pow <= 100_000,
                {
                }
            assert(fv * scale_pow >= 0) by (nonlinear_arith)
                requires
                    fv >= 0,
                    scale_pow >= 1,
                {
                }
            assert(iv * SCALE <= INT_LIMIT * SCALE) by (nonlinear_arith)
                requires
                    0 <= iv <= INT_LIMIT,
                {
                }
        }
        let v = iv * SCALE + fv * scale_pow;
        if v > FIXED_LIMIT {
            return None;
        }
        if neg {
            Some(-v)
        } else {
            Some(v)
        }
    }
}

/// Ten to the `k`-th power, as an `i64`.
pub fn pow10_i64(k: u32) -> (r: i64)
    requires
        k <= 17,
    ensures
        r == pow10(k as int),
        r >= 1,
{
    let mut r: i64 = 1;
    let mut i: u32 = 0;
    while i < k
        invariant
            0 <= i <= k <= 17,
            r == pow10(i as int),
            1 <= r,
        decreases k - i,
    {
        proof {
            lemma_pow10_mono(i as int + 1, 17);
            lemma_pow10_le_17();
        }
        r = r * 10;
        i = i + 1;
    }
    r
}

proof fn lemma_pow10_le_17()
    ensures
        pow10(17) == 100_000_000_000_000_000,
{
    reveal_with_fuel(pow10, 18);
}

} // verus!

verus! {

/// The decimal digit character for `d` (0 through 9).
pub open spec fn spec_digit_char(d: int) -> char {
    if d == 0 {
        '0'
    } else if d == 1 {
        '1'
    } else if d == 2 {
        '2'
    } else if d == 3 {
        '3'
    } else if d == 4 {
        '4'
    } else if d == 5 {
        '5'
    } else if d == 6 {
        '6'
    } else if d == 7 {
        '7'
    } else if d == 8 {
        '8'
    } else {
        '9'
    }
}

/// The decimal digit string of a non-negative number, without leading
/// zeros (a single `'0'` for zero).
pub open spec fn spec_digits(n: int) -> Seq<char>
    decreases n,
{
    if n < 10 {
        seq![spec_digit_char(n)]
    } else {
        spec_digits(n / 10).push(spec_digit_char(n % 10))
    }
}

pub open spec fn spec_spaces(k: int) -> Seq<char>
    decreases k,
{
    if k <= 0 {
        Seq::empty()
    } else {
        spec_spaces(k - 1).push(' ')
    }
}

pub open spec fn spec_zeroes(k: int) -> Seq<char>
    decreases k,
{
    if k <= 0 {
        Seq::empty()
    } else {
        spec_zeroes(k - 1).push('0')
    }
}

/// `s` right-aligned in a field of width `w` (wider fields are kept as is).
pub open spec fn spec_pad_left(s: Seq<char>, w: int) -> Seq<char> {
    spec_spaces(w - s.len()) + s
}

/// `s` left-aligned in a field of width `w`.
pub open spec fn spec_pad_right(s: Seq<char>, w: int) -> Seq<char> {
    s + spec_spaces(w - s.len())
}

/// `s` padded with leading zeros to width `w`.
pub open spec fn spec_zero_pad(s: Seq<char>, w: int) -> Seq<char> {
    spec_zeroes(w - s.len()) + s
}

pub open spec fn abs_val(v: int) -> int {
    if v < 0 {
        -v
    } else {
        v
    }
}

/// `v / p` rounded to the nearest integer, ties away from zero.
pub open spec fn round_away(v: int, p: int) -> int {
    if v >= 0 {
        (v + p / 2) / p
    } else {
        -((-v + p / 2) / p)
    }
}

/// The rendering of fixed-point `v` with `d` decimal places, right-aligned
/// in a field of width `w`: the value is rounded from five decimal places
/// to `d`, and the field widens if the number needs more room.
pub open spec fn fmt_fixed_spec(v: int, d: int, w: int) -> Seq<char> {
    let p = pow10(5 - d);
    let q = round_away(v, p);
    let mag = abs_val(q);
    let ip = mag / pow10(d);
    let fp = mag % pow10(d);
    let sign: Seq<char> = if q < 0 {
        seq!['-']
    } else {
        Seq::empty()
    };
    let body = sign + spec_digits(ip) + seq!['.'] + spec_zero_pad(spec_digits(fp), d);
    spec_pad_left(body, w)
}

pub proof fn lemma_spec_digits_props(n: int)
    requires
        n >= 0,
    ensures
        all_digits(spec_digits(n)),
        digits_val(spec_digits(n)) == n,
        spec_digits(n).len() >= 1,
    decreases n,
{
    if n < 10 {
        let s = spec_digits(n);
        assert(s == seq![spec_digit_char(n)]);
        assert(is_digit_char(spec_digit_char(n)));
        assert(digit_val(spec_digit_char(n)) == n);
        assert(s.len() == 1);
        assert(s.last() == spec_digit_char(n));
        assert(s.drop_last() =~= Seq::<char>::empty());
        assert(digits_val(s.drop_last()) == 0);
        assert(digits_val(s) == digits_val(s.drop_last()) * 10 + digit_val(s.last()));
        assert(digits_val(s) == n);
    } else {
        lemma_spec_digits_props(n / 10);
        lemma_digits_val_push(spec_digits(n / 10), spec_digit_char(n % 10));
        assert(is_digit_char(spec_digit_char(n % 10)));
        assert(digit_val(spec_digit_char(n % 10)) == n % 10);
        assert(n == 10 * (n / 10) + n % 10) by {
            vstd::arithmetic::div_mod::lemma_fundamental_div_mod(n, 10);
        }
        let s = spec_digits(n);
        assert(forall|i: int| 0 <= i < s.len() - 1 ==> s[i] == spec_digits(n / 10)[i]);
        assert(forall|i: int| 0 <= i < s.len() ==> is_digit_char(#[trigger] s[i]));
    }
}

pub proof fn lemma_spec_digits_len_le(n: int, k: int)
    requires
        0 <= n < pow10(k),
        k >= 1,
    ensures
        spec_digits(n).len() <= k,
    decreases k,
{
    if n >= 10 {
        assert(k >= 2) by {
            reveal_with_fuel(pow10, 2);
            if k == 1 {
            }
        }
        assert(n / 10 < pow10(k - 1)) by (nonlinear_arith)
            requires
                0 <= n < 10 * pow10(k - 1),
            {
            }
        lemma_spec_digits_len_le(n / 10, k - 1);
    }
}

/// A digit string carries no whitespace, sign, dot or newline.
pub proof fn lemma_digit_chars_plain(s: Seq<char>)
    requires
        all_digits(s),
    ensures
        forall|i: int| 0 <= i < s.len() ==> !is_ws_char(#[trigger] s[i]),
        forall|i: int| 0 <= i < s.len() ==> #[trigger] s[i] != '.',
        forall|i: int| 0 <= i < s.len() ==> #[trigger] s[i] != '-',
        forall|i: int| 0 <= i < s.len() ==> #[trigger] s[i] != '+',
        forall|i: int| 0 <= i < s.len() ==> #[trigger] s[i] != '\n',
{
    assert forall|i: int| 0 <= i < s.len() implies !is_ws_char(#[trigger] s[i]) && s[i] != '.'
        && s[i] != '-' && s[i] != '+' && s[i] != '\n' by {
        assert(is_digit_char(s[i]));
    }
}

/// A one-character string holding the digit `d`.
pub fn digit_str(d: u64) -> (r: &'static str)
    requires
        d < 10,
    ensures
        r@ =~= seq![spec_digit_char(d as int)],
{
    if d == 0 {
        proof {
            reveal_strlit("0");
        }
        "0"
    } else if d == 1 {
        proof {
            reveal_strlit("1");
        }
        "1"
    } else if d == 2 {
        proof {
            reveal_strlit("2");
        }
        "2"
    } else if d == 3 {
        proof {
            reveal_strlit("3");
        }
        "3"
    } else if d == 4 {
        proof {
            reveal_strlit("4");
        }
        "4"
    } else if d == 5 {
        proof {
            reveal_strlit("5");
        }
        "5"
    } else if d == 6 {
        proof {
            reveal_strlit("6");
        }
        "6"
    } else if d == 7 {
        proof {
            reveal_strlit("7");
        }
        "7"
    } else if d == 8 {
        proof {
            reveal_strlit("8");
        }
        "8"
    } else {
        proof {
            reveal_strlit("9");
        }
        "9"
    }
}

/// The decimal digit string of `n`.
pub fn u64_digits(n: u64) -> (r: String)
    ensures
        r@ == spec_digits(n as int),
    decreases n,
{
    if n < 10 {
        let r = String::from_str(digit_str(n));
        proof {
            assert(r@ =~= spec_digits(n as int));
        }
        r
    } else {
        let mut s = u64_digits(n / 10);
        s.append(digit_str(n % 10));
        proof {
            assert(s@ =~= spec_digits(n as int));
        }
        s
    }
}

/// Append `k` copies of the space character to `s`.
#[verifier::loop_isolation(false)]
pub fn push_spaces(s: &mut String, k: usize)
    ensures
        final(s)@ == old(s)@ + spec_spaces(k as int),
{
    let mut i: usize = 0;
    proof {
        assert(s@ =~= old(s)@ + spec_spaces(0));
    }
    while i < k
        invariant
            i <= k,
            s@ == old(s)@ + spec_spaces(i as int),
        decreases k - i,
    {
        proof {
            reveal_strlit(" ");
        }
        s.append(" ");
        proof {
            assert(s@ =~= old(s)@ + spec_spaces(i + 1));
        }
        i = i + 1;
    }
}

/// Append `k` copies of the zero digit to `s`.
#[verifier::loop_isolation(false)]
pub fn push_zeroes(s: &mut String, k: usize)
    ensures
        final(s)@ == old(s)@ + spec_zeroes(k as int),
{
    let mut i: usize = 0;
    proof {
        assert(s@ =~= old(s)@ + spec_zeroes(0));
    }
    while i < k
        invariant
            i <= k,
            s@ == old(s)@ + spec_zeroes(i as int),
        decreases k - i,
    {
        proof {
            reveal_strlit("0");
        }
        s.append("0");
        proof {
            assert(s@ =~= old(s)@ + spec_zeroes(i + 1));
        }
        i = i + 1;
    }
}

/// `s` right-aligned in a field of width `w`.
pub fn pad_left_str(s: String, w: usize) -> (r: String)
    ensures
        r@ == spec_pad_left(s@, w as int),
{
    let n = s.as_str().unicode_len();
    let mut r = String::new();
    if n < w {
        push_spaces(&mut r, w - n);
    }
    r.append(s.as_str());
    proof {
        assert(r@ =~= spec_pad_left(s@, w as int));
    }
    r
}

/// Render fixed-point `v` with `d` decimal places, right-aligned to width
/// `w`; the field widens if the number needs more room.
pub fn fmt_fixed(v: i64, d: u32, w: usize) -> (r: String)
    requires
        1 <= d <= 5,
    ensures
        r@ == fmt_fixed_spec(v as int, d as int, w as int),
{
    let ghost pg = pow10(5 - d);
    let ghost qg = round_away(v as int, pg);
    let p = pow10_i64(5 - d);
    let pu = p as u64;
    let mag: u64 = if v >= 0 {
        v as u64
    } else {
        ((-(v + 1)) as u64) + 1
    };
    proof {
        assert(mag == abs_val(v as int));
        lemma_pow10_pos(5 - d);
        lemma_pow10_mono(5 - d, 17);
        lemma_pow10_le_17();
    }
    let q = (mag + pu / 2) / pu;
    proof {
        assert(q == abs_val(qg));
        assert((qg < 0) == (v < 0 && q > 0));
    }
    let pd = pow10_i64(d as u32) as u64;
    let ip = q / pd;
    let fp = q % pd;
    let ip_str = u64_digits(ip);
    let fp_str = u64_digits(fp);
    proof {
        lemma_pow10_pos(d as int);
        lemma_spec_digits_len_le(fp as int, d as int);
    }
    let fplen = fp_str.as_str().unicode_len();
    let mut body = String::new();
    if v < 0 && q > 0 {
        proof {
            reveal_strlit("-");
        }
        body.append("-");
    }
    body.append(ip_str.as_str());
    proof {
        reveal_strlit(".");
    }
    body.append(".");
    push_zeroes(&mut body, (d as usize) - fplen);
    body.append(fp_str.as_str());
    proof {
        let sign: Seq<char> = if qg < 0 {
            seq!['-']
        } else {
            Seq::empty()
        };
        assert(body@ =~= sign + spec_digits(ip as int) + seq!['.'] + spec_zero_pad(
            spec_digits(fp as int),
            d as int,
        ));
    }
    pad_left_str(body, w)
}

/// `s` left-aligned in a field of width `w`.
pub fn pad_right_str(s: String, w: usize) -> (r: String)
    ensures
        r@ == spec_pad_right(s@, w as int),
{
    let ghost s0 = s@;
    let n = s.as_str().unicode_len();
    let mut r = s;
    if n < w {
        push_spaces(&mut r, w - n);
    }
    proof {
        assert(r@ =~= spec_pad_right(s0, w as int));
    }
    r
}

} // verus!

verus! {

pub proof fn lemma_spec_spaces_props(k: int)
    ensures
        spec_spaces(k).len() == if k <= 0 {
            0int
        } else {
            k
        },
        forall|j: int| 0 <= j < spec_spaces(k).len() ==> spec_spaces(k)[j] == ' ',
    decreases k,
{
    if k > 0 {
        lemma_spec_spaces_props(k - 1);
        assert(forall|j: int|
            0 <= j < k - 1 ==> spec_spaces(k)[j] == spec_spaces(k - 1)[j]);
    }
}

pub proof fn lemma_spec_zeroes_props(k: int)
    ensures
        spec_zeroes(k).len() == if k <= 0 {
            0int
        } else {
            k
        },
        forall|j: int| 0 <= j < spec_zeroes(k).len() ==> spec_zeroes(k)[j] == '0',
    decreases k,
{
    if k > 0 {
        lemma_spec_zeroes_props(k - 1);
        assert(forall|j: int|
            0 <= j < k - 1 ==> spec_zeroes(k)[j] == spec_zeroes(k - 1)[j]);
    }
}

/// Leading zeros do not change the value of a digit string.
pub proof fn lemma_digits_val_zero_prefix(k: int, s: Seq<char>)
    ensures
        digits_val(spec_zeroes(k) + s) == digits_val(s),
    decreases s.len(),
{
    lemma_spec_zeroes_props(k);
    if s.len() == 0 {
        assert(spec_zeroes(k) + s =~= spec_zeroes(k));
        lemma_zeroes_val(k);
    } else {
        assert((spec_zeroes(k) + s).drop_last() =~= spec_zeroes(k) + s.drop_last());
        assert((spec_zeroes(k) + s).last() == s.last());
        lemma_digits_val_zero_prefix(k, s.drop_last());
    }
}

proof fn lemma_zeroes_val(k: int)
    ensures
        digits_val(spec_zeroes(k)) == 0,
    decreases k,
{
    if k > 0 {
        assert(spec_zeroes(k).drop_last() =~= spec_zeroes(k - 1));
        lemma_zeroes_val(k - 1);
        assert(digit_val('0') == 0);
    }
}

/// Converse characterisation of the first-dot position.
pub proof fn lemma_dot_from_is(s: Seq<char>, i: int, m: int)
    requires
        0 <= i <= m <= s.len(),
        forall|j: int| i <= j < m ==> (#[trigger] s[j]) != '.',
        m < s.len() ==> s[m] == '.',
    ensures
        dot_from(s, i) == m,
    decreases m - i,
{
    if i < m {
        lemma_dot_from_is(s, i + 1, m);
    }
}

/// The formatted field is exactly `w` characters wide when the rounded
/// value needs at most `w` characters.
pub proof fn lemma_fmt_fixed_width(v: int, d: int)
    requires
        1 <= d <= 5,
        -1000000 < round_away(v, pow10(5 - d)) < 10000000,
    ensures
        fmt_fixed_spec(v, d, 8).len() == 8,
{
    let p = pow10(5 - d);
    let q = round_away(v, p);
    let mag = abs_val(q);
    let pd = pow10(d);
    let ip = mag / pd;
    let fp = mag % pd;
    lemma_pow10_pos(d);
    vstd::arithmetic::div_mod::lemma_mod_bound(mag, pd);
    vstd::arithmetic::div_mod::lemma_fundamental_div_mod(mag, pd);
    lemma_spec_digits_props(ip);
    lemma_spec_digits_props(fp);
    lemma_spec_zeroes_props(d - spec_digits(fp).len());
    lemma_spec_digits_len_le(fp, d);
    let sign_len: int = if q < 0 {
        1
    } else {
        0
    };
    if q < 0 {
        // magnitude below one million: at most 6 - d integer digits
        assert(pd * pow10(6 - d) == 1000000) by {
            lemma_pow10_adds(d, 6 - d);
            lemma_pow10_6();
        }
        assert(ip < pow10(6 - d)) by (nonlinear_arith)
            requires
                mag < 1000000,
                mag >= 0,
                pd > 0,
                ip == mag / pd,
                pd * pow10(6 - d) >= 1000000,
        {
        }
        lemma_spec_digits_len_le(ip, 6 - d);
    } else {
        assert(pd * pow10(7 - d) == 10000000) by {
            lemma_pow10_adds(d, 7 - d);
            lemma_pow10_7();
        }
        assert(ip < pow10(7 - d)) by (nonlinear_arith)
            requires
                mag < 10000000,
                mag >= 0,
                pd > 0,
                ip == mag / pd,
                pd * pow10(7 - d) >= 10000000,
        {
        }
        lemma_spec_digits_len_le(ip, 7 - d);
    }
    let body_len = sign_len + spec_digits(ip).len() + 1 + d;
    assert(fmt_fixed_spec(v, d, 8).len() == if body_len >= 8 {
        body_len
    } else {
        8
    }) by {
        lemma_spec_spaces_props(8 - body_len);
    }
}

proof fn lemma_pow10_6()
    ensures
        pow10(6) == 1000000,
{
    reveal_with_fuel(pow10, 7);
}

proof fn lemma_pow10_7()
    ensures
        pow10(7) == 10000000,
{
    reveal_with_fuel(pow10, 8);
}

/// The unsigned body of a formatted field (integer digits, a dot, the
/// zero-padded fraction) is a numeral whose value is the magnitude times
/// the printed precision.
#[verifier::rlimit(100)]
proof fn lemma_unsigned_body_val(mag: int, d: int)
    requires
        1 <= d <= 5,
        mag >= 0,
    ensures
        ({
            let pd = pow10(d);
            let u = spec_digits(mag / pd) + seq!['.'] + spec_zero_pad(spec_digits(mag % pd), d);
            &&& unsigned_numeral_val(u) == Some(mag * pow10(5 - d))
            &&& u.len() >= 2
            &&& is_digit_char(u[0])
            &&& forall|j: int| 0 <= j < u.len() ==> !is_ws_char(#[trigger] u[j]) && u[j] != '\n'
        }),
{
    let p = pow10(5 - d);
    let pd = pow10(d);
    let ip = mag / pd;
    let fp = mag % pd;
    lemma_pow10_pos(d);
    lemma_pow10_pos(5 - d);
    vstd::arithmetic::div_mod::lemma_mod_bound(mag, pd);
    vstd::arithmetic::div_mod::lemma_fundamental_div_mod(mag, pd);
    lemma_spec_digits_props(ip);
    lemma_spec_digits_props(fp);
    lemma_spec_digits_len_le(fp, d);
    let ipd = spec_digits(ip);
    let fpd = spec_digits(fp);
    let zp = spec_zero_pad(fpd, d);
    lemma_spec_zeroes_props(d - fpd.len());
    lemma_digit_chars_plain(ipd);
    lemma_digit_chars_plain(fpd);
    let u = ipd + seq!['.'] + zp;
    assert(all_digits(zp)) by {
        assert(forall|j: int|
            0 <= j < zp.len() ==> zp[j] == '0' || zp[j] == fpd[j - (zp.len() - fpd.len())]);
    }
    lemma_digit_chars_plain(zp);
    let dlen = ipd.len() as int;
    assert(u[dlen] == '.');
    assert(forall|j: int| 0 <= j < dlen ==> (#[trigger] u[j]) == ipd[j]);
    lemma_dot_from_is(u, 0, dlen);
    let uip = u.subrange(0, dlen);
    let ufp = u.subrange(dlen + 1, u.len() as int);
    assert(uip =~= ipd);
    assert(ufp =~= zp);
    assert(ufp.len() == d);
    assert(digits_val(zp) == fp) by {
        lemma_digits_val_zero_prefix(d - fpd.len(), fpd);
    }
    assert(digits_val(uip) * SCALE + digits_val(ufp) * pow10(5 - d) == mag * p) by {
        assert(pd * p == 100000) by {
            lemma_pow10_adds(d, 5 - d);
            lemma_pow10_5();
        }
        assert(ip * (pd * p) + fp * p == (ip * pd + fp) * p) by (nonlinear_arith);
        assert(ip * 100000 == ip * (pd * p));
    }
    assert(u[0] == ipd[0]);
    assert(is_digit_char(u[0]));
}

/// Formatting then parsing a fixed-point value gives back exactly the
/// value rounded to the printed precision. The formatted field carries no
/// newline and no whitespace besides its left padding.
#[verifier::rlimit(100)]
pub proof fn lemma_fmt_fixed_parses(v: int, d: int, w: int)
    requires
        1 <= d <= 5,
        abs_val(round_away(v, pow10(5 - d))) * pow10(5 - d) <= FIXED_LIMIT,
    ensures
        parse_fixed_num(fmt_fixed_spec(v, d, w)) == Some(
            round_away(v, pow10(5 - d)) * pow10(5 - d),
        ),
        forall|i: int|
            0 <= i < fmt_fixed_spec(v, d, w).len() ==> (#[trigger] fmt_fixed_spec(v, d, w)[i])
                != '\n',
        fmt_fixed_spec(v, d, w).len() >= 1,
{
    let p = pow10(5 - d);
    let q = round_away(v, p);
    let mag = abs_val(q);
    let pd = pow10(d);
    lemma_pow10_pos(d);
    lemma_pow10_pos(5 - d);
    lemma_unsigned_body_val(mag, d);
    let useq = spec_digits(mag / pd) + seq!['.'] + spec_zero_pad(spec_digits(mag % pd), d);
    let sign: Seq<char> = if q < 0 {
        seq!['-']
    } else {
        Seq::empty()
    };
    let body = sign + useq;
    let full = fmt_fixed_spec(v, d, w);
    let pad = w - body.len();
    lemma_spec_spaces_props(pad);
    assert(forall|j: int| 0 <= j < body.len() ==> !is_ws_char(#[trigger] body[j]) && body[j]
        != '\n');
    assert(full =~= spec_spaces(pad) + body);
    let off = if pad <= 0 {
        0int
    } else {
        pad
    };
    assert(full.len() == off + body.len());
    lemma_first_non_ws_is(full, 0, off);
    lemma_last_non_ws_is(full, full.len() as int, off + body.len());
    let t = trim_spec(full);
    assert(t =~= body);
    assert(mag * p >= 0) by (nonlinear_arith)
        requires
            mag >= 0,
            p >= 1,
    {
    }
    if q < 0 {
        assert(t[0] == '-');
        assert(t.skip(1) =~= useq);
        assert(numeral_val(full) == Some(-(mag * p)));
        assert(-(mag * p) == q * p) by (nonlinear_arith)
            requires
                mag == -q,
        {
        }
    } else {
        assert(t[0] == useq[0]);
        assert(t[0] != '-' && t[0] != '+');
        assert(t =~= useq);
        assert(numeral_val(full) == Some(mag * p));
        assert(mag * p == q * p);
    }
    assert(forall|i: int| 0 <= i < full.len() ==> (#[trigger] full[i]) != '\n');
}

proof fn lemma_pow10_5()
    ensures
        pow10(5) == 100000,
{
    reveal_with_fuel(pow10, 6);
}

} // verus!

verus! {

/// A formatted field is left padding followed by a solid (whitespace-free)
/// token that parses to the rounded value on its own.
#[verifier::rlimit(100)]
pub proof fn lemma_fmt_fixed_token(v: int, d: int, w: int)
    requires
        1 <= d <= 5,
        abs_val(round_away(v, pow10(5 - d))) * pow10(5 - d) <= FIXED_LIMIT,
    ensures
        ({
            let f = fmt_fixed_spec(v, d, w);
            let a = first_non_ws(f, 0);
            &&& 0 <= a < f.len()
            &&& forall|j: int| 0 <= j < a ==> is_ws_char(#[trigger] f[j])
            &&& forall|j: int| a <= j < f.len() ==> !is_ws_char(#[trigger] f[j])
            &&& parse_fixed_num(f.subrange(a, f.len() as int)) == Some(
                round_away(v, pow10(5 - d)) * pow10(5 - d),
            )
        }),
{
    let p = pow10(5 - d);
    let q = round_away(v, p);
    let mag = abs_val(q);
    let pd = pow10(d);
    lemma_pow10_pos(d);
    lemma_pow10_pos(5 - d);
    lemma_fmt_fixed_parses(v, d, w);
    lemma_unsigned_body_val(mag, d);
    let useq = spec_digits(mag / pd) + seq!['.'] + spec_zero_pad(spec_digits(mag % pd), d);
    let sign: Seq<char> = if q < 0 {
        seq!['-']
    } else {
        Seq::empty()
    };
    let body = sign + useq;
    let f = fmt_fixed_spec(v, d, w);
    let pad = w - body.len();
    lemma_spec_spaces_props(pad);
    assert(forall|j: int| 0 <= j < body.len() ==> !is_ws_char(#[trigger] body[j]));
    assert(f =~= spec_spaces(pad) + body);
    let off = if pad <= 0 {
        0int
    } else {
        pad
    };
    lemma_first_non_ws_is(f, 0, off);
    let tok = f.subrange(off, f.len() as int);
    assert(tok =~= body);
    lemma_first_non_ws_is(body, 0, 0);
    lemma_last_non_ws_is(body, body.len() as int, body.len() as int);
    assert(trim_spec(body) =~= body);
    lemma_last_non_ws_is(f, f.len() as int, f.len() as int);
    assert(trim_spec(f) =~= body);
    assert(numeral_val(tok) == numeral_val(f)) by {
        assert(trim_spec(tok) == trim_spec(f));
    }
}

} // verus!
