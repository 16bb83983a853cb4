//! Character-level text scanning: whitespace, trimming, line and token
//! boundaries. All functions work on `Seq<char>` views of `&str` values.

use vstd::prelude::*;

verus! {

/// The ASCII whitespace characters recognised by the codec.
pub open spec fn is_ws_char(c: char) -> bool {
    c == ' ' || c == '\t' || c == '\n' || c == '\r' || c == '\x0b' || c == '\x0c'
}

/// Whether `c` is a decimal digit.
pub open spec fn is_digit_char(c: char) -> bool {
    48 <= c as u32 <= 57
}

/// The numeric value of a decimal digit character.
pub open spec fn digit_val(c: char) -> int {
    c as u32 - 48
}

/// Whether every character of `s` is a decimal digit.
pub open spec fn all_digits(s: Seq<char>) -> bool {
    forall|i: int| 0 <= i < s.len() ==> is_digit_char(#[trigger] s[i])
}

/// Index of the first non-whitespace character at or after `i`, or `s.len()`
/// if the rest of `s` is whitespace.
pub open spec fn first_non_ws(s: Seq<char>, i: int) -> int
    decreases s.len() - i,
{
    if i >= s.len() {
        s.len() as int
    } else if is_ws_char(s[i]) {
        first_non_ws(s, i + 1)
    } else {
        i
    }
}

/// One past the index of the last non-whitespace character strictly before
/// `i`, or `0` if everything before `i` is whitespace.
pub open spec fn last_non_ws(s: Seq<char>, i: int) -> int
    decreases i,
{
    if i <= 0 {
        0
    } else if is_ws_char(s[i - 1]) {
        last_non_ws(s, i - 1)
    } else {
        i
    }
}

/// `s` with leading and trailing whitespace removed.
pub open spec fn trim_spec(s: Seq<char>) -> Seq<char> {
    let a = first_non_ws(s, 0);
    let b = last_non_ws(s, s.len() as int);
    if a >= b {
        Seq::empty()
    } else {
        s.subrange(a, b)
    }
}

/// `s` with trailing whitespace removed.
pub open spec fn trim_end_spec(s: Seq<char>) -> Seq<char> {
    s.subrange(0, last_non_ws(s, s.len() as int))
}

pub proof fn lemma_first_non_ws_bounds(s: Seq<char>, i: int)
    requires
        0 <= i <= s.len(),
    ensures
        i <= first_non_ws(s, i) <= s.len(),
        first_non_ws(s, i) < s.len() ==> !is_ws_char(s[first_non_ws(s, i)]),
        forall|j: int| i <= j < first_non_ws(s, i) ==> is_ws_char(#[trigger] s[j]),
    decreases s.len() - i,
{
    if i < s.len() && is_ws_char(s[i]) {
        lemma_first_non_ws_bounds(s, i + 1);
    }
}

pub proof fn lemma_last_non_ws_bounds(s: Seq<char>, i: int)
    requires
        0 <= i <= s.len(),
    ensures
        0 <= last_non_ws(s, i) <= i,
        last_non_ws(s, i) > 0 ==> !is_ws_char(s[last_non_ws(s, i) - 1]),
        forall|j: int| last_non_ws(s, i) <= j < i ==> is_ws_char(#[trigger] s[j]),
    decreases i,
{
    if i > 0 && is_ws_char(s[i - 1]) {
        lemma_last_non_ws_bounds(s, i - 1);
    }
}

/// A non-whitespace character at `k` keeps the trailing trim above `k`.
pub proof fn lemma_last_non_ws_above(s: Seq<char>, i: int, k: int)
    requires
        0 <= k < i <= s.len(),
        !is_ws_char(s[k]),
    ensures
        last_non_ws(s, i) > k,
    decreases i,
{
    if i - 1 > k && is_ws_char(s[i - 1]) {
        lemma_last_non_ws_above(s, i - 1, k);
    }
}

/// Index of the first newline at or after `i`, or `s.len()` if none remains.
pub open spec fn eol(s: Seq<char>, i: int) -> int
    decreases s.len() - i,
{
    if i >= s.len() {
        s.len() as int
    } else if s[i] == '\n' {
        i
    } else {
        eol(s, i + 1)
    }
}

pub proof fn lemma_eol_bounds(s: Seq<char>, i: int)
    requires
        0 <= i <= s.len(),
    ensures
        i <= eol(s, i) <= s.len(),
        eol(s, i) < s.len() ==> s[eol(s, i)] == '\n',
        forall|j: int| i <= j < eol(s, i) ==> #[trigger] s[j] != '\n',
    decreases s.len() - i,
{
    if i < s.len() && s[i] != '\n' {
        lemma_eol_bounds(s, i + 1);
    }
}

/// Start index of the `k`-th newline-separated line of `s`.  One past the
/// end of the text means the line (and every later one) is absent.
pub open spec fn line_start(s: Seq<char>, k: int) -> int
    decreases k,
{
    if k <= 0 {
        0
    } else {
        eol(s, line_start(s, k - 1)) + 1
    }
}

/// The `k`-th newline-separated line of `s`, without its terminator; empty
/// if the text has no such line.
pub open spec fn line_at(s: Seq<char>, k: int) -> Seq<char> {
    let st = line_start(s, k);
    if st > s.len() {
        Seq::empty()
    } else {
        s.subrange(st, eol(s, st))
    }
}

pub proof fn lemma_line_start_bounds(s: Seq<char>, k: int)
    requires
        k >= 0,
    ensures
        0 <= line_start(s, k) <= s.len() + 1,
    decreases k,
{
    if k > 0 {
        lemma_line_start_bounds(s, k - 1);
        if line_start(s, k - 1) <= s.len() {
            lemma_eol_bounds(s, line_start(s, k - 1));
        } else {
            assert(line_start(s, k - 1) == s.len() + 1);
            assert(eol(s, s.len() as int + 1) == s.len()) by {
                reveal_with_fuel(eol, 2);
            }
        }
    }
}

/// Index of the first whitespace character at or after `i`, or `s.len()`.
pub open spec fn ws_after(s: Seq<char>, i: int) -> int
    decreases s.len() - i,
{
    if i >= s.len() {
        s.len() as int
    } else if is_ws_char(s[i]) {
        i
    } else {
        ws_after(s, i + 1)
    }
}

pub proof fn lemma_ws_after_bounds(s: Seq<char>, i: int)
    requires
        0 <= i <= s.len(),
    ensures
        i <= ws_after(s, i) <= s.len(),
        ws_after(s, i) < s.len() ==> is_ws_char(s[ws_after(s, i)]),
        forall|j: int| i <= j < ws_after(s, i) ==> !is_ws_char(#[trigger] s[j]),
    decreases s.len() - i,
{
    if i < s.len() && !is_ws_char(s[i]) {
        lemma_ws_after_bounds(s, i + 1);
    }
}

/// Start index of the `k`-th whitespace-separated token of `s`, or `s.len()`
/// if there are at most `k` tokens.
pub open spec fn token_start(s: Seq<char>, k: int) -> int
    decreases k,
{
    if k <= 0 {
        first_non_ws(s, 0)
    } else {
        first_non_ws(s, ws_after(s, token_start(s, k - 1)))
    }
}

/// Whether `s` has a `k`-th whitespace-separated token.
pub open spec fn has_token(s: Seq<char>, k: int) -> bool {
    token_start(s, k) < s.len()
}

/// The `k`-th whitespace-separated token of `s` (empty if absent).
pub open spec fn token_at(s: Seq<char>, k: int) -> Seq<char> {
    s.subrange(token_start(s, k), ws_after(s, token_start(s, k)))
}

pub proof fn lemma_token_start_bounds(s: Seq<char>, k: int)
    requires
        k >= 0,
    ensures
        0 <= token_start(s, k) <= s.len(),
        token_start(s, k) < s.len() ==> !is_ws_char(s[token_start(s, k)]),
    decreases k,
{
    if k == 0 {
        lemma_first_non_ws_bounds(s, 0);
    } else {
        lemma_token_start_bounds(s, k - 1);
        lemma_ws_after_bounds(s, token_start(s, k - 1));
        lemma_first_non_ws_bounds(s, ws_after(s, token_start(s, k - 1)));
    }
}

/// Whether `c` is an ASCII decimal digit.
pub fn is_digit(c: char) -> (b: bool)
    ensures
        b == is_digit_char(c),
{
    let u = c as u32;
    48 <= u && u <= 57
}

/// Whether `c` counts as whitespace for trimming and token splitting.
pub fn is_ws(c: char) -> (b: bool)
    ensures
        b == is_ws_char(c),
{
    c == ' ' || c == '\t' || c == '\n' || c == '\r' || c == '\x0b' || c == '\x0c'
}

/// Index of the first non-whitespace character of `s` at or after `from`.
pub fn scan_non_ws(s: &str, from: usize, len: usize) -> (r: usize)
    requires
        from <= len == s@.len(),
    ensures
        r == first_non_ws(s@, from as int),
        from <= r <= len,
{
    let mut i = from;
    while i < len
        invariant
            from <= i <= len == s@.len(),
            first_non_ws(s@, from as int) == first_non_ws(s@, i as int),
        decreases len - i,
    {
        if !is_ws(s.get_char(i)) {
            return i;
        }
        i = i + 1;
    }
    i
}

/// One past the last non-whitespace character of `s` strictly before `upto`.
pub fn scan_non_ws_rev(s: &str, upto: usize) -> (r: usize)
    requires
        upto <= s@.len(),
    ensures
        r == last_non_ws(s@, upto as int),
        r <= upto,
{
    let mut i = upto;
    while i > 0
        invariant
            0 <= i <= upto <= s@.len(),
            last_non_ws(s@, upto as int) == last_non_ws(s@, i as int),
        decreases i,
    {
        if !is_ws(s.get_char(i - 1)) {
            return i;
        }
        i = i - 1;
    }
    i
}

/// Index of the first non-whitespace character of `s[from..to]`, absolute.
#[verifier::loop_isolation(false)]
pub fn scan_range_start(s: &str, from: usize, to: usize) -> (a: usize)
    requires
        from <= to <= s@.len(),
    ensures
        a - from == first_non_ws(s@.subrange(from as int, to as int), 0),
        from <= a <= to,
{
    let ghost sub = s@.subrange(from as int, to as int);
    let mut a = from;
    while a < to
        invariant
            from <= a <= to,
            first_non_ws(sub, 0) == first_non_ws(sub, a - from),
        decreases to - a,
    {
        proof {
            assert(sub[a - from] == s@[a as int]);
        }
        if !is_ws(s.get_char(a)) {
            return a;
        }
        a = a + 1;
    }
    a
}

/// One past the last non-whitespace character of `s[from..to]`, absolute.
#[verifier::loop_isolation(false)]
pub fn scan_range_end(s: &str, from: usize, to: usize) -> (b: usize)
    requires
        from <= to <= s@.len(),
    ensures
        b - from == last_non_ws(s@.subrange(from as int, to as int), to - from),
        from <= b <= to,
{
    let ghost sub = s@.subrange(from as int, to as int);
    let mut b = to;
    while b > from
        invariant
            from <= b <= to,
            last_non_ws(sub, to - from) == last_non_ws(sub, b - from),
        decreases b,
    {
        proof {
            assert(sub[b - 1 - from] == s@[b - 1]);
        }
        if !is_ws(s.get_char(b - 1)) {
            return b;
        }
        b = b - 1;
    }
    b
}

/// A fresh copy of `s[from..to]` with surrounding whitespace removed.
pub fn trimmed_copy(s: &str, from: usize, to: usize) -> (r: String)
    requires
        from <= to <= s@.len(),
    ensures
        r@ == trim_spec(s@.subrange(from as int, to as int)),
{
    let ghost sub = s@.subrange(from as int, to as int);
    let a = scan_range_start(s, from, to);
    if a == to {
        let r = String::new();
        proof {
            lemma_first_non_ws_bounds(sub, 0);
            lemma_last_non_ws_bounds(sub, sub.len() as int);
        }
        return r;
    }
    let b = scan_range_end(s, from, to);
    proof {
        lemma_first_non_ws_bounds(sub, 0);
        assert(!is_ws_char(sub[a - from]));
        lemma_last_non_ws_above(sub, sub.len() as int, a - from);
        lemma_last_non_ws_bounds(sub, sub.len() as int);
    }
    let piece = s.substring_char(a, b);
    let r = String::from_str(piece);
    proof {
        assert(r@ =~= trim_spec(sub));
    }
    r
}

/// Index of the first newline in `s` at or after `pos`, or the length of
/// `s` if no newline remains.
pub fn find_eol(s: &str, pos: usize, len: usize) -> (e: usize)
    requires
        pos <= len == s@.len(),
    ensures
        e == eol(s@, pos as int),
        pos <= e <= len,
{
    let mut i = pos;
    while i < len
        invariant
            pos <= i <= len == s@.len(),
            eol(s@, pos as int) == eol(s@, i as int),
        decreases len - i,
    {
        if s.get_char(i) == '\n' {
            return i;
        }
        i = i + 1;
    }
    i
}

} // verus!

verus! {

/// Index of the first whitespace character of `s` at or after `from`.
pub fn scan_ws(s: &str, from: usize, len: usize) -> (r: usize)
    requires
        from <= len == s@.len(),
    ensures
        r == ws_after(s@, from as int),
        from <= r <= len,
{
    let mut i = from;
    while i < len
        invariant
            from <= i <= len == s@.len(),
            ws_after(s@, from as int) == ws_after(s@, i as int),
        decreases len - i,
    {
        if is_ws(s.get_char(i)) {
            return i;
        }
        i = i + 1;
    }
    i
}

/// The trim of `s` is empty exactly when `s` is all whitespace.
pub proof fn lemma_trim_empty_iff(s: Seq<char>)
    ensures
        (trim_spec(s).len() == 0) <==> (first_non_ws(s, 0) == s.len()),
{
    lemma_first_non_ws_bounds(s, 0);
    lemma_last_non_ws_bounds(s, s.len() as int);
    let a = first_non_ws(s, 0);
    if a < s.len() {
        lemma_last_non_ws_above(s, s.len() as int, a);
    }
}

} // verus!

verus! {

/// A line that is present starts at or after its own index: line starts
/// advance at least one position per line.
pub proof fn lemma_line_start_ge(s: Seq<char>, k: int)
    requires
        k >= 0,
        line_start(s, k) <= s.len(),
    ensures
        line_start(s, k) >= k,
    decreases k,
{
    if k > 0 {
        lemma_line_start_bounds(s, k - 1);
        if line_start(s, k - 1) > s.len() {
            assert(eol(s, line_start(s, k - 1)) == s.len()) by {
                reveal_with_fuel(eol, 2);
            }
        } else {
            lemma_line_start_ge(s, k - 1);
            lemma_eol_bounds(s, line_start(s, k - 1));
        }
    }
}

/// Trimming the tail of a prefix equals trimming the tail in place.
pub proof fn lemma_last_non_ws_prefix(s: Seq<char>, m: int, i: int)
    requires
        0 <= i <= m <= s.len(),
    ensures
        last_non_ws(s.subrange(0, m), i) == last_non_ws(s, i),
    decreases i,
{
    if i > 0 {
        assert(s.subrange(0, m)[i - 1] == s[i - 1]);
        if is_ws_char(s[i - 1]) {
            lemma_last_non_ws_prefix(s, m, i - 1);
        }
    }
}

} // verus!

verus! {

/// Scanning forward over known whitespace does not move the result.
pub proof fn lemma_first_non_ws_ws_range(t: Seq<char>, i: int, j: int)
    requires
        0 <= i <= j <= t.len(),
        forall|m: int| i <= m < j ==> is_ws_char(#[trigger] t[m]),
    ensures
        first_non_ws(t, i) == first_non_ws(t, j),
    decreases j - i,
{
    if i < j {
        lemma_first_non_ws_ws_range(t, i + 1, j);
    }
}

/// Scanning backward over known whitespace does not move the result.
pub proof fn lemma_last_non_ws_ws_range(t: Seq<char>, j: int, i: int)
    requires
        0 <= j <= i <= t.len(),
        forall|m: int| j <= m < i ==> is_ws_char(#[trigger] t[m]),
    ensures
        last_non_ws(t, i) == last_non_ws(t, j),
    decreases i - j,
{
    if j < i {
        lemma_last_non_ws_ws_range(t, j, i - 1);
    }
}

/// A forward scan that ends inside `s` is unchanged by appended text.
pub proof fn lemma_first_non_ws_prefix(s: Seq<char>, x: Seq<char>, i: int)
    requires
        0 <= i <= s.len(),
        first_non_ws(s, i) < s.len(),
    ensures
        first_non_ws(s + x, i) == first_non_ws(s, i),
    decreases s.len() - i,
{
    assert((s + x)[i] == s[i]) by {
        assert(i < s.len());
    }
    if is_ws_char(s[i]) {
        lemma_first_non_ws_prefix(s, x, i + 1);
    }
}

/// A forward scan shifts with a prefix.
pub proof fn lemma_first_non_ws_shift(pre: Seq<char>, s: Seq<char>, i: int)
    requires
        0 <= i <= s.len(),
    ensures
        first_non_ws(pre + s, pre.len() + i) == pre.len() + first_non_ws(s, i),
    decreases s.len() - i,
{
    if i < s.len() {
        assert((pre + s)[pre.len() + i] == s[i]);
        if is_ws_char(s[i]) {
            lemma_first_non_ws_shift(pre, s, i + 1);
        }
    }
}

/// A backward scan that ends inside `s` shifts with a prefix.
pub proof fn lemma_last_non_ws_shift(pre: Seq<char>, s: Seq<char>, i: int)
    requires
        0 <= i <= s.len(),
        last_non_ws(s, i) >= 1,
    ensures
        last_non_ws(pre + s, pre.len() + i) == pre.len() + last_non_ws(s, i),
    decreases i,
{
    assert(i >= 1);
    assert((pre + s)[pre.len() + i - 1] == s[i - 1]);
    if is_ws_char(s[i - 1]) {
        lemma_last_non_ws_shift(pre, s, i - 1);
    }
}

/// Prepending whitespace does not change the trim.
pub proof fn lemma_trim_prepend_ws(pre: Seq<char>, s: Seq<char>)
    requires
        forall|m: int| 0 <= m < pre.len() ==> is_ws_char(#[trigger] pre[m]),
    ensures
        trim_spec(pre + s) == trim_spec(s),
{
    let t = pre + s;
    let k = pre.len() as int;
    lemma_first_non_ws_bounds(s, 0);
    lemma_last_non_ws_bounds(s, s.len() as int);
    assert(forall|m: int| 0 <= m < k ==> is_ws_char(#[trigger] t[m]));
    lemma_first_non_ws_ws_range(t, 0, k);
    lemma_first_non_ws_shift(pre, s, 0);
    let a = first_non_ws(s, 0);
    let b = last_non_ws(s, s.len() as int);
    if a == s.len() {
        // all of `s` is whitespace, so both trims are empty
        lemma_first_non_ws_bounds(t, 0);
        lemma_last_non_ws_bounds(t, t.len() as int);
        assert(first_non_ws(t, 0) == t.len());
        assert(trim_spec(t) =~= trim_spec(s));
    } else {
        assert(!is_ws_char(s[a]));
        lemma_last_non_ws_above(s, s.len() as int, a);
        lemma_last_non_ws_shift(pre, s, s.len() as int);
        assert(trim_spec(t) =~= trim_spec(s));
    }
}

/// Appending whitespace does not change the trim.
pub proof fn lemma_trim_append_ws(s: Seq<char>, suf: Seq<char>)
    requires
        forall|m: int| 0 <= m < suf.len() ==> is_ws_char(#[trigger] suf[m]),
    ensures
        trim_spec(s + suf) == trim_spec(s),
{
    let t = s + suf;
    lemma_first_non_ws_bounds(s, 0);
    lemma_last_non_ws_bounds(s, s.len() as int);
    assert(forall|m: int| s.len() <= m < t.len() ==> is_ws_char(#[trigger] t[m]));
    lemma_last_non_ws_ws_range(t, s.len() as int, t.len() as int);
    assert(t.subrange(0, s.len() as int) =~= s);
    lemma_last_non_ws_prefix(t, s.len() as int, s.len() as int);
    let a = first_non_ws(s, 0);
    let b = last_non_ws(s, s.len() as int);
    if a == s.len() {
        assert(b == 0);
        assert(forall|m: int| 0 <= m < s.len() ==> is_ws_char(#[trigger] s[m]));
        assert(forall|m: int| 0 <= m < s.len() ==> is_ws_char(#[trigger] t[m]));
        lemma_first_non_ws_ws_range(t, 0, s.len() as int);
        lemma_first_non_ws_ws_range(t, s.len() as int, t.len() as int);
        lemma_first_non_ws_bounds(t, 0);
        assert(trim_spec(t) =~= trim_spec(s));
    } else {
        lemma_first_non_ws_prefix(s, suf, 0);
        assert(!is_ws_char(s[a]));
        lemma_last_non_ws_above(s, s.len() as int, a);
        assert(trim_spec(t) =~= trim_spec(s));
    }
}

/// Converse characterisation of the first non-whitespace position.
pub proof fn lemma_first_non_ws_is(s: Seq<char>, i: int, m: int)
    requires
        0 <= i <= m <= s.len(),
        forall|j: int| i <= j < m ==> is_ws_char(#[trigger] s[j]),
        m < s.len() ==> !is_ws_char(s[m]),
    ensures
        first_non_ws(s, i) == m,
    decreases m - i,
{
    if i < m {
        lemma_first_non_ws_is(s, i + 1, m);
    }
}

/// Converse characterisation of the trailing-trim position.
pub proof fn lemma_last_non_ws_is(s: Seq<char>, i: int, m: int)
    requires
        0 <= m <= i <= s.len(),
        forall|j: int| m <= j < i ==> is_ws_char(#[trigger] s[j]),
        m > 0 ==> !is_ws_char(s[m - 1]),
    ensures
        last_non_ws(s, i) == m,
    decreases i - m,
{
    if i > m {
        lemma_last_non_ws_is(s, i - 1, m);
    }
}

/// Converse characterisation of the next-whitespace position.
pub proof fn lemma_ws_after_is(s: Seq<char>, i: int, m: int)
    requires
        0 <= i <= m <= s.len(),
        forall|j: int| i <= j < m ==> !is_ws_char(#[trigger] s[j]),
        m < s.len() ==> is_ws_char(s[m]),
    ensures
        ws_after(s, i) == m,
    decreases m - i,
{
    if i < m {
        lemma_ws_after_is(s, i + 1, m);
    }
}

} // verus!

verus! {

/// Converse characterisation of the first-newline position.
pub proof fn lemma_eol_is(s: Seq<char>, i: int, m: int)
    requires
        0 <= i <= m <= s.len(),
        forall|j: int| i <= j < m ==> (#[trigger] s[j]) != '\n',
        m < s.len() ==> s[m] == '\n',
    ensures
        eol(s, i) == m,
    decreases m - i,
{
    if i < m {
        lemma_eol_is(s, i + 1, m);
    }
}

/// The newline scan shifts with a prefix.
pub proof fn lemma_eol_shift(pre: Seq<char>, rest: Seq<char>, i: int)
    requires
        0 <= i <= rest.len() + 1,
    ensures
        eol(pre + rest, pre.len() + i) == pre.len() + eol(rest, i),
    decreases rest.len() + 1 - i,
{
    if i >= rest.len() {
        assert(eol(rest, i) == rest.len());
        assert(eol(pre + rest, pre.len() + i) == (pre + rest).len());
    } else {
        assert((pre + rest)[pre.len() + i] == rest[i]);
        if rest[i] != '\n' {
            lemma_eol_shift(pre, rest, i + 1);
        }
    }
}

/// Dropping one newline-terminated, newline-free segment shifts every
/// later line start by the segment's length.
pub proof fn lemma_line_drop_start(a: Seq<char>, rest: Seq<char>, k: int)
    requires
        forall|i: int| 0 <= i < a.len() ==> (#[trigger] a[i]) != '\n',
        k >= 1,
    ensures
        line_start(a + seq!['\n'] + rest, k) == a.len() + 1 + line_start(rest, k - 1),
    decreases k,
{
    let text = a + seq!['\n'] + rest;
    let pre = a + seq!['\n'];
    assert(text =~= pre + rest);
    if k == 1 {
        assert(forall|j: int| 0 <= j < a.len() ==> (#[trigger] text[j]) != '\n');
        assert(text[a.len() as int] == '\n');
        lemma_eol_is(text, 0, a.len() as int);
        assert(line_start(text, 0) == 0);
        assert(line_start(rest, 0) == 0);
        assert(line_start(text, 1) == eol(text, 0) + 1);
    } else {
        lemma_line_drop_start(a, rest, k - 1);
        lemma_line_start_bounds(rest, k - 2);
        lemma_eol_shift(pre, rest, line_start(rest, k - 2));
    }
}

/// Dropping one newline-terminated, newline-free segment: the first line
/// is the segment, and each later line is a line of the remainder.
pub proof fn lemma_line_drop_at(a: Seq<char>, rest: Seq<char>, k: int)
    requires
        forall|i: int| 0 <= i < a.len() ==> (#[trigger] a[i]) != '\n',
        k >= 0,
    ensures
        k == 0 ==> line_at(a + seq!['\n'] + rest, 0) == a,
        k >= 1 ==> line_at(a + seq!['\n'] + rest, k) == line_at(rest, k - 1),
        k >= 1 ==> (line_start(a + seq!['\n'] + rest, k) <= (a + seq!['\n'] + rest).len()
            <==> line_start(rest, k - 1) <= rest.len()),
{
    let text = a + seq!['\n'] + rest;
    let pre = a + seq!['\n'];
    assert(text =~= pre + rest);
    if k == 0 {
        assert(forall|j: int| 0 <= j < a.len() ==> (#[trigger] text[j]) != '\n');
        assert(text[a.len() as int] == '\n');
        lemma_eol_is(text, 0, a.len() as int);
        assert(text.subrange(0, a.len() as int) =~= a);
    } else {
        lemma_line_drop_start(a, rest, k);
        lemma_line_start_bounds(rest, k - 1);
        let st = line_start(rest, k - 1);
        if st <= rest.len() {
            lemma_eol_shift(pre, rest, st);
            lemma_eol_bounds(rest, st);
            assert(text.subrange(pre.len() + st, pre.len() + eol(rest, st)) =~= rest.subrange(
                st,
                eol(rest, st),
            ));
        }
    }
}

} // verus!
