use vstd::prelude::*;
use vstd::slice::slice_subrange;
use vstd::string::StringSliceAdditionalSpecFns;

verus! {

/// Byte that separates a key from its value.
pub const DELIMITER: u8 = 59;

/// Byte that ends a record.
pub const NEWLINE: u8 = 10;

/// Byte of the minus sign.
pub const MINUS: u8 = 45;

/// Byte of the decimal point.
pub const POINT: u8 = 46;

/// Most digits a value may carry (integer and fractional part together),
/// so that its scaled form fits an `i32`.
pub const MAX_DIGITS: usize = 9;

pub open spec fn is_digit(b: u8) -> bool {
    48 <= b <= 57
}

pub open spec fn digit_of(b: u8) -> int {
    b as int - 48
}

pub open spec fn pow10(n: nat) -> int
    decreases n,
{
    if n == 0 {
        1
    } else {
        10 * pow10((n - 1) as nat)
    }
}

/// Decimal value of a string of digits, most significant first.
pub open spec fn digits_value(d: Seq<u8>) -> int
    decreases d.len(),
{
    if d.len() == 0 {
        0
    } else {
        digit_of(d[0]) * pow10((d.len() - 1) as nat) + digits_value(d.drop_first())
    }
}

pub open spec fn has_sign(s: Seq<u8>) -> bool {
    s.len() > 0 && s[0] == MINUS
}

/// The text after an optional leading minus.
pub open spec fn magnitude_text(s: Seq<u8>) -> Seq<u8> {
    if has_sign(s) {
        s.drop_first()
    } else {
        s
    }
}

/// Text of the shape `-?\d+\.\d` with at most `MAX_DIGITS` digits.
pub open spec fn is_value_text(s: Seq<u8>) -> bool {
    let m = magnitude_text(s);
    &&& 3 <= m.len() <= MAX_DIGITS + 1
    &&& m[m.len() - 2] == POINT
    &&& forall|i: int| 0 <= i < m.len() && i != m.len() - 2 ==> is_digit(#[trigger] m[i])
}

/// The value of a well-formed value text, multiplied by ten: the integer
/// part times ten plus the fractional digit, negated under a leading minus.
pub open spec fn scaled_value(s: Seq<u8>) -> int {
    let m = magnitude_text(s);
    let mag = digits_value(m.subrange(0, m.len() - 2)) * 10 + digit_of(m[m.len() - 1]);
    if has_sign(s) {
        -mag
    } else {
        mag
    }
}

/// Position of the last occurrence of `c` in `s`, or -1.
pub open spec fn last_of(s: Seq<u8>, c: u8) -> int
    decreases s.len(),
{
    if s.len() == 0 {
        -1
    } else if s.last() == c {
        s.len() - 1
    } else {
        last_of(s.drop_last(), c)
    }
}

pub proof fn lemma_last_of_bounds(s: Seq<u8>, c: u8)
    ensures
        -1 <= last_of(s, c) < s.len(),
        last_of(s, c) >= 0 ==> s[last_of(s, c)] == c,
        forall|j: int| last_of(s, c) < j < s.len() ==> s[j] != c,
    decreases s.len(),
{
    if s.len() > 0 && s.last() != c {
        lemma_last_of_bounds(s.drop_last(), c);
        assert forall|j: int| last_of(s, c) < j < s.len() implies s[j] != c by {
            if j < s.len() - 1 {
                assert(s.drop_last()[j] == s[j]);
            }
        }
    }
}

/// The `(key, value text)` pair of a line, split at its last delimiter.
pub open spec fn split_spec(l: Seq<u8>) -> Option<(Seq<u8>, Seq<u8>)> {
    let i = last_of(l, DELIMITER);
    if i < 0 {
        None
    } else {
        Some((l.subrange(0, i), l.subrange(i + 1, l.len() as int)))
    }
}

proof fn lemma_pow10_monotone(n: nat)
    ensures
        1 <= pow10(n),
        forall|j: nat| j <= n ==> pow10(j) <= pow10(n),
    decreases n,
{
    if n > 0 {
        lemma_pow10_monotone((n - 1) as nat);
    }
}

proof fn lemma_pow10_bounds(n: nat)
    ensures
        1 <= pow10(n),
        n <= 8 ==> pow10(n) <= 100_000_000,
{
    lemma_pow10_monotone(8);
    lemma_pow10_monotone(n);
    reveal_with_fuel(pow10, 9);
    assert(pow10(8) == 100_000_000);
}

proof fn lemma_digits_value_bounds(d: Seq<u8>)
    requires
        forall|i: int| 0 <= i < d.len() ==> is_digit(#[trigger] d[i]),
    ensures
        0 <= digits_value(d) < pow10(d.len()),
    decreases d.len(),
{
    if d.len() > 0 {
        let t = d.drop_first();
        assert forall|i: int| 0 <= i < t.len() implies is_digit(#[trigger] t[i]) by {
            assert(t[i] == d[i + 1]);
        }
        lemma_digits_value_bounds(t);
        let p = pow10(t.len());
        assert(is_digit(d[0]));
        let x = digit_of(d[0]);
        assert(0 <= x * p <= 9 * p) by (nonlinear_arith)
            requires
                0 <= x <= 9,
                p >= 1,
        ;
    }
}

/// Splits a line at its last delimiter into the key before it and the value
/// text after it; `None` when the line holds no delimiter.
pub fn split_line(line: &[u8]) -> (r: Option<(&[u8], &[u8])>)
    ensures
        r is None <==> split_spec(line@) is None,
        r is Some ==> r.unwrap().0@ == split_spec(line@).unwrap().0 && r.unwrap().1@
            == split_spec(line@).unwrap().1,
{
    let mut i: usize = line.len();
    assert(line@.subrange(0, i as int) =~= line@);
    while i > 0 && line[i - 1] != DELIMITER
        invariant
            i <= line@.len(),
            last_of(line@.subrange(0, i as int), DELIMITER) == last_of(line@, DELIMITER),
        decreases i,
    {
        assert(line@.subrange(0, i as int).drop_last() =~= line@.subrange(0, i - 1));
        i = i - 1;
    }
    if i == 0 {
        assert(line@.subrange(0, 0) =~= Seq::<u8>::empty());
        None
    } else {
        Some((slice_subrange(line, 0, i - 1), slice_subrange(line, i, line.len())))
    }
}

/// Whether a value text has the shape `-?\d+\.\d` with at most
/// `MAX_DIGITS` digits.
pub fn is_value(s: &[u8]) -> (r: bool)
    ensures
        r == is_value_text(s@),
{
    let start: usize = if s.len() > 0 && s[0] == MINUS {
        1
    } else {
        0
    };
    let n = s.len();
    if n < start + 3 || n - start > MAX_DIGITS + 1 {
        return false;
    }
    let ghost m = magnitude_text(s@);
    assert(m =~= s@.subrange(start as int, n as int));
    if s[n - 2] != POINT {
        assert(m[m.len() - 2] == s@[n - 2]);
        return false;
    }
    let mut i: usize = start;
    while i < n
        invariant
            start <= i <= n == s@.len(),
            n >= start + 3,
            m == magnitude_text(s@),
            m == s@.subrange(start as int, n as int),
            forall|j: int| 0 <= j < i - start && j != m.len() - 2 ==> is_digit(#[trigger] m[j]),
        decreases n - i,
    {
        if i != n - 2 && !(48 <= s[i] && s[i] <= 57) {
            assert(m[i - start] == s@[i as int]);
            assert(!is_digit(m[i - start]));
            return false;
        }
        assert(m[i - start] == s@[i as int]);
        i = i + 1;
    }
    true
}

/// Decodes a value text of the shape `-?\d+\.\d` into its value times ten,
/// scanning the digits from the least significant one.
pub fn parse_i32(value: &str) -> (r: i32)
    requires
        is_value_text(value.spec_bytes()),
    ensures
        r == scaled_value(value.spec_bytes()),
{
    let bytes = value.as_bytes();
    parse_scaled(bytes)
}

/// Byte form of `parse_i32`.
pub fn parse_scaled(bytes: &[u8]) -> (r: i32)
    requires
        is_value_text(bytes@),
    ensures
        r == scaled_value(bytes@),
        -999_999_999 <= r <= 999_999_999,
{
    let ghost s = bytes@;
    let ghost m = magnitude_text(s);
    let negative = bytes[0] == MINUS;
    let start: usize = if negative {
        1
    } else {
        0
    };
    let n = bytes.len();
    assert(m =~= s.subrange(start as int, n as int));
    let ghost d = m.subrange(0, m.len() - 2);
    assert(is_digit(m[m.len() - 1]));
    let mut result: i32 = (bytes[n - 1] - 48) as i32;
    let mut place: i32 = 10;
    // digits of the integer part, from position `k` on, are accumulated
    let mut k: usize = n - 2;
    assert(d.subrange(k - start, d.len() as int) =~= Seq::<u8>::empty());
    assert forall|i: int| 0 <= i < d.len() implies is_digit(#[trigger] d[i]) by {
        assert(d[i] == m[i]);
    }
    while k > start
        invariant
            start <= k <= n - 2,
            n == s.len(),
            is_digit(m[m.len() - 1]),
            s == bytes@,
            m == s.subrange(start as int, n as int),
            d == m.subrange(0, m.len() - 2),
            d.len() == n - 2 - start,
            d.len() <= MAX_DIGITS - 1,
            forall|i: int| 0 <= i < d.len() ==> is_digit(#[trigger] d[i]),
            0 <= result <= 999_999_999,
            k > start ==> place == 10 * pow10((n - 2 - k) as nat),
            result == digits_value(d.subrange(k - start, d.len() as int)) * 10 + digit_of(m[m.len() - 1]),
        decreases k,
    {
        let ghost tail = d.subrange(k - start, d.len() as int);
        let ghost ext = d.subrange(k - 1 - start, d.len() as int);
        assert(ext.drop_first() =~= tail);
        assert(ext[0] == d[k - 1 - start]);
        assert(d[k - 1 - start] == bytes@[k - 1]);
        assert(is_digit(ext[0]));
        proof {
            lemma_pow10_bounds((n - 2 - k) as nat);
            lemma_digits_value_bounds(tail);
            lemma_digits_value_bounds(ext);
            lemma_pow10_bounds((n - 1 - k) as nat);
        }
        let digit: i32 = (bytes[k - 1] - 48) as i32;
        let ghost p = pow10((n - 2 - k) as nat);
        assert(digits_value(ext) == digit * p + digits_value(tail));
        assert(pow10((n - 1 - k) as nat) == 10 * p);
        assert(digits_value(ext) * 10 + digit_of(m[m.len() - 1]) <= 999_999_999) by (nonlinear_arith)
            requires
                digits_value(ext) < pow10((n - 1 - k) as nat),
                pow10((n - 1 - k) as nat) <= 100_000_000,
                0 <= digit_of(m[m.len() - 1]) <= 9,
        ;
        assert(digit * place == (digit * p) * 10) by (nonlinear_arith)
            requires
                place == 10 * p,
        ;
        assert(0 <= digit * place <= 9 * place) by (nonlinear_arith)
            requires
                0 <= digit <= 9,
                place >= 0,
        ;
        result = result + digit * place;
        if k - 1 > start {
            place = place * 10;
        }
        k = k - 1;
    }
    assert(d.subrange(0, d.len() as int) =~= d);
    if negative {
        -result
    } else {
        result
    }
}

} // verus!
