//! Reading a count typed on a line: surrounding whitespace is dropped, and
//! the rest must be a decimal number that fits in a `u32`.
use vstd::prelude::*;

verus! {

/// What remains of a text once its leading and trailing whitespace is
/// dropped.
pub uninterp spec fn trimmed(s: Seq<char>) -> Seq<char>;

/// Relies on `str::trim`: it drops leading and trailing whitespace (in the
/// sense of Unicode's White_Space property), so its result depends on the
/// text alone.
#[verifier::external_body]
fn trim_text<'a>(s: &'a str) -> (r: &'a str)
    ensures
        r@ == trimmed(s@),
{
    s.trim()
}

/// `c` is one of the digits `0` to `9`.
pub open spec fn is_digit(c: char) -> bool {
    '0' as u32 <= c as u32 <= '9' as u32
}

/// Every character of `s` is a decimal digit.
pub open spec fn all_digits(s: Seq<char>) -> bool {
    forall|j: int| 0 <= j < s.len() ==> is_digit(#[trigger] s[j])
}

/// The value of a run of decimal digits, most significant first.
pub open spec fn digits_value(s: Seq<char>) -> int
    decreases s.len(),
{
    if s.len() == 0 {
        0
    } else {
        digits_value(s.drop_last()) * 10 + (s.last() as u32 - '0' as u32)
    }
}

/// The digits of `s` after an optional leading `+`.
pub open spec fn unsigned_digits(s: Seq<char>) -> Seq<char> {
    if s.len() > 0 && s[0] == '+' {
        s.drop_first()
    } else {
        s
    }
}

/// The number that `s` writes: an optional `+`, then one decimal digit or
/// more, whose value fits in a `u32`; `None` for any other text.
pub open spec fn decimal_number(s: Seq<char>) -> Option<u32> {
    let digits = unsigned_digits(s);
    if digits.len() > 0 && all_digits(digits) && digits_value(digits) <= u32::MAX {
        Some(digits_value(digits) as u32)
    } else {
        None
    }
}

/// A longer run of digits is worth at least as much as its prefix.
proof fn lemma_prefix_value(s: Seq<char>, k: int)
    requires
        all_digits(s),
        0 <= k <= s.len(),
    ensures
        0 <= digits_value(s.subrange(0, k)) <= digits_value(s),
    decreases s.len(),
{
    if k == s.len() {
        assert(s.subrange(0, k) =~= s);
        lemma_value_nonneg(s);
    } else {
        lemma_prefix_value(s.drop_last(), k);
        assert(s.drop_last().subrange(0, k) =~= s.subrange(0, k));
        lemma_value_nonneg(s.drop_last());
        assert(is_digit(s[s.len() - 1]));
    }
}

proof fn lemma_value_nonneg(s: Seq<char>)
    requires
        all_digits(s),
    ensures
        digits_value(s) >= 0,
    decreases s.len(),
{
    if s.len() > 0 {
        lemma_value_nonneg(s.drop_last());
        assert(is_digit(s[s.len() - 1]));
    }
}

/// The number that `text` writes, as `decimal_number` reads it.
pub fn parse_count(text: &str) -> (r: Option<u32>)
    ensures
        r == decimal_number(text@),
{
    let n = text.unicode_len();
    let mut start: usize = 0;
    if n > 0 && text.get_char(0) == '+' {
        start = 1;
    }
    let ghost digits = unsigned_digits(text@);
    assert(digits =~= text@.subrange(start as int, n as int));
    if start == n {
        return None;
    }
    let mut value: u64 = 0;
    let mut i: usize = start;
    while i < n
        invariant
            n == text@.len(),
            start <= i <= n,
            digits == text@.subrange(start as int, n as int),
            digits == unsigned_digits(text@),
            all_digits(text@.subrange(start as int, i as int)),
            value == digits_value(text@.subrange(start as int, i as int)),
            value <= u32::MAX,
        decreases n - i,
    {
        let c = text.get_char(i);
        let ghost done = text@.subrange(start as int, i as int);
        let ghost next = text@.subrange(start as int, i + 1);
        assert(next.drop_last() =~= done);
        assert(next.last() == c && digits[i - start] == c);
        let code = c as u32;
        if code < '0' as u32 || code > '9' as u32 {
            assert(!is_digit(digits[i - start]));
            assert(!all_digits(digits));
            return None;
        }
        let d = (code - '0' as u32) as u64;
        let ghost prev = value as int;
        assert(prev * 10 + d <= 42949672959) by (nonlinear_arith)
            requires
                prev <= 4294967295,
                d <= 9,
        ;
        value = value * 10 + d;
        assert(value == digits_value(next));
        assert(all_digits(next));
        if value > u32::MAX as u64 {
            proof {
                if all_digits(digits) {
                    assert(digits.subrange(0, i + 1 - start) =~= next);
                    lemma_prefix_value(digits, i + 1 - start);
                }
            }
            return None;
        }
        i = i + 1;
    }
    assert(text@.subrange(start as int, n as int) =~= digits);
    Some(value as u32)
}

/// The count that a typed line holds: the line without its surrounding
/// whitespace, read as `decimal_number` reads it.
pub fn read_count(line: &str) -> (r: Option<u32>)
    ensures
        r == decimal_number(trimmed(line@)),
{
    parse_count(trim_text(line))
}

} // verus!
