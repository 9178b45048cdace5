use vstd::prelude::*;

verus! {

/// Relies on `str::chars` and `Iterator::collect`: the characters of `s`, in order.
#[verifier::external_body]
pub(crate) fn chars_of(s: &str) -> (r: Vec<char>)
    ensures
        r@ == s@,
{
    s.chars().collect()
}

/// Relies on `FromIterator<char>` for `String`: the string of the characters `cs`.
#[verifier::external_body]
pub(crate) fn string_of(cs: &[char]) -> (r: String)
    ensures
        r@ == cs@,
{
    cs.iter().collect()
}

pub open spec fn is_digit(c: char) -> bool {
    '0' <= c && c <= '9'
}

pub open spec fn digit_value(c: char) -> int {
    c as int - '0' as int
}

pub open spec fn digit_char(d: int) -> char {
    (d + '0' as int) as char
}

/// The value of a string of decimal digits.
pub open spec fn digits_value(cs: Seq<char>) -> int
    decreases cs.len(),
{
    if cs.len() == 0 {
        0
    } else {
        digits_value(cs.drop_last()) * 10 + digit_value(cs.last())
    }
}

pub open spec fn all_digits(cs: Seq<char>) -> bool {
    forall|i: int| 0 <= i < cs.len() ==> is_digit(#[trigger] cs[i])
}

/// The digits of an unsigned decimal literal: an optional `+`, then at least one digit.
pub open spec fn unsigned_digits(cs: Seq<char>) -> Seq<char> {
    if cs.len() > 0 && cs[0] == '+' {
        cs.subrange(1, cs.len() as int)
    } else {
        cs
    }
}

/// The value of an unsigned decimal literal no larger than `max`, as the
/// standard library's integer parsing reads it.
pub open spec fn parse_unsigned(cs: Seq<char>, max: int) -> Option<int> {
    let ds = unsigned_digits(cs);
    if ds.len() > 0 && all_digits(ds) && 0 <= digits_value(ds) <= max {
        Some(digits_value(ds))
    } else {
        None
    }
}

proof fn lemma_digits_value_nonneg(cs: Seq<char>)
    requires
        all_digits(cs),
    ensures
        digits_value(cs) >= 0,
    decreases cs.len(),
{
    if cs.len() > 0 {
        assert(all_digits(cs.drop_last())) by {
            assert forall|i: int| 0 <= i < cs.drop_last().len() implies is_digit(#[trigger] cs.drop_last()[i]) by {
                assert(cs.drop_last()[i] == cs[i]);
            }
        }
        lemma_digits_value_nonneg(cs.drop_last());
        assert(is_digit(cs[cs.len() - 1]));
    }
}

/// Reads an unsigned decimal literal no larger than `max`.
pub fn parse_decimal(cs: &[char], max: u64) -> (r: Option<u64>)
    ensures
        match parse_unsigned(cs@, max as int) {
            Some(v) => r == Some(v as u64),
            None => r is None,
        },
{
    let mut i: usize = 0;
    if cs.len() > 0 && cs[0] == '+' {
        i = 1;
    }
    let ghost first = i as int;
    let ghost ds = unsigned_digits(cs@);
    assert(ds =~= cs@.subrange(first, cs@.len() as int));
    if i == cs.len() {
        return None;
    }
    let mut acc: u64 = 0;
    while i < cs.len()
        invariant
            0 <= first <= i <= cs.len(),
            ds == cs@.subrange(first, cs@.len() as int),
            ds == unsigned_digits(cs@),
            all_digits(cs@.subrange(first, i as int)),
            acc as int == digits_value(cs@.subrange(first, i as int)),
            acc <= max,
        decreases cs.len() - i,
    {
        let c = cs[i];
        proof {
            assert(cs@.subrange(first, i + 1).drop_last() =~= cs@.subrange(first, i as int));
            assert(cs@.subrange(first, i + 1).last() == c);
        }
        if !('0' <= c && c <= '9') {
            proof {
                assert(ds[i - first] == c);
                assert(!is_digit(ds[i - first]));
            }
            return None;
        }
        let d = (c as u32 - '0' as u32) as u64;
        assert(d as int == digit_value(c));
        proof {
            assert(all_digits(cs@.subrange(first, i + 1))) by {
                assert forall|k: int| 0 <= k < i + 1 - first implies is_digit(#[trigger] cs@.subrange(first, i + 1)[k]) by {
                    if k < i - first {
                        assert(cs@.subrange(first, i + 1)[k] == cs@.subrange(first, i as int)[k]);
                    }
                }
            }
        }
        if d > max || acc > (max - d) / 10 {
            proof {
                assert(acc * 10 + d > max) by (nonlinear_arith)
                    requires d > max || acc > (max - d) / 10, d <= 9, acc >= 0;
                assert(ds.subrange(0, i + 1 - first) =~= cs@.subrange(first, i + 1));
                assert(ds.subrange(0, ds.len() as int) =~= ds);
                if all_digits(ds) {
                    lemma_digits_value_prefix_grows(ds, i + 1 - first, cs@.len() - first);
                }
            }
            return None;
        }
        proof {
            assert(acc * 10 + d <= max) by (nonlinear_arith)
                requires acc <= (max - d) / 10, d <= max;
        }
        acc = acc * 10 + d;
        i = i + 1;
    }
    assert(cs@.subrange(first, i as int) =~= ds);
    proof {
        lemma_digits_value_nonneg(ds);
    }
    Some(acc)
}

proof fn lemma_digits_value_prefix_grows(ds: Seq<char>, a: int, b: int)
    requires
        0 <= a <= b <= ds.len(),
        all_digits(ds.subrange(0, a)),
        all_digits(ds),
    ensures
        digits_value(ds.subrange(0, a)) <= digits_value(ds.subrange(0, b)),
    decreases b - a,
{
    if a < b {
        lemma_digits_value_prefix_grows(ds, a, b - 1);
        let p = ds.subrange(0, b);
        assert(p.drop_last() =~= ds.subrange(0, b - 1));
        assert(all_digits(ds.subrange(0, b - 1))) by {
            assert forall|i: int| 0 <= i < b - 1 implies is_digit(#[trigger] ds.subrange(0, b - 1)[i]) by {
                assert(ds.subrange(0, b - 1)[i] == ds[i]);
            }
        }
        lemma_digits_value_nonneg(ds.subrange(0, b - 1));
        assert(is_digit(ds[b - 1]));
    }
}

/// The decimal digits of `v`, without leading zeros.
pub open spec fn decimal(v: nat) -> Seq<char>
    decreases v,
{
    if v < 10 {
        seq![digit_char(v as int)]
    } else {
        decimal(v / 10).push(digit_char((v % 10) as int))
    }
}

/// The last `width` decimal digits of `v`, padded with zeros.
pub open spec fn decimal_padded(v: nat, width: nat) -> Seq<char>
    decreases width,
{
    if width == 0 {
        Seq::empty()
    } else {
        decimal_padded(v / 10, (width - 1) as nat).push(digit_char((v % 10) as int))
    }
}

/// Writes `v` in decimal.
pub fn format_decimal(v: u64) -> (r: Vec<char>)
    ensures
        r@ == decimal(v as nat),
    decreases v,
{
    if v < 10 {
        let mut r: Vec<char> = Vec::new();
        r.push(((v as u32) + ('0' as u32)) as u8 as char);
        proof {
            assert(r@ =~= decimal(v as nat));
        }
        r
    } else {
        let mut r = format_decimal(v / 10);
        r.push((((v % 10) as u32) + ('0' as u32)) as u8 as char);
        r
    }
}

/// Writes the last `width` decimal digits of `v`, padded with zeros.
pub fn format_decimal_padded(v: u64, width: usize) -> (r: Vec<char>)
    ensures
        r@ == decimal_padded(v as nat, width as nat),
    decreases width,
{
    if width == 0 {
        Vec::new()
    } else {
        let mut r = format_decimal_padded(v / 10, width - 1);
        r.push((((v % 10) as u32) + ('0' as u32)) as u8 as char);
        r
    }
}

pub open spec fn pow10(w: nat) -> nat
    decreases w,
{
    if w == 0 {
        1
    } else {
        10 * pow10((w - 1) as nat)
    }
}

/// Zero-padded digits read back give the value modulo the width's power of ten.
pub proof fn lemma_decimal_padded(x: nat, w: nat)
    ensures
        decimal_padded(x, w).len() == w,
        all_digits(decimal_padded(x, w)),
        digits_value(decimal_padded(x, w)) == x % pow10(w),
        pow10(w) > 0,
    decreases w,
{
    if w > 0 {
        let p = pow10((w - 1) as nat);
        lemma_decimal_padded(x / 10, (w - 1) as nat);
        let d = decimal_padded(x, w);
        assert(d.drop_last() == decimal_padded(x / 10, (w - 1) as nat));
        let r = (x % 10) as int;
        assert(0 <= r < 10);
        assert(digit_value(digit_char(r)) == r);
        assert(is_digit(digit_char(r)));
        assert forall|i: int| 0 <= i < d.len() implies is_digit(#[trigger] d[i]) by {
            if i < d.len() - 1 {
                assert(d[i] == d.drop_last()[i]);
            }
        }
        vstd::arithmetic::div_mod::lemma_breakdown(x as int, 10, p as int);
        assert(digits_value(d) == digits_value(d.drop_last()) * 10 + digit_value(d.last()));
        assert(digits_value(d) == ((x / 10) % p) * 10 + r);
        assert(10 * p == pow10(w));
    }
}

} // verus!
