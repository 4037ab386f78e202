//! Decimal literals such as `-3200.5`, held exactly as a mantissa and a power of ten.
use vstd::prelude::*;
use crate::parser::{FieldValue, all_digits, digits_value, is_digit, pow10, lemma_digits_value_bound};

verus! {

/// The number `mantissa / 10^scale`, read from a decimal literal such as
/// `-3200.5`, `.25` or `7.`. Exponent forms (`1e3`), `inf` and `nan` are not
/// decimal literals here, and a literal has at most 18 digits.
#[derive(Debug, Clone, Copy, PartialEq, Eq, Structural)]
pub struct Decimal {
    pub mantissa: i64,
    pub scale: u32,
}

/// Most digits a decimal literal may have.
pub const MAX_DIGITS: usize = 18;

/// `b[k]` is the one dot of `b`, with only digits before and after it
/// (either side may be empty).
pub open spec fn dotted(b: Seq<u8>, k: int) -> bool {
    &&& 0 <= k < b.len()
    &&& b[k] == 46
    &&& all_digits(b.subrange(0, k))
    &&& all_digits(b.subrange(k + 1, b.len() as int))
}

/// Value and scale of an unsigned decimal body: digits with at most one dot,
/// at least one and at most 18 digits.
pub open spec fn decimal_body(b: Seq<u8>) -> Option<(nat, nat)> {
    if 0 < b.len() <= MAX_DIGITS && all_digits(b) {
        Some((digits_value(b), 0))
    } else if 2 <= b.len() <= MAX_DIGITS + 1 && exists|k: int| dotted(b, k) {
        let k = choose|k: int| dotted(b, k);
        Some(
            (
                digits_value(b.subrange(0, k) + b.subrange(k + 1, b.len() as int)),
                (b.len() - k - 1) as nat,
            ),
        )
    } else {
        None
    }
}

/// A decimal literal: an optional `+` or `-`, then a decimal body.
pub open spec fn decimal_literal(t: Seq<u8>) -> Option<(int, nat)> {
    let signed = t.len() > 0 && (t[0] == 43 || t[0] == 45);
    let body = if signed {
        t.drop_first()
    } else {
        t
    };
    match decimal_body(body) {
        Some((v, s)) => Some((if signed && t[0] == 45 { -v } else { v as int }, s)),
        None => None,
    }
}

proof fn lemma_dotted_unique(b: Seq<u8>, k1: int, k2: int)
    requires
        dotted(b, k1),
        dotted(b, k2),
    ensures
        k1 == k2,
{
    if k1 < k2 {
        assert(b.subrange(0, k2)[k1] == b[k1]);
    } else if k2 < k1 {
        assert(b.subrange(0, k1)[k2] == b[k2]);
    }
}

pub proof fn lemma_digits_value_concat(a: Seq<u8>, b: Seq<u8>)
    ensures
        digits_value(a + b) == digits_value(a) * pow10(b.len()) + digits_value(b),
    decreases b.len(),
{
    if b.len() == 0 {
        assert(a + b =~= a);
        assert(pow10(0) == 1);
        assert(digits_value(a) * 1 == digits_value(a));
    } else {
        assert((a + b).drop_last() =~= a + b.drop_last());
        assert((a + b).last() == b.last());
        lemma_digits_value_concat(a, b.drop_last());
        let x = digits_value(a);
        let p = pow10(b.drop_last().len());
        let y = digits_value(b.drop_last());
        assert(digits_value(a + b) == digits_value((a + b).drop_last()) * 10 + ((a + b).last()
            - 48) as nat);
        assert(digits_value(b) == y * 10 + (b.last() - 48) as nat);
        assert(pow10(b.len()) == 10 * p);
        assert((x * p + y) * 10 == x * (10 * p) + y * 10) by (nonlinear_arith);
        assert(digits_value(a + b) == (x * p + y) * 10 + (b.last() - 48) as nat);
        assert(x * pow10(b.len()) == x * (10 * p));
    }
}

pub proof fn lemma_pow10_mono(a: nat, b: nat)
    requires
        a <= b,
    ensures
        pow10(a) <= pow10(b),
        pow10(a) >= 1,
    decreases b,
{
    if b > a {
        lemma_pow10_mono(a, (b - 1) as nat);
    } else if a > 0 {
        lemma_pow10_mono((a - 1) as nat, (a - 1) as nat);
    }
}

pub(crate) fn pow10_exec(n: usize) -> (r: u64)
    requires
        n <= MAX_DIGITS,
    ensures
        r == pow10(n as nat),
{
    proof {
        lemma_pow10_mono(n as nat, 18);
        reveal_with_fuel(pow10, 19);
    }
    let mut r: u64 = 1;
    let mut i: usize = 0;
    while i < n
        invariant
            i <= n <= MAX_DIGITS,
            r == pow10(i as nat),
            pow10(n as nat) <= 1000000000000000000,
        decreases n - i,
    {
        proof {
            lemma_pow10_mono((i + 1) as nat, n as nat);
        }
        r = r * 10;
        i = i + 1;
    }
    r
}

/// Position of the first dot in `raw[lo..hi]`, or `hi` if there is none.
pub(crate) fn find_dot(raw: &Vec<u8>, lo: usize, hi: usize) -> (r: usize)
    requires
        lo <= hi <= raw@.len(),
    ensures
        lo <= r <= hi,
        r < hi ==> raw@[r as int] == 46,
        forall|i: int| lo <= i < r ==> raw@[i] != 46,
{
    let mut i: usize = lo;
    while i < hi && raw[i] != 46
        invariant
            lo <= i <= hi <= raw@.len(),
            forall|k: int| lo <= k < i ==> raw@[k] != 46,
        decreases hi - i,
    {
        i = i + 1;
    }
    i
}

/// Value of the digits `raw[lo..hi]`, zero when the range is empty.
fn digits_or_zero(raw: &Vec<u8>, lo: usize, hi: usize) -> (r: Option<u64>)
    requires
        lo <= hi <= raw@.len(),
        hi - lo <= MAX_DIGITS,
    ensures
        r is Some <==> all_digits(raw@.subrange(lo as int, hi as int)),
        r matches Some(v) ==> v == digits_value(raw@.subrange(lo as int, hi as int)),
{
    let mut value: u64 = 0;
    let mut i: usize = lo;
    proof {
        lemma_pow10_mono((hi - lo) as nat, 18);
        reveal_with_fuel(pow10, 19);
    }
    while i < hi
        invariant
            lo <= i <= hi <= raw@.len(),
            hi - lo <= MAX_DIGITS,
            pow10((hi - lo) as nat) <= 1000000000000000000,
            all_digits(raw@.subrange(lo as int, i as int)),
            value == digits_value(raw@.subrange(lo as int, i as int)),
        decreases hi - i,
    {
        let b = raw[i];
        if b < 48 || b > 57 {
            assert(raw@.subrange(lo as int, hi as int)[i - lo] == b);
            return None;
        }
        let ghost prefix = raw@.subrange(lo as int, i as int);
        let ghost next = raw@.subrange(lo as int, i + 1);
        assert(next.drop_last() =~= prefix);
        assert(all_digits(next)) by {
            assert forall|k: int| 0 <= k < next.len() implies is_digit(#[trigger] next[k]) by {
                if k < prefix.len() {
                    assert(next[k] == prefix[k]);
                }
            }
        }
        proof {
            lemma_digits_value_bound(next);
            lemma_pow10_mono(next.len(), (hi - lo) as nat);
        }
        value = value * 10 + (b - 48) as u64;
        i = i + 1;
    }
    assert(raw@.subrange(lo as int, hi as int) =~= raw@.subrange(lo as int, i as int));
    Some(value)
}

/// The value and scale of a body whose one dot is at `k`.
pub proof fn lemma_dotted_value(b: Seq<u8>, k: int)
    requires
        dotted(b, k),
        2 <= b.len() <= MAX_DIGITS + 1,
    ensures
        ({
            let left = b.subrange(0, k);
            let right = b.subrange(k + 1, b.len() as int);
            &&& decimal_body(b) == Some(
                (
                    digits_value(left) * pow10(right.len()) + digits_value(right),
                    right.len(),
                ),
            )
            &&& digits_value(left) * pow10(right.len()) + digits_value(right)
                < 1000000000000000000
            &&& right.len() <= MAX_DIGITS
        }),
{
    let left = b.subrange(0, k);
    let right = b.subrange(k + 1, b.len() as int);
    reveal_with_fuel(pow10, 19);
    lemma_digits_value_concat(left, right);
    assert(all_digits(left + right)) by {
        assert forall|j: int| 0 <= j < (left + right).len() implies is_digit(
            #[trigger] (left + right)[j],
        ) by {
            if j < left.len() {
                assert((left + right)[j] == left[j]);
            } else {
                assert((left + right)[j] == right[j - left.len()]);
            }
        }
    }
    assert(!all_digits(b)) by {
        assert(!is_digit(b[k]));
    }
    lemma_digits_value_bound(left + right);
    lemma_pow10_mono((left + right).len(), 18);
    assert(exists|j: int| dotted(b, j));
    let c = choose|j: int| dotted(b, j);
    lemma_dotted_unique(b, c, k);
}

/// Value and scale of the decimal body `raw[lo..hi]`.
fn body_at(raw: &Vec<u8>, lo: usize, hi: usize) -> (r: Option<(u64, u32)>)
    requires
        lo <= hi <= raw@.len(),
    ensures
        r is Some <==> decimal_body(raw@.subrange(lo as int, hi as int)) is Some,
        r matches Some(p) ==> decimal_body(raw@.subrange(lo as int, hi as int)) == Some(
            (p.0 as nat, p.1 as nat),
        ),
        r matches Some(p) ==> p.0 < 1000000000000000000 && p.1 <= MAX_DIGITS,
{
    let ghost b = raw@.subrange(lo as int, hi as int);
    let dot = find_dot(raw, lo, hi);
    if dot == hi {
        assert(forall|k: int| !dotted(b, k)) by {
            assert forall|k: int| !dotted(b, k) by {
                if 0 <= k < b.len() {
                    assert(b[k] == raw@[lo + k]);
                }
            }
        }
        if hi - lo == 0 || hi - lo > MAX_DIGITS {
            return None;
        }
        match digits_or_zero(raw, lo, hi) {
            Some(v) => {
                proof {
                    lemma_digits_value_bound(b);
                    lemma_pow10_mono(b.len(), 18);
                    reveal_with_fuel(pow10, 19);
                }
                Some((v, 0))
            },
            None => None,
        }
    } else {
        let k = dot - lo;
        assert(b[k as int] == 46);
        if hi - lo < 2 || hi - lo > MAX_DIGITS + 1 {
            assert(!all_digits(b));
            return None;
        }
        let ip = digits_or_zero(raw, lo, dot);
        let fp = digits_or_zero(raw, dot + 1, hi);
        assert(raw@.subrange(lo as int, dot as int) =~= b.subrange(0, k as int));
        assert(raw@.subrange(dot + 1, hi as int) =~= b.subrange(k + 1, b.len() as int));
        assert(!all_digits(b));
        match (ip, fp) {
            (Some(x), Some(y)) => {
                proof {
                    lemma_dotted_value(b, k as int);
                }
                let scale = hi - dot - 1;
                let p = pow10_exec(scale);
                Some((x * p + y, scale as u32))
            },
            _ => {
                assert(forall|j: int| !dotted(b, j)) by {
                    assert forall|j: int| !dotted(b, j) by {
                        if dotted(b, j) {
                            if j < k {
                                assert(raw@[lo + j] == b[j]);
                            } else if j > k {
                                assert(b.subrange(0, j)[k as int] == b[k as int]);
                            }
                        }
                    }
                }
                None
            },
        }
    }
}

impl FieldValue for Decimal {
    open spec fn spec_from_field(t: Seq<u8>) -> Option<Decimal> {
        match decimal_literal(t) {
            Some((m, s)) => Some(Decimal { mantissa: m as i64, scale: s as u32 }),
            None => None,
        }
    }

    fn from_field(raw: &Vec<u8>, lo: usize, hi: usize) -> (r: Option<Decimal>) {
        let ghost t = raw@.subrange(lo as int, hi as int);
        let signed = lo < hi && (raw[lo] == 43 || raw[lo] == 45);
        let start = if signed {
            lo + 1
        } else {
            lo
        };
        proof {
            if signed {
                assert(t.drop_first() =~= raw@.subrange(start as int, hi as int));
            }
        }
        match body_at(raw, start, hi) {
            Some((v, s)) => {
                let m = v as i64;
                if signed && raw[lo] == 45 {
                    Some(Decimal { mantissa: -m, scale: s })
                } else {
                    Some(Decimal { mantissa: m, scale: s })
                }
            },
            None => None,
        }
    }
}

} // verus!
