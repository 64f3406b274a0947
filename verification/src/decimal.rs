//! Decimal text: reading unsigned and signed integers from ASCII bytes with the
//! rules of the standard library's integer parsing, and writing naturals as
//! decimal digits.
use vstd::prelude::*;

verus! {

/// True when `b` is an ASCII decimal digit.
pub open spec fn is_digit(b: u8) -> bool {
    48 <= b <= 57
}

/// Every byte of `s` is an ASCII decimal digit.
pub open spec fn all_digits(s: Seq<u8>) -> bool {
    forall|i: int| 0 <= i < s.len() ==> is_digit(#[trigger] s[i])
}

/// The number that a run of decimal digits denotes (most significant first).
pub open spec fn digits_value(s: Seq<u8>) -> nat
    decreases s.len(),
{
    if s.len() == 0 {
        0
    } else {
        digits_value(s.drop_last()) * 10 + (s.last() - 48) as nat
    }
}

/// What the standard library reads from `s` as an unsigned integer of unbounded
/// width: an optional `+` followed by at least one digit.
pub open spec fn spec_unsigned_text(s: Seq<u8>) -> Option<nat> {
    let d = if s.len() > 0 && s[0] == 43 {
        s.drop_first()
    } else {
        s
    };
    if d.len() > 0 && all_digits(d) {
        Some(digits_value(d))
    } else {
        None
    }
}

/// What the standard library reads from `s` as a signed integer of unbounded
/// width: an optional `+` or `-` followed by at least one digit.
pub open spec fn spec_signed_text(s: Seq<u8>) -> Option<int> {
    if s.len() > 0 && s[0] == 45 {
        let d = s.drop_first();
        if d.len() > 0 && all_digits(d) {
            Some(-(digits_value(d) as int))
        } else {
            None
        }
    } else {
        match spec_unsigned_text(s) {
            Some(v) => Some(v as int),
            None => None,
        }
    }
}

/// `s` parsed as a `usize` (`str::parse::<usize>`): `None` on a malformed
/// text or on overflow.
pub open spec fn spec_parse_usize(s: Seq<u8>) -> Option<usize> {
    match spec_unsigned_text(s) {
        Some(v) => if v <= usize::MAX {
            Some(v as usize)
        } else {
            None
        },
        None => None,
    }
}

/// `s` parsed as an `i64` (`str::parse::<i64>`): `None` on a malformed text
/// or when the value lies outside the range of `i64`.
pub open spec fn spec_parse_i64(s: Seq<u8>) -> Option<i64> {
    match spec_signed_text(s) {
        Some(v) => if i64::MIN <= v <= i64::MAX {
            Some(v as i64)
        } else {
            None
        },
        None => None,
    }
}

/// The decimal digits of `n`, without leading zeros (`0` is written `"0"`).
pub open spec fn nat_digits(n: nat) -> Seq<u8>
    decreases n,
{
    if n < 10 {
        seq![(48 + n) as u8]
    } else {
        nat_digits(n / 10).push((48 + n % 10) as u8)
    }
}

/// A prefix of a run of digits never denotes more than the whole run.
pub proof fn lemma_digits_prefix_le(s: Seq<u8>, k: int)
    requires
        all_digits(s),
        0 <= k <= s.len(),
    ensures
        digits_value(s.take(k)) <= digits_value(s),
    decreases s.len(),
{
    if k < s.len() {
        assert(s.drop_last().take(k) =~= s.take(k));
        lemma_digits_prefix_le(s.drop_last(), k);
    } else {
        assert(s.take(k) =~= s);
    }
}

/// The digits written for `n` are digits and read back as `n`.
pub proof fn lemma_nat_digits(n: nat)
    ensures
        all_digits(nat_digits(n)),
        digits_value(nat_digits(n)) == n,
        nat_digits(n).len() >= 1,
        nat_digits(n)[0] != 48 || n == 0,
    decreases n,
{
    if n >= 10 {
        lemma_nat_digits(n / 10);
        let p = nat_digits(n / 10);
        let q = nat_digits(n);
        assert(q.drop_last() =~= p);
        assert(q[0] == p[0]);
        assert(q.last() == (48 + n % 10) as u8);
        assert(digits_value(q) == digits_value(p) * 10 + n % 10);
    } else {
        let q = nat_digits(n);
        assert(q.drop_last() =~= Seq::<u8>::empty());
        assert(digits_value(Seq::<u8>::empty()) == 0);
    }
}

/// Reads a natural number from `s[start..end]`, which must be all digits.
fn digits_in(s: &[u8], start: usize, end: usize, limit: u64) -> (r: Option<u64>)
    requires
        start <= end <= s@.len(),
        all_digits(s@.subrange(start as int, end as int)),
    ensures
        match r {
            Some(v) => v == digits_value(s@.subrange(start as int, end as int)) && v <= limit,
            None => digits_value(s@.subrange(start as int, end as int)) > limit,
        },
{
    let mut acc: u64 = 0;
    let mut i = start;
    while i < end
        invariant
            start <= i <= end <= s@.len(),
            all_digits(s@.subrange(start as int, end as int)),
            acc == digits_value(s@.subrange(start as int, i as int)),
            acc <= limit,
        decreases end - i,
    {
        let ghost whole = s@.subrange(start as int, end as int);
        let ghost next = s@.subrange(start as int, i + 1);
        assert(next.drop_last() =~= s@.subrange(start as int, i as int));
        assert(next =~= whole.take(i + 1 - start));
        assert(is_digit(whole[i - start]));
        let d = (s[i] - 48) as u64;
        proof {
            lemma_digits_prefix_le(whole, i + 1 - start);
        }
        match acc.checked_mul(10) {
            Some(m) => match m.checked_add(d) {
                Some(v) => {
                    if v > limit {
                        return None;
                    }
                    acc = v;
                },
                None => {
                    return None;
                },
            },
            None => {
                return None;
            },
        }
        i = i + 1;
    }
    Some(acc)
}

/// True when every byte of `s[start..end]` is a digit.
fn digits_only(s: &[u8], start: usize, end: usize) -> (r: bool)
    requires
        start <= end <= s@.len(),
    ensures
        r == all_digits(s@.subrange(start as int, end as int)),
{
    let mut i = start;
    while i < end
        invariant
            start <= i <= end <= s@.len(),
            all_digits(s@.subrange(start as int, i as int)),
        decreases end - i,
    {
        if s[i] < 48 || s[i] > 57 {
            assert(!is_digit(s@.subrange(start as int, end as int)[i - start]));
            return false;
        }
        i = i + 1;
        assert forall|j: int| 0 <= j < i - start implies is_digit(
            #[trigger] s@.subrange(start as int, i as int)[j],
        ) by {
            if j < i - 1 - start {
                assert(s@.subrange(start as int, i - 1)[j] == s@.subrange(start as int, i as int)[j]);
            }
        }
    }
    true
}

/// Parses `s` as a `usize` the way `str::parse::<usize>` does.
pub fn parse_usize(s: &[u8]) -> (r: Option<usize>)
    ensures
        r == spec_parse_usize(s@),
{
    let start: usize = if s.len() > 0 && s[0] == 43 {
        1
    } else {
        0
    };
    let ghost d = if s@.len() > 0 && s@[0] == 43 {
        s@.drop_first()
    } else {
        s@
    };
    assert(d =~= s@.subrange(start as int, s@.len() as int));
    if start >= s.len() || !digits_only(s, start, s.len()) {
        return None;
    }
    match digits_in(s, start, s.len(), usize::MAX as u64) {
        Some(v) => Some(v as usize),
        None => None,
    }
}

/// Parses `s` as an `i64` the way `str::parse::<i64>` does.
pub fn parse_i64(s: &[u8]) -> (r: Option<i64>)
    ensures
        r == spec_parse_i64(s@),
{
    if s.len() > 0 && s[0] == 45 {
        assert(s@.drop_first() =~= s@.subrange(1, s@.len() as int));
        if s.len() == 1 || !digits_only(s, 1, s.len()) {
            return None;
        }
        match digits_in(s, 1, s.len(), 0x8000_0000_0000_0000u64) {
            Some(v) => {
                if v == 0x8000_0000_0000_0000u64 {
                    Some(i64::MIN)
                } else {
                    Some(-(v as i64))
                }
            },
            None => None,
        }
    } else {
        let start: usize = if s.len() > 0 && s[0] == 43 {
            1
        } else {
            0
        };
        let ghost d = if s@.len() > 0 && s@[0] == 43 {
            s@.drop_first()
        } else {
            s@
        };
        assert(d =~= s@.subrange(start as int, s@.len() as int));
        if start >= s.len() || !digits_only(s, start, s.len()) {
            return None;
        }
        match digits_in(s, start, s.len(), i64::MAX as u64) {
            Some(v) => Some(v as i64),
            None => None,
        }
    }
}

/// The decimal digits of `n`.
pub fn decimal_digits(n: u64) -> (r: Vec<u8>)
    ensures
        r@ == nat_digits(n as nat),
    decreases n,
{
    if n < 10 {
        let mut v = Vec::new();
        v.push((48 + n) as u8);
        assert(v@ =~= seq![(48 + n) as u8]);
        v
    } else {
        let mut v = decimal_digits(n / 10);
        v.push((48 + n % 10) as u8);
        v
    }
}

} // verus!
