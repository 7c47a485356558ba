//! Decimal text of integers: the form in which the wire protocol carries
//! integers, lengths and counts, and in which `SET ... PX` carries its delay.
use vstd::prelude::*;
use vstd::utf8::{
    decode_utf8, encode_utf8_decode_utf8, is_leading_byte_width_1,
    partial_valid_utf8_extend_ascii_block,
};

use crate::text::str_from_utf8;

verus! {

/// ASCII `0` to `9`.
pub open spec fn is_digit(b: u8) -> bool {
    48 <= b && b <= 57
}

pub open spec fn all_digits(s: Seq<u8>) -> bool {
    forall|i: int| 0 <= i < s.len() ==> is_digit(#[trigger] s[i])
}

/// The number that a run of decimal digits denotes, most significant first.
pub open spec fn digits_value(s: Seq<u8>) -> nat
    decreases s.len(),
{
    if s.len() == 0 {
        0
    } else {
        digits_value(s.drop_last()) * 10 + (s.last() - 48) as nat
    }
}

/// The shortest decimal text of `n`.
pub open spec fn nat_text(n: nat) -> Seq<u8>
    decreases n,
{
    if n < 10 {
        seq![(48 + n) as u8]
    } else {
        nat_text(n / 10).push((48 + n % 10) as u8)
    }
}

/// The shortest decimal text of `i`, with a leading `-` when it is negative.
pub open spec fn int_text(i: int) -> Seq<u8> {
    if i < 0 {
        seq![45u8] + nat_text((-i) as nat)
    } else {
        nat_text(i as nat)
    }
}

/// The value of an optional `+` or `-` followed by at least one digit.
pub open spec fn signed_value(s: Seq<u8>) -> Option<int> {
    if s.len() > 0 && (s[0] == 45 || s[0] == 43) {
        let d = s.drop_first();
        if d.len() > 0 && all_digits(d) {
            Some(if s[0] == 45 { -digits_value(d) } else { digits_value(d) as int })
        } else {
            None
        }
    } else if s.len() > 0 && all_digits(s) {
        Some(digits_value(s) as int)
    } else {
        None
    }
}

/// `s` can still grow into a signed decimal: an optional `+` or `-`, then
/// digits only.
pub open spec fn int_prefix(s: Seq<u8>) -> bool {
    forall|i: int| 0 <= i < s.len() ==> #[trigger] is_digit(s[i]) || (i == 0 && (s[i] == 43 || s[i] == 45))
}

/// Whether `s` can still grow into a signed decimal.
pub fn is_int_prefix(s: &[u8]) -> (r: bool)
    ensures
        r == int_prefix(s@),
{
    let mut i: usize = 0;
    while i < s.len()
        invariant
            i <= s@.len(),
            forall|j: int| 0 <= j < i ==> #[trigger] is_digit(s@[j]) || (j == 0 && (s@[j] == 43 || s@[j] == 45)),
        decreases s@.len() - i,
    {
        let b = s[i];
        if !((48 <= b && b <= 57) || (i == 0 && (b == 43 || b == 45))) {
            assert(!(is_digit(s@[i as int]) || (i == 0 && (s@[i as int] == 43 || s@[i as int] == 45))));
            return false;
        }
        i = i + 1;
    }
    true
}

/// `s` without its leading sign, if it has one.
pub open spec fn unsigned_part(s: Seq<u8>) -> Seq<u8> {
    if s.len() > 0 && (s[0] == 43 || s[0] == 45) {
        s.drop_first()
    } else {
        s
    }
}

/// The value of the digits after the sign of `s`, which can still grow into
/// a signed decimal, where that value is at most `limit`.
pub fn magnitude_upto(s: &[u8], limit: u64) -> (r: Option<u64>)
    requires
        int_prefix(s@),
        limit >= 9,
    ensures
        r == if digits_value(unsigned_part(s@)) <= limit {
            Some(digits_value(unsigned_part(s@)) as u64)
        } else {
            None
        },
{
    let start: usize = if s.len() > 0 && (s[0] == 43 || s[0] == 45) {
        1
    } else {
        0
    };
    let ghost d = s@.subrange(start as int, s@.len() as int);
    assert(d =~= unsigned_part(s@));
    if start == s.len() {
        assert(d =~= Seq::<u8>::empty());
        return Some(0);
    }
    assert(all_digits(d)) by {
        assert forall|k: int| 0 <= k < d.len() implies is_digit(#[trigger] d[k]) by {
            assert(d[k] == s@[k + start]);
            assert(is_digit(s@[k + start]) || (k + start == 0 && (s@[0] == 43 || s@[0] == 45)));
        }
    }
    digits_upto(s, start, limit)
}

/// What `str::parse::<i64>` reads from `s`: a signed value in range, or nothing.
pub open spec fn i64_of_text(s: Seq<u8>) -> Option<i64> {
    match signed_value(s) {
        Some(v) => if i64::MIN <= v <= i64::MAX {
            Some(v as i64)
        } else {
            None
        },
        None => None,
    }
}

/// What `str::parse::<u64>` reads from `s`: an optional `+`, then digits whose
/// value fits in a `u64`.
pub open spec fn u64_of_text(s: Seq<u8>) -> Option<u64> {
    let d = if s.len() > 0 && s[0] == 43 {
        s.drop_first()
    } else {
        s
    };
    if d.len() > 0 && all_digits(d) && digits_value(d) <= u64::MAX {
        Some(digits_value(d) as u64)
    } else {
        None
    }
}

pub proof fn lemma_nat_text(n: nat)
    ensures
        nat_text(n).len() > 0,
        all_digits(nat_text(n)),
        digits_value(nat_text(n)) == n,
    decreases n,
{
    if n >= 10 {
        lemma_nat_text(n / 10);
        let t = nat_text(n);
        assert(t.drop_last() =~= nat_text(n / 10));
        assert(t.last() == (48 + n % 10) as u8);
        assert(digits_value(t) == (n / 10) * 10 + n % 10);
        assert forall|i: int| 0 <= i < t.len() implies is_digit(#[trigger] t[i]) by {
            if i < t.len() - 1 {
                assert(t[i] == nat_text(n / 10)[i]);
            }
        }
    } else {
        assert(nat_text(n).drop_last() =~= Seq::<u8>::empty());
        assert(digits_value(nat_text(n)) == digits_value(Seq::<u8>::empty()) * 10 + n);
    }
}

pub proof fn lemma_int_text(i: int)
    requires
        i64::MIN <= i <= i64::MAX,
    ensures
        i64_of_text(int_text(i)) == Some(i as i64),
        int_text(i).len() > 0,
        forall|k: int| 0 <= k < int_text(i).len() ==> #[trigger] int_text(i)[k] == 45 || is_digit(
            int_text(i)[k],
        ),
{
    if i < 0 {
        let m = (-i) as nat;
        lemma_nat_text(m);
        assert(int_text(i).drop_first() =~= nat_text(m));
    } else {
        lemma_nat_text(i as nat);
    }
}

/// A run of digits is worth at least any of its prefixes.
pub proof fn lemma_digits_prefix(s: Seq<u8>, k: int)
    requires
        all_digits(s),
        0 <= k <= s.len(),
    ensures
        digits_value(s.subrange(0, k)) <= digits_value(s),
    decreases s.len(),
{
    if k < s.len() {
        lemma_digits_prefix(s.drop_last(), k);
        assert(s.drop_last().subrange(0, k) =~= s.subrange(0, k));
    } else {
        assert(s.subrange(0, k) =~= s);
    }
}

/// Appends the shortest decimal text of `n` to `out`.
pub fn push_u64_text(out: &mut Vec<u8>, n: u64)
    ensures
        final(out)@ == old(out)@ + nat_text(n as nat),
    decreases n,
{
    let ghost before = out@;
    if n >= 10 {
        push_u64_text(out, n / 10);
    }
    out.push((48 + n % 10) as u8);
    assert(out@ =~= before + nat_text(n as nat));
}

/// Appends the shortest decimal text of `i` to `out`, signed when negative.
pub fn push_i64_text(out: &mut Vec<u8>, i: i64)
    ensures
        final(out)@ == old(out)@ + int_text(i as int),
{
    let ghost before = out@;
    if i < 0 {
        out.push(45);
        let m: u64 = if i == i64::MIN {
            9223372036854775808
        } else {
            (-i) as u64
        };
        push_u64_text(out, m);
        assert(out@ =~= before + int_text(i as int));
    } else {
        push_u64_text(out, i as u64);
    }
}

/// Reads `s[start..]` as a run of at least one digit whose value is at most `limit`.
fn digits_upto(s: &[u8], start: usize, limit: u64) -> (r: Option<u64>)
    requires
        start <= s@.len(),
        limit >= 9,
    ensures
        ({
            let d = s@.subrange(start as int, s@.len() as int);
            r == if d.len() > 0 && all_digits(d) && digits_value(d) <= limit {
                Some(digits_value(d) as u64)
            } else {
                None
            }
        }),
{
    let ghost d = s@.subrange(start as int, s@.len() as int);
    if start >= s.len() {
        return None;
    }
    let mut acc: u64 = 0;
    let mut i: usize = start;
    while i < s.len()
        invariant
            start <= i <= s@.len(),
            d == s@.subrange(start as int, s@.len() as int),
            all_digits(s@.subrange(start as int, i as int)),
            acc == digits_value(s@.subrange(start as int, i as int)),
            acc <= limit,
            limit >= 9,
        decreases s@.len() - i,
    {
        let b = s[i];
        if b < 48 || b > 57 {
            assert(!is_digit(d[i - start]));
            return None;
        }
        let digit: u64 = (b - 48) as u64;
        let ghost next = s@.subrange(start as int, i + 1);
        assert(next.drop_last() =~= s@.subrange(start as int, i as int));
        assert(all_digits(next)) by {
            assert forall|k: int| 0 <= k < next.len() implies is_digit(#[trigger] next[k]) by {
                if k < next.len() - 1 {
                    assert(next[k] == s@.subrange(start as int, i as int)[k]);
                }
            }
        }
        if acc > (limit - digit) / 10 {
            proof {
                assert(acc * 10 + digit > limit) by (nonlinear_arith)
                    requires
                        acc > (limit - digit) / 10,
                        digit <= limit,
                ;
                if all_digits(d) {
                    lemma_digits_prefix(d, next.len() as int);
                    assert(d.subrange(0, next.len() as int) =~= next);
                }
            }
            return None;
        }
        assert(acc * 10 + digit <= limit) by (nonlinear_arith)
            requires
                acc <= (limit - digit) / 10,
                digit <= limit,
        ;
        acc = acc * 10 + digit;
        i = i + 1;
    }
    assert(s@.subrange(start as int, i as int) =~= d);
    Some(acc)
}

/// Reads a signed 64-bit integer as `str::parse::<i64>` does.
pub fn parse_i64(s: &[u8]) -> (r: Option<i64>)
    ensures
        r == i64_of_text(s@),
{
    if s.len() > 0 && (s[0] == 45 || s[0] == 43) {
        assert(s@.drop_first() =~= s@.subrange(1, s@.len() as int));
        if s[0] == 45 {
            match digits_upto(s, 1, 9223372036854775808) {
                Some(m) => Some(
                    if m == 9223372036854775808 {
                        i64::MIN
                    } else {
                        -(m as i64)
                    },
                ),
                None => None,
            }
        } else {
            match digits_upto(s, 1, 9223372036854775807) {
                Some(m) => Some(m as i64),
                None => None,
            }
        }
    } else {
        assert(s@.subrange(0, s@.len() as int) =~= s@);
        match digits_upto(s, 0, 9223372036854775807) {
            Some(m) => Some(m as i64),
            None => None,
        }
    }
}

/// Reads an unsigned 64-bit integer as `str::parse::<u64>` does.
pub fn parse_u64(s: &[u8]) -> (r: Option<u64>)
    ensures
        r == u64_of_text(s@),
{
    if s.len() > 0 && s[0] == 43 {
        assert(s@.drop_first() =~= s@.subrange(1, s@.len() as int));
        digits_upto(s, 1, 18446744073709551615)
    } else {
        assert(s@.subrange(0, s@.len() as int) =~= s@);
        digits_upto(s, 0, 18446744073709551615)
    }
}

/// The shortest decimal text of `n`, as a string.
pub fn u64_string(n: u64) -> (r: String)
    ensures
        r@ == decode_utf8(nat_text(n as nat)),
{
    let mut digits: Vec<u8> = Vec::new();
    push_u64_text(&mut digits, n);
    proof {
        let b = digits@;
        lemma_nat_text(n as nat);
        assert(b =~= nat_text(n as nat));
        assert forall|i: int| 0 <= i < b.len() implies #[trigger] is_leading_byte_width_1(b[i]) by {
            assert(is_digit(b[i]));
        }
        assert(b.subrange(0, 0) =~= Seq::<u8>::empty());
        partial_valid_utf8_extend_ascii_block(b, 0, b.len() as int);
        assert(b.subrange(0, b.len() as int) =~= b);
    }
    match str_from_utf8(digits.as_slice()) {
        Some(s) => {
            proof {
                encode_utf8_decode_utf8(s@);
            }
            s.to_owned()
        },
        None => {
            proof {
                assert(false);
            }
            String::new()
        },
    }
}

} // verus!
