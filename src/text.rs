//! Comparing text, exactly or with ASCII letters taken without regard to case.
use vstd::prelude::*;
use vstd::string::StringSliceAdditionalSpecFns;
use vstd::utf8::{
    char_is_scalar, encode_scalar, encode_utf8, encode_utf8_decode_utf8, has_width_1_encoding,
    has_width_2_encoding, has_width_3_encoding, valid_utf8,
};

verus! {

/// The characters of an optional text.
pub open spec fn text_of(s: Option<String>) -> Option<Seq<char>> {
    match s {
        Some(t) => Some(t@),
        None => None,
    }
}

/// The upper-case form of an ASCII letter; any other byte as it is.
pub open spec fn ascii_upper(b: u8) -> u8 {
    if 97 <= b && b <= 122 {
        (b - 32) as u8
    } else {
        b
    }
}

pub open spec fn same_ignoring_case(a: Seq<u8>, b: Seq<u8>) -> bool {
    a.len() == b.len() && forall|i: int| 0 <= i < a.len() ==> #[trigger] ascii_upper(a[i]) == ascii_upper(b[i])
}

/// `name` is `word`, ASCII letters compared without regard to case.
pub open spec fn names(name: Seq<char>, word: Seq<char>) -> bool {
    same_ignoring_case(encode_utf8(name), encode_utf8(word))
}

fn upper(b: u8) -> (r: u8)
    ensures
        r == ascii_upper(b),
{
    if 97 <= b && b <= 122 {
        b - 32
    } else {
        b
    }
}

/// Compares two texts, ASCII letters without regard to case.
pub fn eq_ignore_case(a: &str, b: &str) -> (r: bool)
    ensures
        r == names(a@, b@),
{
    let x = a.as_bytes();
    let y = b.as_bytes();
    if x.len() != y.len() {
        return false;
    }
    let mut i: usize = 0;
    while i < x.len()
        invariant
            x@ == encode_utf8(a@),
            y@ == encode_utf8(b@),
            x@.len() == y@.len(),
            i <= x@.len(),
            forall|j: int| 0 <= j < i ==> #[trigger] ascii_upper(x@[j]) == ascii_upper(y@[j]),
        decreases x@.len() - i,
    {
        if upper(x[i]) != upper(y[i]) {
            return false;
        }
        i = i + 1;
    }
    true
}

/// Compares two texts exactly.
pub fn text_eq(a: &str, b: &str) -> (r: bool)
    ensures
        r == (a@ == b@),
{
    let x = a.as_bytes();
    let y = b.as_bytes();
    proof {
        encode_utf8_decode_utf8(a@);
        encode_utf8_decode_utf8(b@);
    }
    if x.len() != y.len() {
        return false;
    }
    let mut i: usize = 0;
    while i < x.len()
        invariant
            x@ == encode_utf8(a@),
            y@ == encode_utf8(b@),
            x@.len() == y@.len(),
            i <= x@.len(),
            forall|j: int| 0 <= j < i ==> x@[j] == y@[j],
        decreases x@.len() - i,
    {
        if x[i] != y[i] {
            return false;
        }
        i = i + 1;
    }
    assert(x@ =~= y@);
    true
}

/// Relies on `std::str::from_utf8`: it accepts exactly the well-formed UTF-8
/// byte sequences, and the text it returns is made of those same bytes.
#[verifier::external_body]
pub(crate) fn str_from_utf8(b: &[u8]) -> (r: Option<&str>)
    ensures
        r.is_some() == valid_utf8(b@),
        r matches Some(s) ==> s.spec_bytes() == b@,
{
    std::str::from_utf8(b).ok()
}

/// `b` is the start of some well-formed UTF-8 text.
pub open spec fn utf8_prefix(b: Seq<u8>) -> bool {
    exists|more: Seq<u8>| valid_utf8(b + more)
}

/// Relies on `std::str::from_utf8` and, on failure, its `Utf8Error::error_len`:
/// that is `None` exactly when the input ends inside a character that more
/// bytes could complete, and `Some` when a byte no UTF-8 text can hold there
/// has been met.
#[verifier::external_body]
pub(crate) fn starts_utf8(b: &[u8]) -> (r: bool)
    ensures
        r == utf8_prefix(b@),
{
    match std::str::from_utf8(b) {
        Ok(_) => true,
        Err(e) => e.error_len().is_none(),
    }
}

/// The length of the character that byte `c` begins, for a byte that begins
/// one of two bytes or more; 1 for any other byte.
pub open spec fn lead_width(c: u8) -> int {
    if c >= 0xF0 {
        4
    } else if c >= 0xE0 {
        3
    } else if c >= 0xC0 {
        2
    } else {
        1
    }
}

/// How many bytes the last character of `b` still lacks, where `b` is the
/// start of well-formed UTF-8: the character begun by one of its last three
/// bytes and not yet finished.
pub open spec fn pending_bytes(b: Seq<u8>) -> int {
    let n = b.len() as int;
    if n >= 1 && lead_width(b[n - 1]) > 1 {
        lead_width(b[n - 1]) - 1
    } else if n >= 2 && lead_width(b[n - 2]) > 2 {
        lead_width(b[n - 2]) - 2
    } else if n >= 3 && lead_width(b[n - 3]) > 3 {
        lead_width(b[n - 3]) - 3
    } else {
        0
    }
}

fn width_of(c: u8) -> (r: usize)
    ensures
        r == lead_width(c),
{
    if c >= 0xF0 {
        4
    } else if c >= 0xE0 {
        3
    } else if c >= 0xC0 {
        2
    } else {
        1
    }
}

/// How many bytes the last character of `b` still lacks.
pub fn pending_bytes_of(b: &[u8]) -> (r: usize)
    ensures
        r == pending_bytes(b@),
{
    let n = b.len();
    if n >= 1 && width_of(b[n - 1]) > 1 {
        width_of(b[n - 1]) - 1
    } else if n >= 2 && width_of(b[n - 2]) > 2 {
        width_of(b[n - 2]) - 2
    } else if n >= 3 && width_of(b[n - 3]) > 3 {
        width_of(b[n - 3]) - 3
    } else {
        0
    }
}

proof fn lemma_encode_concat(a: Seq<char>, b: Seq<char>)
    ensures
        encode_utf8(a + b) == encode_utf8(a) + encode_utf8(b),
    decreases a.len(),
{
    if a.len() == 0 {
        assert(a + b =~= b);
        assert(encode_utf8(a) + encode_utf8(b) =~= encode_utf8(b));
    } else {
        assert((a + b).drop_first() =~= a.drop_first() + b);
        assert((a + b)[0] == a[0]);
        lemma_encode_concat(a.drop_first(), b);
        assert(encode_utf8(a + b) =~= encode_utf8(a) + encode_utf8(b));
    }
}

proof fn lemma_encode_one(c: char)
    ensures
        encode_utf8(seq![c]) == encode_scalar(c as u32),
{
    let one = seq![c];
    assert(one[0] == c);
    assert(one.drop_first() =~= Seq::<char>::empty());
    assert(encode_utf8(one) == encode_scalar(c as u32) + encode_utf8(one.drop_first()));
    assert(encode_scalar(c as u32) + encode_utf8(Seq::<char>::empty()) =~= encode_scalar(c as u32));
}

/// The first byte of a character's encoding gives its length; the others
/// begin nothing.
proof fn lemma_scalar_bytes(c: char)
    ensures
        1 <= encode_scalar(c as u32).len() <= 4,
        lead_width(encode_scalar(c as u32)[0]) == encode_scalar(c as u32).len(),
        forall|i: int|
            1 <= i < encode_scalar(c as u32).len() ==> lead_width(#[trigger] encode_scalar(
                c as u32,
            )[i]) == 1,
{
    let x = c as u32;
    char_is_scalar(c);
    assert((0x80u8 | ((x & 0x3F) as u8)) < 0xC0u8) by (bit_vector);
    assert((0x80u8 | (((x >> 6) & 0x3F) as u8)) < 0xC0u8) by (bit_vector);
    assert((0x80u8 | (((x >> 12) & 0x3F) as u8)) < 0xC0u8) by (bit_vector);
    if has_width_1_encoding(x) {
        assert(((x & 0x7F) as u8) < 0xC0u8) by (bit_vector);
    } else if has_width_2_encoding(x) {
        assert(0xC0u8 <= (0xC0u8 | (((x >> 6) & 0x1F) as u8)) < 0xE0u8) by (bit_vector);
    } else if has_width_3_encoding(x) {
        assert(0xE0u8 <= (0xE0u8 | (((x >> 12) & 0x0F) as u8)) < 0xF0u8) by (bit_vector);
    } else {
        assert(0xF0u8 <= (0xF0u8 | (((x >> 18) & 0x7) as u8))) by (bit_vector);
    }
}

/// The encoding of whole characters ends with no character begun and unfinished.
proof fn lemma_whole(s: Seq<char>)
    ensures
        forall|d: int|
            1 <= d <= 3 && d <= encode_utf8(s).len() ==> lead_width(
                #[trigger] encode_utf8(s)[encode_utf8(s).len() - d],
            ) <= d,
    decreases s.len(),
{
    if s.len() > 0 {
        let init = s.drop_last();
        let x = encode_utf8(init);
        let e = encode_scalar(s.last() as u32);
        assert(init + seq![s.last()] =~= s);
        lemma_encode_concat(init, seq![s.last()]);
        lemma_encode_one(s.last());
        assert(encode_utf8(s) =~= x + e);
        lemma_whole(init);
        lemma_scalar_bytes(s.last());
        assert forall|d: int|
            1 <= d <= 3 && d <= encode_utf8(s).len() implies lead_width(
            #[trigger] encode_utf8(s)[encode_utf8(s).len() - d],
        ) <= d by {
            let n = encode_utf8(s).len() as int;
            if n - d >= x.len() {
                assert(encode_utf8(s)[n - d] == e[n - d - x.len()]);
            } else {
                let d2 = d - e.len();
                assert(encode_utf8(s)[n - d] == x[x.len() - d2]);
            }
        }
    }
}

/// Any start of the encoding of whole characters lacks, for its last
/// character, no more bytes than the rest of the encoding holds.
pub proof fn lemma_pending_fits(s: Seq<char>, k: int)
    requires
        0 <= k <= encode_utf8(s).len(),
    ensures
        pending_bytes(encode_utf8(s).subrange(0, k)) <= encode_utf8(s).len() - k,
    decreases s.len(),
{
    if s.len() == 0 {
        return;
    }
    let init = s.drop_last();
    let x = encode_utf8(init);
    let e = encode_scalar(s.last() as u32);
    assert(init + seq![s.last()] =~= s);
    lemma_encode_concat(init, seq![s.last()]);
    lemma_encode_one(s.last());
    let c = encode_utf8(s);
    assert(c =~= x + e);
    lemma_scalar_bytes(s.last());
    let b = c.subrange(0, k);
    if k < x.len() {
        assert(b =~= x.subrange(0, k));
        lemma_pending_fits(init, k);
    } else {
        let r = k - x.len();
        lemma_whole(init);
        if r == e.len() {
            lemma_whole(s);
            assert(b =~= c);
        } else if r == 0 {
            assert(b =~= x);
        } else {
            assert(b[k - r] == e[0]);
            assert forall|j: int| 1 <= j < r implies lead_width(#[trigger] b[k - r + j]) == 1 by {
                assert(b[k - r + j] == e[j]);
            }
            if r >= 2 {
                assert(lead_width(b[k - 1]) == 1);
            }
            if r >= 3 {
                assert(lead_width(b[k - 2]) == 1);
            }
        }
    }
}

} // verus!
