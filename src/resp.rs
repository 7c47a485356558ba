//! The wire codec: a message is one of five kinds, chosen by its first byte,
//! with every scalar ended by CR LF and every bulk string and array prefixed
//! by its length.
use vstd::prelude::*;
use vstd::utf8::{
    char_u32_cast, decode_utf8, encode_scalar, encode_utf8, encode_utf8_decode_utf8,
    encode_utf8_valid_utf8, has_width_1_encoding, partial_valid_utf8_extend_ascii_block,
    valid_utf8, valid_utf8_concat,
};

use crate::decimal::{
    digits_value, i64_of_text, int_prefix, int_text, is_digit, is_int_prefix, lemma_digits_prefix,
    lemma_int_text, lemma_nat_text, magnitude_upto, nat_text, parse_i64, push_i64_text,
    push_u64_text, unsigned_part,
};
use crate::text::{
    lemma_pending_fits, pending_bytes, pending_bytes_of, starts_utf8, str_from_utf8, text_of,
    utf8_prefix,
};

verus! {

/// A value of the wire protocol.
#[derive(Debug, PartialEq, Eq)]
pub enum Data {
    SimpleString(String),
    SimpleError(String),
    Integer(i64),
    /// `None` is the nil bulk string.
    BulkString(Option<String>),
    Array(Vec<Data>),
}

/// What a [`Data`] denotes, with its text as characters.
pub enum Message {
    Simple(Seq<char>),
    Error(Seq<char>),
    Integer(i64),
    Bulk(Option<Seq<char>>),
    Array(Seq<Message>),
}

pub open spec fn message_of(d: Data) -> Message
    decreases d,
{
    match d {
        Data::SimpleString(s) => Message::Simple(s@),
        Data::SimpleError(s) => Message::Error(s@),
        Data::Integer(i) => Message::Integer(i),
        Data::BulkString(s) => Message::Bulk(text_of(s)),
        Data::Array(items) => Message::Array(messages_of(items@)),
    }
}

pub open spec fn messages_of(items: Seq<Data>) -> Seq<Message>
    decreases items,
{
    if items.len() == 0 {
        Seq::empty()
    } else {
        messages_of(items.drop_last()).push(message_of(items.last()))
    }
}

impl View for Data {
    type V = Message;

    open spec fn view(&self) -> Message {
        message_of(*self)
    }
}

pub proof fn lemma_messages_of(items: Seq<Data>)
    ensures
        messages_of(items).len() == items.len(),
        forall|i: int|
            0 <= i < items.len() ==> #[trigger] messages_of(items)[i] == message_of(items[i]),
    decreases items.len(),
{
    if items.len() > 0 {
        lemma_messages_of(items.drop_last());
    }
}

pub open spec fn crlf() -> Seq<u8> {
    seq![13u8, 10u8]
}

/// The bytes that stand for `m` on the wire.
pub open spec fn wire(m: Message) -> Seq<u8>
    decreases m,
{
    match m {
        Message::Simple(s) => seq![43u8] + encode_utf8(s) + crlf(),
        Message::Error(s) => seq![45u8] + encode_utf8(s) + crlf(),
        Message::Integer(i) => seq![58u8] + int_text(i as int) + crlf(),
        Message::Bulk(None) => seq![36u8] + int_text(-1) + crlf(),
        Message::Bulk(Some(s)) => seq![36u8] + nat_text(encode_utf8(s).len()) + crlf()
            + encode_utf8(s) + crlf(),
        Message::Array(items) => seq![42u8] + nat_text(items.len()) + crlf() + wire_items(items),
    }
}

/// The wire forms of `items`, one after another.
pub open spec fn wire_items(items: Seq<Message>) -> Seq<u8>
    decreases items,
{
    if items.len() == 0 {
        Seq::empty()
    } else {
        wire_items(items.drop_last()) + wire(items.last())
    }
}

fn push_bytes(out: &mut Vec<u8>, b: &[u8])
    ensures
        final(out)@ == old(out)@ + b@,
{
    let ghost before = out@;
    let mut i: usize = 0;
    while i < b.len()
        invariant
            i <= b@.len(),
            out@ == before + b@.subrange(0, i as int),
        decreases b@.len() - i,
    {
        out.push(b[i]);
        i = i + 1;
        assert(out@ =~= before + b@.subrange(0, i as int));
    }
    assert(b@.subrange(0, i as int) =~= b@);
}

fn push_crlf(out: &mut Vec<u8>)
    ensures
        final(out)@ == old(out)@ + crlf(),
{
    out.push(13);
    out.push(10);
    assert(out@ =~= old(out)@ + crlf());
}

impl Data {
    /// The wire form of this value.
    pub fn encode(&self) -> (r: Vec<u8>)
        ensures
            r@ == wire(self@),
    {
        let mut out: Vec<u8> = Vec::new();
        self.encode_into(&mut out);
        assert(out@ =~= wire(self@));
        out
    }

    /// Appends the wire form of this value to `out`.
    pub fn encode_into(&self, out: &mut Vec<u8>)
        ensures
            final(out)@ == old(out)@ + wire(self@),
        decreases self,
    {
        let ghost before = out@;
        match self {
            Data::SimpleString(s) => {
                out.push(43);
                push_bytes(out, s.as_str().as_bytes());
                push_crlf(out);
            },
            Data::SimpleError(s) => {
                out.push(45);
                push_bytes(out, s.as_str().as_bytes());
                push_crlf(out);
            },
            Data::Integer(i) => {
                out.push(58);
                push_i64_text(out, *i);
                push_crlf(out);
            },
            Data::BulkString(None) => {
                out.push(36);
                push_i64_text(out, -1);
                push_crlf(out);
            },
            Data::BulkString(Some(s)) => {
                let bytes = s.as_str().as_bytes();
                out.push(36);
                push_u64_text(out, bytes.len() as u64);
                push_crlf(out);
                push_bytes(out, bytes);
                push_crlf(out);
            },
            Data::Array(items) => {
                out.push(42);
                push_u64_text(out, items.len() as u64);
                push_crlf(out);
                let ghost header = out@;
                let ghost views = messages_of(items@);
                proof {
                    lemma_messages_of(items@);
                }
                let mut i: usize = 0;
                while i < items.len()
                    invariant
                        *self == Data::Array(*items),
                        i <= items@.len(),
                        views == messages_of(items@),
                        views.len() == items@.len(),
                        forall|k: int| 0 <= k < items@.len() ==> #[trigger] views[k] == message_of(items@[k]),
                        out@ == header + wire_items(views.subrange(0, i as int)),
                    decreases items@.len() - i,
                {
                    proof {
                        vstd::std_specs::vec::axiom_vec_index_decreases(*items, i as int);
                        assert(decreases_to!(*self => (*self)->Array_0));
                        assert(decreases_to!(*self => items[i as int]));
                    }
                    items[i].encode_into(out);
                    proof {
                        let next = views.subrange(0, i + 1);
                        assert(next.drop_last() =~= views.subrange(0, i as int));
                        assert(next.last() == views[i as int]);
                    }
                    i = i + 1;
                    assert(out@ =~= header + wire_items(views.subrange(0, i as int)));
                }
                assert(views.subrange(0, i as int) =~= views);
            },
        }
        assert(out@ =~= before + wire(self@));
    }
}

/// Why a byte buffer could not be read as a message.
#[derive(Debug, Clone, Copy, PartialEq, Eq, Structural)]
pub enum DecodeError {
    /// No byte to read.
    Empty,
    /// A line has no CR LF after it.
    NoCrlf,
    /// A bulk string's declared length runs past the bytes at hand.
    Truncated,
    /// A bulk string's payload is not followed by CR LF.
    BadTerminator,
    /// Text is not well-formed UTF-8.
    InvalidUtf8,
    /// An integer, length or count is not a decimal `i64`.
    InvalidInteger,
    /// A length or count is negative but not `-1`.
    InvalidLength,
    /// The first byte names no kind of message.
    UnknownType,
}

/// The reply text that reports `e`.
pub open spec fn decode_error_text(e: DecodeError) -> Seq<char> {
    match e {
        DecodeError::Empty => "RESP empty data"@,
        DecodeError::NoCrlf => "RESP no crlf"@,
        DecodeError::Truncated => "RESP truncated bulk string"@,
        DecodeError::BadTerminator => "RESP no crlf"@,
        DecodeError::InvalidUtf8 => "RESP invalid utf8"@,
        DecodeError::InvalidInteger => "RESP invalid integer"@,
        DecodeError::InvalidLength => "RESP invalid length"@,
        DecodeError::UnknownType => "UNIMPLEMENTED unknown data type"@,
    }
}

impl DecodeError {
    /// The buffer ended before the message did, so more bytes may complete it.
    pub open spec fn spec_incomplete(&self) -> bool {
        self is Empty || self is NoCrlf || self is Truncated
    }

    #[verifier::when_used_as_spec(spec_incomplete)]
    pub fn is_incomplete(&self) -> (r: bool)
        ensures
            r == self.spec_incomplete(),
    {
        match self {
            DecodeError::Empty | DecodeError::NoCrlf | DecodeError::Truncated => true,
            _ => false,
        }
    }

    pub fn message(&self) -> (r: String)
        ensures
            r@ == decode_error_text(*self),
    {
        match self {
            DecodeError::Empty => "RESP empty data".to_owned(),
            DecodeError::NoCrlf => "RESP no crlf".to_owned(),
            DecodeError::Truncated => "RESP truncated bulk string".to_owned(),
            DecodeError::BadTerminator => "RESP no crlf".to_owned(),
            DecodeError::InvalidUtf8 => "RESP invalid utf8".to_owned(),
            DecodeError::InvalidInteger => "RESP invalid integer".to_owned(),
            DecodeError::InvalidLength => "RESP invalid length".to_owned(),
            DecodeError::UnknownType => "UNIMPLEMENTED unknown data type".to_owned(),
        }
    }
}

pub open spec fn is_crlf_at(b: Seq<u8>, i: int) -> bool {
    0 <= i && i + 1 < b.len() && b[i] == 13 && b[i + 1] == 10
}

/// Where the first CR LF of `b` at or after `i` starts.
pub open spec fn first_crlf(b: Seq<u8>, i: int) -> Option<int>
    decreases b.len() - i,
{
    if i < 0 || i + 1 >= b.len() {
        None
    } else if is_crlf_at(b, i) {
        Some(i)
    } else {
        first_crlf(b, i + 1)
    }
}

pub proof fn lemma_first_crlf(b: Seq<u8>, i: int)
    requires
        0 <= i,
    ensures
        match first_crlf(b, i) {
            Some(e) => i <= e && is_crlf_at(b, e) && forall|j: int| i <= j < e ==> !is_crlf_at(b, j),
            None => forall|j: int| i <= j ==> !is_crlf_at(b, j),
        },
    decreases b.len() - i,
{
    if i + 1 < b.len() && !is_crlf_at(b, i) {
        lemma_first_crlf(b, i + 1);
    }
}

/// A line whose CR LF has not come yet, without a last CR that may begin it.
pub open spec fn open_line(body: Seq<u8>) -> Seq<u8> {
    if body.len() > 0 && body.last() == 13 {
        body.drop_last()
    } else {
        body
    }
}

/// The fault of a line of kind `kind` whose CR LF has not come yet: none but
/// the wait for it while the line may still grow into one of its kind.
pub open spec fn unended_line(kind: u8, body: Seq<u8>) -> DecodeError {
    if kind == 43 || kind == 45 {
        if utf8_prefix(body) {
            DecodeError::NoCrlf
        } else {
            DecodeError::InvalidUtf8
        }
    } else {
        unended_number(kind, body)
    }
}

/// The fault of an integer, length or count line whose CR LF has not come
/// yet: none while more bytes can still make it a line of its kind, else the
/// fault that every such line meets. A last CR can only be followed by its LF,
/// so the line before it must already be whole; digits can only add to the
/// value so far; and a negative length or count can only grow into `-1`.
pub open spec fn unended_number(kind: u8, body: Seq<u8>) -> DecodeError {
    let o = open_line(body);
    let negative = o.len() > 0 && o[0] == 45;
    let digits = digits_value(unsigned_part(o));
    if !int_prefix(o) {
        DecodeError::InvalidInteger
    } else if body.len() > 0 && body.last() == 13 {
        match i64_of_text(o) {
            None => DecodeError::InvalidInteger,
            Some(v) => if kind != 58 && v < -1 {
                DecodeError::InvalidLength
            } else {
                DecodeError::NoCrlf
            },
        }
    } else if digits > (if negative {
        9223372036854775808nat
    } else {
        9223372036854775807nat
    }) {
        DecodeError::InvalidInteger
    } else if kind != 58 && negative && digits > 1 {
        DecodeError::InvalidLength
    } else {
        DecodeError::NoCrlf
    }
}

/// The fault of a bulk string of `len` bytes of which only `got` (fewer than
/// `len + 2` bytes: payload, then terminator) has come: none while more bytes
/// can still complete it, that is while the payload at hand begins
/// well-formed UTF-8 whose last character fits in the bytes still to come.
pub open spec fn unfinished_payload(got: Seq<u8>, len: int) -> DecodeError {
    if got.len() <= len {
        if utf8_prefix(got) && pending_bytes(got) <= len - got.len() {
            DecodeError::Truncated
        } else {
            DecodeError::InvalidUtf8
        }
    } else if !valid_utf8(got.subrange(0, len)) {
        DecodeError::InvalidUtf8
    } else if got[len] != 13 {
        DecodeError::BadTerminator
    } else {
        DecodeError::Truncated
    }
}

fn unended_number_of(kind: u8, body: &[u8]) -> (r: DecodeError)
    ensures
        r == unended_number(kind, body@),
{
    let ends_cr = body.len() > 0 && body[body.len() - 1] == 13;
    let open = if ends_cr {
        &body[0..body.len() - 1]
    } else {
        body
    };
    assert(open@ =~= open_line(body@));
    if !is_int_prefix(open) {
        return DecodeError::InvalidInteger;
    }
    if ends_cr {
        return match parse_integer(open) {
            Err(_) => DecodeError::InvalidInteger,
            Ok(v) => if kind != 58 && v < -1 {
                DecodeError::InvalidLength
            } else {
                DecodeError::NoCrlf
            },
        };
    }
    let negative = open.len() > 0 && open[0] == 45;
    let limit: u64 = if negative {
        9223372036854775808
    } else {
        9223372036854775807
    };
    match magnitude_upto(open, limit) {
        None => DecodeError::InvalidInteger,
        Some(d) => if kind != 58 && negative && d > 1 {
            DecodeError::InvalidLength
        } else {
            DecodeError::NoCrlf
        },
    }
}

/// How `b` reads as a message: the message and how many bytes it takes, or
/// the first fault met. A line whose CR LF has not come yet, and a bulk
/// string whose payload or terminator has not all come, are judged as far as
/// they go: bytes that more bytes can no longer make right are a fault at once.
pub open spec fn parse(b: Seq<u8>) -> Result<(Message, int), DecodeError>
    decreases b.len(), 0int, 0int,
{
    if b.len() == 0 {
        Err(DecodeError::Empty)
    } else if !(b[0] == 43 || b[0] == 45 || b[0] == 58 || b[0] == 36 || b[0] == 42) {
        Err(DecodeError::UnknownType)
    } else {
        let body = b.drop_first();
        match first_crlf(body, 0) {
            None => Err(unended_line(b[0], body)),
            Some(e) => {
                let line = body.subrange(0, e);
                let next = e + 3;
                if b[0] == 43 || b[0] == 45 {
                    if valid_utf8(line) {
                        let text = decode_utf8(line);
                        Ok(
                            (
                                if b[0] == 43 {
                                    Message::Simple(text)
                                } else {
                                    Message::Error(text)
                                },
                                next,
                            ),
                        )
                    } else {
                        Err(DecodeError::InvalidUtf8)
                    }
                } else {
                    match i64_of_text(line) {
                        None => Err(DecodeError::InvalidInteger),
                        Some(v) => {
                            if b[0] == 58 {
                                Ok((Message::Integer(v), next))
                            } else if v == -1 {
                                Ok(
                                    (
                                        if b[0] == 36 {
                                            Message::Bulk(None)
                                        } else {
                                            Message::Array(Seq::empty())
                                        },
                                        next,
                                    ),
                                )
                            } else if v < -1 {
                                Err(DecodeError::InvalidLength)
                            } else if b[0] == 36 {
                                let end = next + v;
                                if b.len() < end + 2 {
                                    Err(unfinished_payload(b.subrange(next, b.len() as int), v as int))
                                } else if !valid_utf8(b.subrange(next, end)) {
                                    Err(DecodeError::InvalidUtf8)
                                } else if !is_crlf_at(b, end) {
                                    Err(DecodeError::BadTerminator)
                                } else {
                                    Ok((Message::Bulk(Some(decode_utf8(b.subrange(next, end)))), end + 2))
                                }
                            } else {
                                proof {
                                    lemma_first_crlf(body, 0);
                                }
                                match parse_items(b.subrange(next, b.len() as int), v as int) {
                                    Ok((items, n)) => Ok((Message::Array(items), next + n)),
                                    Err(err) => Err(err),
                                }
                            }
                        },
                    }
                }
            },
        }
    }
}

/// How `b` reads as `k` messages one after another.
pub open spec fn parse_items(b: Seq<u8>, k: int) -> Result<(Seq<Message>, int), DecodeError>
    decreases b.len(), 1int, k,
{
    if k <= 0 {
        Ok((Seq::empty(), 0))
    } else {
        match parse(b) {
            Err(e) => Err(e),
            Ok((m, n)) => if 0 <= n <= b.len() {
                match parse_items(b.subrange(n, b.len() as int), k - 1) {
                    Ok((ms, n2)) => Ok((seq![m] + ms, n + n2)),
                    Err(e) => Err(e),
                }
            } else {
                Err(DecodeError::Truncated)
            },
        }
    }
}

/// Reads `data` as UTF-8 text.
pub fn parse_utf8(data: &[u8]) -> (r: Result<&str, DecodeError>)
    ensures
        valid_utf8(data@) ==> (r matches Ok(s) && s@ == decode_utf8(data@)),
        !valid_utf8(data@) ==> r matches Err(DecodeError::InvalidUtf8),
{
    match str_from_utf8(data) {
        Some(s) => {
            proof {
                encode_utf8_decode_utf8(s@);
            }
            Ok(s)
        },
        None => Err(DecodeError::InvalidUtf8),
    }
}

/// Reads `data` as a decimal `i64`.
pub fn parse_integer(data: &[u8]) -> (r: Result<i64, DecodeError>)
    ensures
        r == match i64_of_text(data@) {
            Some(v) => Ok::<i64, DecodeError>(v),
            None => Err(DecodeError::InvalidInteger),
        },
{
    match parse_i64(data) {
        Some(v) => Ok(v),
        None => Err(DecodeError::InvalidInteger),
    }
}

/// Splits `data` at its first CR LF into the line before it and the bytes after it.
pub fn parse_line(data: &[u8]) -> (r: Result<(&[u8], &[u8]), DecodeError>)
    ensures
        match first_crlf(data@, 0) {
            Some(e) => r matches Ok((line, rest)) && line@ == data@.subrange(0, e) && rest@
                == data@.subrange(e + 2, data@.len() as int),
            None => r matches Err(DecodeError::NoCrlf),
        },
{
    let mut i: usize = 0;
    while data.len() - i > 1
        invariant
            i <= data@.len(),
            first_crlf(data@, 0) == first_crlf(data@, i as int),
        decreases data@.len() - i,
    {
        if data[i] == 13 && data[i + 1] == 10 {
            return Ok((&data[0..i], &data[i + 2..data.len()]));
        }
        i = i + 1;
    }
    Err(DecodeError::NoCrlf)
}

/// The bytes after a leading CR LF.
pub fn skip_crlf(data: &[u8]) -> (r: Result<&[u8], DecodeError>)
    ensures
        is_crlf_at(data@, 0) ==> (r matches Ok(rest) && rest@ == data@.subrange(2, data@.len() as int)),
        !is_crlf_at(data@, 0) ==> r matches Err(DecodeError::BadTerminator),
{
    if data.len() < 2 || data[0] != 13 || data[1] != 10 {
        return Err(DecodeError::BadTerminator);
    }
    Ok(&data[2..data.len()])
}

/// The result of decoding `data` is what [`parse`] gives, the unread bytes
/// being what follows the message.
pub open spec fn decodes_as(data: Seq<u8>, r: Result<(Data, &[u8]), DecodeError>) -> bool {
    match r {
        Ok((d, rest)) => {
            &&& rest@.len() <= data.len()
            &&& parse(data) == Ok::<(Message, int), DecodeError>((d@, data.len() - rest@.len()))
            &&& rest@ == data.subrange(data.len() - rest@.len(), data.len() as int)
        },
        Err(e) => parse(data) == Err::<(Message, int), DecodeError>(e),
    }
}

/// Joins messages read earlier to the outcome of reading the ones after them.
pub open spec fn after_items(
    ms: Seq<Message>,
    n: int,
    r: Result<(Seq<Message>, int), DecodeError>,
) -> Result<(Seq<Message>, int), DecodeError> {
    match r {
        Ok((ms2, n2)) => Ok((ms + ms2, n + n2)),
        Err(e) => Err(e),
    }
}

impl Data {
    /// Reads one message from the front of `data`, and hands back the bytes after it.
    pub fn decode<'a>(data: &'a [u8]) -> (r: Result<(Data, &'a [u8]), DecodeError>)
        ensures
            decodes_as(data@, r),
        decreases data@.len(),
    {
        if data.len() == 0 {
            return Err(DecodeError::Empty);
        }
        let kind = data[0];
        if !(kind == 43 || kind == 45 || kind == 58 || kind == 36 || kind == 42) {
            return Err(DecodeError::UnknownType);
        }
        let body = &data[1..data.len()];
        assert(body@ =~= data@.drop_first());
        proof {
            lemma_first_crlf(body@, 0);
        }
        let (line, rest) = match parse_line(body) {
            Ok(split) => split,
            Err(e) => {
                if kind == 43 || kind == 45 {
                    if !starts_utf8(body) {
                        return Err(DecodeError::InvalidUtf8);
                    }
                    return Err(e);
                }
                return Err(unended_number_of(kind, body));
            },
        };
        let ghost e = body@.len() - rest@.len() - 2;
        assert(line@ =~= body@.subrange(0, e));
        assert(rest@ =~= data@.subrange(e + 3, data@.len() as int));
        if kind == 43 || kind == 45 {
            let text = match parse_utf8(line) {
                Ok(s) => s.to_owned(),
                Err(err) => return Err(err),
            };
            if kind == 43 {
                return Ok((Data::SimpleString(text), rest));
            } else {
                return Ok((Data::SimpleError(text), rest));
            }
        }
        let v = match parse_integer(line) {
            Ok(v) => v,
            Err(err) => return Err(err),
        };
        if kind == 58 {
            return Ok((Data::Integer(v), rest));
        }
        if v == -1 {
            if kind == 36 {
                return Ok((Data::BulkString(None), rest));
            } else {
                let empty: Vec<Data> = Vec::new();
                assert(messages_of(empty@) =~= Seq::<Message>::empty());
                return Ok((Data::Array(empty), rest));
            }
        }
        if v < -1 {
            return Err(DecodeError::InvalidLength);
        }
        if kind == 36 {
            if (rest.len() as u64) <= (v as u64) {
                if starts_utf8(rest) && (pending_bytes_of(rest) as u64) <= (v as u64) - (
                rest.len() as u64) {
                    return Err(DecodeError::Truncated);
                }
                return Err(DecodeError::InvalidUtf8);
            }
            if (rest.len() as u64) < (v as u64) + 2 {
                let n = v as usize;
                if let Err(err) = parse_utf8(&rest[0..n]) {
                    return Err(err);
                }
                if rest[n] != 13 {
                    return Err(DecodeError::BadTerminator);
                }
                return Err(DecodeError::Truncated);
            }
            let n = v as usize;
            let payload = &rest[0..n];
            assert(payload@ =~= data@.subrange(e + 3, e + 3 + n));
            let text = match parse_utf8(payload) {
                Ok(s) => s.to_owned(),
                Err(err) => return Err(err),
            };
            let tail = &rest[n..rest.len()];
            let after = match skip_crlf(tail) {
                Ok(after) => after,
                Err(err) => {
                    assert(is_crlf_at(tail@, 0) == is_crlf_at(data@, e + 3 + n));
                    return Err(err);
                },
            };
            assert(is_crlf_at(data@, e + 3 + n));
            assert(after@ =~= data@.subrange(e + 5 + n, data@.len() as int));
            return Ok((Data::BulkString(Some(text)), after));
        }
        let count = v as u64;
        let ghost start = rest@;
        let mut items: Vec<Data> = Vec::new();
        let mut remaining: &[u8] = rest;
        let mut j: u64 = 0;
        assert(messages_of(items@) =~= Seq::<Message>::empty());
        assert(start.subrange(0, start.len() as int) =~= start);
        assert(parse(data@) == match parse_items(start, count as int) {
            Ok((ms, n)) => Ok::<(Message, int), DecodeError>((Message::Array(ms), data@.len() - start.len() + n)),
            Err(err) => Err(err),
        });
        while j < count
            invariant
                parse(data@) == match parse_items(start, count as int) {
                    Ok((ms, n)) => Ok::<(Message, int), DecodeError>((Message::Array(ms), data@.len() - start.len() + n)),
                    Err(err) => Err(err),
                },
                j <= count,
                count == v,
                start == rest@,
                start.len() < data@.len(),
                remaining@.len() <= start.len(),
                remaining@ == start.subrange(start.len() - remaining@.len(), start.len() as int),
                parse_items(start, count as int) == after_items(
                    messages_of(items@),
                    start.len() - remaining@.len(),
                    parse_items(remaining@, count - j),
                ),
            decreases count - j,
        {
            let ghost consumed = start.len() - remaining@.len();
            let ghost before = items@;
            match Data::decode(remaining) {
                Ok((d, next)) => {
                    let ghost n = remaining@.len() - next@.len();
                    assert(parse_items(remaining@, count - j) == after_items(
                        seq![d@],
                        n,
                        parse_items(next@, count - j - 1),
                    ));
                    items.push(d);
                    assert(items@.drop_last() =~= before);
                    assert(next@ =~= start.subrange(start.len() - next@.len(), start.len() as int));
                    assert(parse_items(start, count as int) == after_items(
                        messages_of(items@),
                        start.len() - next@.len(),
                        parse_items(next@, count - j - 1),
                    )) by {
                        match parse_items(next@, count - j - 1) {
                            Ok((ms2, n2)) => {
                                assert(messages_of(before) + (seq![d@] + ms2) =~= messages_of(items@) + ms2);
                            },
                            Err(_) => {},
                        }
                    }
                    remaining = next;
                },
                Err(err) => {
                    assert(parse_items(remaining@, count - j) == Err::<(Seq<Message>, int), DecodeError>(err));
                    assert(parse_items(start, count as int) == Err::<(Seq<Message>, int), DecodeError>(err));
                    return Err(err);
                },
            }
            j = j + 1;
        }
        assert(parse_items(remaining@, 0) == Ok::<(Seq<Message>, int), DecodeError>((Seq::empty(), 0)));
        assert(messages_of(items@) + Seq::<Message>::empty() =~= messages_of(items@));
        assert(remaining@ =~= data@.subrange(data@.len() - remaining@.len(), data@.len() as int));
        Ok((Data::Array(items), remaining))
    }
}

/// Text with neither CR nor LF in it.
pub open spec fn one_line(s: Seq<char>) -> bool {
    forall|i: int| 0 <= i < s.len() ==> #[trigger] s[i] != '\r' && s[i] != '\n'
}

/// Bytes with neither CR nor LF among them.
pub open spec fn no_line_break(b: Seq<u8>) -> bool {
    forall|i: int| 0 <= i < b.len() ==> #[trigger] b[i] != 13 && b[i] != 10
}

/// A message that the wire can carry: simple strings and errors on one line,
/// every length and count within an `i64`.
pub open spec fn well_formed(m: Message) -> bool
    decreases m,
{
    match m {
        Message::Simple(s) => one_line(s),
        Message::Error(s) => one_line(s),
        Message::Integer(_) => true,
        Message::Bulk(None) => true,
        Message::Bulk(Some(s)) => encode_utf8(s).len() <= i64::MAX,
        Message::Array(items) => items.len() <= i64::MAX && forall|i: int|
            0 <= i < items.len() ==> well_formed(#[trigger] items[i]),
    }
}

proof fn lemma_scalar_no_line_break(c: u32)
    requires
        c != 13,
        c != 10,
    ensures
        no_line_break(encode_scalar(c)),
{
    assert((0x80u8 | ((c & 0x3F) as u8)) >= 0x80u8) by (bit_vector);
    assert((0x80u8 | (((c >> 6) & 0x3F) as u8)) >= 0x80u8) by (bit_vector);
    assert((0x80u8 | (((c >> 12) & 0x3F) as u8)) >= 0x80u8) by (bit_vector);
    assert((0xC0u8 | (((c >> 6) & 0x1F) as u8)) >= 0x80u8) by (bit_vector);
    assert((0xE0u8 | (((c >> 12) & 0x0F) as u8)) >= 0x80u8) by (bit_vector);
    assert((0xF0u8 | (((c >> 18) & 0x7) as u8)) >= 0x80u8) by (bit_vector);
    if has_width_1_encoding(c) {
        assert(((c & 0x7F) as u8) != 13u8 && ((c & 0x7F) as u8) != 10u8) by (bit_vector)
            requires
                c <= 0x7F,
                c != 13,
                c != 10,
        ;
    }
}

/// Text on one line encodes to bytes on one line.
pub proof fn lemma_one_line_bytes(s: Seq<char>)
    requires
        one_line(s),
    ensures
        no_line_break(encode_utf8(s)),
    decreases s.len(),
{
    if s.len() > 0 {
        assert(one_line(s.drop_first())) by {
            assert forall|i: int| 0 <= i < s.len() - 1 implies #[trigger] s.drop_first()[i] != '\r'
                && s.drop_first()[i] != '\n' by {
                assert(s.drop_first()[i] == s[i + 1]);
            }
        }
        lemma_one_line_bytes(s.drop_first());
        assert(s[0] != '\r' && s[0] != '\n');
        char_u32_cast(s[0], s[0] as u32);
        char_u32_cast('\r', '\r' as u32);
        char_u32_cast('\n', '\n' as u32);
        assert('\r' as u32 == 13 && '\n' as u32 == 10);
        lemma_scalar_no_line_break(s[0] as u32);
        let head = encode_scalar(s[0] as u32);
        let tail = encode_utf8(s.drop_first());
        assert forall|i: int| 0 <= i < head.len() + tail.len() implies #[trigger] (head + tail)[i] != 13
            && (head + tail)[i] != 10 by {
            if i >= head.len() {
                assert((head + tail)[i] == tail[i - head.len()]);
            }
        }
    }
}

/// A CR or LF character in the text is a CR or LF byte in its encoding.
pub proof fn lemma_line_break_bytes(s: Seq<char>, i: int)
    requires
        0 <= i < s.len(),
        s[i] == '\r' || s[i] == '\n',
    ensures
        !no_line_break(encode_utf8(s)),
    decreases i,
{
    let head = encode_scalar(s[0] as u32);
    let tail = encode_utf8(s.drop_first());
    assert(encode_utf8(s) == head + tail);
    if i == 0 {
        char_u32_cast(s[0], s[0] as u32);
        assert('\r' as u32 == 13 && '\n' as u32 == 10);
        let c = s[0] as u32;
        assert(((c & 0x7F) as u8) == c as u8) by (bit_vector)
            requires
                c <= 0x7F,
        ;
        assert((head + tail)[0] == head[0]);
    } else {
        assert(s.drop_first()[i - 1] == s[i]);
        lemma_line_break_bytes(s.drop_first(), i - 1);
        let k = choose|k: int| 0 <= k < tail.len() && !(tail[k] != 13 && tail[k] != 10);
        assert((head + tail)[head.len() + k] == tail[k]);
    }
}

/// Whether `s` holds neither CR nor LF.
pub fn is_one_line(s: &str) -> (r: bool)
    ensures
        r == one_line(s@),
{
    let b = s.as_bytes();
    let mut i: usize = 0;
    while i < b.len()
        invariant
            b@ == encode_utf8(s@),
            i <= b@.len(),
            forall|j: int| 0 <= j < i ==> b@[j] != 13 && b@[j] != 10,
        decreases b@.len() - i,
    {
        if b[i] == 13 || b[i] == 10 {
            proof {
                if one_line(s@) {
                    lemma_one_line_bytes(s@);
                    assert(b@[i as int] != 13 && b@[i as int] != 10);
                }
            }
            return false;
        }
        i = i + 1;
    }
    proof {
        if !one_line(s@) {
            let k = choose|k: int| 0 <= k < s@.len() && !(s@[k] != '\r' && s@[k] != '\n');
            lemma_line_break_bytes(s@, k);
        }
    }
    true
}

/// A line followed by CR LF: the first CR LF is the one after the line.
proof fn lemma_line_end(line: Seq<u8>, rest: Seq<u8>, i: int)
    requires
        no_line_break(line),
        0 <= i <= line.len(),
    ensures
        first_crlf(line + crlf() + rest, i) == Some(line.len() as int),
    decreases line.len() - i,
{
    let b = line + crlf() + rest;
    assert(b[line.len() as int] == 13 && b[line.len() as int + 1] == 10);
    if i < line.len() {
        assert(b[i] == line[i]);
        lemma_line_end(line, rest, i + 1);
    }
}

proof fn lemma_int_text_no_line_break(i: int)
    requires
        i64::MIN <= i <= i64::MAX,
    ensures
        no_line_break(int_text(i)),
        i64_of_text(int_text(i)) == Some(i as i64),
{
    lemma_int_text(i);
    assert forall|k: int| 0 <= k < int_text(i).len() implies #[trigger] int_text(i)[k] != 13
        && int_text(i)[k] != 10 by {
        assert(int_text(i)[k] == 45 || is_digit(int_text(i)[k]));
    }
}

proof fn lemma_wire_items_front(items: Seq<Message>)
    requires
        items.len() > 0,
    ensures
        wire_items(items) == wire(items[0]) + wire_items(items.drop_first()),
    decreases items.len(),
{
    if items.len() == 1 {
        assert(items.drop_last() =~= Seq::<Message>::empty());
        assert(items.drop_first() =~= Seq::<Message>::empty());
        assert(wire_items(items.drop_last()) == Seq::<u8>::empty());
        assert(Seq::<u8>::empty() + wire(items[0]) =~= wire(items[0]));
        assert(wire_items(items) =~= wire(items[0]));
        assert(wire(items[0]) + Seq::<u8>::empty() =~= wire(items[0]));
    } else {
        lemma_wire_items_front(items.drop_last());
        assert(items.drop_last().drop_first() =~= items.drop_first().drop_last());
        assert(items.drop_first().last() == items.last());
        assert(wire_items(items) =~= wire(items[0]) + wire_items(items.drop_first()));
    }
}

/// A well-formed message followed by any bytes reads back as itself, taking
/// exactly its own wire form.
#[verifier::rlimit(40)]
pub proof fn lemma_parse_wire(m: Message, rest: Seq<u8>)
    requires
        well_formed(m),
    ensures
        parse(wire(m) + rest) == Ok::<(Message, int), DecodeError>((m, wire(m).len() as int)),
    decreases m,
{
    let b = wire(m) + rest;
    match m {
        Message::Simple(s) => {
            let t = encode_utf8(s);
            lemma_one_line_bytes(s);
            lemma_line_end(t, rest, 0);
            assert(b.drop_first() =~= t + crlf() + rest);
            assert((t + crlf() + rest).subrange(0, t.len() as int) =~= t);
            encode_utf8_valid_utf8(s);
            encode_utf8_decode_utf8(s);
        },
        Message::Error(s) => {
            let t = encode_utf8(s);
            lemma_one_line_bytes(s);
            lemma_line_end(t, rest, 0);
            assert(b.drop_first() =~= t + crlf() + rest);
            assert((t + crlf() + rest).subrange(0, t.len() as int) =~= t);
            encode_utf8_valid_utf8(s);
            encode_utf8_decode_utf8(s);
        },
        Message::Integer(i) => {
            let t = int_text(i as int);
            lemma_int_text_no_line_break(i as int);
            lemma_line_end(t, rest, 0);
            assert(b.drop_first() =~= t + crlf() + rest);
            assert((t + crlf() + rest).subrange(0, t.len() as int) =~= t);
        },
        Message::Bulk(None) => {
            let t = int_text(-1);
            lemma_int_text_no_line_break(-1);
            lemma_line_end(t, rest, 0);
            assert(b.drop_first() =~= t + crlf() + rest);
            assert((t + crlf() + rest).subrange(0, t.len() as int) =~= t);
        },
        Message::Bulk(Some(s)) => {
            let p = encode_utf8(s);
            let t = nat_text(p.len());
            lemma_int_text_no_line_break(p.len() as int);
            let after = p + crlf() + rest;
            lemma_line_end(t, after, 0);
            assert(b.drop_first() =~= t + crlf() + after);
            assert((t + crlf() + after).subrange(0, t.len() as int) =~= t);
            let next = t.len() as int + 3;
            let end = next + p.len() as int;
            assert(b.subrange(next, end) =~= p);
            assert(b[end] == 13 && b[end + 1] == 10);
            encode_utf8_valid_utf8(s);
            encode_utf8_decode_utf8(s);
        },
        Message::Array(items) => {
            let t = nat_text(items.len());
            lemma_int_text_no_line_break(items.len() as int);
            let after = wire_items(items) + rest;
            lemma_line_end(t, after, 0);
            assert(b.drop_first() =~= t + crlf() + after);
            assert((t + crlf() + after).subrange(0, t.len() as int) =~= t);
            assert(b.subrange(t.len() as int + 3, b.len() as int) =~= after);
            lemma_parse_wire_items(items, rest);
        },
    }
}

/// Well-formed messages one after another, followed by any bytes, read back
/// as themselves.
pub proof fn lemma_parse_wire_items(items: Seq<Message>, rest: Seq<u8>)
    requires
        forall|i: int| 0 <= i < items.len() ==> well_formed(#[trigger] items[i]),
    ensures
        parse_items(wire_items(items) + rest, items.len() as int) == Ok::<
            (Seq<Message>, int),
            DecodeError,
        >((items, wire_items(items).len() as int)),
    decreases items,
{
    if items.len() > 0 {
        let tail = items.drop_first();
        lemma_wire_items_front(items);
        let b = wire_items(items) + rest;
        assert(b =~= wire(items[0]) + (wire_items(tail) + rest));
        lemma_parse_wire(items[0], wire_items(tail) + rest);
        let n = wire(items[0]).len() as int;
        assert(b.subrange(n, b.len() as int) =~= wire_items(tail) + rest);
        assert forall|i: int| 0 <= i < tail.len() implies well_formed(#[trigger] tail[i]) by {
            assert(tail[i] == items[i + 1]);
        }
        lemma_parse_wire_items(tail, rest);
        assert(parse(b) == Ok::<(Message, int), DecodeError>((items[0], n)));
        assert(tail.len() == items.len() - 1);
        assert(parse_items(b.subrange(n, b.len() as int), items.len() - 1) == Ok::<
            (Seq<Message>, int),
            DecodeError,
        >((tail, wire_items(tail).len() as int)));
        assert(seq![items[0]] + tail =~= items);
    } else {
        assert(wire_items(items) + rest =~= rest);
        assert(items =~= Seq::<Message>::empty());
    }
}

/// Decoding the wire form of a well-formed message gives the message back and
/// leaves no byte unread.
pub proof fn lemma_decode_encode(m: Message)
    requires
        well_formed(m),
    ensures
        parse(wire(m)) == Ok::<(Message, int), DecodeError>((m, wire(m).len() as int)),
{
    lemma_parse_wire(m, Seq::empty());
    assert(wire(m) + Seq::<u8>::empty() =~= wire(m));
}

/// Bytes in the form that encoding writes (no `+` sign, no leading zero, no
/// `-0`, no array count of `-1`), followed by anything: decoding them and
/// encoding the result gives the same bytes back.
pub proof fn lemma_encode_decode(m: Message, rest: Seq<u8>)
    requires
        well_formed(m),
    ensures
        match parse(wire(m) + rest) {
            Ok((d, n)) => wire(d) == (wire(m) + rest).subrange(0, n),
            Err(_) => false,
        },
{
    lemma_parse_wire(m, rest);
    assert((wire(m) + rest).subrange(0, wire(m).len() as int) =~= wire(m));
}

/// A header line cut off before its CR LF is whole: no CR LF is found yet,
/// and what is open of the line is the start of the header.
proof fn lemma_open_header(t: Seq<u8>, tail: Seq<u8>, body: Seq<u8>)
    requires
        no_line_break(t),
        body.len() <= t.len() + 1,
        body == (t + crlf() + tail).subrange(0, body.len() as int),
    ensures
        first_crlf(body, 0) is None,
        open_line(body).len() <= t.len(),
        open_line(body) == t.subrange(0, open_line(body).len() as int),
{
    let full = t + crlf() + tail;
    lemma_first_crlf(body, 0);
    if let Some(e) = first_crlf(body, 0) {
        assert(body[e] == full[e]);
        if e < t.len() {
            assert(full[e] == t[e]);
        }
    }
    if body.len() == t.len() + 1 {
        assert(body.last() == full[t.len() as int]);
        assert(open_line(body) =~= t.subrange(0, t.len() as int));
    } else if body.len() > 0 {
        assert(body.last() == t[body.len() - 1]);
        assert(open_line(body) =~= t.subrange(0, body.len() as int));
    } else {
        assert(open_line(body) =~= t.subrange(0, 0));
    }
}

/// The start of an integer's shortest text can still grow into a decimal.
proof fn lemma_int_text_prefix(i: int, q: Seq<u8>)
    requires
        i64::MIN <= i <= i64::MAX,
        q.len() <= int_text(i).len(),
        q == int_text(i).subrange(0, q.len() as int),
    ensures
        int_prefix(q),
{
    let m = if i < 0 {
        (-i) as nat
    } else {
        i as nat
    };
    lemma_nat_text(m);
    assert forall|k: int| 0 <= k < q.len() implies #[trigger] is_digit(q[k]) || (k == 0 && (q[k] == 43
        || q[k] == 45)) by {
        if i < 0 && k > 0 {
            assert(q[k] == nat_text(m)[k - 1]);
        } else if i >= 0 {
            assert(q[k] == nat_text(m)[k]);
        }
    }
}

/// A number's header line cut off before its CR LF is whole: more bytes can
/// still make it right.
proof fn lemma_open_number(x: int, kind: u8, tail: Seq<u8>, body: Seq<u8>)
    requires
        i64::MIN <= x <= i64::MAX,
        kind == 58 || x >= -1,
        body.len() <= int_text(x).len() + 1,
        body == (int_text(x) + crlf() + tail).subrange(0, body.len() as int),
    ensures
        first_crlf(body, 0) is None,
        unended_number(kind, body) == DecodeError::NoCrlf,
{
    let t = int_text(x);
    lemma_int_text_no_line_break(x);
    lemma_open_header(t, tail, body);
    let o = open_line(body);
    lemma_int_text_prefix(x, o);
    let m = if x < 0 {
        (-x) as nat
    } else {
        x as nat
    };
    lemma_nat_text(m);
    if body.len() > 0 && body.last() == 13 {
        assert(body.len() == t.len() + 1) by {
            let full = int_text(x) + crlf() + tail;
            if body.len() <= t.len() {
                assert(body.last() == t[body.len() - 1]);
            }
        }
        assert(o =~= t);
    } else {
        let k = o.len() as int;
        if x < 0 {
            assert(t =~= seq![45u8] + nat_text(m));
            if k > 0 {
                assert(o[0] == 45);
                assert(unsigned_part(o) =~= nat_text(m).subrange(0, k - 1));
                lemma_digits_prefix(nat_text(m), k - 1);
            } else {
                assert(unsigned_part(o) =~= Seq::<u8>::empty());
            }
        } else {
            if k > 0 {
                assert(is_digit(o[0]));
            }
            assert(unsigned_part(o) =~= nat_text(m).subrange(0, k));
            lemma_digits_prefix(nat_text(m), k);
        }
    }
}

proof fn lemma_crlf_valid()
    ensures
        valid_utf8(crlf()),
{
    let c = crlf();
    assert(c.subrange(0, 0) =~= Seq::<u8>::empty());
    partial_valid_utf8_extend_ascii_block(c, 0, 2);
    assert(c.subrange(0, 2) =~= c);
}

/// Every proper start of a well-formed message's wire form reads as
/// incomplete: more bytes are awaited, and none of it is taken for malformed.
#[verifier::rlimit(60)]
pub proof fn lemma_prefix_incomplete(m: Message, p: Seq<u8>)
    requires
        well_formed(m),
        p.len() < wire(m).len(),
        p == wire(m).subrange(0, p.len() as int),
    ensures
        parse(p) matches Err(e) && e.spec_incomplete(),
    decreases m, 0int,
{
    if p.len() == 0 {
        return;
    }
    let w = wire(m);
    let body = p.drop_first();
    assert(p[0] == w[0]);
    match m {
        Message::Simple(s) => {
            let t = encode_utf8(s);
            lemma_one_line_bytes(s);
            assert(body =~= (t + crlf() + Seq::<u8>::empty()).subrange(0, body.len() as int));
            lemma_open_header(t, Seq::empty(), body);
            let more = (t + crlf()).subrange(body.len() as int, t.len() as int + 2);
            assert(body + more =~= t + crlf());
            encode_utf8_valid_utf8(s);
            lemma_crlf_valid();
            valid_utf8_concat(t, crlf());
            assert(utf8_prefix(body));
        },
        Message::Error(s) => {
            let t = encode_utf8(s);
            lemma_one_line_bytes(s);
            assert(body =~= (t + crlf() + Seq::<u8>::empty()).subrange(0, body.len() as int));
            lemma_open_header(t, Seq::empty(), body);
            let more = (t + crlf()).subrange(body.len() as int, t.len() as int + 2);
            assert(body + more =~= t + crlf());
            encode_utf8_valid_utf8(s);
            lemma_crlf_valid();
            valid_utf8_concat(t, crlf());
            assert(utf8_prefix(body));
        },
        Message::Integer(i) => {
            let t = int_text(i as int);
            assert(body =~= (t + crlf() + Seq::<u8>::empty()).subrange(0, body.len() as int));
            lemma_open_number(i as int, 58, Seq::empty(), body);
        },
        Message::Bulk(None) => {
            let t = int_text(-1);
            assert(body =~= (t + crlf() + Seq::<u8>::empty()).subrange(0, body.len() as int));
            lemma_open_number(-1, 36, Seq::empty(), body);
        },
        Message::Bulk(Some(s)) => {
            let c = encode_utf8(s);
            let t = nat_text(c.len());
            let after = c + crlf();
            lemma_int_text_no_line_break(c.len() as int);
            assert(w.drop_first() =~= t + crlf() + after);
            assert(body =~= (t + crlf() + after).subrange(0, body.len() as int));
            if body.len() <= t.len() + 1 {
                lemma_open_number(c.len() as int, 36, after, body);
            } else {
                let got = body.subrange(t.len() as int + 2, body.len() as int);
                assert(body =~= t + crlf() + got);
                lemma_line_end(t, got, 0);
                assert(body.subrange(0, t.len() as int) =~= t);
                assert(p.subrange(t.len() as int + 3, p.len() as int) =~= got);
                assert(got =~= after.subrange(0, got.len() as int));
                encode_utf8_valid_utf8(s);
                if got.len() <= c.len() {
                    let more = c.subrange(got.len() as int, c.len() as int);
                    assert(got + more =~= c);
                    assert(utf8_prefix(got));
                    lemma_pending_fits(s, got.len() as int);
                    assert(got =~= c.subrange(0, got.len() as int));
                } else {
                    assert(got.subrange(0, c.len() as int) =~= c);
                    assert(got[c.len() as int] == 13);
                }
            }
        },
        Message::Array(items) => {
            let t = nat_text(items.len());
            let after = wire_items(items);
            lemma_int_text_no_line_break(items.len() as int);
            assert(w.drop_first() =~= t + crlf() + after);
            assert(body =~= (t + crlf() + after).subrange(0, body.len() as int));
            if body.len() <= t.len() + 1 {
                lemma_open_number(items.len() as int, 42, after, body);
            } else {
                let got = body.subrange(t.len() as int + 2, body.len() as int);
                assert(body =~= t + crlf() + got);
                lemma_line_end(t, got, 0);
                assert(body.subrange(0, t.len() as int) =~= t);
                assert(p.subrange(t.len() as int + 3, p.len() as int) =~= got);
                assert(got =~= after.subrange(0, got.len() as int));
                lemma_items_prefix_incomplete(items, got);
            }
        },
    }
}

/// Every proper start of well-formed messages' wire forms, one after another,
/// reads as incomplete.
proof fn lemma_items_prefix_incomplete(items: Seq<Message>, p: Seq<u8>)
    requires
        forall|i: int| 0 <= i < items.len() ==> well_formed(#[trigger] items[i]),
        p.len() < wire_items(items).len(),
        p == wire_items(items).subrange(0, p.len() as int),
    ensures
        parse_items(p, items.len() as int) matches Err(e) && e.spec_incomplete(),
    decreases items, 1int,
{
    if items.len() == 0 {
        return;
    }
    lemma_wire_items_front(items);
    let first = wire(items[0]);
    let tail = items.drop_first();
    if p.len() < first.len() {
        assert(p =~= first.subrange(0, p.len() as int));
        lemma_prefix_incomplete(items[0], p);
    } else {
        let q = p.subrange(first.len() as int, p.len() as int);
        assert(p =~= first + q);
        assert(q =~= wire_items(tail).subrange(0, q.len() as int));
        lemma_parse_wire(items[0], q);
        assert forall|i: int| 0 <= i < tail.len() implies well_formed(#[trigger] tail[i]) by {
            assert(tail[i] == items[i + 1]);
        }
        lemma_items_prefix_incomplete(tail, q);
        assert(p.subrange(first.len() as int, p.len() as int) =~= q);
    }
}

proof fn lemma_first_crlf_extends(b: Seq<u8>, more: Seq<u8>, i: int)
    requires
        0 <= i,
        first_crlf(b, i) is Some,
    ensures
        first_crlf(b + more, i) == first_crlf(b, i),
    decreases b.len() - i,
{
    let c = b + more;
    if i + 1 < b.len() {
        assert(c[i] == b[i] && c[i + 1] == b[i + 1]);
        if !is_crlf_at(b, i) {
            lemma_first_crlf_extends(b, more, i + 1);
        }
    }
}

/// A whole message reads the same whatever bytes come after it.
#[verifier::rlimit(60)]
pub proof fn lemma_parse_extends(b: Seq<u8>, more: Seq<u8>)
    requires
        parse(b) is Ok,
    ensures
        parse(b + more) == parse(b),
    decreases b.len(), 0int, 0int,
{
    let c = b + more;
    let body = b.drop_first();
    assert(c[0] == b[0]);
    assert(c.drop_first() =~= body + more);
    lemma_first_crlf_extends(body, more, 0);
    lemma_first_crlf(body, 0);
    let e = first_crlf(body, 0)->Some_0;
    let next = e + 3;
    assert((body + more).subrange(0, e) =~= body.subrange(0, e));
    if b[0] == 36 || b[0] == 42 {
        let v = i64_of_text(body.subrange(0, e));
        if v is Some && v->Some_0 >= 0 {
            let n = v->Some_0 as int;
            if b[0] == 36 {
                assert(c.subrange(next, next + n) =~= b.subrange(next, next + n));
                assert(c[next + n] == b[next + n] && c[next + n + 1] == b[next + n + 1]);
            } else {
                let sub = b.subrange(next, b.len() as int);
                assert(c.subrange(next, c.len() as int) =~= sub + more);
                lemma_parse_items_extends(sub, n, more);
            }
        }
    }
}

/// Whole messages, one after another, read the same whatever bytes come after them.
proof fn lemma_parse_items_extends(b: Seq<u8>, k: int, more: Seq<u8>)
    requires
        parse_items(b, k) is Ok,
    ensures
        parse_items(b + more, k) == parse_items(b, k),
    decreases b.len(), 1int, k,
{
    if k > 0 {
        lemma_parse_extends(b, more);
        let n = parse(b)->Ok_0.1;
        let rest = b.subrange(n, b.len() as int);
        assert((b + more).subrange(n, (b + more).len() as int) =~= rest + more);
        lemma_parse_items_extends(rest, k - 1, more);
    }
}

} // verus!
