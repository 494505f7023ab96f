//! The wire envelope: a one-byte header tag, an eight-byte big-endian body
//! length, then the body bytes.

use vstd::prelude::*;

verus! {

/// The kind of an envelope.
#[allow(non_camel_case_types)]
#[derive(Clone, Copy, Debug, PartialEq, Eq, Structural)]
pub enum MessageHeader {
    PUB,
    CLAIM,
    ACK,
    HB,
    NULL,
}

/// The byte that stands for each header on the wire.
pub open spec fn header_tag(h: MessageHeader) -> u8 {
    match h {
        MessageHeader::PUB => 0,
        MessageHeader::CLAIM => 1,
        MessageHeader::ACK => 2,
        MessageHeader::HB => 3,
        MessageHeader::NULL => 4,
    }
}

/// The header a tag byte stands for, if any.
pub open spec fn header_of_tag(b: u8) -> Option<MessageHeader> {
    if b == 0 {
        Some(MessageHeader::PUB)
    } else if b == 1 {
        Some(MessageHeader::CLAIM)
    } else if b == 2 {
        Some(MessageHeader::ACK)
    } else if b == 3 {
        Some(MessageHeader::HB)
    } else if b == 4 {
        Some(MessageHeader::NULL)
    } else {
        None
    }
}

/// Returns the wire tag of a header.
pub fn tag_of(h: MessageHeader) -> (r: u8)
    ensures
        r == header_tag(h),
        header_of_tag(r) == Some(h),
{
    match h {
        MessageHeader::PUB => 0,
        MessageHeader::CLAIM => 1,
        MessageHeader::ACK => 2,
        MessageHeader::HB => 3,
        MessageHeader::NULL => 4,
    }
}

/// Reads a tag byte back into a header.
pub fn header_from_tag(b: u8) -> (r: Option<MessageHeader>)
    ensures
        r == header_of_tag(b),
{
    if b == 0 {
        Some(MessageHeader::PUB)
    } else if b == 1 {
        Some(MessageHeader::CLAIM)
    } else if b == 2 {
        Some(MessageHeader::ACK)
    } else if b == 3 {
        Some(MessageHeader::HB)
    } else if b == 4 {
        Some(MessageHeader::NULL)
    } else {
        None
    }
}

/// An envelope: a header and an opaque body.
#[derive(Debug)]
pub struct Message {
    pub header: MessageHeader,
    pub body: Vec<u8>,
}

impl View for Message {
    type V = (MessageHeader, Seq<u8>);

    open spec fn view(&self) -> (MessageHeader, Seq<u8>) {
        (self.header, self.body@)
    }
}

/// Why a byte sequence is not an envelope.
#[derive(Clone, Copy, Debug, PartialEq, Eq, Structural)]
pub enum ProtocolError {
    /// No byte at all where the header tag should be.
    MissingHeader,
    /// The tag byte names no header.
    UnknownHeader(u8),
    /// Fewer than eight bytes follow the tag.
    TruncatedLength,
    /// The body is shorter than its declared length.
    TruncatedBody,
}

/// Bytes of the header tag and the length prefix.
pub const PREFIX_LEN: usize = 9;

/// The eight big-endian bytes of `x`.
pub open spec fn be_bytes(x: u64) -> Seq<u8> {
    seq![
        (x >> 56u64) as u8,
        (x >> 48u64) as u8,
        (x >> 40u64) as u8,
        (x >> 32u64) as u8,
        (x >> 24u64) as u8,
        (x >> 16u64) as u8,
        (x >> 8u64) as u8,
        x as u8,
    ]
}

/// The number that eight big-endian bytes stand for.
pub open spec fn be_value(b: Seq<u8>) -> u64
    recommends
        b.len() == 8,
{
    (b[0] as u64) << 56u64 | (b[1] as u64) << 48u64 | (b[2] as u64) << 40u64 | (b[3] as u64)
        << 32u64 | (b[4] as u64) << 24u64 | (b[5] as u64) << 16u64 | (b[6] as u64) << 8u64
        | (b[7] as u64)
}

/// Reading back the bytes of a number gives the number.
pub proof fn lemma_be_round_trip(x: u64)
    ensures
        be_value(be_bytes(x)) == x,
{
    let b = be_bytes(x);
    let (b0, b1, b2, b3) = (b[0], b[1], b[2], b[3]);
    let (b4, b5, b6, b7) = (b[4], b[5], b[6], b[7]);
    assert(b0 == (x >> 56u64) as u8 && b1 == (x >> 48u64) as u8 && b2 == (x >> 40u64) as u8
        && b3 == (x >> 32u64) as u8 && b4 == (x >> 24u64) as u8 && b5 == (x >> 16u64) as u8
        && b6 == (x >> 8u64) as u8 && b7 == x as u8 ==> (b0 as u64) << 56u64 | (b1 as u64)
        << 48u64 | (b2 as u64) << 40u64 | (b3 as u64) << 32u64 | (b4 as u64) << 24u64 | (
    b5 as u64) << 16u64 | (b6 as u64) << 8u64 | (b7 as u64) == x) by (bit_vector);
}

/// The bytes that stand for an envelope.
pub open spec fn encoded(m: (MessageHeader, Seq<u8>)) -> Seq<u8> {
    seq![header_tag(m.0)] + be_bytes(m.1.len() as u64) + m.1
}

/// The envelope at the start of `b`, with the number of bytes it takes,
/// or why there is none.
pub open spec fn parsed(b: Seq<u8>) -> Result<((MessageHeader, Seq<u8>), nat), ProtocolError> {
    if b.len() == 0 {
        Err(ProtocolError::MissingHeader)
    } else if header_of_tag(b[0]) is None {
        Err(ProtocolError::UnknownHeader(b[0]))
    } else if b.len() < 9 {
        Err(ProtocolError::TruncatedLength)
    } else {
        let n = be_value(b.subrange(1, 9));
        if b.len() - 9 < n {
            Err(ProtocolError::TruncatedBody)
        } else {
            Ok(((header_of_tag(b[0])->Some_0, b.subrange(9, 9 + n)), (9 + n) as nat))
        }
    }
}

/// Decoding the encoding of an envelope, whatever bytes follow it on the
/// stream, gives back the envelope and the exact number of bytes it took.
pub proof fn lemma_round_trip(m: (MessageHeader, Seq<u8>), rest: Seq<u8>)
    requires
        m.1.len() <= u64::MAX,
    ensures
        parsed(encoded(m) + rest) == Ok::<((MessageHeader, Seq<u8>), nat), ProtocolError>(
            (m, encoded(m).len()),
        ),
{
    let e = encoded(m);
    let b = e + rest;
    let n = m.1.len() as u64;
    lemma_be_round_trip(n);
    assert(b.subrange(1, 9) =~= be_bytes(n));
    assert(b.subrange(9, 9 + n) =~= m.1);
}

/// Appends the eight big-endian bytes of `x`.
fn push_be_bytes(out: &mut Vec<u8>, x: u64)
    ensures
        final(out)@ == old(out)@ + be_bytes(x),
{
    out.push((x >> 56u64) as u8);
    out.push((x >> 48u64) as u8);
    out.push((x >> 40u64) as u8);
    out.push((x >> 32u64) as u8);
    out.push((x >> 24u64) as u8);
    out.push((x >> 16u64) as u8);
    out.push((x >> 8u64) as u8);
    out.push(x as u8);
    assert(final(out)@ =~= old(out)@ + be_bytes(x));
}

/// Returns the eight big-endian bytes of `x`.
pub fn u64_to_be_bytes(x: u64) -> (r: Vec<u8>)
    ensures
        r@ == be_bytes(x),
{
    let mut out: Vec<u8> = Vec::new();
    push_be_bytes(&mut out, x);
    assert(out@ =~= be_bytes(x));
    out
}

/// Reads the number that the eight bytes of `b` from `start` on stand for.
fn read_be_u64(b: &[u8], start: usize) -> (r: u64)
    requires
        start + 8 <= b@.len(),
    ensures
        r == be_value(b@.subrange(start as int, start + 8)),
{
    let ghost s = b@.subrange(start as int, start + 8);
    assert(s[0] == b@[start as int] && s[1] == b@[start + 1] && s[2] == b@[start + 2] && s[3]
        == b@[start + 3] && s[4] == b@[start + 4] && s[5] == b@[start + 5] && s[6] == b@[start
        + 6] && s[7] == b@[start + 7]);
    (b[start] as u64) << 56u64 | (b[start + 1] as u64) << 48u64 | (b[start + 2] as u64) << 40u64
        | (b[start + 3] as u64) << 32u64 | (b[start + 4] as u64) << 24u64 | (b[start + 5] as u64)
        << 16u64 | (b[start + 6] as u64) << 8u64 | (b[start + 7] as u64)
}

/// Serialises an envelope: its tag, the body's length, then the body.
pub fn encode(m: &Message) -> (r: Vec<u8>)
    ensures
        r@ == encoded(m@),
{
    let mut out: Vec<u8> = Vec::new();
    out.push(tag_of(m.header));
    push_be_bytes(&mut out, m.body.len() as u64);
    let ghost prefix = out@;
    let mut i: usize = 0;
    while i < m.body.len()
        invariant
            i <= m.body@.len(),
            out@ == prefix + m.body@.subrange(0, i as int),
        decreases m.body@.len() - i,
    {
        out.push(m.body[i]);
        i = i + 1;
        assert(out@ =~= prefix + m.body@.subrange(0, i as int));
    }
    assert(m.body@.subrange(0, i as int) =~= m.body@);
    assert(out@ =~= encoded(m@));
    out
}

/// Reads the header and the declared body length from the first
/// `PREFIX_LEN` bytes of `b`, so that a reader of a stream knows how many body
/// bytes to wait for.
pub fn decode_prefix(b: &[u8]) -> (r: Result<(MessageHeader, u64), ProtocolError>)
    ensures
        match r {
            Ok((h, n)) => {
                &&& b@.len() >= PREFIX_LEN
                &&& header_of_tag(b@[0]) == Some(h)
                &&& n == be_value(b@.subrange(1, 9))
            },
            Err(e) => {
                &&& parsed(b@) == Err::<((MessageHeader, Seq<u8>), nat), ProtocolError>(e)
                &&& e != ProtocolError::TruncatedBody
            },
        },
{
    if b.len() == 0 {
        return Err(ProtocolError::MissingHeader);
    }
    let header = match header_from_tag(b[0]) {
        Some(h) => h,
        None => {
            return Err(ProtocolError::UnknownHeader(b[0]));
        },
    };
    if b.len() < PREFIX_LEN {
        return Err(ProtocolError::TruncatedLength);
    }
    Ok((header, read_be_u64(b, 1)))
}

/// Reads the envelope at the start of `b`, and how many bytes it takes; the
/// bytes after it are left alone, as a stream carries the next envelope there.
pub fn decode(b: &[u8]) -> (r: Result<(Message, usize), ProtocolError>)
    ensures
        match r {
            Ok((m, n)) => parsed(b@) == Ok::<((MessageHeader, Seq<u8>), nat), ProtocolError>(
                (m@, n as nat),
            ),
            Err(e) => parsed(b@) == Err::<((MessageHeader, Seq<u8>), nat), ProtocolError>(e),
        },
{
    let (header, n) = match decode_prefix(b) {
        Ok(prefix) => prefix,
        Err(e) => {
            return Err(e);
        },
    };
    if ((b.len() - PREFIX_LEN) as u64) < n {
        return Err(ProtocolError::TruncatedBody);
    }
    let end = PREFIX_LEN + n as usize;
    let mut body: Vec<u8> = Vec::new();
    let mut i: usize = PREFIX_LEN;
    while i < end
        invariant
            PREFIX_LEN <= i <= end <= b@.len(),
            body@ == b@.subrange(PREFIX_LEN as int, i as int),
        decreases end - i,
    {
        body.push(b[i]);
        i = i + 1;
        assert(body@ =~= b@.subrange(PREFIX_LEN as int, i as int));
    }
    Ok((Message { header, body }, end))
}

} // verus!
