//! The client side of the GDB Remote Serial Protocol: framing, reply
//! decoding, and the `M` (write memory) packet.

use vstd::prelude::*;

verus! {

/// What went wrong underneath a socket operation.
#[derive(Debug, Clone, PartialEq, Eq)]
pub enum IoFailure {
    /// The peer refused the connection; worth retrying.
    ConnectionRefused,
    /// Any other failure, with its description.
    Other(String),
}

/// Errors of the remote debug client.
#[derive(Debug, Clone, PartialEq, Eq)]
pub enum Error {
    /// The socket failed.
    Io(IoFailure),
    /// A payload was not UTF-8.
    Utf8,
    /// The server sent something other than what was expected.
    BadPacket(String),
}

pub type Result<T> = core::result::Result<T, Error>;

/// The pause, in milliseconds, before another connection attempt.
pub const RETRY_DELAY_MS: u64 = 100;

/// Sum of the bytes, as an unbounded number.
pub open spec fn byte_sum(p: Seq<u8>) -> nat
    decreases p.len(),
{
    if p.len() == 0 {
        0
    } else {
        byte_sum(p.drop_last()) + p.last() as nat
    }
}

/// The packet checksum: the sum of the payload bytes modulo 256.
pub open spec fn checksum_of(p: Seq<u8>) -> u8 {
    (byte_sum(p) % 256) as u8
}

/// The upper-case ASCII hex digit of `d` (`d < 16`).
pub open spec fn hex_digit(d: nat) -> u8 {
    if d < 10 {
        (48 + d) as u8
    } else {
        (55 + d) as u8
    }
}

/// Two upper-case hex digits of a byte.
pub open spec fn hex_pair(b: u8) -> Seq<u8> {
    seq![hex_digit(b as nat / 16), hex_digit(b as nat % 16)]
}

/// A packet on the wire: `$`, the payload, `#`, two hex digits of checksum.
pub open spec fn frame(p: Seq<u8>) -> Seq<u8> {
    seq![36u8] + p + seq![35u8] + hex_pair(checksum_of(p))
}

/// A received buffer without the acknowledgement byte `+` that may lead it.
pub open spec fn without_ack(buf: Seq<u8>) -> Seq<u8> {
    if buf.len() > 0 && buf[0] == 43u8 {
        buf.subrange(1, buf.len() as int)
    } else {
        buf
    }
}

/// Whether `b` has the shape `$...#xx`.
pub open spec fn is_framed(b: Seq<u8>) -> bool {
    b.len() >= 4 && b[0] == 36u8 && b[b.len() - 3] == 35u8
}

/// The payload of a received buffer, or `None` when it is not framed.
/// The checksum digits are not checked.
pub open spec fn unframe(buf: Seq<u8>) -> Option<Seq<u8>> {
    let b = without_ack(buf);
    if is_framed(b) {
        Some(b.subrange(1, b.len() - 3))
    } else {
        None
    }
}

/// Whether a buffer being received holds a whole packet: a `#` stands
/// two bytes before its end.
pub open spec fn holds_packet(buf: Seq<u8>) -> bool {
    buf.len() >= 3 && buf[buf.len() - 3] == 35u8
}

/// Upper-case hex of `n` with no leading zeros (`0` for zero).
pub open spec fn hex_number(n: nat) -> Seq<u8>
    decreases n,
{
    if n < 16 {
        seq![hex_digit(n)]
    } else {
        hex_number(n / 16).push(hex_digit(n % 16))
    }
}

/// Decimal digits of `n` with no leading zeros (`0` for zero).
pub open spec fn decimal_number(n: nat) -> Seq<u8>
    decreases n,
{
    if n < 10 {
        seq![(48 + n) as u8]
    } else {
        decimal_number(n / 10).push((48 + n % 10) as u8)
    }
}

/// Two upper-case hex digits for each byte.
pub open spec fn hex_bytes(d: Seq<u8>) -> Seq<u8>
    decreases d.len(),
{
    if d.len() == 0 {
        Seq::empty()
    } else {
        hex_bytes(d.drop_last()) + hex_pair(d.last())
    }
}

/// The payload `Maddr,len:bytes` that writes `data` at `address`.
pub open spec fn write_memory_payload(address: u64, data: Seq<u8>) -> Seq<u8> {
    seq![77u8] + hex_number(address as nat) + seq![44u8] + decimal_number(data.len())
        + seq![58u8] + hex_bytes(data)
}

/// The reply payload that acknowledges a write.
pub open spec fn ok_reply() -> Seq<u8> {
    seq![79u8, 75u8]
}

/// Whether the connection attempt that failed with `e` is worth repeating.
pub open spec fn is_retryable(e: Error) -> bool {
    e == Error::Io(IoFailure::ConnectionRefused)
}

/// What `std::str::from_utf8` makes of some bytes: their text when they are
/// UTF-8, `None` otherwise.
pub uninterp spec fn utf8_text(b: Seq<u8>) -> Option<Seq<char>>;

/// Relies on `std::str::from_utf8`: it accepts exactly the UTF-8 byte
/// sequences and decodes them; the outcome depends on the bytes alone.
#[verifier::external_body]
pub(crate) fn text_of(b: &[u8]) -> (r: Option<String>)
    ensures
        match r {
            Some(s) => utf8_text(b@) == Some(s@),
            None => utf8_text(b@) is None,
        },
{
    std::str::from_utf8(b).ok().map(|s| s.to_string())
}

fn hex_digit_exec(d: u8) -> (r: u8)
    requires
        d < 16,
    ensures
        r == hex_digit(d as nat),
{
    if d < 10 {
        48 + d
    } else {
        55 + d
    }
}

/// The checksum of a payload.
pub fn checksum(payload: &[u8]) -> (r: u8)
    ensures
        r == checksum_of(payload@),
{
    let mut acc: u8 = 0;
    let mut i: usize = 0;
    while i < payload.len()
        invariant
            i <= payload@.len(),
            acc as nat == byte_sum(payload@.subrange(0, i as int)) % 256,
        decreases payload@.len() - i,
    {
        let ghost prefix = payload@.subrange(0, i + 1);
        assert(prefix.drop_last() =~= payload@.subrange(0, i as int));
        let next: u16 = (acc as u16 + payload[i] as u16) % 256;
        proof {
            let s = byte_sum(payload@.subrange(0, i as int));
            let b = payload@[i as int] as nat;
            assert((s % 256 + b) % 256 == (s + b) % 256) by (nonlinear_arith)
                requires
                    s >= 0,
                    b >= 0,
            {
                vstd::arithmetic::div_mod::lemma_add_mod_noop(s as int, b as int, 256);
            }
        }
        acc = next as u8;
        i += 1;
    }
    assert(payload@.subrange(0, payload@.len() as int) =~= payload@);
    acc
}

/// Appends the two hex digits of `b`.
fn push_hex_pair(out: &mut Vec<u8>, b: u8)
    ensures
        final(out)@ == old(out)@ + hex_pair(b),
{
    out.push(hex_digit_exec(b / 16));
    out.push(hex_digit_exec(b % 16));
    assert(final(out)@ =~= old(out)@ + hex_pair(b));
}

/// Frames a payload as a packet: `$payload#cc`.
pub fn encode_packet(payload: &[u8]) -> (r: Vec<u8>)
    ensures
        r@ == frame(payload@),
{
    let mut out: Vec<u8> = Vec::new();
    out.push(36u8);
    let mut i: usize = 0;
    while i < payload.len()
        invariant
            i <= payload@.len(),
            out@ == seq![36u8] + payload@.subrange(0, i as int),
        decreases payload@.len() - i,
    {
        out.push(payload[i]);
        i += 1;
        assert(out@ =~= seq![36u8] + payload@.subrange(0, i as int));
    }
    assert(payload@.subrange(0, payload@.len() as int) =~= payload@);
    out.push(35u8);
    let c = checksum(payload);
    push_hex_pair(&mut out, c);
    out
}

/// Appends upper-case hex of `n` with no leading zeros.
fn push_hex_number(out: &mut Vec<u8>, n: u64)
    ensures
        final(out)@ == old(out)@ + hex_number(n as nat),
    decreases n,
{
    if n < 16 {
        out.push(hex_digit_exec(n as u8));
        assert(final(out)@ =~= old(out)@ + hex_number(n as nat));
    } else {
        push_hex_number(out, n / 16);
        out.push(hex_digit_exec((n % 16) as u8));
        assert(final(out)@ =~= old(out)@ + hex_number(n as nat));
    }
}

/// Appends the decimal digits of `n` with no leading zeros.
fn push_decimal_number(out: &mut Vec<u8>, n: u64)
    ensures
        final(out)@ == old(out)@ + decimal_number(n as nat),
    decreases n,
{
    if n < 10 {
        out.push(48 + n as u8);
        assert(final(out)@ =~= old(out)@ + decimal_number(n as nat));
    } else {
        push_decimal_number(out, n / 10);
        out.push(48 + (n % 10) as u8);
        assert(final(out)@ =~= old(out)@ + decimal_number(n as nat));
    }
}

/// Appends two upper-case hex digits for each byte of `data`.
fn push_hex_bytes(out: &mut Vec<u8>, data: &[u8])
    ensures
        final(out)@ == old(out)@ + hex_bytes(data@),
{
    let ghost start = out@;
    let mut i: usize = 0;
    while i < data.len()
        invariant
            i <= data@.len(),
            out@ == start + hex_bytes(data@.subrange(0, i as int)),
        decreases data@.len() - i,
    {
        assert(data@.subrange(0, i + 1).drop_last() =~= data@.subrange(0, i as int));
        push_hex_pair(out, data[i]);
        i += 1;
        assert(out@ =~= start + hex_bytes(data@.subrange(0, i as int)));
    }
    assert(data@.subrange(0, data@.len() as int) =~= data@);
}

/// The payload that asks the server to write `data` at `address`:
/// `M`, the address in hex, `,`, the length in decimal, `:`, the bytes in hex.
pub fn write_memory_request(address: u64, data: &[u8]) -> (r: Vec<u8>)
    ensures
        r@ == write_memory_payload(address, data@),
{
    let mut out: Vec<u8> = Vec::new();
    out.push(77u8);
    push_hex_number(&mut out, address);
    out.push(44u8);
    push_decimal_number(&mut out, data.len() as u64);
    out.push(58u8);
    push_hex_bytes(&mut out, data);
    assert(out@ =~= write_memory_payload(address, data@));
    out
}

/// Whether a buffer being received already holds a whole packet.
pub fn packet_complete(buf: &[u8]) -> (r: bool)
    ensures
        r == holds_packet(buf@),
{
    buf.len() >= 3 && buf[buf.len() - 3] == 35u8
}

/// Copies `buf[lo..hi]`.
pub(crate) fn copy_range(buf: &[u8], lo: usize, hi: usize) -> (r: Vec<u8>)
    requires
        lo <= hi <= buf@.len(),
    ensures
        r@ == buf@.subrange(lo as int, hi as int),
{
    vstd::slice::slice_to_vec(vstd::slice::slice_subrange(buf, lo, hi))
}

/// The length of the acknowledgement byte that may lead a buffer.
fn ack_length(buf: &[u8]) -> (r: usize)
    ensures
        r <= buf@.len(),
        buf@.subrange(r as int, buf@.len() as int) == without_ack(buf@),
{
    if buf.len() > 0 && buf[0] == 43u8 {
        1
    } else {
        assert(buf@.subrange(0, buf@.len() as int) =~= buf@);
        0
    }
}

/// The payload bytes of a received buffer: an optional leading `+` is
/// skipped, then the buffer must read `$payload#xx`. The checksum is not
/// checked.
pub fn unframe_packet(buf: &[u8]) -> (r: Option<Vec<u8>>)
    ensures
        match r {
            Some(p) => unframe(buf@) == Some(p@),
            None => unframe(buf@) is None,
        },
{
    let start = ack_length(buf);
    let ghost b = without_ack(buf@);
    assert(b =~= buf@.subrange(start as int, buf@.len() as int));
    let n = buf.len() - start;
    if n >= 4 && buf[start] == 36u8 && buf[buf.len() - 3] == 35u8 {
        let p = copy_range(buf, start + 1, buf.len() - 3);
        assert(p@ =~= b.subrange(1, b.len() - 3));
        Some(p)
    } else {
        None
    }
}

/// `r` is the text of `b`, or the UTF-8 error when `b` is not UTF-8.
pub open spec fn is_text_of(b: Seq<u8>, r: Result<String>) -> bool {
    match utf8_text(b) {
        Some(t) => r matches Ok(s) && s@ == t,
        None => r matches Err(Error::Utf8),
    }
}

/// `r` rejects `b` as a bad packet holding its text, or with the UTF-8
/// error when `b` is not UTF-8.
pub open spec fn rejects<T>(b: Seq<u8>, r: Result<T>) -> bool {
    match utf8_text(b) {
        Some(t) => r matches Err(Error::BadPacket(s)) && s@ == t,
        None => r matches Err(Error::Utf8),
    }
}

/// The text of the reply held in a received buffer.
pub fn decode_reply(buf: &[u8]) -> (r: Result<String>)
    ensures
        match unframe(buf@) {
            Some(p) => is_text_of(p, r),
            None => rejects(without_ack(buf@), r),
        },
{
    match unframe_packet(buf) {
        Some(p) => match text_of(p.as_slice()) {
            Some(t) => Ok(t),
            None => Err(Error::Utf8),
        },
        None => {
            let rest = copy_range(buf, ack_length(buf), buf.len());
            assert(rest@ =~= without_ack(buf@));
            match text_of(rest.as_slice()) {
                Some(t) => Err(Error::BadPacket(t)),
                None => Err(Error::Utf8),
            }
        },
    }
}

/// Whether a reply payload is the acknowledgement `OK`.
pub fn is_ok_reply(payload: &[u8]) -> (r: bool)
    ensures
        r == (payload@ == ok_reply()),
{
    let r = payload.len() == 2 && payload[0] == 79u8 && payload[1] == 75u8;
    assert(r ==> payload@ =~= ok_reply());
    r
}

/// The outcome of a memory write, from the buffer that holds the server's
/// reply: success on `OK`; the reply itself as a bad packet otherwise.
pub fn write_memory_outcome(buf: &[u8]) -> (r: Result<()>)
    ensures
        match unframe(buf@) {
            Some(p) => if p == ok_reply() {
                r is Ok
            } else {
                rejects(p, r)
            },
            None => rejects(without_ack(buf@), r),
        },
{
    match unframe_packet(buf) {
        Some(p) => {
            if is_ok_reply(p.as_slice()) {
                Ok(())
            } else {
                match text_of(p.as_slice()) {
                    Some(t) => Err(Error::BadPacket(t)),
                    None => Err(Error::Utf8),
                }
            }
        },
        None => {
            let rest = copy_range(buf, ack_length(buf), buf.len());
            assert(rest@ =~= without_ack(buf@));
            match text_of(rest.as_slice()) {
                Some(t) => Err(Error::BadPacket(t)),
                None => Err(Error::Utf8),
            }
        },
    }
}

/// Whether a failed connection attempt should be repeated after a pause:
/// only when the connection was refused.
pub fn should_retry_connect(e: &Error) -> (r: bool)
    ensures
        r == is_retryable(*e),
{
    match e {
        Error::Io(IoFailure::ConnectionRefused) => true,
        _ => false,
    }
}

/// Decoding a framed payload gives the payload back, and the frame ends in
/// the two hex digits of the payload's byte sum modulo 256.
pub proof fn lemma_frame_round_trip(p: Seq<u8>)
    ensures
        unframe(frame(p)) == Some(p),
        frame(p).subrange(frame(p).len() - 2, frame(p).len() as int) == hex_pair(
            (byte_sum(p) % 256) as u8,
        ),
{
    let f = frame(p);
    assert(without_ack(f) == f);
    assert(f.subrange(1, f.len() - 3) =~= p);
    assert(f.subrange(f.len() - 2, f.len() as int) =~= hex_pair(checksum_of(p)));
}

} // verus!
