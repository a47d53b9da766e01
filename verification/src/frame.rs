//! Wire frame codec.
//!
//! Frame layout: `[0] = CMD`, `[1] = LEN`, `[2 .. 2+LEN) = payload`,
//! `[2+LEN] = CRC-8` over bytes `0 .. 2+LEN` (CRC-8/ATM: polynomial 0x07,
//! init 0x00, no reflection, no final XOR).

use core::convert::Infallible;
use vstd::prelude::*;

use crate::error::Error;

verus! {

/// Protocol version implemented by this crate.
pub const PROTO_VERSION: u8 = 1;

/// Query device info.
pub const CMD_INFO: u8 = 0x01;

/// Erase the app region; requires [`ERASE_MAGIC`].
pub const CMD_ERASE_APP: u8 = 0x02;

/// Write one flash page.
pub const CMD_WRITE_PAGE: u8 = 0x03;

/// Verify the written image against length and CRC-32.
pub const CMD_VERIFY: u8 = 0x04;

/// Boot the application.
pub const CMD_BOOT: u8 = 0x05;

/// Echo the payload back, a link smoke test.
pub const CMD_ECHO: u8 = 0x06;

/// Set on the CMD byte of every device response.
pub const RSP_FLAG: u8 = 0x80;

/// Success.
pub const ST_OK: u8 = 0x00;

/// Malformed frame.
pub const ST_BAD_FRAME: u8 = 0x01;

/// Unknown command.
pub const ST_BAD_CMD: u8 = 0x02;

/// Write attempted before erase.
pub const ST_NOT_ERASED: u8 = 0x03;

/// Page index outside the app region.
pub const ST_OUT_OF_RANGE: u8 = 0x04;

/// Image CRC mismatch.
pub const ST_BAD_CRC: u8 = 0x05;

/// Missing or wrong magic.
pub const ST_BAD_MAGIC: u8 = 0x06;

/// No valid application present.
pub const ST_NO_APP: u8 = 0x07;

/// Maximum ECHO payload the device accepts.
pub const ECHO_MAX: usize = 16;

/// Bytes a frame adds around its payload: CMD, LEN and CRC-8.
pub const FRAME_OVERHEAD: usize = 3;

/// Largest payload a frame can carry: the whole frame fits 255 bytes.
pub const PAYLOAD_MAX: usize = 255 - FRAME_OVERHEAD;

/// Unlock magic carried by an erase request: "ERAS".
pub const ERASE_MAGIC: [u8; 4] = [0x45, 0x52, 0x41, 0x53];

/// What [`st_name`] says of a status byte.
pub open spec fn st_text(st: u8) -> Seq<char> {
    if st == ST_OK {
        "OK"@
    } else if st == ST_BAD_FRAME {
        "BAD_FRAME: device saw a malformed frame"@
    } else if st == ST_BAD_CMD {
        "BAD_CMD: unknown command"@
    } else if st == ST_NOT_ERASED {
        "NOT_ERASED: write before erase"@
    } else if st == ST_OUT_OF_RANGE {
        "OUT_OF_RANGE: page or length outside the app region"@
    } else if st == ST_BAD_CRC {
        "BAD_CRC: image CRC mismatch"@
    } else if st == ST_BAD_MAGIC {
        "BAD_MAGIC: missing or wrong erase magic"@
    } else if st == ST_NO_APP {
        "NO_APP: no valid application present"@
    } else {
        "unknown status"@
    }
}

/// Human-readable name of a device status byte, for error messages.
#[must_use]
pub fn st_name(st: u8) -> (r: &'static str)
    ensures
        r@ == st_text(st),
{
    match st {
        ST_OK => "OK",
        ST_BAD_FRAME => "BAD_FRAME: device saw a malformed frame",
        ST_BAD_CMD => "BAD_CMD: unknown command",
        ST_NOT_ERASED => "NOT_ERASED: write before erase",
        ST_OUT_OF_RANGE => "OUT_OF_RANGE: page or length outside the app region",
        ST_BAD_CRC => "BAD_CRC: image CRC mismatch",
        ST_BAD_MAGIC => "BAD_MAGIC: missing or wrong erase magic",
        ST_NO_APP => "NO_APP: no valid application present",
        _ => "unknown status",
    }
}

/// A decoded frame; `payload` borrows from the receive buffer.
#[derive(Debug, Clone, Copy, PartialEq, Eq)]
pub struct Frame<'a> {
    /// Command byte (bit 7 is [`RSP_FLAG`] on responses).
    pub cmd: u8,
    /// Payload, borrowed from the input buffer.
    pub payload: &'a [u8],
}

/// One bit of CRC-8/ATM: shift left, and reduce by the polynomial when a bit
/// falls out.
pub open spec fn crc8_shift(crc: u8) -> u8 {
    if crc & 0x80 != 0 {
        (crc << 1) ^ 0x07
    } else {
        crc << 1
    }
}

/// `n` bits of CRC-8/ATM.
pub open spec fn crc8_shifts(crc: u8, n: nat) -> u8
    decreases n,
{
    if n == 0 {
        crc
    } else {
        crc8_shift(crc8_shifts(crc, (n - 1) as nat))
    }
}

/// CRC-8/ATM of `data`, started from zero.
pub open spec fn crc8_of(data: Seq<u8>) -> u8
    decreases data.len(),
{
    if data.len() == 0 {
        0
    } else {
        crc8_shifts(crc8_of(data.drop_last()) ^ data.last(), 8)
    }
}

/// One byte of CRC-8/ATM.
fn crc8_step(crc: u8, byte: u8) -> (r: u8)
    ensures
        r == crc8_shifts(crc ^ byte, 8),
{
    let mut c: u8 = crc ^ byte;
    let mut bit: u8 = 0;
    while bit < 8
        invariant
            bit <= 8,
            c == crc8_shifts(crc ^ byte, bit as nat),
        decreases 8 - bit,
    {
        c = if c & 0x80 != 0 {
            (c << 1) ^ 0x07
        } else {
            c << 1
        };
        bit = bit + 1;
    }
    c
}

/// CRC-8/ATM over `data` (polynomial 0x07, init 0x00).
#[must_use]
pub fn crc8(data: &[u8]) -> (r: u8)
    ensures
        r == crc8_of(data@),
{
    let mut crc: u8 = 0;
    let mut i: usize = 0;
    while i < data.len()
        invariant
            i <= data@.len(),
            crc == crc8_of(data@.take(i as int)),
        decreases data@.len() - i,
    {
        proof {
            assert(data@.take(i + 1).drop_last() =~= data@.take(i as int));
        }
        crc = crc8_step(crc, data[i]);
        i = i + 1;
    }
    proof {
        assert(data@.take(i as int) =~= data@);
    }
    crc
}

/// What a frame's CRC-8 runs over: CMD, LEN and the payload.
pub open spec fn frame_body(cmd: u8, payload: Seq<u8>) -> Seq<u8> {
    seq![cmd, payload.len() as u8] + payload
}

/// The bytes of a frame on the wire.
pub open spec fn frame_bytes(cmd: u8, payload: Seq<u8>) -> Seq<u8> {
    frame_body(cmd, payload).push(crc8_of(frame_body(cmd, payload)))
}

/// Whether `raw` is exactly one frame.
pub open spec fn is_frame(raw: Seq<u8>) -> bool {
    &&& raw.len() >= FRAME_OVERHEAD
    &&& raw[1] <= PAYLOAD_MAX
    &&& raw.len() == raw[1] + FRAME_OVERHEAD
    &&& raw.last() == crc8_of(raw.drop_last())
}

/// The payload of the frame `raw`.
pub open spec fn payload_of(raw: Seq<u8>) -> Seq<u8> {
    raw.subrange(2, raw.len() - 1)
}

/// Whether every byte of `tail` is idle filler.
pub open spec fn is_filler(tail: Seq<u8>) -> bool {
    forall|i: int| 0 <= i < tail.len() ==> tail[i] == 0xFF
}

/// Where the LEN byte puts the end of the frame at the front of `raw`.
pub open spec fn frame_extent(raw: Seq<u8>) -> int {
    raw[1] + FRAME_OVERHEAD
}

/// Whether `raw` is one frame followed by idle filler.
pub open spec fn is_padded_frame(raw: Seq<u8>) -> bool {
    &&& raw.len() >= 2
    &&& frame_extent(raw) <= raw.len()
    &&& is_frame(raw.take(frame_extent(raw)))
    &&& is_filler(raw.skip(frame_extent(raw)))
}

/// What [`encode`] returns for a payload of `len` bytes and room for `room`.
pub open spec fn encode_result(len: nat, room: nat) -> Result<usize, Error> {
    if len > PAYLOAD_MAX {
        Err(Error::PayloadTooLarge { len: len as usize })
    } else if len + FRAME_OVERHEAD > room {
        Err(Error::BufferTooSmall { needed: (len + FRAME_OVERHEAD) as usize })
    } else {
        Ok((len + FRAME_OVERHEAD) as usize)
    }
}

/// Encodes a frame into `out`, returning the number of bytes written.
///
/// On success exactly the first bytes of `out` are written and the rest is
/// left untouched; on an error the whole buffer is.
///
/// # Errors
///
/// [`Error::PayloadTooLarge`] if `payload` exceeds [`PAYLOAD_MAX`];
/// [`Error::BufferTooSmall`] if `out` cannot hold the frame.
pub fn encode(cmd: u8, payload: &[u8], out: &mut [u8]) -> (r: Result<usize, Error>)
    ensures
        r == encode_result(payload@.len(), old(out)@.len()),
        final(out)@ == (if r is Ok {
            frame_bytes(cmd, payload@) + old(out)@.skip(r->Ok_0 as int)
        } else {
            old(out)@
        }),
{
    let len: usize = payload.len();
    if len > PAYLOAD_MAX {
        return Err(Error::PayloadTooLarge { len });
    }
    let total: usize = len + FRAME_OVERHEAD;
    if out.len() < total {
        return Err(Error::BufferTooSmall { needed: total });
    }
    let ghost body = frame_body(cmd, payload@);
    let len_byte: u8 = len as u8;
    out[0] = cmd;
    out[1] = len_byte;
    let mut crc: u8 = crc8_step(crc8_step(0, cmd), len_byte);
    proof {
        assert(body.take(2) =~= seq![cmd, len_byte]);
        assert(body.take(2).drop_last() =~= seq![cmd]);
        assert(body.take(2).drop_last().drop_last() =~= Seq::<u8>::empty());
        reveal_with_fuel(crc8_of, 3);
    }
    let mut i: usize = 0;
    while i < len
        invariant
            i <= len,
            len == payload@.len(),
            len <= PAYLOAD_MAX,
            total == len + FRAME_OVERHEAD,
            total <= old(out)@.len(),
            out@.len() == old(out)@.len(),
            body == frame_body(cmd, payload@),
            crc == crc8_of(body.take(i + 2)),
            out@.take(i + 2) == body.take(i + 2),
            out@.skip(i + 2) == old(out)@.skip(i + 2),
        decreases len - i,
    {
        let b: u8 = payload[i];
        let ghost before = out@;
        out[i + 2] = b;
        crc = crc8_step(crc, b);
        proof {
            assert(body.take(i + 3).drop_last() =~= body.take(i + 2));
            assert(body[i + 2] == b);
            assert(out@.take(i + 3) =~= before.take(i + 2).push(b));
            assert(body.take(i + 3) =~= body.take(i + 2).push(b));
            assert(out@.skip(i + 3) =~= before.skip(i + 2).skip(1));
            assert(old(out)@.skip(i + 3) =~= old(out)@.skip(i + 2).skip(1));
        }
        i = i + 1;
    }
    let ghost before = out@;
    out[len + 2] = crc;
    proof {
        assert(body.take(len + 2) =~= body);
        assert(out@ =~= before.take(len + 2).push(crc) + before.skip(len + 2).skip(1));
        assert(old(out)@.skip(len + 3) =~= old(out)@.skip(len + 2).skip(1));
    }
    Ok(total)
}

/// Decodes `raw` as exactly one frame; the payload is borrowed from `raw`.
///
/// # Errors
///
/// [`Error::BadFrame`] if `raw` is shorter than [`FRAME_OVERHEAD`], its LEN
/// byte exceeds [`PAYLOAD_MAX`] or does not match its length, or the CRC-8
/// check fails.
pub fn decode(raw: &[u8]) -> (r: Result<Frame<'_>, Error>)
    ensures
        is_frame(raw@) <==> r is Ok,
        r matches Ok(f) ==> f.cmd == raw@[0] && f.payload@ == payload_of(raw@),
        r matches Err(e) ==> e == Error::<Infallible>::BadFrame,
{
    if raw.len() < FRAME_OVERHEAD {
        return Err(Error::BadFrame);
    }
    let cmd: u8 = raw[0];
    let len_byte: usize = raw[1] as usize;
    if len_byte > PAYLOAD_MAX || raw.len() != len_byte + FRAME_OVERHEAD {
        return Err(Error::BadFrame);
    }
    let last: usize = raw.len() - 1;
    let crc_wire: u8 = raw[last];
    let body: &[u8] = &raw[0..last];
    proof {
        assert(body@ =~= raw@.drop_last());
    }
    if crc8(body) != crc_wire {
        return Err(Error::BadFrame);
    }
    Ok(Frame { cmd, payload: &raw[2..last] })
}

/// Decodes one frame from the front of `raw`, tolerating trailing `0xFF`
/// filler.
///
/// Fixed-length transports read a worst-case number of bytes in one go and
/// the device pads its answer with idle bytes. The accepted inputs are
/// driven by the LEN byte: exactly `f ++ 0xFF^k` where [`decode`] accepts
/// `f`. Other bytes after the frame mean desync and are rejected.
///
/// # Errors
///
/// [`Error::BadFrame`] if `raw` is shorter than the LEN byte promises, any
/// byte after the frame is not `0xFF`, or the frame itself fails [`decode`].
pub fn decode_padded(raw: &[u8]) -> (r: Result<Frame<'_>, Error>)
    ensures
        is_padded_frame(raw@) <==> r is Ok,
        r matches Ok(f) ==> f.cmd == raw@[0] && f.payload@ == payload_of(
            raw@.take(frame_extent(raw@)),
        ),
        r matches Err(e) ==> e == Error::<Infallible>::BadFrame,
{
    if raw.len() < 2 {
        return Err(Error::BadFrame);
    }
    let total: usize = raw[1] as usize + FRAME_OVERHEAD;
    if raw.len() < total {
        return Err(Error::BadFrame);
    }
    let mut i: usize = total;
    while i < raw.len()
        invariant
            total <= i <= raw@.len(),
            total == frame_extent(raw@),
            forall|j: int| total <= j < i ==> raw@[j] == 0xFF,
        decreases raw@.len() - i,
    {
        if raw[i] != 0xFF {
            proof {
                assert(raw@.skip(total as int)[i - total] != 0xFF);
            }
            return Err(Error::BadFrame);
        }
        i = i + 1;
    }
    let frame: &[u8] = &raw[0..total];
    proof {
        assert(frame@ =~= raw@.take(total as int));
        assert(is_filler(raw@.skip(total as int)));
    }
    decode(frame)
}

/// One bit of CRC-8 keeps different registers different.
proof fn lemma_crc8_shift_injective(a: u8, b: u8)
    requires
        a != b,
    ensures
        crc8_shift(a) != crc8_shift(b),
{
    assert(crc8_shift(a) != crc8_shift(b)) by (bit_vector)
        requires
            a != b,
    ;
}

/// Any number of CRC-8 bits keeps different registers different.
proof fn lemma_crc8_shifts_injective(a: u8, b: u8, n: nat)
    requires
        a != b,
    ensures
        crc8_shifts(a, n) != crc8_shifts(b, n),
    decreases n,
{
    if n > 0 {
        lemma_crc8_shifts_injective(a, b, (n - 1) as nat);
        lemma_crc8_shift_injective(crc8_shifts(a, (n - 1) as nat), crc8_shifts(b, (n - 1) as nat));
    }
}

/// Changing one byte of `data` changes its CRC-8.
pub proof fn law_crc8_sees_every_byte(data: Seq<u8>, i: int, b: u8)
    requires
        0 <= i < data.len(),
        b != data[i],
    ensures
        crc8_of(data.update(i, b)) != crc8_of(data),
    decreases data.len(),
{
    let other = data.update(i, b);
    let c1: u8 = crc8_of(data.drop_last());
    let c2: u8 = crc8_of(other.drop_last());
    let x: u8 = data.last();
    let y: u8 = other.last();
    if i == data.len() - 1 {
        assert(other.drop_last() =~= data.drop_last());
        assert(c1 ^ x != c1 ^ y) by (bit_vector)
            requires
                x != y,
        ;
        lemma_crc8_shifts_injective(c1 ^ x, c1 ^ y, 8);
    } else {
        law_crc8_sees_every_byte(data.drop_last(), i, b);
        assert(other.drop_last() =~= data.drop_last().update(i, b));
        assert(c1 ^ x != c2 ^ x) by (bit_vector)
            requires
                c1 != c2,
        ;
        lemma_crc8_shifts_injective(c1 ^ x, c2 ^ x, 8);
    }
}

/// Decoding gives back what was encoded.
pub proof fn law_decode_undoes_encode(cmd: u8, payload: Seq<u8>)
    requires
        payload.len() <= PAYLOAD_MAX,
    ensures
        is_frame(frame_bytes(cmd, payload)),
        frame_bytes(cmd, payload).len() == payload.len() + FRAME_OVERHEAD,
        frame_bytes(cmd, payload)[0] == cmd,
        payload_of(frame_bytes(cmd, payload)) == payload,
{
    let raw = frame_bytes(cmd, payload);
    assert(raw.drop_last() =~= frame_body(cmd, payload));
    assert(payload_of(raw) =~= payload);
}

/// Encoding gives back what was decoded: a frame is determined by its
/// command byte and payload.
pub proof fn law_encode_undoes_decode(raw: Seq<u8>)
    requires
        is_frame(raw),
    ensures
        payload_of(raw).len() <= PAYLOAD_MAX,
        frame_bytes(raw[0], payload_of(raw)) == raw,
{
    assert(frame_body(raw[0], payload_of(raw)) =~= raw.drop_last());
    assert(raw.drop_last().push(raw.last()) =~= raw);
}

/// A frame with any one byte changed, and so with any one bit flipped, is
/// rejected.
pub proof fn law_one_changed_byte_is_rejected(raw: Seq<u8>, i: int, b: u8)
    requires
        is_frame(raw),
        0 <= i < raw.len(),
        b != raw[i],
    ensures
        !is_frame(raw.update(i, b)),
{
    let other = raw.update(i, b);
    if i == raw.len() - 1 {
        assert(other.drop_last() =~= raw.drop_last());
    } else {
        law_crc8_sees_every_byte(raw.drop_last(), i, b);
        assert(other.drop_last() =~= raw.drop_last().update(i, b));
    }
}

/// After a frame, filler and nothing else is tolerated; the frame found is
/// that frame. With an empty tail this is every input that decodes plainly.
pub proof fn law_only_filler_may_follow(f: Seq<u8>, tail: Seq<u8>)
    requires
        is_frame(f),
    ensures
        is_padded_frame(f + tail) <==> is_filler(tail),
        frame_extent(f + tail) == f.len(),
        (f + tail).take(frame_extent(f + tail)) == f,
{
    let raw = f + tail;
    assert(raw.take(f.len() as int) =~= f);
    assert(raw.skip(f.len() as int) =~= tail);
}

/// Whatever is accepted with padding is a frame followed by filler.
pub proof fn law_padded_is_frame_then_filler(raw: Seq<u8>)
    requires
        is_padded_frame(raw),
    ensures
        is_frame(raw.take(frame_extent(raw))),
        is_filler(raw.skip(frame_extent(raw))),
        raw == raw.take(frame_extent(raw)) + raw.skip(frame_extent(raw)),
{
    assert(raw =~= raw.take(frame_extent(raw)) + raw.skip(frame_extent(raw)));
}

/// The powers of `x`, as remainders by the polynomial `x^8 + x^2 + x + 1`:
/// doubled each time, less the polynomial where that overflows a byte.
pub open spec fn power_of_x(k: nat) -> u16
    decreases k,
{
    if k == 0 {
        1
    } else if 2 * power_of_x((k - 1) as nat) < 0x100 {
        (2 * power_of_x((k - 1) as nat)) as u16
    } else {
        ((2 * power_of_x((k - 1) as nat)) as u16) ^ 0x107
    }
}

/// One bit of CRC-8 multiplies by `x`.
proof fn lemma_crc8_shift_doubles(p: u16)
    requires
        p < 0x100,
    ensures
        crc8_shift(p as u8) == (if 2 * p < 0x100 {
            (2 * p) as u16
        } else {
            ((2 * p) as u16) ^ 0x107
        }),
        (if 2 * p < 0x100 {
            (2 * p) as u16
        } else {
            ((2 * p) as u16) ^ 0x107
        }) < 0x100,
{
    let c: u8 = p as u8;
    let d: u16 = (2 * p) as u16;
    assert(p < 0x100 ==> ((if (p as u8) & 0x80 != 0 {
        ((p as u8) << 1) ^ 0x07
    } else {
        (p as u8) << 1
    }) as u16) == (if 2 * p < 0x100 {
        (2 * p) as u16
    } else {
        ((2 * p) as u16) ^ 0x107
    })) by (bit_vector);
    assert((p as u8) as u16 == p);
}

/// Bits of CRC-8 are bits of a product.
proof fn lemma_crc8_powers(k: nat, n: nat)
    ensures
        power_of_x(k) < 0x100,
        crc8_shifts(power_of_x(k) as u8, n) == power_of_x(k + n),
    decreases k + n,
{
    if n > 0 {
        lemma_crc8_powers(k, (n - 1) as nat);
        lemma_crc8_powers((k + n - 1) as nat, 0);
        lemma_crc8_shift_doubles(power_of_x((k + n - 1) as nat));
    } else if k > 0 {
        lemma_crc8_powers((k - 1) as nat, 0);
        lemma_crc8_shift_doubles(power_of_x((k - 1) as nat));
    }
}

/// The bits of a byte are the first eight powers.
proof fn lemma_small_powers(j: nat)
    requires
        j < 8,
    ensures
        power_of_x(j) == 1u8 << (j as u8),
{
    reveal_with_fuel(power_of_x, 9);
    assert(1u8 << 0u8 == 1 && 1u8 << 1u8 == 2 && 1u8 << 2u8 == 4 && 1u8 << 3u8 == 8 && 1u8 << 4u8
        == 16 && 1u8 << 5u8 == 32 && 1u8 << 6u8 == 64 && 1u8 << 7u8 == 128) by (bit_vector);
}

/// CRC-8 is a remainder: of a message that is one bit, bit `j` of a byte with
/// `n` bytes behind it, it is the power of `x` eight bits above that bit.
pub proof fn law_crc8_of_one_bit(j: nat, n: nat)
    requires
        j < 8,
    ensures
        crc8_of(seq![1u8 << (j as u8)] + Seq::new(n, |i: int| 0u8)) == power_of_x(
            8 * (n + 1) + j,
        ),
    decreases n,
{
    let one: u8 = 1u8 << (j as u8);
    let m = seq![one] + Seq::new(n, |i: int| 0u8);
    if n == 0 {
        assert(m.drop_last() =~= Seq::<u8>::empty());
        assert(m.last() == one);
        assert(0u8 ^ one == one) by (bit_vector);
        lemma_small_powers(j);
        lemma_crc8_powers(j, 8);
        assert(power_of_x(j) as u8 == one);
        assert(crc8_of(Seq::<u8>::empty()) == 0);
        assert(crc8_of(m) == crc8_shifts(0u8 ^ one, 8));
    } else {
        let k = (n - 1) as nat;
        law_crc8_of_one_bit(j, k);
        assert(m.drop_last() =~= seq![one] + Seq::new(k, |i: int| 0u8));
        let c: u8 = crc8_of(m.drop_last());
        assert(c ^ 0u8 == c) by (bit_vector);
        let p = (8 * (k + 1) + j) as nat;
        lemma_crc8_powers(p, 8);
        assert(power_of_x(p) as u8 == c);
        assert(p + 8 == 8 * (n + 1) + j);
        assert(m.last() == 0u8);
    }
}

/// The bytes of two messages, one against the other.
pub open spec fn xored(a: Seq<u8>, b: Seq<u8>) -> Seq<u8> {
    Seq::new(a.len(), |i: int| a[i] ^ b[i])
}

/// Bits of CRC-8 add up.
proof fn lemma_crc8_shifts_add(a: u8, b: u8, n: nat)
    ensures
        crc8_shifts(a ^ b, n) == crc8_shifts(a, n) ^ crc8_shifts(b, n),
    decreases n,
{
    if n > 0 {
        let k = (n - 1) as nat;
        lemma_crc8_shifts_add(a, b, k);
        let x: u8 = crc8_shifts(a, k);
        let y: u8 = crc8_shifts(b, k);
        assert(crc8_shift(x ^ y) == crc8_shift(x) ^ crc8_shift(y)) by (bit_vector);
    }
}

/// CRC-8 is linear: messages of one length add up bit by bit, and so do their
/// checksums. With [`law_crc8_of_one_bit`] this fixes it for every message.
pub proof fn law_crc8_is_linear(a: Seq<u8>, b: Seq<u8>)
    requires
        a.len() == b.len(),
    ensures
        crc8_of(xored(a, b)) == crc8_of(a) ^ crc8_of(b),
    decreases a.len(),
{
    let m = xored(a, b);
    if a.len() == 0 {
        assert(0u8 ^ 0u8 == 0u8) by (bit_vector);
    } else {
        law_crc8_is_linear(a.drop_last(), b.drop_last());
        assert(m.drop_last() =~= xored(a.drop_last(), b.drop_last()));
        let p: u8 = crc8_of(a.drop_last());
        let q: u8 = crc8_of(b.drop_last());
        let x: u8 = a.last();
        let y: u8 = b.last();
        assert((p ^ q) ^ (x ^ y) == (p ^ x) ^ (q ^ y)) by (bit_vector);
        lemma_crc8_shifts_add(p ^ x, q ^ y, 8);
    }
}

/// A message followed by its own CRC-8 has CRC-8 zero, and by any other byte
/// it has not.
pub proof fn law_crc8_leaves_no_remainder(m: Seq<u8>, b: u8)
    ensures
        crc8_of(m.push(b)) == 0 <==> b == crc8_of(m),
{
    let c: u8 = crc8_of(m);
    assert(m.push(b).drop_last() =~= m);
    assert(c ^ c == 0u8) by (bit_vector);
    lemma_crc8_zero(8);
    if b != c {
        assert(c ^ b != 0u8) by (bit_vector)
            requires
                b != c,
        ;
        lemma_crc8_shifts_injective(c ^ b, 0, 8);
    }
}

/// Zero stays zero.
proof fn lemma_crc8_zero(n: nat)
    ensures
        crc8_shifts(0, n) == 0,
    decreases n,
{
    if n > 0 {
        lemma_crc8_zero((n - 1) as nat);
        assert(crc8_shift(0u8) == 0u8) by (bit_vector);
    }
}

/// Where everything stands in a frame: the command, the number of payload
/// bytes, the payload, and one byte that leaves no remainder.
pub proof fn law_frame_layout(cmd: u8, payload: Seq<u8>)
    requires
        payload.len() <= 252,
    ensures
        frame_bytes(cmd, payload).len() == payload.len() + 3,
        frame_bytes(cmd, payload)[0] == cmd,
        frame_bytes(cmd, payload)[1] == payload.len(),
        forall|k: int|
            0 <= k < payload.len() ==> #[trigger] frame_bytes(cmd, payload)[2 + k] == payload[k],
        crc8_of(frame_bytes(cmd, payload)) == 0,
{
    law_crc8_leaves_no_remainder(frame_body(cmd, payload), crc8_of(frame_body(cmd, payload)));
}

/// What a frame is: three to 255 bytes, the second of which counts the bytes
/// between it and the last, with no remainder. Its payload is those bytes.
pub proof fn law_what_a_frame_is(raw: Seq<u8>)
    ensures
        is_frame(raw) <==> 3 <= raw.len() <= 255 && raw[1] == raw.len() - 3 && crc8_of(raw) == 0,
        is_frame(raw) ==> payload_of(raw).len() == raw[1],
        is_frame(raw) ==> forall|k: int|
            0 <= k < payload_of(raw).len() ==> #[trigger] payload_of(raw)[k] == raw[2 + k],
{
    if raw.len() >= 3 {
        assert(raw.drop_last().push(raw.last()) =~= raw);
        law_crc8_leaves_no_remainder(raw.drop_last(), raw.last());
    }
}

/// What a padded frame is: a frame at the front, and `0xFF` from its end on.
pub proof fn law_what_a_padded_frame_is(raw: Seq<u8>)
    ensures
        is_padded_frame(raw) <==> exists|n: int|
            0 <= n <= raw.len() && is_frame(#[trigger] raw.take(n)) && forall|i: int|
                n <= i < raw.len() ==> raw[i] == 0xFF,
        is_padded_frame(raw) ==> frame_extent(raw) == raw[1] + 3,
{
    if is_padded_frame(raw) {
        let n = frame_extent(raw);
        assert forall|i: int| n <= i < raw.len() implies raw[i] == 0xFF by {
            assert(raw.skip(n)[i - n] == raw[i]);
        }
        assert(is_frame(raw.take(n)));
    }
    if exists|n: int|
        0 <= n <= raw.len() && is_frame(#[trigger] raw.take(n)) && forall|i: int|
            n <= i < raw.len() ==> raw[i] == 0xFF {
        let n = choose|n: int|
            0 <= n <= raw.len() && is_frame(#[trigger] raw.take(n)) && forall|i: int|
                n <= i < raw.len() ==> raw[i] == 0xFF;
        assert(raw.take(n)[1] == raw[1]);
        assert(n == frame_extent(raw));
    }
}

/// When a frame can be made: of up to 252 payload bytes, in a buffer with
/// three bytes more than that. Too long a payload is told first.
pub proof fn law_when_a_frame_is_made(len: nat, room: nat)
    requires
        len <= usize::MAX,
    ensures
        encode_result(len, room) matches Ok(n) ==> len <= 252 && len + 3 <= room && n == len + 3,
        encode_result(len, room) matches Err(e) ==> if len > 252 {
            e matches Error::PayloadTooLarge { len: l } && l == len
        } else {
            len + 3 > room && (e matches Error::BufferTooSmall { needed } && needed == len + 3)
        },
{
}

/// The status bytes by name.
pub proof fn law_status_names(st: u8)
    ensures
        st_text(0x00) == "OK"@,
        st_text(0x01) == "BAD_FRAME: device saw a malformed frame"@,
        st_text(0x02) == "BAD_CMD: unknown command"@,
        st_text(0x03) == "NOT_ERASED: write before erase"@,
        st_text(0x04) == "OUT_OF_RANGE: page or length outside the app region"@,
        st_text(0x05) == "BAD_CRC: image CRC mismatch"@,
        st_text(0x06) == "BAD_MAGIC: missing or wrong erase magic"@,
        st_text(0x07) == "NO_APP: no valid application present"@,
        st > 0x07 ==> st_text(st) == "unknown status"@,
{
}

} // verus!
