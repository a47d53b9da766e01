//! The session engine: `INFO`, `ERASE_APP`, `WRITE_PAGE`, `VERIFY` (and
//! `BOOT`, `ECHO`) over any [`Transport`], with bounded retries.
//!
//! # Buffer discipline
//!
//! [`Session::new`] takes one frame buffer. For every exchange it is split
//! into a transmit window followed by a receive window, each sized exactly
//! for the command in flight; a page is rendered in place into the transmit
//! window. A buffer too small for a command yields
//! [`Error::BufferTooSmall`] with the exact size needed. 320 bytes cover
//! every legal geometry.
//!
//! # Retries
//!
//! The wire protocol is idempotent, so a lost or mangled exchange is
//! repaired by re-sending the identical request: transport errors,
//! undecodable responses and `ST_BAD_FRAME` are retried up to
//! [`RETRY_BUDGET`] times after the initial attempt. Any other device status
//! is a fact about the device and is returned at once.

use vstd::prelude::*;

use crate::error::Error;
use crate::frame;
use crate::frame::{
    CMD_BOOT, CMD_ECHO, CMD_ERASE_APP, CMD_INFO, CMD_VERIFY, CMD_WRITE_PAGE, ECHO_MAX,
    ERASE_MAGIC, FRAME_OVERHEAD, PAYLOAD_MAX, PROTO_VERSION, RSP_FLAG, ST_BAD_FRAME, ST_OK,
};
use crate::image::{Image, Pages};
use crate::le::{read_le16, to_le16, to_le32};
use crate::transport::Transport;

verus! {

/// Retries after the initial attempt for retryable failures: at most
/// `1 + RETRY_BUDGET` requests hit the wire per exchange.
pub const RETRY_BUDGET: u8 = 3;

/// Response payload of `INFO`: status, protocol and bootloader version,
/// four identity bytes, page size, page count and the boot-gate flag.
pub const INFO_RSP_PAYLOAD: usize = 12;

/// Response payload of every status-only reply.
pub const ST_RSP_PAYLOAD: usize = 1;

/// What a device reported about itself in response to `INFO`.
#[derive(Debug, Clone, Copy, PartialEq, Eq)]
pub struct DeviceInfo {
    /// Protocol version the device speaks.
    pub proto: u8,
    /// Bootloader version.
    pub bl_version: u8,
    /// Device identity bytes.
    pub device_id: [u8; 4],
    /// Protocol page size in bytes: the unit of a page write on the wire,
    /// not necessarily the physical flash page of the device.
    pub page_size: u16,
    /// Number of pages in the app region.
    pub app_pages: u16,
    /// Whether the flashed application passes the boot gate.
    pub app_valid: bool,
}

/// Whether `info` is what the bytes after the status byte of an `INFO`
/// response say.
pub open spec fn info_says(rest: Seq<u8>, info: DeviceInfo) -> bool {
    &&& rest.len() == INFO_RSP_PAYLOAD - 1
    &&& info.proto == rest[0]
    &&& info.bl_version == rest[1]
    &&& info.device_id@ == rest.subrange(2, 6)
    &&& info.page_size == crate::le::from_le16(rest.subrange(6, 8))
    &&& info.app_pages == crate::le::from_le16(rest.subrange(8, 10))
    &&& info.app_valid == (rest[10] != 0)
}

/// Parses the `INFO` response payload after the status byte.
///
/// # Errors
///
/// [`Error::BadFrame`] if it does not have the one length that it can have.
pub fn parse_info<E>(rest: &[u8]) -> (r: Result<DeviceInfo, Error<E>>)
    ensures
        rest@.len() == INFO_RSP_PAYLOAD - 1 ==> r is Ok && info_says(rest@, r->Ok_0),
        rest@.len() != INFO_RSP_PAYLOAD - 1 ==> r == Err::<DeviceInfo, Error<E>>(
            Error::BadFrame,
        ),
{
    if rest.len() != INFO_RSP_PAYLOAD - 1 {
        return Err(Error::BadFrame);
    }
    let device_id: [u8; 4] = [rest[2], rest[3], rest[4], rest[5]];
    proof {
        assert(device_id@ =~= rest@.subrange(2, 6));
        assert(rest@.subrange(6, 8) =~= seq![rest@[6], rest@[7]]);
        assert(rest@.subrange(8, 10) =~= seq![rest@[8], rest@[9]]);
    }
    Ok(
        DeviceInfo {
            proto: rest[0],
            bl_version: rest[1],
            device_id,
            page_size: read_le16(rest[6], rest[7]),
            app_pages: read_le16(rest[8], rest[9]),
            app_valid: rest[10] != 0,
        },
    )
}

/// Why a received response cannot be accepted.
#[derive(Debug, Clone, Copy, PartialEq, Eq)]
pub enum Reject {
    /// Not a decodable frame, wrong command or empty payload: wire damage.
    Mangled,
    /// The device decoded garbage on its side: wire damage.
    DeviceBadFrame,
    /// Any other status than OK: a fact about the device, final.
    Fatal(u8),
}

/// The payload of the frame at the front of a padded response.
pub open spec fn padded_payload(raw: Seq<u8>) -> Seq<u8> {
    frame::payload_of(raw.take(frame::frame_extent(raw)))
}

/// What [`validate`] says of `raw`.
pub open spec fn validation(raw: Seq<u8>, expect_cmd: u8) -> Result<(), Reject> {
    if !frame::is_padded_frame(raw) || raw[0] != expect_cmd || padded_payload(raw).len() == 0 {
        Err(Reject::Mangled)
    } else if padded_payload(raw)[0] == ST_OK {
        Ok(())
    } else if padded_payload(raw)[0] == ST_BAD_FRAME {
        Err(Reject::DeviceBadFrame)
    } else {
        Err(Reject::Fatal(padded_payload(raw)[0]))
    }
}

/// Validates `raw` as the response that carries `expect_cmd`.
///
/// # Errors
///
/// See [`Reject`].
pub fn validate(raw: &[u8], expect_cmd: u8) -> (r: Result<(), Reject>)
    ensures
        r == validation(raw@, expect_cmd),
{
    match frame::decode_padded(raw) {
        Err(_) => Err(Reject::Mangled),
        Ok(decoded) => {
            if decoded.cmd != expect_cmd || decoded.payload.len() == 0 {
                return Err(Reject::Mangled);
            }
            let st: u8 = decoded.payload[0];
            if st == ST_OK {
                Ok(())
            } else if st == ST_BAD_FRAME {
                Err(Reject::DeviceBadFrame)
            } else {
                Err(Reject::Fatal(st))
            }
        },
    }
}

/// One command as it goes over the wire: request and room for the response.
pub ghost struct Call {
    pub cmd: u8,
    pub payload: Seq<u8>,
    /// Longest response payload that the command can have.
    pub cap: nat,
}

/// The command `cmd` with this payload and room for that much of a response.
pub open spec fn call_of(cmd: u8, payload: Seq<u8>, cap: nat) -> Call {
    Call { cmd, payload, cap }
}

impl Call {
    /// The request frame.
    pub open spec fn request(self) -> Seq<u8> {
        frame::frame_bytes(self.cmd, self.payload)
    }

    /// The command byte of the response.
    pub open spec fn expect(self) -> u8 {
        self.cmd | RSP_FLAG
    }

    /// Bytes of the receive window.
    pub open spec fn rx_len(self) -> nat {
        self.cap + FRAME_OVERHEAD as nat
    }

    /// Bytes of the frame buffer that the exchange needs.
    pub open spec fn needed(self) -> nat {
        self.payload.len() + FRAME_OVERHEAD as nat + self.rx_len()
    }
}

/// The bytes that an attempt delivered: what the transport counted, cut at
/// the end of the receive window.
pub open spec fn delivered<E>(a: crate::transport::Attempt<E>) -> Seq<u8> {
    match a.res {
        Ok(n) => a.rsp.take(if n <= a.rsp.len() {
            n as int
        } else {
            a.rsp.len() as int
        }),
        Err(_) => seq![],
    }
}

/// Whether an attempt ends its exchange: an accepted response, or a status
/// that is a fact about the device.
pub open spec fn settles<E>(a: crate::transport::Attempt<E>, expect_cmd: u8) -> bool {
    a.res is Ok && match validation(delivered(a), expect_cmd) {
        Ok(_) => true,
        Err(Reject::Fatal(_)) => true,
        Err(_) => false,
    }
}

/// What an exchange comes to if `a` is its last attempt: the response payload
/// after the status byte, or the error.
pub open spec fn attempt_result<E>(
    a: crate::transport::Attempt<E>,
    expect_cmd: u8,
) -> Result<Seq<u8>, Error<E>> {
    match a.res {
        Err(e) => Err(Error::Transport(e)),
        Ok(_) => match validation(delivered(a), expect_cmd) {
            Ok(_) => Ok(padded_payload(delivered(a)).skip(1)),
            Err(Reject::Mangled) => Err(Error::BadFrame),
            Err(Reject::DeviceBadFrame) => Err(Error::Device(ST_BAD_FRAME)),
            Err(Reject::Fatal(st)) => Err(Error::Device(st)),
        },
    }
}

/// Whether `log` is one request with its retries: the same bytes over and
/// over with the same receive window, stopping at the first attempt that
/// settles it, and after the retry budget at the latest.
pub open spec fn is_retried<E>(
    log: Seq<crate::transport::Attempt<E>>,
    req: Seq<u8>,
    rx_len: nat,
    expect_cmd: u8,
) -> bool {
    &&& 1 <= log.len() <= 1 + RETRY_BUDGET
    &&& forall|i: int|
        0 <= i < log.len() ==> (#[trigger] log[i]).req == req && log[i].rsp.len() == rx_len
    &&& forall|i: int| 0 <= i < log.len() - 1 ==> !settles(#[trigger] log[i], expect_cmd)
    &&& settles(log.last(), expect_cmd) || log.len() == 1 + RETRY_BUDGET
}

/// Whether `log` is one exchange of `call`: its request with its retries.
pub open spec fn is_exchange<E>(log: Seq<crate::transport::Attempt<E>>, call: Call) -> bool {
    is_retried(log, call.request(), call.rx_len(), call.expect())
}

/// Whether `log` is what one command puts on the wire in a session with a
/// buffer of `room` bytes: nothing if that is too small, else one exchange.
pub open spec fn called<E>(
    call: Call,
    room: nat,
    log: Seq<crate::transport::Attempt<E>>,
) -> bool {
    if room < call.needed() {
        log.len() == 0
    } else {
        is_exchange(log, call)
    }
}

/// What that command returns: the response payload after the status byte, or
/// the error.
pub open spec fn call_result<E>(
    call: Call,
    room: nat,
    log: Seq<crate::transport::Attempt<E>>,
) -> Result<Seq<u8>, Error<E>> {
    if room < call.needed() {
        Err(too_small(call.needed() as int))
    } else {
        attempt_result(log.last(), call.expect())
    }
}

/// The part of a log that came after `before`.
pub open spec fn since<E>(
    before: Seq<crate::transport::Attempt<E>>,
    after: Seq<crate::transport::Attempt<E>>,
) -> Seq<crate::transport::Attempt<E>> {
    after.skip(before.len() as int)
}

/// The `INFO` command.
pub open spec fn info_call() -> Call {
    Call { cmd: CMD_INFO, payload: seq![], cap: INFO_RSP_PAYLOAD as nat }
}

/// The `ECHO` command for `data`.
pub open spec fn echo_call(data: Seq<u8>) -> Call {
    Call { cmd: CMD_ECHO, payload: data, cap: data.len() + ST_RSP_PAYLOAD as nat }
}

/// The `BOOT` command.
pub open spec fn boot_call() -> Call {
    Call { cmd: CMD_BOOT, payload: seq![], cap: ST_RSP_PAYLOAD as nat }
}

/// The `ERASE_APP` command.
pub open spec fn erase_call() -> Call {
    Call { cmd: CMD_ERASE_APP, payload: ERASE_MAGIC@, cap: ST_RSP_PAYLOAD as nat }
}

/// The `WRITE_PAGE` command for page `index` of an image.
pub open spec fn write_call(m: crate::image::ImageSpec, index: u16) -> Call {
    Call {
        cmd: CMD_WRITE_PAGE,
        payload: crate::le::le16(index) + m.page(index as int),
        cap: ST_RSP_PAYLOAD as nat,
    }
}

/// The `VERIFY` command for an image.
pub open spec fn verify_call(m: crate::image::ImageSpec) -> Call {
    Call {
        cmd: CMD_VERIFY,
        payload: crate::le::le32(m.data.len() as u32) + crate::le::le32(
            crate::image::crc32_of(m.data),
        ),
        cap: ST_RSP_PAYLOAD as nat,
    }
}

/// Everything an update sends once the gates are passed: the erase, every
/// page that must be written in ascending order, and the verification.
pub open spec fn update_calls(m: crate::image::ImageSpec) -> Seq<Call> {
    seq![erase_call()] + write_calls(m, m.write_list()) + seq![verify_call(m)]
}

/// One page write for each of the listed pages.
pub open spec fn write_calls(m: crate::image::ImageSpec, pages: Seq<u16>) -> Seq<Call> {
    pages.map_values(|i: u16| write_call(m, i))
}

/// Attempts that the first exchange of `log` takes: up to the first one that
/// settles it, and no more than `budget`.
pub open spec fn attempts_used<E>(
    log: Seq<crate::transport::Attempt<E>>,
    expect_cmd: u8,
    budget: nat,
) -> nat
    decreases budget,
{
    if budget == 0 || log.len() == 0 {
        0
    } else if settles(log[0], expect_cmd) {
        1
    } else {
        1 + attempts_used(log.skip(1), expect_cmd, (budget - 1) as nat)
    }
}

/// Attempts that `call` takes at the front of `log`.
pub open spec fn call_len<E>(
    call: Call,
    room: nat,
    log: Seq<crate::transport::Attempt<E>>,
) -> nat {
    if room < call.needed() {
        0
    } else {
        attempts_used(log, call.expect(), 1 + RETRY_BUDGET as nat)
    }
}

/// Whether `log` and `r` are what making `calls` one after the other comes
/// to: each is made only once the one before it was accepted, the first that
/// fails is the last one made and gives the result, and nothing else is sent.
pub open spec fn plays<E>(
    calls: Seq<Call>,
    room: nat,
    log: Seq<crate::transport::Attempt<E>>,
    r: Result<(), Error<E>>,
) -> bool
    decreases calls.len(),
{
    if calls.len() == 0 {
        log.len() == 0 && r == Ok::<(), Error<E>>(())
    } else {
        let k = call_len(calls[0], room, log) as int;
        &&& called(calls[0], room, log.take(k))
        &&& match call_result(calls[0], room, log.take(k)) {
            Ok(_) => plays(calls.drop_first(), room, log.skip(k), r),
            Err(e) => log.len() == k && r == Err::<(), Error<E>>(e),
        }
    }
}

/// How many of `calls` were accepted in turn.
pub open spec fn accepted<E>(
    calls: Seq<Call>,
    room: nat,
    log: Seq<crate::transport::Attempt<E>>,
) -> nat
    decreases calls.len(),
{
    if calls.len() == 0 {
        0
    } else {
        let k = call_len(calls[0], room, log) as int;
        if call_result(calls[0], room, log.take(k)) is Ok {
            1 + accepted(calls.drop_first(), room, log.skip(k))
        } else {
            0
        }
    }
}

/// Why an update does not start, given the device's `INFO` payload after the
/// status byte; `None` where it may.
pub open spec fn flash_gate<E>(rest: Seq<u8>, m: crate::image::ImageSpec) -> Option<Error<E>> {
    let page_size = crate::le::from_le16(rest.subrange(6, 8));
    let app_pages = crate::le::from_le16(rest.subrange(8, 10));
    if rest.len() != INFO_RSP_PAYLOAD - 1 {
        Some(Error::BadFrame)
    } else if rest[0] != PROTO_VERSION {
        Some(Error::ProtocolVersion { device: rest[0] })
    } else if page_size != m.page_size || app_pages != m.app_pages {
        Some(Error::BadGeometry { page_size, app_pages })
    } else {
        None
    }
}

/// One report of progress.
pub ghost struct Report {
    /// Pages done.
    pub done: u16,
    /// Pages in all.
    pub total: u16,
    /// Requests made over the transport by the time of the report.
    pub sent: int,
}

/// Attempts that `calls` take at the front of `log`.
pub open spec fn calls_len<E>(
    calls: Seq<Call>,
    room: nat,
    log: Seq<crate::transport::Attempt<E>>,
) -> nat
    decreases calls.len(),
{
    if calls.len() == 0 {
        0
    } else {
        let k = call_len(calls[0], room, log);
        k + calls_len(calls.drop_first(), room, log.skip(k as int))
    }
}

/// What an update reports if its first `done` commands were accepted: nothing
/// before the erase was, then the count of pages done, from zero, up front and
/// after each page. Each report is made as soon as its command was accepted,
/// before the next request goes out. `base` requests were made before.
pub open spec fn progress_reports<E>(
    m: crate::image::ImageSpec,
    done: nat,
    base: int,
    room: nat,
    log: Seq<crate::transport::Attempt<E>>,
) -> Seq<Report> {
    let total = m.write_list().len();
    if done == 0 {
        seq![]
    } else {
        let pages = if done - 1 <= total {
            (done - 1) as nat
        } else {
            total
        };
        Seq::new(
            pages + 1,
            |i: int|
                Report {
                    done: i as u16,
                    total: total as u16,
                    sent: base + calls_len(update_calls(m).take(i + 1), room, log),
                },
        )
    }
}

/// The reports that came after `before`, with requests counted from `start`
/// on.
pub open spec fn reports_since(before: Seq<Report>, after: Seq<Report>, start: int) -> Seq<Report> {
    after.skip(before.len() as int).map_values(
        |r: Report| Report { sent: r.sent - start, ..r },
    )
}

/// Whether `log`, the reports and `r` are what an update of a device to the
/// image `m` comes to.
pub open spec fn flashes<E>(
    m: crate::image::ImageSpec,
    room: nat,
    log: Seq<crate::transport::Attempt<E>>,
    reports: Seq<Report>,
    r: Result<(), Error<E>>,
) -> bool {
    let k = call_len(info_call(), room, log) as int;
    let rest = call_result(info_call(), room, log.take(k));
    &&& called(info_call(), room, log.take(k))
    &&& match rest {
        Err(e) => log.len() == k && reports.len() == 0 && r == Err::<(), Error<E>>(e),
        Ok(rest) => match flash_gate::<E>(rest, m) {
            Some(e) => log.len() == k && reports.len() == 0 && r == Err::<(), Error<E>>(e),
            None => {
                &&& plays(update_calls(m), room, log.skip(k), r)
                &&& reports == progress_reports(
                    m,
                    accepted(update_calls(m), room, log.skip(k)),
                    k,
                    room,
                    log.skip(k),
                )
            },
        },
    }
}

/// The error that asks for a frame buffer of `needed` bytes.
pub open spec fn too_small<E>(needed: int) -> Error<E> {
    Error::BufferTooSmall { needed: needed as usize }
}

/// Splits `buf` into a transmit and a receive window, or says exactly how
/// many bytes the caller must provide.
fn split_windows<E>(buf: &mut [u8], tx_len: usize, rx_len: usize) -> (r: Result<
    (&mut [u8], &mut [u8]),
    Error<E>,
>)
    requires
        tx_len + rx_len <= usize::MAX,
    ensures
        tx_len + rx_len > old(buf)@.len() ==> r is Err && r->Err_0 == too_small::<E>(
            tx_len + rx_len,
        ) && final(buf)@ == old(buf)@,
        tx_len + rx_len <= old(buf)@.len() ==> r is Ok && ({
            let (tx, rx) = r->Ok_0;
            &&& tx@.len() == tx_len
            &&& rx@.len() == rx_len
            &&& final(buf)@ == final(tx)@ + final(rx)@ + old(buf)@.skip(tx_len + rx_len)
        }),
{
    let needed: usize = tx_len + rx_len;
    if buf.len() < needed {
        return Err(Error::BufferTooSmall { needed });
    }
    let (region, _) = buf.split_at_mut(needed);
    let (tx, rx) = region.split_at_mut(tx_len);
    Ok((tx, rx))
}

/// Do two slices hold the same bytes?
fn same_bytes(a: &[u8], b: &[u8]) -> (r: bool)
    ensures
        r == (a@ == b@),
{
    if a.len() != b.len() {
        return false;
    }
    let mut i: usize = 0;
    while i < a.len()
        invariant
            i <= a@.len(),
            a@.len() == b@.len(),
            forall|j: int| 0 <= j < i ==> a@[j] == b@[j],
        decreases a@.len() - i,
    {
        if a[i] != b[i] {
            return false;
        }
        i = i + 1;
    }
    proof {
        assert(a@ =~= b@);
    }
    true
}

/// Runs one request with bounded retries; on success the first bytes of `rx`
/// hold a validated OK response frame, possibly with filler.
fn exchange<T: Transport>(
    transport: &mut T,
    tx: &[u8],
    rx: &mut [u8],
    expect_cmd: u8,
) -> (r: Result<usize, Error<T::Err>>)
    ensures
        final(rx)@.len() == old(rx)@.len(),
        (*old(transport)).log().is_prefix_of((*final(transport)).log()),
        is_retried(
            since((*old(transport)).log(), (*final(transport)).log()),
            tx@,
            old(rx)@.len(),
            expect_cmd,
        ),
        final(rx)@ == (*final(transport)).log().last().rsp,
        ({
            let last = (*final(transport)).log().last();
            match attempt_result(last, expect_cmd) {
                Ok(_) => r is Ok && r->Ok_0 <= final(rx)@.len() && delivered(last)
                    == final(rx)@.take(r->Ok_0 as int) && validation(
                    delivered(last),
                    expect_cmd,
                ) is Ok,
                Err(e) => r == Err::<usize, Error<T::Err>>(e),
            }
        }),
{
    let ghost start = (*transport).log();
    let mut attempt: u8 = 0;
    loop
        invariant
            attempt <= RETRY_BUDGET,
            rx@.len() == old(rx)@.len(),
            start == (*old(transport)).log(),
            start.is_prefix_of(transport.log()),
            (*transport).log().len() == start.len() + attempt,
            forall|i: int|
                start.len() <= i < (*transport).log().len() ==> {
                    &&& (#[trigger] (*transport).log()[i]).req == tx@
                    &&& (*transport).log()[i].rsp.len() == rx@.len()
                    &&& !settles(transport.log()[i], expect_cmd)
                },
        decreases RETRY_BUDGET - attempt,
    {
        let ghost before = (*transport).log();
        let res = transport.request(tx, rx);
        let ghost a = crate::transport::Attempt { req: tx@, rsp: rx@, res };
        proof {
            let new = since(start, (*transport).log());
            assert(transport.log() == before.push(a));
            assert(transport.log().last() == a);
            assert(new.len() == attempt + 1);
            assert(new.last() == a);
            assert forall|i: int| 0 <= i < new.len() implies (#[trigger] new[i]).req
                == tx@ && new[i].rsp.len() == rx@.len() by {
                assert(new[i] == (*transport).log()[start.len() + i]);
                if i < new.len() - 1 {
                    assert(new[i] == before[start.len() + i]);
                }
            }
            assert forall|i: int| 0 <= i < new.len() - 1 implies !settles(
                #[trigger] new[i],
                expect_cmd,
            ) by {
                assert(new[i] == before[start.len() + i]);
            }
        }
        let last: Error<T::Err> = match res {
            Err(e) => Error::Transport(e),
            Ok(n) => {
                let rlen: usize = if n <= rx.len() {
                    n
                } else {
                    rx.len()
                };
                let raw: &[u8] = &rx[0..rlen];
                proof {
                    assert(raw@ =~= delivered(a));
                    assert(rx@.take(rlen as int) =~= raw@);
                }
                match validate(raw, expect_cmd) {
                    Ok(()) => {
                        return Ok(rlen);
                    },
                    Err(Reject::Mangled) => Error::BadFrame,
                    Err(Reject::DeviceBadFrame) => Error::Device(ST_BAD_FRAME),
                    Err(Reject::Fatal(st)) => {
                        return Err(Error::Device(st));
                    },
                }
            },
        };
        if attempt >= RETRY_BUDGET {
            return Err(last);
        }
        attempt = attempt + 1;
    }
}

/// One exchange is all of its own attempts, whatever follows it.
proof fn lemma_exchange_len<E>(
    log: Seq<crate::transport::Attempt<E>>,
    more: Seq<crate::transport::Attempt<E>>,
    expect_cmd: u8,
    budget: nat,
)
    requires
        1 <= log.len() <= budget,
        forall|i: int| 0 <= i < log.len() - 1 ==> !settles(#[trigger] log[i], expect_cmd),
        settles(log.last(), expect_cmd) || log.len() == budget,
    ensures
        attempts_used(log + more, expect_cmd, budget) == log.len(),
    decreases budget,
{
    let all = log + more;
    assert(all[0] == log[0]);
    if log.len() == 1 {
        if !settles(log[0], expect_cmd) {
            assert(budget == 1);
            assert(attempts_used(all.skip(1), expect_cmd, 0) == 0);
        }
    } else {
        let tail = log.skip(1);
        assert(all.skip(1) =~= tail + more);
        assert forall|i: int| 0 <= i < tail.len() - 1 implies !settles(
            #[trigger] tail[i],
            expect_cmd,
        ) by {
            assert(tail[i] == log[i + 1]);
        }
        assert(tail.last() == log.last());
        lemma_exchange_len(tail, more, expect_cmd, (budget - 1) as nat);
        assert(!settles(log[0], expect_cmd));
    }
}

/// An exchange takes no more attempts than there are.
proof fn lemma_attempts_bounded<E>(
    log: Seq<crate::transport::Attempt<E>>,
    expect_cmd: u8,
    budget: nat,
)
    ensures
        attempts_used(log, expect_cmd, budget) <= log.len(),
    decreases budget,
{
    if budget > 0 && log.len() > 0 {
        lemma_attempts_bounded(log.skip(1), expect_cmd, (budget - 1) as nat);
    }
}

/// A command takes no more attempts than there are.
pub(crate) proof fn lemma_call_len_bounded<E>(
    call: Call,
    room: nat,
    log: Seq<crate::transport::Attempt<E>>,
)
    ensures
        call_len(call, room, log) <= log.len(),
{
    lemma_attempts_bounded(log, call.expect(), 1 + RETRY_BUDGET as nat);
}

/// A command is all of its own attempts, whatever follows it.
proof fn lemma_call_len<E>(
    call: Call,
    room: nat,
    log: Seq<crate::transport::Attempt<E>>,
    more: Seq<crate::transport::Attempt<E>>,
)
    requires
        called(call, room, log),
    ensures
        call_len(call, room, log + more) == log.len(),
        (log + more).take(log.len() as int) == log,
        (log + more).skip(log.len() as int) == more,
{
    assert((log + more).take(log.len() as int) =~= log);
    assert((log + more).skip(log.len() as int) =~= more);
    if room >= call.needed() {
        lemma_exchange_len(log, more, call.expect(), 1 + RETRY_BUDGET as nat);
    }
}

/// One accepted or failed command, in terms of [`plays`].
proof fn lemma_one_call<E>(
    call: Call,
    room: nat,
    log: Seq<crate::transport::Attempt<E>>,
    r: Result<(), Error<E>>,
)
    requires
        called(call, room, log),
        match call_result(call, room, log) {
            Ok(_) => r == Ok::<(), Error<E>>(()),
            Err(e) => r == Err::<(), Error<E>>(e),
        },
    ensures
        plays(seq![call], room, log, r),
        accepted(seq![call], room, log) == (if r is Ok {
            1nat
        } else {
            0
        }),
{
    let none = Seq::<crate::transport::Attempt<E>>::empty();
    lemma_call_len(call, room, log, none);
    assert(log + none =~= log);
    assert(seq![call].drop_first() =~= Seq::<Call>::empty());
    assert(accepted(Seq::<Call>::empty(), room, none) == 0);
    assert(plays(Seq::<Call>::empty(), room, none, Ok::<(), Error<E>>(())));
}

/// An update that ends with its `INFO` exchange.
proof fn lemma_info_alone<E>(
    m: crate::image::ImageSpec,
    room: nat,
    log: Seq<crate::transport::Attempt<E>>,
    reports: Seq<Report>,
    r: Result<(), Error<E>>,
)
    requires
        called(info_call(), room, log),
        reports.len() == 0,
        match call_result(info_call(), room, log) {
            Err(e) => r == Err::<(), Error<E>>(e),
            Ok(rest) => flash_gate::<E>(rest, m) matches Some(e) && r == Err::<
                (),
                Error<E>,
            >(e),
        },
    ensures
        flashes(m, room, log, reports, r),
{
    let none = Seq::<crate::transport::Attempt<E>>::empty();
    lemma_call_len(info_call(), room, log, none);
    assert(log + none =~= log);
}

/// Accepted commands and then others are all of them in a row.
pub proof fn law_commands_compose<E>(
    a: Seq<Call>,
    b: Seq<Call>,
    room: nat,
    log_a: Seq<crate::transport::Attempt<E>>,
    log_b: Seq<crate::transport::Attempt<E>>,
    r: Result<(), Error<E>>,
)
    requires
        plays(a, room, log_a, Ok::<(), Error<E>>(())),
        plays(b, room, log_b, r),
    ensures
        plays(a + b, room, log_a + log_b, r),
        accepted(a + b, room, log_a + log_b) == a.len() + accepted(b, room, log_b),
    decreases a.len(),
{
    if a.len() == 0 {
        assert(a + b =~= b);
        assert(log_a + log_b =~= log_b);
    } else {
        let k = call_len(a[0], room, log_a) as int;
        let first = log_a.take(k);
        lemma_attempts_bounded(log_a, a[0].expect(), 1 + RETRY_BUDGET as nat);
        let more = log_a.skip(k) + log_b;
        assert(log_a + log_b =~= first + more);
        lemma_call_len(a[0], room, first, more);
        lemma_call_len(a[0], room, first, log_a.skip(k));
        assert(first + log_a.skip(k) =~= log_a);
        assert((a + b)[0] == a[0]);
        assert((a + b).drop_first() =~= a.drop_first() + b);
        law_commands_compose(a.drop_first(), b, room, log_a.skip(k), log_b, r);
    }
}

/// After a failed command no further one is made, however many there are.
pub proof fn law_failure_is_final<E>(
    a: Seq<Call>,
    b: Seq<Call>,
    room: nat,
    log: Seq<crate::transport::Attempt<E>>,
    e: Error<E>,
)
    requires
        plays(a, room, log, Err::<(), Error<E>>(e)),
    ensures
        plays(a + b, room, log, Err::<(), Error<E>>(e)),
        accepted(a + b, room, log) == accepted(a, room, log),
    decreases a.len(),
{
    let k = call_len(a[0], room, log) as int;
    assert((a + b)[0] == a[0]);
    assert((a + b).drop_first() =~= a.drop_first() + b);
    if call_result(a[0], room, log.take(k)) is Ok {
        law_failure_is_final(a.drop_first(), b, room, log.skip(k), e);
    }
}

/// Accepted commands are all of their own attempts, whatever follows them.
proof fn lemma_calls_len<E>(
    a: Seq<Call>,
    room: nat,
    log: Seq<crate::transport::Attempt<E>>,
    more: Seq<crate::transport::Attempt<E>>,
)
    requires
        plays(a, room, log, Ok::<(), Error<E>>(())),
    ensures
        calls_len(a, room, log + more) == log.len(),
    decreases a.len(),
{
    if a.len() > 0 {
        let k = call_len(a[0], room, log) as int;
        let first = log.take(k);
        let rest = log.skip(k);
        lemma_call_len_bounded(a[0], room, log);
        assert(log + more =~= first + (rest + more));
        lemma_call_len(a[0], room, first, rest + more);
        lemma_calls_len(a.drop_first(), room, rest, more);
    }
}

/// So is each part of them from the front.
proof fn lemma_calls_len_stable<E>(
    a: Seq<Call>,
    n: int,
    room: nat,
    log: Seq<crate::transport::Attempt<E>>,
    more: Seq<crate::transport::Attempt<E>>,
)
    requires
        plays(a, room, log, Ok::<(), Error<E>>(())),
        0 <= n <= a.len(),
    ensures
        calls_len(a.take(n), room, log + more) == calls_len(a.take(n), room, log),
    decreases a.len(),
{
    if n > 0 {
        let k = call_len(a[0], room, log) as int;
        let first = log.take(k);
        let rest = log.skip(k);
        lemma_call_len_bounded(a[0], room, log);
        assert(log + more =~= first + (rest + more));
        lemma_call_len(a[0], room, first, rest + more);
        assert(a.take(n)[0] == a[0]);
        assert(a.take(n).drop_first() =~= a.drop_first().take(n - 1));
        lemma_calls_len_stable(a.drop_first(), n - 1, room, rest, more);
    }
}

/// What was reported stays what was to be reported while the log grows.
proof fn lemma_reports_stable<E>(
    m: crate::image::ImageSpec,
    a: Seq<Call>,
    base: int,
    room: nat,
    log: Seq<crate::transport::Attempt<E>>,
    more: Seq<crate::transport::Attempt<E>>,
)
    requires
        1 <= a.len() <= update_calls(m).len(),
        a == update_calls(m).take(a.len() as int),
        plays(a, room, log, Ok::<(), Error<E>>(())),
    ensures
        progress_reports(m, a.len(), base, room, log + more) == progress_reports(
            m,
            a.len(),
            base,
            room,
            log,
        ),
{
    let now = progress_reports(m, a.len(), base, room, log);
    let later = progress_reports(m, a.len(), base, room, log + more);
    assert forall|i: int| 0 <= i < now.len() implies now[i] == later[i] by {
        assert(update_calls(m).take(i + 1) =~= a.take(i + 1));
        lemma_calls_len_stable(a, i + 1, room, log, more);
    }
    assert(later =~= now);
}

/// One more command and its report.
proof fn lemma_next_report<E>(
    m: crate::image::ImageSpec,
    a: Seq<Call>,
    base: int,
    room: nat,
    log: Seq<crate::transport::Attempt<E>>,
    more: Seq<crate::transport::Attempt<E>>,
)
    requires
        1 <= a.len() <= m.write_list().len(),
        a == update_calls(m).take(a.len() as int),
        plays(a, room, log, Ok::<(), Error<E>>(())),
        plays(
            update_calls(m).take(a.len() as int + 1),
            room,
            log + more,
            Ok::<(), Error<E>>(()),
        ),
    ensures
        progress_reports(m, a.len() + 1, base, room, log + more) == progress_reports(
            m,
            a.len(),
            base,
            room,
            log,
        ).push(
            Report {
                done: a.len() as u16,
                total: m.write_list().len() as u16,
                sent: base + (log + more).len(),
            },
        ),
{
    let none = Seq::<crate::transport::Attempt<E>>::empty();
    lemma_reports_stable(m, a, base, room, log, more);
    lemma_calls_len(update_calls(m).take(a.len() as int + 1), room, log + more, none);
    assert(log + more + none =~= log + more);
    let before = progress_reports(m, a.len(), base, room, log + more);
    let after = progress_reports(m, a.len() + 1, base, room, log + more);
    assert(after =~= before.push(after.last()));
}

/// Receives the progress of an update: pages done and pages in all.
pub trait Progress {
    /// The reports received so far, oldest first. Like
    /// [`Transport::log`] it exists in specifications only: the default body
    /// stands for none, and what a session's contract claims of the reports
    /// it claims relative to a list kept for the receiver.
    closed spec fn reports(&self) -> Seq<Report> {
        arbitrary()
    }

    /// Takes one report. `wire` is the transport that the update runs over,
    /// as it stands at that moment.
    fn report<T: Transport>(&mut self, done: u16, total: u16, wire: &T)
        ensures
            (*final(self)).reports() == (*old(self)).reports().push(
                (Report { done, total, sent: wire.log().len() as int }),
            ),
    ;
}

/// Collects the reports of an update.
pub struct ReportList {
    list: Vec<(u16, u16)>,
    /// Requests made by the time of each report, by its number.
    sent: Ghost<Map<int, int>>,
}

impl ReportList {
    /// Pages done and pages in all of each report, oldest first.
    pub open spec fn pages(self) -> Seq<(u16, u16)> {
        Progress::reports(&self).map_values(|r: Report| (r.done, r.total))
    }

    /// A list without reports.
    #[must_use]
    pub fn new() -> (r: Self)
        ensures
            Progress::reports(&r).len() == 0,
    {
        ReportList { list: Vec::new(), sent: Ghost(Map::empty()) }
    }

    /// Pages done and pages in all of each report, oldest first.
    #[must_use]
    pub fn list(&self) -> (r: &Vec<(u16, u16)>)
        ensures
            r@ == self.pages(),
    {
        proof {
            assert(self.list@ =~= self.pages());
        }
        &self.list
    }
}

impl Progress for ReportList {
    closed spec fn reports(&self) -> Seq<Report> {
        Seq::new(
            self.list@.len(),
            |i: int|
                Report { done: self.list@[i].0, total: self.list@[i].1, sent: self.sent@[i] },
        )
    }

    fn report<T: Transport>(&mut self, done: u16, total: u16, wire: &T) {
        let ghost before = self.reports();
        let ghost at = wire.log().len() as int;
        self.sent = Ghost(self.sent@.insert(self.list@.len() as int, at));
        self.list.push((done, total));
        proof {
            assert(self.reports() =~= before.push(Report { done, total, sent: at }));
        }
    }
}

/// A host-side update session over a [`Transport`]: the caller provides the
/// transport and the one frame buffer that every exchange runs through.
pub struct Session<'b, T: Transport> {
    transport: T,
    buf: &'b mut [u8],
}

impl<'b, T: Transport> Session<'b, T> {
    /// The transport.
    pub closed spec fn transport(self) -> T {
        self.transport
    }

    /// Size of the frame buffer.
    pub closed spec fn room(self) -> nat {
        self.buf@.len()
    }

    /// Every request made over the transport so far.
    pub open spec fn log(self) -> Seq<crate::transport::Attempt<T::Err>> {
        self.transport().log()
    }

    /// Creates a session over `transport` that uses `frame_buf` for every
    /// exchange.
    pub fn new(transport: T, frame_buf: &'b mut [u8]) -> (r: Self)
        ensures
            r.transport() == transport,
            r.room() == old(frame_buf)@.len(),
    {
        Session { transport, buf: frame_buf }
    }

    /// Consumes the session, giving the transport back.
    pub fn into_transport(self) -> (r: T)
        ensures
            r == self.transport(),
    {
        self.transport
    }

    /// Encodes a command, runs the exchange with its retries and returns
    /// where in the frame buffer the response payload after the status byte
    /// lies.
    fn transact(&mut self, cmd: u8, payload: &[u8], cap: usize) -> (r: Result<
        (usize, usize),
        Error<T::Err>,
    >)
        requires
            payload@.len() <= PAYLOAD_MAX,
            cap <= PAYLOAD_MAX,
        ensures
            final(self).room() == old(self).room(),
            old(self).log().is_prefix_of(final(self).log()),
            called(
                call_of(cmd, payload@, cap as nat),
                old(self).room(),
                since(old(self).log(), final(self).log()),
            ),
            match call_result(
                call_of(cmd, payload@, cap as nat),
                old(self).room(),
                since(old(self).log(), final(self).log()),
            ) {
                Ok(rest) => r is Ok && r->Ok_0.0 <= r->Ok_0.1 <= final(self).buf@.len()
                    && final(self).buf@.subrange(r->Ok_0.0 as int, r->Ok_0.1 as int) == rest,
                Err(e) => r == Err::<(usize, usize), Error<T::Err>>(e),
            },
    {
        let ghost call = call_of(cmd, payload@, cap as nat);
        let tx_len: usize = payload.len() + FRAME_OVERHEAD;
        let rx_len: usize = cap + FRAME_OVERHEAD;
        let (tx, rx) = match split_windows(self.buf, tx_len, rx_len) {
            Ok(windows) => windows,
            Err(e) => {
                return Err(e);
            },
        };
        let _ = frame::encode(cmd, payload, tx);
        proof {
            assert(tx@ =~= call.request());
        }
        let res = exchange(&mut self.transport, tx, rx, cmd | RSP_FLAG);
        match res {
            Err(e) => Err(e),
            Ok(rlen) => {
                let payload_len: usize = rx[1] as usize;
                let ghost sent = tx@;
                let ghost got = rx@;
                proof {
                    let raw = got.take(rlen as int);
                    let last = self.log().last();
                    let rest = padded_payload(raw).skip(1);
                    assert(raw[1] == got[1]);
                    assert(self.buf@.len() == old(self).buf@.len());
                    assert(self.buf@.take(tx_len + rx_len) =~= sent + got);
                    assert(self.buf@.subrange(tx_len + 3, tx_len + 2 + payload_len) =~= rest);
                    assert(since(old(self).log(), self.log()).last() == last);
                }
                Ok((tx_len + 3, tx_len + 2 + payload_len))
            },
        }
    }

    /// Queries the device's identity and geometry.
    ///
    /// # Errors
    ///
    /// [`Error::Transport`], [`Error::BadFrame`] and [`Error::Device`] per
    /// the retry rules; [`Error::BufferTooSmall`] if the frame buffer cannot
    /// hold the exchange.
    pub fn info(&mut self) -> (r: Result<DeviceInfo, Error<T::Err>>)
        ensures
            final(self).room() == old(self).room(),
            old(self).log().is_prefix_of(final(self).log()),
            called(info_call(), old(self).room(), since(old(self).log(), final(self).log())),
            match call_result(
                info_call(),
                old(self).room(),
                since(old(self).log(), final(self).log()),
            ) {
                Ok(rest) if rest.len() == INFO_RSP_PAYLOAD - 1 => r is Ok && info_says(
                    rest,
                    r->Ok_0,
                ),
                Ok(_) => r == Err::<DeviceInfo, Error<T::Err>>(Error::BadFrame),
                Err(e) => r == Err::<DeviceInfo, Error<T::Err>>(e),
            },
    {
        let none: [u8; 0] = [];
        proof {
            assert(none@ =~= Seq::<u8>::empty());
        }
        match self.transact(CMD_INFO, &none, INFO_RSP_PAYLOAD) {
            Err(e) => Err(e),
            Ok(at) => {
                let buf: &[u8] = self.buf;
                parse_info(&buf[at.0..at.1])
            },
        }
    }

    /// Link smoke test: sends `data` and requires the device to echo it.
    ///
    /// # Errors
    ///
    /// [`Error::PayloadTooLarge`] if `data` exceeds [`ECHO_MAX`];
    /// [`Error::BadFrame`] if the device echoes different bytes; otherwise
    /// as [`Session::info`].
    pub fn echo(&mut self, data: &[u8]) -> (r: Result<(), Error<T::Err>>)
        ensures
            final(self).room() == old(self).room(),
            old(self).log().is_prefix_of(final(self).log()),
            data@.len() > ECHO_MAX ==> final(self).log() == old(self).log() && r == Err::<
                (),
                Error<T::Err>,
            >((Error::PayloadTooLarge { len: data@.len() as usize })),
            data@.len() <= ECHO_MAX ==> called(
                echo_call(data@),
                old(self).room(),
                since(old(self).log(), final(self).log()),
            ) && match call_result(
                echo_call(data@),
                old(self).room(),
                since(old(self).log(), final(self).log()),
            ) {
                Ok(rest) => r == (if rest == data@ {
                    Ok::<(), Error<T::Err>>(())
                } else {
                    Err::<(), Error<T::Err>>(Error::BadFrame)
                }),
                Err(e) => r == Err::<(), Error<T::Err>>(e),
            },
    {
        if data.len() > ECHO_MAX {
            return Err(Error::PayloadTooLarge { len: data.len() });
        }
        match self.transact(CMD_ECHO, data, data.len() + ST_RSP_PAYLOAD) {
            Err(e) => Err(e),
            Ok(at) => {
                let buf: &[u8] = self.buf;
                if same_bytes(&buf[at.0..at.1], data) {
                    Ok(())
                } else {
                    Err(Error::BadFrame)
                }
            },
        }
    }

    /// Asks the device to boot the application.
    ///
    /// The device may boot while its reply is lost on the wire, so silence
    /// after this is no proof that the boot failed.
    ///
    /// # Errors
    ///
    /// [`Error::Device`] with `ST_NO_APP` if the boot gate rejects the
    /// flashed image; otherwise as [`Session::info`].
    pub fn boot(&mut self) -> (r: Result<(), Error<T::Err>>)
        ensures
            final(self).room() == old(self).room(),
            old(self).log().is_prefix_of(final(self).log()),
            called(boot_call(), old(self).room(), since(old(self).log(), final(self).log())),
            match call_result(
                boot_call(),
                old(self).room(),
                since(old(self).log(), final(self).log()),
            ) {
                Ok(_) => r == Ok::<(), Error<T::Err>>(()),
                Err(e) => r == Err::<(), Error<T::Err>>(e),
            },
    {
        let none: [u8; 0] = [];
        proof {
            assert(none@ =~= Seq::<u8>::empty());
        }
        match self.transact(CMD_BOOT, &none, ST_RSP_PAYLOAD) {
            Err(e) => Err(e),
            Ok(_) => Ok(()),
        }
    }

    /// One page write; the page is rendered by [`Image::page_into`] directly
    /// into the frame buffer's payload bytes.
    fn write_page(&mut self, img: &Image<'_>, index: u16) -> (r: Result<(), Error<T::Err>>)
        requires
            index < img@.app_pages,
        ensures
            final(self).room() == old(self).room(),
            old(self).log().is_prefix_of(final(self).log()),
            called(
                write_call(img@, index),
                old(self).room(),
                since(old(self).log(), final(self).log()),
            ),
            match call_result(
                write_call(img@, index),
                old(self).room(),
                since(old(self).log(), final(self).log()),
            ) {
                Ok(_) => r == Ok::<(), Error<T::Err>>(()),
                Err(e) => r == Err::<(), Error<T::Err>>(e),
            },
    {
        let ps: usize = img.page_size() as usize;
        let ghost call = write_call(img@, index);
        proof {
            crate::image::lemma_contents_len(img@);
            assert(img@.page(index as int).len() == ps);
        }
        let payload_len: usize = ps + 2;
        let tx_len: usize = payload_len + FRAME_OVERHEAD;
        let rx_len: usize = ST_RSP_PAYLOAD + FRAME_OVERHEAD;
        let (tx, rx) = match split_windows(self.buf, tx_len, rx_len) {
            Ok(windows) => windows,
            Err(e) => {
                return Err(e);
            },
        };
        let idx: [u8; 2] = to_le16(index);
        tx[0] = CMD_WRITE_PAGE;
        tx[1] = payload_len as u8;
        tx[2] = idx[0];
        tx[3] = idx[1];
        let ghost header = tx@.take(4);
        let (_, page) = tx.split_at_mut(4);
        let _ = img.page_into(index, page);
        let crc_at: usize = tx_len - 1;
        proof {
            assert(tx@.take(crc_at as int) =~= frame::frame_body(call.cmd, call.payload));
        }
        let crc: u8 = frame::crc8(&tx[0..crc_at]);
        tx[crc_at] = crc;
        proof {
            assert(tx@ =~= call.request());
        }
        match exchange(&mut self.transport, tx, rx, CMD_WRITE_PAGE | RSP_FLAG) {
            Err(e) => Err(e),
            Ok(_) => Ok(()),
        }
    }

    /// Full update: `INFO`, protocol gate, geometry gate, `ERASE_APP`, one
    /// `WRITE_PAGE` per [`Image::pages`] index, `VERIFY`.
    ///
    /// `progress` is told of the pages done and the pages in all, once up
    /// front and once after each written page.
    ///
    /// # Errors
    ///
    /// [`Error::ProtocolVersion`] if the device speaks a different protocol;
    /// [`Error::BadGeometry`], carrying the device's geometry, if `img` was
    /// built for a different one; otherwise as [`Session::info`].
    pub fn flash<P: Progress>(&mut self, img: &Image<'_>, progress: &mut P) -> (r: Result<
        (),
        Error<T::Err>,
    >)
        ensures
            final(self).room() == old(self).room(),
            old(self).log().is_prefix_of(final(self).log()),
            (*old(progress)).reports().is_prefix_of((*final(progress)).reports()),
            flashes(
                img@,
                old(self).room(),
                since(old(self).log(), final(self).log()),
                reports_since(
                    (*old(progress)).reports(),
                    (*final(progress)).reports(),
                    old(self).log().len() as int,
                ),
                r,
            ),
    {
        let ghost m = img@;
        let ghost room = self.room();
        let ghost start = self.log();
        let ghost reports = (*progress).reports();
        let ghost no_reports = Seq::<Report>::empty();
        proof {
            assert(reports_since(reports, reports, start.len() as int) =~= no_reports);
        }
        let info = match self.info() {
            Ok(info) => info,
            Err(e) => {
                proof {
                    lemma_info_alone(m, room, since(start, self.log()), no_reports, Err(e));
                }
                return Err(e);
            },
        };
        let ghost asked = since(start, self.log());
        if info.proto != PROTO_VERSION {
            let e: Error<T::Err> = Error::ProtocolVersion { device: info.proto };
            proof {
                lemma_info_alone(m, room, asked, no_reports, Err(e));
            }
            return Err(e);
        }
        if info.page_size != img.page_size() || info.app_pages != img.page_count() {
            let e: Error<T::Err> = Error::BadGeometry {
                page_size: info.page_size,
                app_pages: info.app_pages,
            };
            proof {
                lemma_info_alone(m, room, asked, no_reports, Err(e));
            }
            return Err(e);
        }
        let r = self.update(img, progress);
        proof {
            let sent = since(start, self.log());
            let rest = since(start + asked, self.log());
            assert(start + asked =~= self.log().take((start + asked).len() as int));
            assert(sent =~= asked + rest);
            lemma_call_len(info_call(), room, asked, rest);
            let now = (*progress).reports();
            let at = start.len() as int;
            let told = progress_reports(
                m,
                accepted(update_calls(m), room, rest),
                at + asked.len(),
                room,
                rest,
            );
            assert(now.skip(reports.len() as int) == told);
            assert(reports_since(reports, now, at) =~= progress_reports(
                m,
                accepted(update_calls(m), room, rest),
                asked.len() as int,
                room,
                rest,
            ));
        }
        r
    }

    /// The part of an update behind the gates.
    fn update<P: Progress>(&mut self, img: &Image<'_>, progress: &mut P) -> (r: Result<
        (),
        Error<T::Err>,
    >)
        requires
            img@.well_formed(),
        ensures
            final(self).room() == old(self).room(),
            old(self).log().is_prefix_of(final(self).log()),
            (*old(progress)).reports().is_prefix_of((*final(progress)).reports()),
            plays(
                update_calls(img@),
                old(self).room(),
                since(old(self).log(), final(self).log()),
                r,
            ),
            (*final(progress)).reports().skip((*old(progress)).reports().len() as int)
                == progress_reports(
                img@,
                accepted(
                    update_calls(img@),
                    old(self).room(),
                    since(old(self).log(), final(self).log()),
                ),
                old(self).log().len() as int,
                old(self).room(),
                since(old(self).log(), final(self).log()),
            ),
    {
        let ghost m = img@;
        let ghost room = self.room();
        let ghost start = self.log();
        let ghost reports = (*progress).reports();
        let ghost list = m.write_list();
        let ghost writes = write_calls(m, list);
        let ghost calls = update_calls(m);
        let magic: [u8; 4] = ERASE_MAGIC;
        match self.transact(CMD_ERASE_APP, &magic, ST_RSP_PAYLOAD) {
            Ok(_) => {},
            Err(e) => {
                proof {
                    let sent = since(start, self.log());
                    lemma_one_call(erase_call(), room, sent, Err(e));
                    law_failure_is_final(
                        seq![erase_call()],
                        writes + seq![verify_call(m)],
                        room,
                        sent,
                        e,
                    );
                    assert(seq![erase_call()] + (writes + seq![verify_call(m)]) =~= calls);
                    assert((*progress).reports().skip(reports.len() as int) =~= progress_reports(
                        m,
                        0,
                        start.len() as int,
                        room,
                        sent,
                    ));
                }
                return Err(e);
            },
        }
        let total: u16 = img.pages().count() as u16;
        let mut done: u16 = 0;
        progress.report(done, total, &self.transport);
        let mut pages: Pages<'_> = img.pages();
        proof {
            let sent = since(start, self.log());
            lemma_one_call(erase_call(), room, sent, Ok(()));
            assert(list.take(0) =~= Seq::<u16>::empty());
            assert(write_calls(m, list.take(0)) =~= Seq::<Call>::empty());
            assert(seq![erase_call()] + write_calls(m, list.take(0)) =~= seq![erase_call()]);
            let none = Seq::<crate::transport::Attempt<T::Err>>::empty();
            lemma_calls_len(seq![erase_call()], room, sent, none);
            assert(sent + none =~= sent);
            assert(calls.take(1) =~= seq![erase_call()]);
            assert((*progress).reports().skip(reports.len() as int) =~= progress_reports(
                m,
                1,
                start.len() as int,
                room,
                sent,
            ));
            assert(list.skip(0) =~= list);
        }
        loop
            invariant
                m == img@,
                m.well_formed(),
                room == self.room(),
                room == old(self).room(),
                start == old(self).log(),
                reports == (*old(progress)).reports(),
                list == m.write_list(),
                writes == write_calls(m, list),
                calls == update_calls(m),
                total == list.len(),
                done <= total,
                pages.remaining() == list.skip(done as int),
                start.is_prefix_of(self.log()),
                reports.is_prefix_of((*progress).reports()),
                (*progress).reports().skip(reports.len() as int) == progress_reports(
                    m,
                    1 + done as nat,
                    start.len() as int,
                    room,
                    since(start, self.log()),
                ),
                plays(
                    seq![erase_call()] + write_calls(m, list.take(done as int)),
                    room,
                    since(start, self.log()),
                    Ok::<(), Error<T::Err>>(()),
                ),
            ensures
                done == total,
            decreases total - done,
        {
            let index: u16 = match pages.next() {
                Some(index) => index,
                None => {
                    break;
                },
            };
            let ghost before = since(start, self.log());
            let ghost at = self.log();
            let ghost so_far = seq![erase_call()] + write_calls(m, list.take(done as int));
            let ghost call = write_call(m, index);
            let ghost here = (*progress).reports();
            proof {
                crate::image::law_write_list_is_exact(m, 0);
                assert(index == list[done as int]);
                assert(list.contains(index));
            }
            let res = self.write_page(img, index);
            let ghost sent = since(at, self.log());
            proof {
                assert(since(start, self.log()) =~= before + sent);
                lemma_one_call(call, room, sent, res);
                law_commands_compose(so_far, seq![call], room, before, sent, res);
                assert(list.take(done + 1) =~= list.take(done as int).push(index));
                assert(so_far + seq![call] =~= seq![erase_call()] + write_calls(
                    m,
                    list.take(done + 1),
                ));
                assert(so_far.len() == 1 + done);
                assert(so_far =~= calls.take(1 + done));
                assert(so_far + seq![call] =~= calls.take(2 + done));
                lemma_reports_stable(m, so_far, start.len() as int, room, before, sent);
            }
            match res {
                Ok(()) => {},
                Err(e) => {
                    proof {
                        let rest = write_calls(m, list.skip(done + 1)) + seq![verify_call(m)];
                        law_failure_is_final(
                            so_far + seq![call],
                            rest,
                            room,
                            before + sent,
                            e,
                        );
                        assert(so_far + seq![call] + rest =~= calls);
                    }
                    return Err(e);
                },
            }
            done = done + 1;
            progress.report(done, total, &self.transport);
            proof {
                assert((*progress).reports().skip(reports.len() as int)
                    =~= here.skip(reports.len() as int).push(
                    Report { done, total, sent: self.log().len() as int },
                ));
                lemma_next_report(m, so_far, start.len() as int, room, before, sent);
                assert(list.skip(done - 1).drop_first() =~= list.skip(done as int));
            }
        }
        let ghost before = since(start, self.log());
        let ghost at = self.log();
        let ghost so_far = seq![erase_call()] + writes;
        let len: [u8; 4] = to_le32(img.len());
        let crc: [u8; 4] = to_le32(img.crc32());
        let verify: [u8; 8] = [len[0], len[1], len[2], len[3], crc[0], crc[1], crc[2], crc[3]];
        proof {
            assert(list.take(done as int) =~= list);
            assert(verify@ =~= verify_call(m).payload);
        }
        let res = self.transact(CMD_VERIFY, &verify, ST_RSP_PAYLOAD);
        let r = match res {
            Ok(_) => Ok(()),
            Err(e) => Err(e),
        };
        proof {
            let sent = since(at, self.log());
            assert(since(start, self.log()) =~= before + sent);
            lemma_one_call(verify_call(m), room, sent, r);
            law_commands_compose(so_far, seq![verify_call(m)], room, before, sent, r);
            assert(so_far + seq![verify_call(m)] =~= calls);
            assert(so_far.len() == 1 + list.len());
            assert(so_far =~= calls.take(1 + list.len() as int));
            lemma_reports_stable(m, so_far, start.len() as int, room, before, sent);
            assert(progress_reports(
                m,
                2 + list.len(),
                start.len() as int,
                room,
                before + sent,
            ) =~= progress_reports(m, 1 + list.len(), start.len() as int, room, before + sent));
        }
        r
    }
}

/// A status other than OK and `ST_BAD_FRAME` is never retried: the attempt
/// that brought it is the last, and the status is the result.
pub proof fn law_device_status_is_final<E>(
    log: Seq<crate::transport::Attempt<E>>,
    call: Call,
    i: int,
    st: u8,
)
    requires
        is_exchange(log, call),
        0 <= i < log.len(),
        log[i].res is Ok,
        validation(delivered(log[i]), call.expect()) == Err::<(), Reject>(Reject::Fatal(st)),
    ensures
        i == log.len() - 1,
        attempt_result(log.last(), call.expect()) == Err::<Seq<u8>, Error<E>>(Error::Device(st)),
{
    assert(settles(log[i], call.expect()));
}

/// Wire damage is retried until the budget is spent: an exchange that ends in
/// a transport error, a mangled response or `ST_BAD_FRAME` has used it all.
pub proof fn law_wire_damage_spends_the_budget<E>(
    log: Seq<crate::transport::Attempt<E>>,
    call: Call,
)
    requires
        is_exchange(log, call),
        match attempt_result(log.last(), call.expect()) {
            Err(Error::Transport(_)) => true,
            Err(Error::BadFrame) => true,
            Err(Error::Device(st)) => st == ST_BAD_FRAME,
            _ => false,
        },
    ensures
        log.len() == 1 + RETRY_BUDGET,
{
}

/// However the wire behaves, making commands puts their own requests on it
/// and nothing else, each at most `1 + RETRY_BUDGET` times.
pub proof fn law_only_the_commands_are_sent<E>(
    calls: Seq<Call>,
    room: nat,
    log: Seq<crate::transport::Attempt<E>>,
    r: Result<(), Error<E>>,
)
    requires
        plays(calls, room, log, r),
    ensures
        log.len() <= (1 + RETRY_BUDGET) * calls.len(),
        forall|i: int|
            0 <= i < log.len() ==> exists|c: int|
                0 <= c < calls.len() && (#[trigger] log[i]).req == (
                #[trigger] calls[c]).request(),
        r is Ok ==> accepted(calls, room, log) == calls.len(),
        r is Err ==> accepted(calls, room, log) < calls.len(),
    decreases calls.len(),
{
    if calls.len() > 0 {
        let k = call_len(calls[0], room, log) as int;
        let rest = calls.drop_first();
        lemma_attempts_bounded(log, calls[0].expect(), 1 + RETRY_BUDGET as nat);
        let ok = call_result(calls[0], room, log.take(k)) is Ok;
        if ok {
            law_only_the_commands_are_sent(rest, room, log.skip(k), r);
        }
        assert forall|i: int| 0 <= i < log.len() implies exists|c: int|
            0 <= c < calls.len() && (#[trigger] log[i]).req == (
            #[trigger] calls[c]).request() by {
            if i < k {
                assert(log.take(k)[i] == log[i]);
                assert(log[i].req == calls[0].request());
            } else {
                assert(log.skip(k)[i - k] == log[i]);
                let c = choose|c: int|
                    0 <= c < rest.len() && log.skip(k)[i - k].req == (
                    #[trigger] rest[c]).request();
                assert(calls[c + 1] == rest[c]);
            }
        }
    }
}

/// A refused device is left alone: where a gate refuses, the `INFO` request
/// is all that was sent, so nothing was erased.
pub proof fn law_refused_device_is_only_asked<E>(
    m: crate::image::ImageSpec,
    room: nat,
    log: Seq<crate::transport::Attempt<E>>,
    reports: Seq<Report>,
    r: Result<(), Error<E>>,
)
    requires
        flashes(m, room, log, reports, r),
        match r {
            Err(Error::ProtocolVersion { .. }) => true,
            Err(Error::BadGeometry { .. }) => true,
            _ => false,
        },
    ensures
        forall|i: int| 0 <= i < log.len() ==> (#[trigger] log[i]).req == info_call().request(),
        reports.len() == 0,
{
    let k = call_len(info_call(), room, log) as int;
    if log.len() == k {
        assert(log.take(k) =~= log);
    } else {
        lemma_no_gate_error(update_calls(m), room, log.skip(k), r);
    }
}

/// Commands never fail with the errors of the gates.
proof fn lemma_no_gate_error<E>(
    calls: Seq<Call>,
    room: nat,
    log: Seq<crate::transport::Attempt<E>>,
    r: Result<(), Error<E>>,
)
    requires
        plays(calls, room, log, r),
    ensures
        !(r matches Err(Error::ProtocolVersion { .. })),
        !(r matches Err(Error::BadGeometry { .. })),
    decreases calls.len(),
{
    if calls.len() > 0 {
        let k = call_len(calls[0], room, log) as int;
        if call_result(calls[0], room, log.take(k)) is Ok {
            lemma_no_gate_error(calls.drop_first(), room, log.skip(k), r);
        }
    }
}

/// The sizing rule: a frame buffer for the largest request and the largest
/// response is enough for a whole update, and 320 bytes are enough for every
/// geometry and every other command.
pub proof fn law_buffer_sizing(m: crate::image::ImageSpec, room: nat, data: Seq<u8>)
    requires
        m.well_formed(),
        room >= (m.page_size + 2 + FRAME_OVERHEAD) + (INFO_RSP_PAYLOAD + FRAME_OVERHEAD),
        data.len() <= ECHO_MAX,
    ensures
        info_call().needed() <= room,
        forall|c: int|
            0 <= c < update_calls(m).len() ==> (#[trigger] update_calls(m)[c]).needed() <= room,
        (m.page_size + 2 + FRAME_OVERHEAD) + (INFO_RSP_PAYLOAD + FRAME_OVERHEAD) <= 320,
        echo_call(data).needed() <= 320,
        boot_call().needed() <= 320,
{
    let calls = update_calls(m);
    let list = m.write_list();
    crate::image::law_write_list_is_exact(m, 0);
    crate::image::lemma_contents_len(m);
    assert forall|c: int| 0 <= c < calls.len() implies (#[trigger] calls[c]).needed() <= room by {
        if 0 < c < calls.len() - 1 {
            let index = list[c - 1];
            assert(list.contains(index));
            assert(calls[c] == write_call(m, index));
            assert(m.page(index as int).len() == m.page_size);
        }
    }
}

/// A whole update reports every page, from none to all, each as soon as it was
/// accepted: `i` pages are reported after the attempts of the `INFO` exchange,
/// the erase and `i` writes, and before any other.
pub proof fn law_success_reports_every_page<E>(
    m: crate::image::ImageSpec,
    room: nat,
    log: Seq<crate::transport::Attempt<E>>,
    reports: Seq<Report>,
)
    requires
        flashes(m, room, log, reports, Ok::<(), Error<E>>(())),
    ensures
        reports == Seq::new(
            m.write_list().len() + 1,
            |i: int|
                Report {
                    done: i as u16,
                    total: m.write_list().len() as u16,
                    sent: call_len(info_call(), room, log) as int + calls_len(
                        update_calls(m).take(i + 1),
                        room,
                        log.skip(call_len(info_call(), room, log) as int),
                    ),
                },
        ),
{
    let k = call_len(info_call(), room, log) as int;
    law_only_the_commands_are_sent(
        update_calls(m),
        room,
        log.skip(k),
        Ok::<(), Error<E>>(()),
    );
}

/// Which byte of an `INFO` response says what. Of the two bytes of a page
/// size or a page count the second counts for 256.
pub proof fn law_info_fields(rest: Seq<u8>, info: DeviceInfo)
    requires
        info_says(rest, info),
    ensures
        rest.len() == 11,
        info.proto == rest[0],
        info.bl_version == rest[1],
        forall|i: int| 0 <= i < 4 ==> #[trigger] info.device_id@[i] == rest[2 + i],
        info.page_size == rest[6] + 256 * rest[7],
        info.app_pages == rest[8] + 256 * rest[9],
        info.app_valid <==> rest[10] != 0,
{
    crate::le::law_little_end_first(0, 0, rest.subrange(6, 8));
    crate::le::law_little_end_first(0, 0, rest.subrange(8, 10));
}

/// An update starts if and only if the device's `INFO` response is whole,
/// speaks protocol version 1 and has the geometry that the image was made for;
/// else it is told which of these, in this order, does not hold.
pub proof fn law_when_an_update_starts<E>(rest: Seq<u8>, m: crate::image::ImageSpec)
    ensures
        flash_gate::<E>(rest, m) is None <==> rest.len() == 11 && rest[0] == 1 && rest[6] + 256
            * rest[7] == m.page_size && rest[8] + 256 * rest[9] == m.app_pages,
        flash_gate::<E>(rest, m) matches Some(e) ==> (match e {
            Error::BadFrame => rest.len() != 11,
            Error::ProtocolVersion { device } => rest.len() == 11 && device == rest[0] && device
                != 1,
            Error::BadGeometry { page_size, app_pages } => rest.len() == 11 && rest[0] == 1
                && page_size == rest[6] + 256 * rest[7] && app_pages == rest[8] + 256 * rest[9],
            _ => false,
        }),
{
    crate::le::law_little_end_first(0, 0, rest.subrange(6, 8));
    crate::le::law_little_end_first(0, 0, rest.subrange(8, 10));
}

/// The bytes of each request: the command, the number of payload bytes, the
/// payload, and one byte that leaves no remainder. The erase carries the word
/// `ERAS`; a page write its index, low byte first, and the bytes of that page
/// of the region; the verification the length and the CRC-32 of the binary,
/// low byte first.
pub proof fn law_request_bytes(m: crate::image::ImageSpec, index: u16, data: Seq<u8>)
    requires
        m.well_formed(),
        index < m.app_pages,
        data.len() <= 252,
    ensures
        ({
            let info = info_call().request();
            &&& info.len() == 3 && info[0] == 0x01 && info[1] == 0
            &&& frame::crc8_of(info) == 0
        }),
        ({
            let boot = boot_call().request();
            &&& boot.len() == 3 && boot[0] == 0x05 && boot[1] == 0
            &&& frame::crc8_of(boot) == 0
        }),
        ({
            let echo = echo_call(data).request();
            &&& echo.len() == data.len() + 3 && echo[0] == 0x06 && echo[1] == data.len()
            &&& forall|k: int| 0 <= k < data.len() ==> #[trigger] echo[2 + k] == data[k]
            &&& frame::crc8_of(echo) == 0
        }),
        ({
            let erase = erase_call().request();
            &&& erase.len() == 7 && erase[0] == 0x02 && erase[1] == 4
            &&& erase[2] == 0x45 && erase[3] == 0x52 && erase[4] == 0x41 && erase[5] == 0x53
            &&& frame::crc8_of(erase) == 0
        }),
        ({
            let write = write_call(m, index).request();
            &&& write.len() == m.page_size + 5 && write[0] == 0x03 && write[1] == m.page_size + 2
            &&& write[2] == index % 256 && write[3] == index / 256
            &&& forall|k: int|
                0 <= k < m.page_size ==> #[trigger] write[4 + k] == m.contents()[index
                    * m.page_size + k]
            &&& frame::crc8_of(write) == 0
        }),
        ({
            let verify = verify_call(m).request();
            let n = m.data.len();
            let c = crate::image::crc32_of(m.data);
            &&& verify.len() == 11 && verify[0] == 0x04 && verify[1] == 8
            &&& verify[2] == n % 256 && verify[3] == n / 256 % 256 && verify[4] == n / 65536 % 256
                && verify[5] == n / 16777216
            &&& verify[6] == c % 256 && verify[7] == c / 256 % 256 && verify[8] == c / 65536 % 256
                && verify[9] == c / 16777216
            &&& frame::crc8_of(verify) == 0
        }),
{
    let ps = m.page_size;
    let ap = m.app_pages;
    crate::le::law_little_end_first(index, m.data.len() as u32, seq![]);
    crate::le::law_little_end_first(0, crate::image::crc32_of(m.data), seq![]);
    assert(ps * ap <= 0xFFFF * 0xFFFF && index * ps >= 0 && index * ps + ps <= ps * ap)
        by (nonlinear_arith)
        requires
            0 < ps <= 0xFFFF,
            0 <= index < ap <= 0xFFFF,
    ;
    crate::image::law_image_layout(m, index * ps);
    frame::law_frame_layout(CMD_INFO, info_call().payload);
    frame::law_frame_layout(CMD_BOOT, boot_call().payload);
    frame::law_frame_layout(CMD_ECHO, data);
    let erase = erase_call();
    frame::law_frame_layout(CMD_ERASE_APP, erase.payload);
    assert(erase.request()[2int + 0] == erase.payload[0]);
    assert(erase.request()[2int + 1] == erase.payload[1]);
    assert(erase.request()[2int + 2] == erase.payload[2]);
    assert(erase.request()[2int + 3] == erase.payload[3]);
    let write = write_call(m, index);
    assert(m.page(index as int).len() == ps);
    frame::law_frame_layout(CMD_WRITE_PAGE, write.payload);
    assert(write.request()[2int + 0] == write.payload[0]);
    assert(write.request()[2int + 1] == write.payload[1]);
    assert forall|k: int| 0 <= k < ps implies #[trigger] write.request()[4 + k] == m.contents()[index
        * ps + k] by {
        assert(write.request()[2 + (2 + k)] == write.payload[2 + k]);
        assert(write.payload[2 + k] == m.page(index as int)[k]);
    }
    let verify = verify_call(m);
    frame::law_frame_layout(CMD_VERIFY, verify.payload);
    assert(verify.request()[2int + 0] == verify.payload[0]);
    assert(verify.request()[2int + 1] == verify.payload[1]);
    assert(verify.request()[2int + 2] == verify.payload[2]);
    assert(verify.request()[2int + 3] == verify.payload[3]);
    assert(verify.request()[2int + 4] == verify.payload[4]);
    assert(verify.request()[2int + 5] == verify.payload[5]);
    assert(verify.request()[2int + 6] == verify.payload[6]);
    assert(verify.request()[2int + 7] == verify.payload[7]);
}

/// What is received for each command: a response to it has the top bit of the
/// command set, and the receive window is what the longest one takes.
pub proof fn law_response_windows(m: crate::image::ImageSpec, index: u16, data: Seq<u8>)
    ensures
        info_call().expect() == 0x81 && info_call().rx_len() == 15,
        erase_call().expect() == 0x82 && erase_call().rx_len() == 4,
        write_call(m, index).expect() == 0x83 && write_call(m, index).rx_len() == 4,
        verify_call(m).expect() == 0x84 && verify_call(m).rx_len() == 4,
        boot_call().expect() == 0x85 && boot_call().rx_len() == 4,
        echo_call(data).expect() == 0x86 && echo_call(data).rx_len() == data.len() + 4,
{
    assert(0x01u8 | 0x80 == 0x81 && 0x02u8 | 0x80 == 0x82 && 0x03u8 | 0x80 == 0x83 && 0x04u8 | 0x80
        == 0x84 && 0x05u8 | 0x80 == 0x85 && 0x06u8 | 0x80 == 0x86) by (bit_vector);
}

/// The order of an update: the erase, the listed pages as they are listed, and
/// the verification.
pub proof fn law_update_order(m: crate::image::ImageSpec)
    ensures
        update_calls(m).len() == m.write_list().len() + 2,
        update_calls(m)[0] == erase_call(),
        forall|i: int|
            0 <= i < m.write_list().len() ==> #[trigger] update_calls(m)[1 + i] == write_call(
                m,
                m.write_list()[i],
            ),
        update_calls(m)[m.write_list().len() as int + 1] == verify_call(m),
{
}

/// How a response is judged. One that is not a frame with nothing but `0xFF`
/// behind it is mangled; so is one of another command and one without a status
/// byte. Status 0 is accepted, status 1 says that the request was damaged, and
/// any other is a fact about the device.
pub proof fn law_response_verdict(raw: Seq<u8>, cmd: u8, payload: Seq<u8>, pad: nat, expect: u8)
    requires
        payload.len() <= 252,
    ensures
        !frame::is_padded_frame(raw) ==> validation(raw, expect) == Err::<(), Reject>(
            Reject::Mangled,
        ),
        ({
            let rsp = frame::frame_bytes(cmd, payload) + Seq::new(pad, |i: int| 0xFFu8);
            &&& padded_payload(rsp) == payload
            &&& cmd != expect || payload.len() == 0 ==> validation(rsp, expect) == Err::<(), Reject>(
                Reject::Mangled,
            )
            &&& cmd == expect && payload.len() > 0 && payload[0] == 0 ==> validation(rsp, expect)
                == Ok::<(), Reject>(())
            &&& cmd == expect && payload.len() > 0 && payload[0] == 1 ==> validation(rsp, expect)
                == Err::<(), Reject>(Reject::DeviceBadFrame)
            &&& cmd == expect && payload.len() > 0 && payload[0] > 1 ==> validation(rsp, expect)
                == Err::<(), Reject>(Reject::Fatal(payload[0]))
        }),
{
    let f = frame::frame_bytes(cmd, payload);
    let rsp = f + Seq::new(pad, |i: int| 0xFFu8);
    frame::law_frame_layout(cmd, payload);
    frame::law_what_a_frame_is(f);
    frame::law_decode_undoes_encode(cmd, payload);
    assert(rsp.take(f.len() as int) =~= f);
    frame::law_what_a_padded_frame_is(rsp);
    assert(frame::is_padded_frame(rsp));
    assert(rsp[1] == f[1] && rsp[0] == f[0]);
    assert(frame::frame_extent(rsp) == f.len());
    assert(padded_payload(rsp) =~= payload);
}

/// What one attempt comes to. Only the bytes that the transport counted are
/// looked at. What follows the status byte of an accepted response is handed
/// over whole; the device's word and the transport's error are passed on as
/// they are, and anything else is a bad frame.
pub proof fn law_attempt_outcome<E>(
    a: crate::transport::Attempt<E>,
    expect: u8,
    st: u8,
    rest: Seq<u8>,
    pad: nat,
)
    requires
        rest.len() <= 251,
    ensures
        a.res matches Err(e) ==> !settles(a, expect) && attempt_result(a, expect) == Err::<
            Seq<u8>,
            Error<E>,
        >(Error::Transport(e)),
        a.res matches Ok(n) ==> {
            &&& delivered(a).len() == (if n <= a.rsp.len() {
                n as nat
            } else {
                a.rsp.len()
            })
            &&& forall|k: int| 0 <= k < delivered(a).len() ==> #[trigger] delivered(a)[k] == a.rsp[k]
            &&& !frame::is_padded_frame(delivered(a)) ==> !settles(a, expect) && attempt_result(
                a,
                expect,
            ) == Err::<Seq<u8>, Error<E>>(Error::BadFrame)
            &&& delivered(a) == frame::frame_bytes(expect, seq![st] + rest) + Seq::new(
                pad,
                |i: int| 0xFFu8,
            ) ==> {
                &&& settles(a, expect) <==> st != 1
                &&& st == 0 ==> attempt_result(a, expect) == Ok::<Seq<u8>, Error<E>>(rest)
                &&& st != 0 ==> attempt_result(a, expect) == Err::<Seq<u8>, Error<E>>(
                    Error::Device(st),
                )
            }
        },
{
    if a.res is Ok {
        law_response_verdict(delivered(a), expect, seq![st] + rest, pad, expect);
        assert((seq![st] + rest).skip(1) =~= rest);
    }
}

/// What an exchange puts on the wire: the same request one to four times over,
/// with the same receive window. An attempt that settles it is the last, and
/// fewer than four are made only where the last one settled it.
pub proof fn law_exchange_on_the_wire<E>(
    log: Seq<crate::transport::Attempt<E>>,
    call: Call,
    i: int,
)
    requires
        is_exchange(log, call),
        0 <= i < log.len(),
    ensures
        1 <= log.len() <= 4,
        log[i].req == frame::frame_bytes(call.cmd, call.payload),
        log[i].rsp.len() == call.cap + 3,
        settles(log[i], call.expect()) ==> i == log.len() - 1,
        log.len() < 4 ==> settles(log.last(), call.expect()),
{
}

/// A frame buffer is large enough if and only if it takes the request and the
/// receive window, each with the three bytes around a payload; else nothing is
/// sent, and the error says how much is needed.
pub proof fn law_small_buffer_sends_nothing<E>(
    call: Call,
    room: nat,
    log: Seq<crate::transport::Attempt<E>>,
)
    requires
        called(call, room, log),
        call.payload.len() + call.cap + 6 <= usize::MAX,
    ensures
        log.len() == 0 <==> room < call.payload.len() + call.cap + 6,
        room < call.payload.len() + call.cap + 6 ==> call_result(call, room, log) == Err::<
            Seq<u8>,
            Error<E>,
        >(Error::BufferTooSmall { needed: (call.payload.len() + call.cap + 6) as usize }),
        room >= call.payload.len() + call.cap + 6 ==> is_exchange(log, call) && call_result(
            call,
            room,
            log,
        ) == attempt_result(log.last(), call.expect()),
{
}

/// Logs one behind the other.
pub open spec fn run_together<E>(parts: Seq<Seq<crate::transport::Attempt<E>>>) -> Seq<
    crate::transport::Attempt<E>,
>
    decreases parts.len(),
{
    if parts.len() == 0 {
        seq![]
    } else {
        parts[0] + run_together(parts.drop_first())
    }
}

/// Whether `parts` are the logs of `calls`, made one after the other until one
/// failed, and `r` is what that comes to.
pub open spec fn in_turn<E>(
    calls: Seq<Call>,
    room: nat,
    parts: Seq<Seq<crate::transport::Attempt<E>>>,
    r: Result<(), Error<E>>,
) -> bool {
    &&& parts.len() <= calls.len()
    &&& forall|i: int| 0 <= i < parts.len() ==> called(calls[i], room, #[trigger] parts[i])
    &&& forall|i: int|
        0 <= i < parts.len() - 1 ==> call_result(calls[i], room, #[trigger] parts[i]) is Ok
    &&& match r {
        Ok(_) => parts.len() == calls.len() && (parts.len() > 0 ==> call_result(
            calls.last(),
            room,
            parts.last(),
        ) is Ok),
        Err(e) => parts.len() > 0 && call_result(calls[parts.len() - 1], room, parts.last())
            == Err::<Seq<u8>, Error<E>>(e),
    }
}

/// The log of a list of commands is made of one piece for each command that
/// was made, in the order of the list; all but the last were accepted. The
/// list went well if and only if every command was made and accepted; else the
/// last one made gives the error.
pub proof fn law_commands_go_out_in_turn<E>(
    calls: Seq<Call>,
    room: nat,
    log: Seq<crate::transport::Attempt<E>>,
    r: Result<(), Error<E>>,
) -> (parts: Seq<Seq<crate::transport::Attempt<E>>>)
    requires
        plays(calls, room, log, r),
    ensures
        in_turn(calls, room, parts, r),
        run_together(parts) == log,
        accepted(calls, room, log) == (if r is Ok {
            calls.len() as int
        } else {
            parts.len() - 1
        }),
        forall|n: int|
            0 <= n <= accepted(calls, room, log) ==> #[trigger] run_together(parts.take(n)).len()
                == calls_len(calls.take(n), room, log),
    decreases calls.len(),
{
    if calls.len() == 0 {
        let parts = Seq::<Seq<crate::transport::Attempt<E>>>::empty();
        assert(run_together(parts) =~= log);
        assert(parts.take(0) =~= parts);
        parts
    } else {
        let k = call_len(calls[0], room, log) as int;
        lemma_call_len_bounded(calls[0], room, log);
        let first = log.take(k);
        if call_result(calls[0], room, first) is Ok {
            let rest = law_commands_go_out_in_turn(calls.drop_first(), room, log.skip(k), r);
            let parts = seq![first] + rest;
            assert(parts.drop_first() =~= rest);
            assert(run_together(parts) =~= log);
            assert forall|i: int| 0 <= i < parts.len() implies called(
                calls[i],
                room,
                #[trigger] parts[i],
            ) by {
                if i > 0 {
                    assert(parts[i] == rest[i - 1]);
                    assert(calls.drop_first()[i - 1] == calls[i]);
                }
            }
            assert forall|i: int| 0 <= i < parts.len() - 1 implies call_result(
                calls[i],
                room,
                #[trigger] parts[i],
            ) is Ok by {
                if i > 0 {
                    assert(parts[i] == rest[i - 1]);
                    assert(calls.drop_first()[i - 1] == calls[i]);
                }
            }
            assert forall|n: int| 0 <= n <= accepted(calls, room, log) implies #[trigger] run_together(
                parts.take(n),
            ).len() == calls_len(calls.take(n), room, log) by {
                if n > 0 {
                    assert(parts.take(n).drop_first() =~= rest.take(n - 1));
                    assert(calls.take(n).drop_first() =~= calls.drop_first().take(n - 1));
                    assert(run_together(rest.take(n - 1)).len() == calls_len(
                        calls.drop_first().take(n - 1),
                        room,
                        log.skip(k),
                    ));
                    assert(parts.take(n)[0] == first);
                    assert(calls.take(n)[0] == calls[0]);
                }
            }
            if rest.len() > 0 {
                assert(parts.last() == rest.last());
                assert(calls.drop_first()[rest.len() - 1] == calls[parts.len() - 1]);
                if r is Ok {
                    assert(calls.drop_first().last() == calls.last());
                }
            }
            parts
        } else {
            let parts = seq![first];
            assert(parts.drop_first() =~= seq![]);
            assert(run_together(parts.drop_first()) =~= seq![]);
            assert(run_together(parts) =~= log);
            parts
        }
    }
}

/// An update is the `INFO` command and then, unless the device's answer keeps
/// it from starting, the commands of the update in turn. It reports once the
/// erase was accepted and again after each page, counting up from zero: each
/// time with nothing on the wire since the command that it speaks of.
pub proof fn law_update_in_turn<E>(
    m: crate::image::ImageSpec,
    room: nat,
    log: Seq<crate::transport::Attempt<E>>,
    reports: Seq<Report>,
    r: Result<(), Error<E>>,
) -> (out: (
    Seq<crate::transport::Attempt<E>>,
    Seq<Seq<crate::transport::Attempt<E>>>,
))
    requires
        m.well_formed(),
        flashes(m, room, log, reports, r),
    ensures
        ({
            let (info, parts) = out;
            let total = m.write_list().len();
            &&& called(info_call(), room, info)
            &&& log == info + run_together(parts)
            &&& match call_result(info_call(), room, info) {
                Err(e) => parts.len() == 0 && reports.len() == 0 && r == Err::<(), Error<E>>(e),
                Ok(rest) => match flash_gate::<E>(rest, m) {
                    Some(e) => parts.len() == 0 && reports.len() == 0 && r == Err::<(), Error<E>>(
                        e,
                    ),
                    None => {
                        &&& in_turn(update_calls(m), room, parts, r)
                        &&& r is Ok ==> reports.len() == total + 1
                        &&& r is Err && parts.len() <= total + 1 ==> reports.len() == parts.len() - 1
                        &&& r is Err && parts.len() == total + 2 ==> reports.len() == total + 1
                        &&& forall|i: int|
                            0 <= i < reports.len() ==> (#[trigger] reports[i]).done == i
                                && reports[i].total == total && reports[i].sent == info.len()
                                + run_together(parts.take(i + 1)).len()
                    },
                },
            }
        }),
{
    let k = call_len(info_call(), room, log) as int;
    lemma_call_len_bounded(info_call(), room, log);
    let info = log.take(k);
    let none = Seq::<Seq<crate::transport::Attempt<E>>>::empty();
    assert(info + log.skip(k) =~= log);
    match call_result(info_call(), room, info) {
        Err(e) => {
            assert(info + run_together(none) =~= log);
            (info, none)
        },
        Ok(rest) => match flash_gate::<E>(rest, m) {
            Some(e) => {
                assert(info + run_together(none) =~= log);
                (info, none)
            },
            None => {
                let parts = law_commands_go_out_in_turn(update_calls(m), room, log.skip(k), r);
                crate::image::lemma_must_write_len(m, 0);
                let n = accepted(update_calls(m), room, log.skip(k));
                assert forall|i: int| 0 <= i < reports.len() implies (#[trigger] reports[i]).done
                    == i && reports[i].total == m.write_list().len() && reports[i].sent
                    == info.len() + run_together(parts.take(i + 1)).len() by {
                    assert(i + 1 <= n);
                }
                (info, parts)
            },
        },
    }
}

} // verus!
