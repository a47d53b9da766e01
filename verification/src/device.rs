//! What a device does with a request: the other side of the wire protocol,
//! as specification functions, and what an update comes to on such a device.

use vstd::prelude::*;

use crate::error::Error;
use crate::frame;
use crate::frame::{
    CMD_BOOT, CMD_ECHO, CMD_ERASE_APP, CMD_INFO, CMD_VERIFY, CMD_WRITE_PAGE, ECHO_MAX,
    ERASE_MAGIC, PAYLOAD_MAX, PROTO_VERSION, RSP_FLAG, ST_BAD_CMD, ST_BAD_CRC, ST_BAD_FRAME,
    ST_BAD_MAGIC, ST_NOT_ERASED, ST_NO_APP, ST_OK, ST_OUT_OF_RANGE,
};
use crate::image;
use crate::image::FOOTER_LEN;
use crate::session;

verus! {

/// A device, as far as the protocol can tell.
pub ghost struct Device {
    /// Bytes in a protocol page.
    pub page_size: int,
    /// Pages in the app region.
    pub app_pages: int,
    /// Bootloader version.
    pub bl_version: u8,
    /// Identity bytes.
    pub id: Seq<u8>,
    /// Contents of the app region.
    pub flash: Seq<u8>,
    /// Whether an erase succeeded since the last reset.
    pub erased: bool,
    /// Whether it has left for the application.
    pub jumped: bool,
}

impl Device {
    /// Bytes in the app region.
    pub open spec fn region(self) -> int {
        self.page_size * self.app_pages
    }

    /// Usable geometry, and flash of that size.
    pub open spec fn well_formed(self) -> bool {
        &&& image::usable_geometry(self.page_size, self.app_pages)
        &&& self.app_pages <= u16::MAX
        &&& self.id.len() == 4
        &&& self.flash.len() == self.region()
    }

    /// The device with other flash contents.
    pub open spec fn with_flash(self, flash: Seq<u8>) -> Device {
        Device { flash, ..self }
    }
}

/// Erased flash.
pub open spec fn blank(len: int) -> Seq<u8> {
    Seq::new(len as nat, |i: int| 0xFFu8)
}

/// The payload of an `INFO` response.
pub open spec fn info_payload(d: Device) -> Seq<u8> {
    seq![ST_OK, PROTO_VERSION, d.bl_version] + d.id + crate::le::le16(d.page_size as u16)
        + crate::le::le16(d.app_pages as u16) + seq![
        if image::boot_gate(d.flash) {
            1u8
        } else {
            0u8
        },
    ]
}

/// A response that is a status and nothing else.
pub open spec fn status(st: u8) -> Seq<u8> {
    seq![st]
}

/// The status of a page write, before anything is written.
pub open spec fn write_status(d: Device, payload: Seq<u8>) -> u8 {
    if !d.erased {
        ST_NOT_ERASED
    } else if payload.len() != d.page_size + 2 {
        ST_BAD_FRAME
    } else if crate::le::from_le16(payload.take(2)) >= d.app_pages {
        ST_OUT_OF_RANGE
    } else {
        ST_OK
    }
}

/// The status of a verification.
pub open spec fn verify_status(d: Device, payload: Seq<u8>) -> u8 {
    let len = crate::le::from_le32(payload.take(4));
    if payload.len() != 8 {
        ST_BAD_FRAME
    } else if len > d.region() - FOOTER_LEN {
        ST_OUT_OF_RANGE
    } else if image::crc32_of(d.flash.take(len as int)) == crate::le::from_le32(payload.skip(4)) {
        ST_OK
    } else {
        ST_BAD_CRC
    }
}

/// The device after a command, and the payload of its response.
pub open spec fn handled(d: Device, cmd: u8, payload: Seq<u8>) -> (Device, Seq<u8>) {
    if cmd == CMD_INFO {
        (d, info_payload(d))
    } else if cmd == CMD_ERASE_APP {
        if payload == ERASE_MAGIC@ {
            (Device { flash: blank(d.region()), erased: true, ..d }, status(ST_OK))
        } else {
            (d, status(ST_BAD_MAGIC))
        }
    } else if cmd == CMD_WRITE_PAGE {
        let st = write_status(d, payload);
        if st == ST_OK {
            let index = crate::le::from_le16(payload.take(2)) as int;
            (
                d.with_flash(
                    image::with_page(d.flash, d.page_size, index, payload.skip(2)),
                ),
                status(ST_OK),
            )
        } else {
            (d, status(st))
        }
    } else if cmd == CMD_VERIFY {
        (d, status(verify_status(d, payload)))
    } else if cmd == CMD_BOOT {
        if image::boot_gate(d.flash) {
            (Device { jumped: true, ..d }, status(ST_OK))
        } else {
            (d, status(ST_NO_APP))
        }
    } else if cmd == CMD_ECHO {
        if payload.len() > ECHO_MAX {
            (d, status(ST_BAD_FRAME))
        } else {
            (d, seq![ST_OK] + payload)
        }
    } else {
        (d, status(ST_BAD_CMD))
    }
}

/// The command byte of the response to `raw`.
pub open spec fn response_cmd(raw: Seq<u8>) -> u8 {
    if raw.len() == 0 {
        RSP_FLAG
    } else {
        raw[0] | RSP_FLAG
    }
}

/// The device after a request, and its response: none once it has left, a
/// `ST_BAD_FRAME` for what is not a frame.
pub open spec fn answered(d: Device, raw: Seq<u8>) -> (Device, Seq<u8>) {
    if d.jumped {
        (d, seq![])
    } else if !frame::is_frame(raw) {
        (d, frame::frame_bytes(response_cmd(raw), status(ST_BAD_FRAME)))
    } else {
        let (after, payload) = handled(d, raw[0], frame::payload_of(raw));
        (after, frame::frame_bytes(response_cmd(raw), payload))
    }
}

/// What a fixed-length read of `n` bytes makes of a response: cut to that
/// length, or filled up with idle bytes.
pub open spec fn fitted(response: Seq<u8>, n: nat) -> Seq<u8> {
    if response.len() >= n {
        response.take(n as int)
    } else {
        response + blank(n - response.len())
    }
}

/// The device stays well formed and keeps its geometry and identity.
pub proof fn law_requests_keep_the_device_well_formed(d: Device, raw: Seq<u8>)
    requires
        d.well_formed(),
    ensures
        answered(d, raw).0.well_formed(),
        answered(d, raw).0.page_size == d.page_size,
        answered(d, raw).0.app_pages == d.app_pages,
        answered(d, raw).0.bl_version == d.bl_version,
        answered(d, raw).0.id == d.id,
{
    let payload = frame::payload_of(raw);
    if frame::is_frame(raw) && raw[0] == CMD_WRITE_PAGE && write_status(d, payload) == ST_OK {
        let index = crate::le::from_le16(payload.take(2)) as int;
        lemma_page_inside(d, index);
    }
}

/// A page lies inside the region.
proof fn lemma_page_inside(d: Device, index: int)
    requires
        d.well_formed(),
        0 <= index < d.app_pages,
    ensures
        0 <= index * d.page_size,
        index * d.page_size + d.page_size <= d.region(),
{
    let ps = d.page_size;
    let ap = d.app_pages;
    assert(0 <= index * ps && index * ps + ps <= ps * ap) by (nonlinear_arith)
        requires
            0 <= index < ap,
            ps > 0,
    ;
}

/// Every answer is one valid frame whose payload starts with a status, and an
/// error answer is a status alone.
pub proof fn law_every_answer_is_a_frame(d: Device, raw: Seq<u8>)
    requires
        d.well_formed(),
        !d.jumped,
    ensures
        ({
            let response = answered(d, raw).1;
            let payload = frame::payload_of(response);
            &&& frame::is_frame(response)
            &&& response[0] == response_cmd(raw)
            &&& 1 <= payload.len() <= 1 + ECHO_MAX
            &&& payload[0] != ST_OK ==> payload.len() == 1
        }),
{
    let payload = if frame::is_frame(raw) {
        handled(d, raw[0], frame::payload_of(raw)).1
    } else {
        status(ST_BAD_FRAME)
    };
    frame::law_decode_undoes_encode(response_cmd(raw), payload);
}

/// Only an erase with its magic and an accepted page write touch flash; a
/// page write touches its own page and no other byte.
pub proof fn law_flash_is_touched_by_erase_and_write_only(d: Device, raw: Seq<u8>, k: int)
    requires
        d.well_formed(),
        0 <= k < d.region(),
        answered(d, raw).0.flash[k] != d.flash[k],
    ensures
        frame::is_frame(raw),
        !d.jumped,
        ({
            let payload = frame::payload_of(raw);
            ||| raw[0] == CMD_ERASE_APP && payload == ERASE_MAGIC@
            ||| raw[0] == CMD_WRITE_PAGE && d.erased && ({
                let index = crate::le::from_le16(payload.take(2)) as int;
                &&& index < d.app_pages
                &&& index * d.page_size <= k < index * d.page_size + d.page_size
            })
        }),
{
    let payload = frame::payload_of(raw);
    if frame::is_frame(raw) && raw[0] == CMD_WRITE_PAGE && write_status(d, payload) == ST_OK {
        let index = crate::le::from_le16(payload.take(2)) as int;
        lemma_page_inside(d, index);
    }
}

/// Requests are idempotent: a device that gets the identical request again
/// gives the identical answer and is left as it was after the first. Once it
/// has left for the application it is silent instead.
pub proof fn law_requests_are_idempotent(d: Device, raw: Seq<u8>)
    requires
        d.well_formed(),
        !d.jumped,
    ensures
        ({
            let first = answered(d, raw);
            let second = answered(first.0, raw);
            &&& second.0 == first.0
            &&& if first.0.jumped {
                second.1.len() == 0
            } else {
                second.1 == first.1
            }
        }),
{
    let payload = frame::payload_of(raw);
    let first = answered(d, raw);
    if frame::is_frame(raw) && raw[0] == CMD_WRITE_PAGE && write_status(d, payload) == ST_OK {
        let index = crate::le::from_le16(payload.take(2)) as int;
        lemma_page_inside(d, index);
        let page = payload.skip(2);
        let once = image::with_page(d.flash, d.page_size, index, page);
        assert(image::with_page(once, d.page_size, index, page) =~= once);
    }
}

/// Page writes may come in any order: writes of different pages commute.
pub proof fn law_page_writes_commute(
    flash: Seq<u8>,
    page_size: int,
    i: int,
    x: Seq<u8>,
    j: int,
    y: Seq<u8>,
)
    requires
        page_size > 0,
        x.len() == page_size,
        y.len() == page_size,
        0 <= i,
        0 <= j,
        i != j,
        i * page_size + page_size <= flash.len(),
        j * page_size + page_size <= flash.len(),
    ensures
        image::with_page(image::with_page(flash, page_size, i, x), page_size, j, y)
            == image::with_page(image::with_page(flash, page_size, j, y), page_size, i, x),
{
    assert(i * page_size >= 0 && j * page_size >= 0) by (nonlinear_arith)
        requires
            0 <= i,
            0 <= j,
            page_size > 0,
    ;
    if i < j {
        assert(i * page_size + page_size <= j * page_size) by (nonlinear_arith)
            requires
                i + 1 <= j,
                page_size > 0,
        ;
    } else {
        assert(j * page_size + page_size <= i * page_size) by (nonlinear_arith)
            requires
                j + 1 <= i,
                page_size > 0,
        ;
    }
    assert(image::with_page(image::with_page(flash, page_size, i, x), page_size, j, y)
        =~= image::with_page(image::with_page(flash, page_size, j, y), page_size, i, x));
}

/// The device after every request of a log has reached it.
pub open spec fn after_log<E>(d: Device, log: Seq<crate::transport::Attempt<E>>) -> Device
    decreases log.len(),
{
    if log.len() == 0 {
        d
    } else {
        after_log(answered(d, log[0].req).0, log.skip(1))
    }
}

/// Whether every attempt of a log is a fixed-length read of the device's own
/// answer.
pub open spec fn answered_by<E>(d: Device, log: Seq<crate::transport::Attempt<E>>) -> bool
    decreases log.len(),
{
    if log.len() == 0 {
        true
    } else {
        let a = log[0];
        let (after, response) = answered(d, a.req);
        &&& a.res == Ok::<usize, E>(a.rsp.len() as usize)
        &&& a.rsp.len() <= usize::MAX
        &&& a.rsp == fitted(response, a.rsp.len())
        &&& answered_by(after, log.skip(1))
    }
}

/// A command that the device answers with OK is accepted at the first
/// attempt.
proof fn lemma_call_on_device<E>(
    d: Device,
    call: session::Call,
    room: nat,
    log: Seq<crate::transport::Attempt<E>>,
)
    requires
        d.well_formed(),
        !d.jumped,
        call.payload.len() <= PAYLOAD_MAX,
        room >= call.needed(),
        ({
            let payload = handled(d, call.cmd, call.payload).1;
            1 <= payload.len() <= call.cap && payload[0] == ST_OK
        }),
        answered_by(d, log),
        session::called(call, room, log.take(session::call_len(call, room, log) as int)),
    ensures
        session::call_len(call, room, log) == 1,
        log.len() >= 1,
        session::call_result(call, room, log.take(1)) == Ok::<Seq<u8>, Error<E>>(
            handled(d, call.cmd, call.payload).1.skip(1),
        ),
        answered_by(handled(d, call.cmd, call.payload).0, log.skip(1)),
        after_log(d, log) == after_log(handled(d, call.cmd, call.payload).0, log.skip(1)),
{
    let k = session::call_len(call, room, log) as int;
    let mine = log.take(k);
    session::lemma_call_len_bounded(call, room, log);
    assert(session::is_exchange(mine, call));
    assert(mine[0] == log[0]);
    let a = log[0];
    assert(a.req == call.request());
    frame::law_decode_undoes_encode(call.cmd, call.payload);
    let (after, payload) = handled(d, call.cmd, call.payload);
    let response = frame::frame_bytes(response_cmd(a.req), payload);
    assert(answered(d, a.req) == (after, response));
    assert(payload.len() <= PAYLOAD_MAX) by {
        law_every_answer_is_a_frame(d, a.req);
        assert(frame::payload_of(response).len() == payload.len());
    }
    frame::law_decode_undoes_encode(response_cmd(a.req), payload);
    let n = a.rsp.len();
    let tail = blank(n - response.len());
    assert(a.rsp =~= response + tail);
    assert(session::delivered(a) =~= a.rsp);
    frame::law_only_filler_may_follow(response, tail);
    assert(session::padded_payload(a.rsp) == payload);
    assert(session::validation(a.rsp, call.expect()) == Ok::<(), session::Reject>(()));
    assert(session::settles(a, call.expect()));
    assert(log.take(1).last() == a);
}

/// What is left of an update once the erase and the first `done` pages are
/// behind it.
pub open spec fn rest_of_update(m: image::ImageSpec, done: int) -> Seq<session::Call> {
    session::write_calls(m, m.write_list().skip(done)) + seq![session::verify_call(m)]
}

/// The verification on a device that holds the image.
proof fn lemma_verify_on_device(m: image::ImageSpec, d: Device)
    requires
        m.well_formed(),
        d.well_formed(),
        d.page_size == m.page_size,
        d.app_pages == m.app_pages,
        d.flash == m.contents(),
    ensures
        ({
            let call = session::verify_call(m);
            &&& call.payload.len() == 8
            &&& handled(d, call.cmd, call.payload) == (d, status(ST_OK))
        }),
{
    let call = session::verify_call(m);
    let n = m.data.len() as u32;
    let c = image::crc32_of(m.data);
    assert(m.region() <= 250 * 65535) by (nonlinear_arith)
        requires
            m.region() == m.page_size * m.app_pages,
            0 <= m.page_size <= 250,
            0 <= m.app_pages <= 65535,
    ;
    assert(call.payload.take(4) =~= crate::le::le32(n));
    assert(call.payload.skip(4) =~= crate::le::le32(c));
    crate::le::law_le_round_trip(0, n);
    crate::le::law_le_round_trip(0, c);
    assert(d.flash.take(n as int) =~= m.data);
    assert(verify_status(d, call.payload) == ST_OK);
}

/// A page write on an erased device.
proof fn lemma_write_on_device(m: image::ImageSpec, d: Device, index: u16)
    requires
        m.well_formed(),
        d.well_formed(),
        d.page_size == m.page_size,
        d.app_pages == m.app_pages,
        d.erased,
        index < m.app_pages,
    ensures
        ({
            let call = session::write_call(m, index);
            let flash = image::with_page(
                d.flash,
                m.page_size,
                index as int,
                m.page(index as int),
            );
            &&& call.payload.len() <= PAYLOAD_MAX
            &&& handled(d, call.cmd, call.payload) == (d.with_flash(flash), status(ST_OK))
            &&& d.with_flash(flash).well_formed()
        }),
{
    let call = session::write_call(m, index);
    let page = m.page(index as int);
    image::lemma_contents_len(m);
    assert(page.len() == m.page_size);
    assert(call.payload.take(2) =~= crate::le::le16(index));
    assert(call.payload.skip(2) =~= page);
    crate::le::law_le_round_trip(index, 0);
    assert(write_status(d, call.payload) == ST_OK);
    lemma_page_inside(d, index as int);
}

/// The rest of an update on a device that has the first `done` pages.
proof fn lemma_update_on_device<E>(
    m: image::ImageSpec,
    d: Device,
    done: int,
    room: nat,
    log: Seq<crate::transport::Attempt<E>>,
    r: Result<(), Error<E>>,
)
    requires
        m.well_formed(),
        d.well_formed(),
        d.page_size == m.page_size,
        d.app_pages == m.app_pages,
        d.erased,
        !d.jumped,
        0 <= done <= m.write_list().len(),
        d.flash == image::programmed(m, blank(m.region()), m.write_list().take(done)),
        forall|c: int|
            0 <= c < rest_of_update(m, done).len() ==> (#[trigger] rest_of_update(
                m,
                done,
            )[c]).needed() <= room,
        session::plays(rest_of_update(m, done), room, log, r),
        answered_by(d, log),
    ensures
        r == Ok::<(), Error<E>>(()),
        after_log(d, log) == d.with_flash(m.contents()),
    decreases m.write_list().len() - done,
{
    let list = m.write_list();
    let calls = rest_of_update(m, done);
    let call = calls[0];
    assert(call.needed() <= room);
    if done == list.len() {
        assert(list.take(done) =~= list);
        assert(session::write_calls(m, list.skip(done)) =~= Seq::<session::Call>::empty());
        assert(call == session::verify_call(m));
        image::law_writing_the_listed_pages_gives_the_image(m, blank(m.region()));
        lemma_verify_on_device(m, d);
        lemma_call_on_device(d, call, room, log);
        assert(calls.drop_first() =~= Seq::<session::Call>::empty());
        assert(session::plays(Seq::<session::Call>::empty(), room, log.skip(1), r));
        assert(after_log(d, log.skip(1)) == d);
    } else {
        let index = list[done];
        image::law_write_list_is_exact(m, 0);
        assert(list.contains(index));
        assert(list.skip(done)[0] == index);
        assert(call == session::write_call(m, index));
        lemma_write_on_device(m, d, index);
        lemma_call_on_device(d, call, room, log);
        let after = handled(d, call.cmd, call.payload).0;
        assert(list.take(done + 1).drop_last() =~= list.take(done));
        assert(list.take(done + 1).last() == index);
        let rest = rest_of_update(m, done + 1);
        assert(calls.drop_first() =~= rest);
        assert forall|c: int| 0 <= c < rest.len() implies (#[trigger] rest[c]).needed()
            <= room by {
            assert(rest[c] == calls[c + 1]);
        }
        lemma_update_on_device(m, after, done + 1, room, log.skip(1), r);
    }
}

/// The answer to `INFO` lets an update of the same geometry through.
proof fn lemma_info_on_device<E>(m: image::ImageSpec, d: Device)
    requires
        m.well_formed(),
        d.well_formed(),
        d.page_size == m.page_size,
        d.app_pages == m.app_pages,
    ensures
        info_payload(d).len() == session::INFO_RSP_PAYLOAD,
        info_payload(d)[0] == ST_OK,
        session::flash_gate::<E>(info_payload(d).skip(1), m) is None,
{
    let rest = info_payload(d).skip(1);
    crate::le::law_le_round_trip(d.page_size as u16, 0);
    crate::le::law_le_round_trip(d.app_pages as u16, 0);
    assert(rest[0] == PROTO_VERSION);
    assert(rest.subrange(6, 8) =~= crate::le::le16(d.page_size as u16));
    assert(rest.subrange(8, 10) =~= crate::le::le16(d.app_pages as u16));
}

/// An update of a device over a wire that loses nothing always succeeds, with
/// a buffer of the documented size: the device then holds exactly the image,
/// its padding and its footer, it has not left, and its boot gate passes.
/// What was in flash before does not matter.
pub proof fn law_update_of_a_healthy_device_succeeds<E>(
    m: image::ImageSpec,
    d: Device,
    room: nat,
    log: Seq<crate::transport::Attempt<E>>,
    reports: Seq<session::Report>,
    r: Result<(), Error<E>>,
)
    requires
        m.well_formed(),
        d.well_formed(),
        d.page_size == m.page_size,
        d.app_pages == m.app_pages,
        !d.jumped,
        room >= (m.page_size + 2 + frame::FRAME_OVERHEAD) + (session::INFO_RSP_PAYLOAD
            + frame::FRAME_OVERHEAD),
        session::flashes(m, room, log, reports, r),
        answered_by(d, log),
    ensures
        r == Ok::<(), Error<E>>(()),
        after_log(d, log).flash == m.contents(),
        !after_log(d, log).jumped,
        image::boot_gate(after_log(d, log).flash),
{
    session::law_buffer_sizing(m, room, Seq::<u8>::empty());
    image::law_image_passes_the_boot_gate(m);
    let info = session::info_call();
    lemma_info_on_device::<E>(m, d);
    lemma_call_on_device(d, info, room, log);
    let log2 = log.skip(1);
    let calls = session::update_calls(m);
    let erase = session::erase_call();
    assert(calls[0] == erase);
    lemma_call_on_device(d, erase, room, log2);
    let after = Device { flash: blank(d.region()), erased: true, ..d };
    assert(handled(d, erase.cmd, erase.payload).0 == after);
    let list = m.write_list();
    assert(list.skip(0) =~= list);
    let tail = rest_of_update(m, 0);
    assert(calls.drop_first() =~= tail);
    assert(list.take(0) =~= Seq::<u16>::empty());
    assert forall|c: int| 0 <= c < tail.len() implies (#[trigger] tail[c]).needed() <= room by {
        assert(tail[c] == calls[c + 1]);
    }
    lemma_update_on_device(m, after, 0, room, log2.skip(1), r);
}

/// An update that stopped before its last page does not boot: as long as the
/// footer page has not been written, the boot gate refuses.
pub proof fn law_unfinished_update_does_not_boot(m: image::ImageSpec, done: int)
    requires
        m.well_formed(),
        0 <= done < m.write_list().len(),
    ensures
        !image::boot_gate(
            image::programmed(m, blank(m.region()), m.write_list().take(done)),
        ),
{
    let list = m.write_list();
    let pages = list.take(done);
    let flash = image::programmed(m, blank(m.region()), pages);
    image::law_write_list_is_exact(m, 0);
    image::law_footer_page_is_always_written(m);
    let last = m.app_pages - 1;
    assert(list.contains(last as u16));
    let at = choose|a: int| 0 <= a < list.len() && list[a] == last as u16;
    assert forall|a: int| 0 <= a < pages.len() implies (#[trigger] pages[a]) < last by {
        assert(pages[a] == list[a]);
        assert(list.contains(list[a]));
        assert(list[done] <= last) by {
            assert(list.contains(list[done]));
        }
        assert(list[a] < list[done]);
    }
    let k = m.region() - FOOTER_LEN;
    image::lemma_unlisted_byte(m, blank(m.region()), pages, k);
    let footer = flash.skip(flash.len() - FOOTER_LEN);
    assert(footer.take(4)[0] == flash[k]);
    assert(frame::is_filler(blank(m.region())));
    assert(image::FOOTER_MAGIC@[0] == 0x4F);
}

/// The device after a log of which only some requests reached it.
pub open spec fn after_lossy<E>(
    d: Device,
    log: Seq<crate::transport::Attempt<E>>,
    reached: Seq<bool>,
) -> Device
    decreases log.len(),
{
    if log.len() == 0 {
        d
    } else {
        let next = if reached[0] {
            answered(d, log[0].req).0
        } else {
            d
        };
        after_lossy(next, log.skip(1), reached.skip(1))
    }
}

/// Whether no damage went unnoticed: every response that is a frame is the
/// device's own answer to a request that reached it. Requests and responses
/// may be lost or mangled otherwise.
pub open spec fn no_forged_answer<E>(
    d: Device,
    log: Seq<crate::transport::Attempt<E>>,
    reached: Seq<bool>,
) -> bool
    decreases log.len(),
{
    if log.len() == 0 {
        true
    } else {
        let raw = session::delivered(log[0]);
        let next = if reached[0] {
            answered(d, log[0].req).0
        } else {
            d
        };
        &&& frame::is_padded_frame(raw) ==> reached[0] && raw.take(frame::frame_extent(raw))
            == answered(d, log[0].req).1
        &&& no_forged_answer(next, log.skip(1), reached.skip(1))
    }
}

/// The log of one exchange on a lossy wire leaves the device as one delivery
/// of its request would, if it was accepted, and brings that answer.
proof fn lemma_lossy_exchange<E>(
    d: Device,
    call: session::Call,
    log: Seq<crate::transport::Attempt<E>>,
    more: Seq<crate::transport::Attempt<E>>,
    reached: Seq<bool>,
)
    requires
        d.well_formed(),
        !d.jumped,
        call.payload.len() <= PAYLOAD_MAX,
        call.cmd != CMD_BOOT,
        log.len() >= 1,
        reached.len() == log.len() + more.len(),
        forall|i: int| 0 <= i < log.len() ==> (#[trigger] log[i]).req == call.request(),
        session::attempt_result(log.last(), call.expect()) is Ok,
        no_forged_answer(d, log + more, reached),
    ensures
        ({
            let (after, payload) = handled(d, call.cmd, call.payload);
            &&& payload[0] == ST_OK
            &&& session::attempt_result(log.last(), call.expect()) == Ok::<Seq<u8>, Error<E>>(
                payload.skip(1),
            )
            &&& no_forged_answer(after, more, reached.skip(log.len() as int))
            &&& after_lossy(d, log + more, reached) == after_lossy(
                after,
                more,
                reached.skip(log.len() as int),
            )
        }),
    decreases log.len(),
{
    let all = log + more;
    let req = call.request();
    frame::law_decode_undoes_encode(call.cmd, call.payload);
    let (after, payload) = handled(d, call.cmd, call.payload);
    law_requests_are_idempotent(d, req);
    law_requests_keep_the_device_well_formed(d, req);
    law_every_answer_is_a_frame(d, req);
    let response = answered(d, req).1;
    frame::law_decode_undoes_encode(response_cmd(req), payload);
    assert(response == frame::frame_bytes(response_cmd(req), payload));
    assert(all[0] == log[0]);
    assert(all.skip(1) =~= log.skip(1) + more);
    let next = if reached[0] {
        after
    } else {
        d
    };
    if log.len() == 1 {
        let raw = session::delivered(log[0]);
        assert(log.last() == log[0]);
        assert(frame::is_padded_frame(raw));
        assert(raw.take(frame::frame_extent(raw)) == response);
        assert(session::padded_payload(raw) == payload);
        assert(log.skip(1) + more =~= more);
    } else {
        let tail = log.skip(1);
        assert(tail.last() == log.last());
        assert forall|i: int| 0 <= i < tail.len() implies (#[trigger] tail[i]).req == req by {
            assert(tail[i] == log[i + 1]);
        }
        lemma_lossy_exchange(next, call, tail, more, reached.skip(1));
        assert(reached.skip(1).skip(tail.len() as int) =~= reached.skip(log.len() as int));
        if reached[0] {
            assert(answered(after, req) == (after, response));
            let (after2, payload2) = handled(after, call.cmd, call.payload);
            assert(after2 == after);
            frame::law_decode_undoes_encode(response_cmd(req), payload2);
            assert(payload2 == payload);
        }
    }
}

/// The first command of a row on a lossy wire, where all of them succeed.
proof fn lemma_lossy_call<E>(
    d: Device,
    calls: Seq<session::Call>,
    room: nat,
    log: Seq<crate::transport::Attempt<E>>,
    reached: Seq<bool>,
)
    requires
        d.well_formed(),
        !d.jumped,
        calls.len() > 0,
        calls[0].payload.len() <= PAYLOAD_MAX,
        calls[0].cmd != CMD_BOOT,
        reached.len() == log.len(),
        session::plays(calls, room, log, Ok::<(), Error<E>>(())),
        no_forged_answer(d, log, reached),
    ensures
        ({
            let k = session::call_len(calls[0], room, log) as int;
            let after = handled(d, calls[0].cmd, calls[0].payload).0;
            &&& k <= log.len()
            &&& session::plays(calls.drop_first(), room, log.skip(k), Ok::<(), Error<E>>(()))
            &&& no_forged_answer(after, log.skip(k), reached.skip(k))
            &&& after_lossy(d, log, reached) == after_lossy(after, log.skip(k), reached.skip(k))
        }),
{
    let call = calls[0];
    let k = session::call_len(call, room, log) as int;
    session::lemma_call_len_bounded(call, room, log);
    let mine = log.take(k);
    assert(session::called(call, room, mine));
    assert(session::call_result(call, room, mine) is Ok);
    assert(session::is_exchange(mine, call));
    assert(mine + log.skip(k) =~= log);
    lemma_lossy_exchange(d, call, mine, log.skip(k), reached);
}

/// The rest of an update on a lossy wire, where all of it succeeds.
proof fn lemma_lossy_update<E>(
    m: image::ImageSpec,
    d: Device,
    done: int,
    room: nat,
    log: Seq<crate::transport::Attempt<E>>,
    reached: Seq<bool>,
)
    requires
        m.well_formed(),
        d.well_formed(),
        d.page_size == m.page_size,
        d.app_pages == m.app_pages,
        d.erased,
        !d.jumped,
        0 <= done <= m.write_list().len(),
        d.flash == image::programmed(m, blank(m.region()), m.write_list().take(done)),
        reached.len() == log.len(),
        session::plays(rest_of_update(m, done), room, log, Ok::<(), Error<E>>(())),
        no_forged_answer(d, log, reached),
    ensures
        after_lossy(d, log, reached) == d.with_flash(m.contents()),
    decreases m.write_list().len() - done,
{
    let list = m.write_list();
    let calls = rest_of_update(m, done);
    let call = calls[0];
    let k = session::call_len(call, room, log) as int;
    if done == list.len() {
        assert(list.take(done) =~= list);
        assert(session::write_calls(m, list.skip(done)) =~= Seq::<session::Call>::empty());
        assert(call == session::verify_call(m));
        image::law_writing_the_listed_pages_gives_the_image(m, blank(m.region()));
        lemma_verify_on_device(m, d);
        lemma_lossy_call(d, calls, room, log, reached);
        assert(calls.drop_first() =~= Seq::<session::Call>::empty());
        assert(session::plays(
            Seq::<session::Call>::empty(),
            room,
            log.skip(k),
            Ok::<(), Error<E>>(()),
        ));
        assert(after_lossy(d, log.skip(k), reached.skip(k)) == d);
    } else {
        let index = list[done];
        image::law_write_list_is_exact(m, 0);
        assert(list.contains(index));
        assert(list.skip(done)[0] == index);
        assert(call == session::write_call(m, index));
        lemma_write_on_device(m, d, index);
        lemma_lossy_call(d, calls, room, log, reached);
        let after = handled(d, call.cmd, call.payload).0;
        assert(list.take(done + 1).drop_last() =~= list.take(done));
        assert(list.take(done + 1).last() == index);
        assert(calls.drop_first() =~= rest_of_update(m, done + 1));
        lemma_lossy_update(m, after, done + 1, room, log.skip(k), reached.skip(k));
    }
}

/// The answer to `INFO` lets only an update of the same geometry through.
proof fn lemma_gate_is_geometry<E>(m: image::ImageSpec, d: Device)
    requires
        d.well_formed(),
        session::flash_gate::<E>(info_payload(d).skip(1), m) is None,
    ensures
        d.page_size == m.page_size,
        d.app_pages == m.app_pages,
{
    let rest = info_payload(d).skip(1);
    crate::le::law_le_round_trip(d.page_size as u16, 0);
    crate::le::law_le_round_trip(d.app_pages as u16, 0);
    assert(rest.subrange(6, 8) =~= crate::le::le16(d.page_size as u16));
    assert(rest.subrange(8, 10) =~= crate::le::le16(d.app_pages as u16));
}

/// Reported success means that the image is there, however lossy the wire
/// is: as long as no damaged response passes for an answer, an update that
/// returns success has left exactly the image, its padding and its footer in
/// the device, and the boot gate passes.
pub proof fn law_reported_success_means_the_image_is_there<E>(
    m: image::ImageSpec,
    d: Device,
    room: nat,
    log: Seq<crate::transport::Attempt<E>>,
    reached: Seq<bool>,
    reports: Seq<session::Report>,
)
    requires
        m.well_formed(),
        d.well_formed(),
        !d.jumped,
        reached.len() == log.len(),
        session::flashes(m, room, log, reports, Ok::<(), Error<E>>(())),
        no_forged_answer(d, log, reached),
    ensures
        after_lossy(d, log, reached).flash == m.contents(),
        image::boot_gate(after_lossy(d, log, reached).flash),
{
    image::law_image_passes_the_boot_gate(m);
    let info = session::info_call();
    let k = session::call_len(info, room, log) as int;
    session::lemma_call_len_bounded(info, room, log);
    let asked = log.take(k);
    assert(asked + log.skip(k) =~= log);
    lemma_lossy_exchange(d, info, asked, log.skip(k), reached);
    lemma_gate_is_geometry::<E>(m, d);
    let calls = session::update_calls(m);
    let erase = session::erase_call();
    assert(calls[0] == erase);
    let log2 = log.skip(k);
    let reached2 = reached.skip(k);
    lemma_lossy_call(d, calls, room, log2, reached2);
    let j = session::call_len(erase, room, log2) as int;
    let after = Device { flash: blank(d.region()), erased: true, ..d };
    assert(handled(d, erase.cmd, erase.payload).0 == after);
    let list = m.write_list();
    assert(list.skip(0) =~= list);
    assert(calls.drop_first() =~= rest_of_update(m, 0));
    assert(list.take(0) =~= Seq::<u16>::empty());
    lemma_lossy_update(m, after, 0, room, log2.skip(j), reached2.skip(j));
}

/// What a device does on each request, byte for byte: its description, the
/// erase behind the word `ERAS`, the page write behind its index, low byte
/// first, the verification of a length and a CRC-32, the jump, and the echo of
/// up to sixteen bytes. Only an erase and a page write change flash, and only
/// in the bytes that they are for.
pub proof fn law_what_a_device_does(d: Device, payload: Seq<u8>, k: int)
    requires
        d.well_formed(),
        d.page_size <= 250,
    ensures
        ({
            let (after, p) = handled(d, 0x01, payload);
            &&& after == d
            &&& p.len() == 12 && p[0] == 0 && p[1] == 1 && p[2] == d.bl_version
            &&& p[3] == d.id[0] && p[4] == d.id[1] && p[5] == d.id[2] && p[6] == d.id[3]
            &&& p[7] + 256 * p[8] == d.page_size
            &&& p[9] + 256 * p[10] == d.app_pages
            &&& p[11] == 1 <==> image::boot_gate(d.flash)
            &&& p[11] <= 1
        }),
        ({
            let (after, p) = handled(d, 0x02, payload);
            if payload == seq![0x45u8, 0x52, 0x41, 0x53] {
                &&& p == seq![0u8]
                &&& after.erased && after.jumped == d.jumped
                &&& after.flash.len() == d.flash.len()
                &&& 0 <= k < d.flash.len() ==> after.flash[k] == 0xFF
            } else {
                after == d && p == seq![6u8]
            }
        }),
        ({
            let (after, p) = handled(d, 0x03, payload);
            let index = payload[0] + 256 * payload[1];
            if !d.erased {
                after == d && p == seq![3u8]
            } else if payload.len() != d.page_size + 2 {
                after == d && p == seq![1u8]
            } else if index >= d.app_pages {
                after == d && p == seq![4u8]
            } else {
                &&& p == seq![0u8]
                &&& after.erased && after.jumped == d.jumped
                &&& after.flash.len() == d.flash.len()
                &&& 0 <= k < d.flash.len() ==> after.flash[k] == (if index * d.page_size <= k < index
                    * d.page_size + d.page_size {
                    payload[2 + k - index * d.page_size]
                } else {
                    d.flash[k]
                })
            }
        }),
        ({
            let (after, p) = handled(d, 0x04, payload);
            let len = payload[0] + 256 * payload[1] + 65536 * payload[2] + 16777216 * payload[3];
            let crc = payload[4] + 256 * payload[5] + 65536 * payload[6] + 16777216 * payload[7];
            &&& after == d
            &&& if payload.len() != 8 {
                p == seq![1u8]
            } else if len + 16 > d.page_size * d.app_pages {
                p == seq![4u8]
            } else if image::crc32_of(d.flash.take(len)) != crc {
                p == seq![5u8]
            } else {
                p == seq![0u8]
            }
        }),
        ({
            let (after, p) = handled(d, 0x05, payload);
            if image::boot_gate(d.flash) {
                p == seq![0u8] && after.jumped && after.flash == d.flash
            } else {
                p == seq![7u8] && after == d
            }
        }),
        ({
            let (after, p) = handled(d, 0x06, payload);
            &&& after == d
            &&& payload.len() > 16 ==> p == seq![1u8]
            &&& payload.len() <= 16 ==> p == seq![0u8] + payload
        }),
        forall|cmd: u8|
            cmd == 0 || cmd > 6 ==> #[trigger] handled(d, cmd, payload) == (d, seq![2u8]),
{
    crate::le::law_little_end_first(d.page_size as u16, 0, payload.take(2));
    crate::le::law_little_end_first(d.app_pages as u16, 0, payload.take(4));
    crate::le::law_little_end_first(0, 0, payload.skip(4));
    assert(ERASE_MAGIC@ =~= seq![0x45u8, 0x52, 0x41, 0x53]);
    if payload.len() == d.page_size + 2 && payload[0] + 256 * payload[1] < d.app_pages {
        let index = payload[0] + 256 * payload[1];
        assert(payload.take(2)[0] == payload[0] && payload.take(2)[1] == payload[1]);
        lemma_page_inside(d, index);
    }
    let info = info_payload(d);
    assert(info[7] == crate::le::le16(d.page_size as u16)[0]);
    assert(info[8] == crate::le::le16(d.page_size as u16)[1]);
    assert(info[9] == crate::le::le16(d.app_pages as u16)[0]);
    assert(info[10] == crate::le::le16(d.app_pages as u16)[1]);
}

} // verus!
