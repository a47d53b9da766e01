//! A simulated device: the device side of the protocol over a small flash,
//! with power cuts to order. Sessions and transports are exercised against
//! it without hardware.

use core::convert::Infallible;
use vstd::prelude::*;
use vstd::string::*;

use crate::frame;
use crate::frame::{
    CMD_BOOT, CMD_ECHO, CMD_ERASE_APP, CMD_INFO, CMD_VERIFY, CMD_WRITE_PAGE, ECHO_MAX,
    FRAME_OVERHEAD, PROTO_VERSION, RSP_FLAG, ST_BAD_CMD, ST_BAD_CRC, ST_BAD_FRAME,
    ST_BAD_MAGIC, ST_NOT_ERASED, ST_NO_APP, ST_OK, ST_OUT_OF_RANGE,
};
use crate::image::{crc32, FOOTER_LEN};
use crate::le::{read_le16, read_le32};
use crate::stream::{RxScanner, Scan, SYNC};
use crate::transport::Transport;

verus! {

/// Flash page size of the simulated device.
pub const PAGE_SIZE: usize = 128;

/// App-region page count of the simulated device.
pub const APP_PAGES: usize = 32;

/// App-region size in bytes.
pub const REGION: usize = 4096;

/// Size of the receive buffer of the byte-stream link.
pub const LINK_BUF: usize = 255;

/// The simulated device as a value of specifications.
pub ghost struct SimSpec {
    /// What the protocol can tell of it.
    pub dev: crate::device::Device,
    /// Whether a power cut has stopped it.
    pub dead: bool,
    /// The flash operation from now on which power is cut; zero for none.
    pub cut: int,
    /// Flash operations since the last reset, as far as they were counted.
    pub ops: int,
    /// What the receiver of the byte-stream link is doing.
    pub link: crate::stream::ScanState,
    /// The buffer of that receiver.
    pub link_buf: Seq<u8>,
}

/// A device of this size fresh from reset, with that flash.
pub open spec fn fresh(flash: Seq<u8>) -> crate::device::Device {
    crate::device::Device {
        page_size: PAGE_SIZE as int,
        app_pages: APP_PAGES as int,
        bl_version: 1,
        id: seq![0x53u8, 0x49, 0x4D, 0x30],
        flash,
        erased: false,
        jumped: false,
    }
}

/// The count after `n` more operations.
pub open spec fn counted(ops: int, n: int) -> int {
    if ops + n <= u32::MAX {
        ops + n
    } else {
        u32::MAX as int
    }
}

impl SimSpec {
    /// The simulated device with `n` operations behind it, none of which was
    /// cut.
    pub open spec fn ran(self, n: int) -> SimSpec {
        SimSpec {
            ops: counted(self.ops, n),
            cut: if self.cut == 0 {
                0
            } else {
                self.cut - n
            },
            ..self
        }
    }

    /// The simulated device stopped in its `n`-th operation from now, with
    /// that flash.
    pub open spec fn stopped(self, n: int, flash: Seq<u8>) -> SimSpec {
        SimSpec {
            dev: self.dev.with_flash(flash),
            dead: true,
            cut: 0,
            ops: counted(self.ops, n),
            ..self
        }
    }

    /// The simulated device with another state of the device in it.
    pub open spec fn with_dev(self, dev: crate::device::Device) -> SimSpec {
        SimSpec { dev, ..self }
    }
}

/// Flash whose first bytes are erased.
pub open spec fn erased_to(flash: Seq<u8>, n: int) -> Seq<u8> {
    crate::device::blank(n) + flash.skip(n)
}

/// A page of which only the first half was written.
pub open spec fn half_page(before: Seq<u8>, page: Seq<u8>) -> Seq<u8> {
    page.take(PAGE_SIZE as int / 2) + before.skip(PAGE_SIZE as int / 2)
}

/// The simulated device after a command, and the payload of its response. A
/// power cut falls into the middle of an operation: half a page is done, and
/// there is no response.
pub open spec fn sim_handled(s: SimSpec, cmd: u8, payload: Seq<u8>) -> (
    SimSpec,
    Option<Seq<u8>>,
) {
    let (dev, response) = crate::device::handled(s.dev, cmd, payload);
    let pages = APP_PAGES as int;
    let size = PAGE_SIZE as int;
    if cmd == CMD_ERASE_APP && response[0] == ST_OK {
        if 0 < s.cut <= pages {
            (
                s.stopped(s.cut, erased_to(s.dev.flash, (s.cut - 1) * size + size / 2)),
                None,
            )
        } else {
            (s.ran(pages).with_dev(dev), Some(response))
        }
    } else if cmd == CMD_WRITE_PAGE && response[0] == ST_OK {
        if s.cut == 1 {
            let index = crate::le::from_le16(payload.take(2)) as int;
            let before = s.dev.flash.subrange(index * size, index * size + size);
            let torn = half_page(before, payload.skip(2));
            (
                s.stopped(1, crate::image::with_page(s.dev.flash, size, index, torn)),
                None,
            )
        } else {
            (s.ran(1).with_dev(dev), Some(response))
        }
    } else {
        (s.with_dev(dev), Some(response))
    }
}

/// The simulated device after a request, and its response; none if it is
/// stopped or has left.
pub open spec fn sim_answered(s: SimSpec, raw: Seq<u8>) -> (SimSpec, Seq<u8>) {
    if s.dead || s.dev.jumped {
        (s, seq![])
    } else if !frame::is_frame(raw) {
        (s, crate::device::answered(s.dev, raw).1)
    } else {
        match sim_handled(s, raw[0], frame::payload_of(raw)) {
            (after, Some(payload)) => (
                after,
                frame::frame_bytes(crate::device::response_cmd(raw), payload),
            ),
            (after, None) => (after, seq![]),
        }
    }
}

/// The simulated device after one byte on its stream link, and what it sends.
pub open spec fn sim_byte(s: SimSpec, byte: u8) -> (SimSpec, Seq<u8>) {
    if s.dead || s.dev.jumped {
        (s, seq![])
    } else {
        let p = crate::stream::pushed(s.link, byte, s.link_buf);
        let heard = SimSpec { link: p.state, link_buf: p.buf, ..s };
        match p.scan {
            Scan::Done { len } => {
                let (after, response) = sim_answered(heard, p.buf.take(len as int));
                (
                    after,
                    if response.len() == 0 {
                        seq![]
                    } else {
                        seq![SYNC] + response
                    },
                )
            },
            _ => (heard, seq![]),
        }
    }
}

/// The simulated device after bytes on its stream link, and what it sends.
pub open spec fn sim_streamed(s: SimSpec, bytes: Seq<u8>) -> (SimSpec, Seq<u8>)
    decreases bytes.len(),
{
    if bytes.len() == 0 {
        (s, seq![])
    } else {
        let (before, out) = sim_streamed(s, bytes.drop_last());
        let (after, more) = sim_byte(before, bytes.last());
        (after, out + more)
    }
}

/// Without a power cut ahead the simulated device is the device of the
/// protocol.
pub proof fn law_sim_follows_the_protocol(s: SimSpec, raw: Seq<u8>)
    requires
        !s.dead,
        s.cut == 0,
    ensures
        sim_answered(s, raw).0.dev == crate::device::answered(s.dev, raw).0,
        sim_answered(s, raw).1 == crate::device::answered(s.dev, raw).1,
        !sim_answered(s, raw).0.dead,
        sim_answered(s, raw).0.cut == 0,
{
}

/// A power cut in the write of any page, while the last page is still erased,
/// leaves a device that does not boot: of no page was the second half
/// reached, so the footer at the end of the last one is not there.
pub proof fn law_torn_page_does_not_boot(s: SimSpec, payload: Seq<u8>)
    requires
        s.dev == (crate::device::Device { erased: true, ..fresh(s.dev.flash) }),
        s.dev.flash.len() == REGION,
        frame::is_filler(s.dev.flash.skip(REGION - PAGE_SIZE)),
        s.cut == 1,
        payload.len() == PAGE_SIZE + 2,
        crate::le::from_le16(payload.take(2)) < APP_PAGES,
    ensures
        sim_handled(s, CMD_WRITE_PAGE, payload).0.dead,
        !crate::image::boot_gate(sim_handled(s, CMD_WRITE_PAGE, payload).0.dev.flash),
{
    let flash = sim_handled(s, CMD_WRITE_PAGE, payload).0.dev.flash;
    assert(crate::device::write_status(s.dev, payload) == ST_OK);
    let k = REGION - FOOTER_LEN;
    assert(s.dev.flash.skip(REGION - PAGE_SIZE)[PAGE_SIZE - FOOTER_LEN] == s.dev.flash[k]);
    assert(flash.len() == REGION);
    assert(flash[k] == 0xFF);
    let footer = flash.skip(flash.len() - FOOTER_LEN);
    assert(footer.take(4)[0] == 0xFF);
    assert(crate::image::FOOTER_MAGIC@[0] == 0x4F);
}

/// A power cut in any page write of an update leaves a device that does not
/// boot: whichever pages of the image were written before, the write of the
/// next one is cut.
pub proof fn law_update_cut_in_a_write_does_not_boot(
    s: SimSpec,
    m: crate::image::ImageSpec,
    done: int,
)
    requires
        m.well_formed(),
        m.page_size == PAGE_SIZE,
        m.app_pages == APP_PAGES,
        0 <= done < m.write_list().len(),
        s.dev == (crate::device::Device {
            erased: true,
            ..fresh(
                crate::image::programmed(
                    m,
                    crate::device::blank(REGION as int),
                    m.write_list().take(done),
                ),
            )
        }),
        s.cut == 1,
    ensures
        ({
            let call = crate::session::write_call(m, m.write_list()[done]);
            &&& sim_handled(s, call.cmd, call.payload).0.dead
            &&& sim_handled(s, call.cmd, call.payload).1 is None
            &&& !crate::image::boot_gate(sim_handled(s, call.cmd, call.payload).0.dev.flash)
        }),
{
    let list = m.write_list();
    let pages = list.take(done);
    let index = list[done];
    let call = crate::session::write_call(m, index);
    let blank = crate::device::blank(REGION as int);
    let flash = s.dev.flash;
    let last = APP_PAGES - 1;
    crate::image::law_write_list_is_exact(m, 0);
    crate::image::lemma_contents_len(m);
    assert(list.contains(index));
    assert forall|a: int| 0 <= a < pages.len() implies (#[trigger] pages[a]) < last by {
        assert(pages[a] == list[a]);
        assert(list.contains(list[a]));
        assert(list[a] < list[done]);
    }
    assert(frame::is_filler(blank));
    crate::image::lemma_unlisted_byte(m, blank, pages, REGION - 1);
    let tail = flash.skip(REGION - PAGE_SIZE);
    assert forall|k: int| 0 <= k < tail.len() implies #[trigger] tail[k] == 0xFF by {
        crate::image::lemma_unlisted_byte(m, blank, pages, REGION - PAGE_SIZE + k);
    }
    crate::le::law_le_round_trip(index, 0);
    assert(call.payload.take(2) =~= crate::le::le16(index));
    law_torn_page_does_not_boot(s, call.payload);
}

/// The simulated device.
pub struct Sim {
    flash: [u8; REGION],
    erased: bool,
    jumped: bool,
    dead: bool,
    cut: u32,
    ops: u32,
    link: RxScanner,
    link_buf: [u8; LINK_BUF],
}

impl View for Sim {
    type V = SimSpec;

    closed spec fn view(&self) -> SimSpec {
        SimSpec {
            dev: crate::device::Device {
                erased: self.erased,
                jumped: self.jumped,
                ..fresh(self.flash@)
            },
            dead: self.dead,
            cut: self.cut as int,
            ops: self.ops as int,
            link: self.link@,
            link_buf: self.link_buf@,
        }
    }
}

/// Whether a response payload is that one.
pub open spec fn same_response(r: Option<Vec<u8>>, want: Option<Seq<u8>>) -> bool {
    match (r, want) {
        (Some(v), Some(w)) => v@ == w,
        (None, None) => true,
        _ => false,
    }
}

/// A payload of one byte.
fn one(b: u8) -> (r: Vec<u8>)
    ensures
        r@ == seq![b],
{
    let mut out: Vec<u8> = Vec::new();
    out.push(b);
    proof {
        assert(out@ =~= seq![b]);
    }
    out
}

/// Is this the magic of an erase?
fn is_magic(payload: &[u8]) -> (r: bool)
    ensures
        r == (payload@ == frame::ERASE_MAGIC@),
{
    let magic: [u8; 4] = frame::ERASE_MAGIC;
    if payload.len() != 4 {
        return false;
    }
    let same: bool = payload[0] == magic[0] && payload[1] == magic[1] && payload[2] == magic[2]
        && payload[3] == magic[3];
    proof {
        if same {
            assert(payload@ =~= magic@);
        }
    }
    same
}

/// A frame as bytes.
fn framed(cmd: u8, payload: &Vec<u8>) -> (r: Vec<u8>)
    requires
        payload@.len() <= ECHO_MAX + 1,
    ensures
        r@ == frame::frame_bytes(cmd, payload@),
{
    let mut buf: [u8; 32] = [0u8; 32];
    let total: usize = payload.len() + FRAME_OVERHEAD;
    let _ = frame::encode(cmd, payload.as_slice(), &mut buf);
    let mut out: Vec<u8> = Vec::new();
    let mut i: usize = 0;
    while i < total
        invariant
            i <= total <= 32,
            out@ == buf@.take(i as int),
        decreases total - i,
    {
        out.push(buf[i]);
        proof {
            assert(buf@.take(i + 1) =~= buf@.take(i as int).push(buf@[i as int]));
        }
        i = i + 1;
    }
    proof {
        assert(out@ =~= frame::frame_bytes(cmd, payload@));
    }
    out
}

/// Responses are short.
proof fn lemma_response_len(s: SimSpec, cmd: u8, payload: Seq<u8>)
    requires
        s.dev.id.len() == 4,
    ensures
        sim_handled(s, cmd, payload).1 matches Some(response) ==> 1 <= response.len() <= 1
            + ECHO_MAX,
{
}

impl Sim {
    /// A device fresh from the factory: flash erased, nothing armed.
    pub fn acquire() -> (r: Self)
        ensures
            r@.dev == fresh(crate::device::blank(REGION as int)),
            !r@.dead,
            r@.cut == 0,
            r@.ops == 0,
            r@.link == crate::stream::ScanState::Hunting,
            r@.link_buf.len() == LINK_BUF,
    {
        let sim: Sim = Sim {
            flash: [0xFFu8; REGION],
            erased: false,
            jumped: false,
            dead: false,
            cut: 0,
            ops: 0,
            link: RxScanner::new(),
            link_buf: [0u8; LINK_BUF],
        };
        proof {
            assert(sim.flash@ =~= crate::device::blank(REGION as int));
        }
        sim
    }

    /// Reboots the device; `preserve_flash` keeps its flash, otherwise that
    /// is erased.
    pub fn reset(&mut self, preserve_flash: bool)
        ensures
            final(self)@.dev == fresh(
                if preserve_flash {
                    old(self)@.dev.flash
                } else {
                    crate::device::blank(REGION as int)
                },
            ),
            !final(self)@.dead,
            final(self)@.cut == 0,
            final(self)@.ops == 0,
            final(self)@.link == crate::stream::ScanState::Hunting,
            final(self)@.link_buf == old(self)@.link_buf,
    {
        if !preserve_flash {
            self.flash = [0xFFu8; REGION];
            proof {
                assert(self.flash@ =~= crate::device::blank(REGION as int));
            }
        }
        self.erased = false;
        self.jumped = false;
        self.dead = false;
        self.cut = 0;
        self.ops = 0;
        self.link.reset();
    }

    /// Arms a power cut on the n-th flash operation from now; zero disarms.
    pub fn powercut_after(&mut self, flash_ops: u32)
        ensures
            final(self)@ == (SimSpec { cut: flash_ops as int, ..old(self)@ }),
    {
        self.cut = flash_ops;
    }

    /// Did the armed cut fire since the last reset?
    pub fn powercut_hit(&self) -> (r: bool)
        ensures
            r == self@.dead,
    {
        self.dead
    }

    /// Flash operations (erases and writes of a page) since the last reset.
    pub fn flash_ops(&self) -> (r: u32)
        ensures
            r == self@.ops,
    {
        self.ops
    }

    /// Has the device left for the application since the last reset?
    pub fn jumped(&self) -> (r: bool)
        ensures
            r == self@.dev.jumped,
    {
        self.jumped
    }

    /// A copy of the whole app region.
    pub fn flash_snapshot(&self) -> (r: Vec<u8>)
        ensures
            r@ == self@.dev.flash,
    {
        let mut out: Vec<u8> = Vec::new();
        let mut i: usize = 0;
        while i < REGION
            invariant
                i <= REGION,
                out@ == self.flash@.take(i as int),
            decreases REGION - i,
        {
            out.push(self.flash[i]);
            proof {
                assert(self.flash@.take(i + 1) =~= self.flash@.take(i as int).push(
                    self.flash@[i as int],
                ));
            }
            i = i + 1;
        }
        proof {
            assert(self.flash@.take(REGION as int) =~= self.flash@);
        }
        out
    }

    /// Flips bits of one flash byte in place.
    pub fn flash_xor(&mut self, offset: usize, mask: u8)
        requires
            offset < REGION,
        ensures
            final(self)@ == old(self)@.with_dev(
                old(self)@.dev.with_flash(
                    old(self)@.dev.flash.update(
                        offset as int,
                        old(self)@.dev.flash[offset as int] ^ mask,
                    ),
                ),
            ),
    {
        let b: u8 = self.flash[offset];
        self.flash[offset] = b ^ mask;
    }

    /// Counts a flash operation and says whether power is cut in it.
    fn op(&mut self) -> (r: bool)
        ensures
            r == (old(self)@.cut == 1),
            final(self)@ == (SimSpec {
                ops: counted(old(self)@.ops, 1),
                cut: if old(self)@.cut == 0 {
                    0
                } else {
                    old(self)@.cut - 1
                },
                ..old(self)@
            }),
    {
        if self.ops < u32::MAX {
            self.ops = self.ops + 1;
        }
        let hit: bool = self.cut == 1;
        if self.cut > 0 {
            self.cut = self.cut - 1;
        }
        hit
    }

    /// Erases `n` bytes of flash from `from` on.
    fn erase_bytes(&mut self, from: usize, n: usize)
        requires
            from + n <= REGION,
            old(self)@.dev.flash.take(from as int) == crate::device::blank(from as int),
        ensures
            final(self)@ == old(self)@.with_dev(
                old(self)@.dev.with_flash(
                    erased_to(old(self)@.dev.flash, from + n),
                ),
            ),
    {
        let ghost start = self@;
        let mut i: usize = 0;
        while i < n
            invariant
                i <= n,
                from + n <= REGION,
                start == old(self)@,
                start.dev.flash.take(from as int) == crate::device::blank(from as int),
                start.dev.flash.len() == REGION,
                self@ == start.with_dev(start.dev.with_flash(self.flash@)),
                forall|j: int| from <= j < from + i ==> self.flash@[j] == 0xFF,
                forall|j: int|
                    0 <= j < REGION && !(from <= j < from + i) ==> self.flash@[j]
                        == start.dev.flash[j],
            decreases n - i,
        {
            self.flash[from + i] = 0xFF;
            i = i + 1;
        }
        proof {
            let want = erased_to(start.dev.flash, from + n);
            assert forall|j: int| 0 <= j < REGION implies self.flash@[j] == want[j] by {
                if j < from {
                    assert(start.dev.flash.take(from as int)[j] == 0xFF);
                }
            }
            assert(self.flash@ =~= want);
        }
    }

    /// Writes the first `n` bytes of `payload[2..]` to page `index`.
    fn write_bytes(&mut self, index: usize, payload: &[u8], n: usize)
        requires
            index < APP_PAGES,
            payload@.len() == PAGE_SIZE + 2,
            n <= PAGE_SIZE,
        ensures
            ({
                let flash = old(self)@.dev.flash;
                let at = index * PAGE_SIZE;
                let before = flash.subrange(at as int, at + PAGE_SIZE);
                let page = payload@.skip(2).take(n as int) + before.skip(n as int);
                final(self)@ == old(self)@.with_dev(
                    old(self)@.dev.with_flash(
                        crate::image::with_page(flash, PAGE_SIZE as int, index as int, page),
                    ),
                )
            }),
    {
        let ghost start = self@;
        let at: usize = index * PAGE_SIZE;
        let mut i: usize = 0;
        while i < n
            invariant
                i <= n,
                n <= PAGE_SIZE,
                at + PAGE_SIZE <= REGION,
                payload@.len() == PAGE_SIZE + 2,
                start == old(self)@,
                start.dev.flash.len() == REGION,
                self@ == start.with_dev(start.dev.with_flash(self.flash@)),
                forall|j: int| at <= j < at + i ==> self.flash@[j] == payload@[2 + j - at],
                forall|j: int|
                    0 <= j < REGION && !(at <= j < at + i) ==> self.flash@[j]
                        == start.dev.flash[j],
            decreases n - i,
        {
            self.flash[at + i] = payload[2 + i];
            i = i + 1;
        }
        proof {
            let flash = start.dev.flash;
            let before = flash.subrange(at as int, at + PAGE_SIZE);
            let page = payload@.skip(2).take(n as int) + before.skip(n as int);
            assert(self.flash@ =~= crate::image::with_page(
                flash,
                PAGE_SIZE as int,
                index as int,
                page,
            ));
        }
    }

    /// Does the boot gate pass?
    fn app_valid(&self) -> (r: bool)
        ensures
            r == crate::image::boot_gate(self@.dev.flash),
    {
        let at: usize = REGION - FOOTER_LEN;
        let f: [u8; REGION] = self.flash;
        let ghost footer = f@.skip(at as int);
        proof {
            assert(footer.take(4) =~= seq![f@[at as int], f@[at + 1], f@[at + 2], f@[at + 3]]);
            assert(footer.subrange(4, 8) =~= seq![
                f@[at + 4],
                f@[at + 5],
                f@[at + 6],
                f@[at + 7],
            ]);
            assert(footer.subrange(8, 12) =~= seq![
                f@[at + 8],
                f@[at + 9],
                f@[at + 10],
                f@[at + 11],
            ]);
            assert(crate::image::FOOTER_MAGIC@ =~= seq![0x4Fu8, 0x54, 0x41, 0x55]);
        }
        if f[at] != 0x4F || f[at + 1] != 0x54 || f[at + 2] != 0x41 || f[at + 3] != 0x55 {
            proof {
                assert(footer.take(4)[0] == f@[at as int]);
                assert(footer.take(4)[1] == f@[at + 1]);
                assert(footer.take(4)[2] == f@[at + 2]);
                assert(footer.take(4)[3] == f@[at + 3]);
            }
            return false;
        }
        let len: u32 = read_le32(f[at + 4], f[at + 5], f[at + 6], f[at + 7]);
        if len as usize > at {
            return false;
        }
        let crc: u32 = read_le32(f[at + 8], f[at + 9], f[at + 10], f[at + 11]);
        self.crc_of(len as usize) == crc
    }

    /// CRC-32 of the first `len` bytes of flash.
    fn crc_of(&self, len: usize) -> (r: u32)
        requires
            len <= REGION,
        ensures
            r == crate::image::crc32_of(self@.dev.flash.take(len as int)),
    {
        let all: &[u8] = self.flash.as_slice();
        let part: &[u8] = &all[0..len];
        proof {
            assert(part@ =~= self.flash@.take(len as int));
        }
        crc32(part)
    }

    /// Erases the whole region page by page; `None` if power is cut in it.
    fn erase(&mut self) -> (r: Option<Vec<u8>>)
        ensures
            ({
                let (after, response) = sim_handled(
                    old(self)@,
                    CMD_ERASE_APP,
                    frame::ERASE_MAGIC@,
                );
                &&& final(self)@ == after
                &&& same_response(r, response)
            }),
    {
        let ghost start = self@;
        let mut p: usize = 0;
        proof {
            assert(erased_to(start.dev.flash, 0) =~= start.dev.flash);
            assert(start.dev.with_flash(start.dev.flash) == start.dev);
        }
        while p < APP_PAGES
            invariant
                p <= APP_PAGES,
                start == old(self)@,
                start.dev.flash.len() == REGION,
                0 <= start.ops <= u32::MAX,
                0 <= start.cut,
                start.cut == 0 || p < start.cut,
                self@ == start.ran(p as int).with_dev(
                    start.dev.with_flash(erased_to(start.dev.flash, p * PAGE_SIZE)),
                ),
            decreases APP_PAGES - p,
        {
            let ghost before = self@;
            let at: usize = p * PAGE_SIZE;
            let hit: bool = self.op();
            proof {
                assert(before.dev.flash.take(at as int) =~= crate::device::blank(at as int));
            }
            if hit {
                self.erase_bytes(at, PAGE_SIZE / 2);
                self.dead = true;
                proof {
                    let n = at + PAGE_SIZE / 2;
                    assert(erased_to(before.dev.flash, n as int) =~= erased_to(
                        start.dev.flash,
                        n as int,
                    ));
                    assert(self@ =~= start.stopped(
                        start.cut,
                        erased_to(start.dev.flash, n as int),
                    ));
                }
                return None;
            }
            self.erase_bytes(at, PAGE_SIZE);
            proof {
                assert(erased_to(before.dev.flash, at + PAGE_SIZE) =~= erased_to(
                    start.dev.flash,
                    (p + 1) * PAGE_SIZE,
                ));
            }
            p = p + 1;
        }
        self.erased = true;
        proof {
            assert(erased_to(start.dev.flash, REGION as int) =~= crate::device::blank(
                REGION as int,
            ));
        }
        Some(one(ST_OK))
    }

    /// Writes a page; `None` if power is cut in it.
    fn write_page(&mut self, payload: &[u8]) -> (r: Option<Vec<u8>>)
        ensures
            ({
                let (after, response) = sim_handled(old(self)@, CMD_WRITE_PAGE, payload@);
                &&& final(self)@ == after
                &&& same_response(r, response)
            }),
    {
        let ghost start = self@;
        if !self.erased {
            return Some(one(ST_NOT_ERASED));
        }
        if payload.len() != PAGE_SIZE + 2 {
            return Some(one(ST_BAD_FRAME));
        }
        proof {
            assert(payload@.take(2) =~= seq![payload@[0], payload@[1]]);
        }
        let index: usize = read_le16(payload[0], payload[1]) as usize;
        if index >= APP_PAGES {
            return Some(one(ST_OUT_OF_RANGE));
        }
        let ghost at = index * PAGE_SIZE;
        let ghost before = start.dev.flash.subrange(at as int, at + PAGE_SIZE);
        if self.op() {
            self.write_bytes(index, payload, PAGE_SIZE / 2);
            self.dead = true;
            proof {
                assert(payload@.skip(2).take(PAGE_SIZE as int / 2) + before.skip(
                    PAGE_SIZE as int / 2,
                ) =~= half_page(before, payload@.skip(2)));
            }
            return None;
        }
        self.write_bytes(index, payload, PAGE_SIZE);
        proof {
            assert(payload@.skip(2).take(PAGE_SIZE as int) + before.skip(PAGE_SIZE as int)
                =~= payload@.skip(2));
        }
        Some(one(ST_OK))
    }

    /// The status of a verification.
    fn verify(&self, payload: &[u8]) -> (r: u8)
        ensures
            r == crate::device::verify_status(self@.dev, payload@),
    {
        if payload.len() != 8 {
            return ST_BAD_FRAME;
        }
        proof {
            assert(payload@.take(4) =~= seq![payload@[0], payload@[1], payload@[2], payload@[3]]);
            assert(payload@.skip(4) =~= seq![payload@[4], payload@[5], payload@[6], payload@[7]]);
        }
        let len: u32 = read_le32(payload[0], payload[1], payload[2], payload[3]);
        let crc: u32 = read_le32(payload[4], payload[5], payload[6], payload[7]);
        if len as usize > REGION - FOOTER_LEN {
            return ST_OUT_OF_RANGE;
        }
        if self.crc_of(len as usize) == crc {
            ST_OK
        } else {
            ST_BAD_CRC
        }
    }

    /// The payload of an `INFO` response.
    fn info(&self) -> (r: Vec<u8>)
        ensures
            r@ == crate::device::info_payload(self@.dev),
    {
        let valid: u8 = if self.app_valid() {
            1
        } else {
            0
        };
        let mut out: Vec<u8> = Vec::new();
        out.push(ST_OK);
        out.push(PROTO_VERSION);
        out.push(1);
        out.push(0x53);
        out.push(0x49);
        out.push(0x4D);
        out.push(0x30);
        out.push(PAGE_SIZE as u8);
        out.push(0);
        out.push(APP_PAGES as u8);
        out.push(0);
        out.push(valid);
        proof {
            assert(out@ =~= crate::device::info_payload(self@.dev));
        }
        out
    }

    /// Runs one command; `None` if power is cut in it.
    fn handle(&mut self, cmd: u8, payload: &[u8]) -> (r: Option<Vec<u8>>)
        ensures
            ({
                let (after, response) = sim_handled(old(self)@, cmd, payload@);
                &&& final(self)@ == after
                &&& same_response(r, response)
            }),
    {
        if cmd == CMD_INFO {
            Some(self.info())
        } else if cmd == CMD_ERASE_APP {
            if is_magic(payload) {
                self.erase()
            } else {
                Some(one(ST_BAD_MAGIC))
            }
        } else if cmd == CMD_WRITE_PAGE {
            self.write_page(payload)
        } else if cmd == CMD_VERIFY {
            Some(one(self.verify(payload)))
        } else if cmd == CMD_BOOT {
            if self.app_valid() {
                self.jumped = true;
                Some(one(ST_OK))
            } else {
                Some(one(ST_NO_APP))
            }
        } else if cmd == CMD_ECHO {
            if payload.len() > ECHO_MAX {
                return Some(one(ST_BAD_FRAME));
            }
            let mut out: Vec<u8> = one(ST_OK);
            let mut i: usize = 0;
            proof {
                assert(payload@.take(0) =~= Seq::<u8>::empty());
                assert(seq![ST_OK] + payload@.take(0) =~= seq![ST_OK]);
            }
            while i < payload.len()
                invariant
                    i <= payload@.len(),
                    out@ == seq![ST_OK] + payload@.take(i as int),
                decreases payload@.len() - i,
            {
                out.push(payload[i]);
                proof {
                    assert((seq![ST_OK] + payload@.take(i as int)).push(payload@[i as int])
                        =~= seq![ST_OK] + payload@.take(i + 1));
                }
                i = i + 1;
            }
            proof {
                assert(payload@.take(i as int) =~= payload@);
            }
            Some(out)
        } else {
            Some(one(ST_BAD_CMD))
        }
    }

    /// One request/response cycle, returning exactly the bytes that the
    /// device produced: none if it is stopped or has left.
    pub fn request(&mut self, frame_bytes: &[u8]) -> (r: Vec<u8>)
        ensures
            final(self)@ == sim_answered(old(self)@, frame_bytes@).0,
            r@ == sim_answered(old(self)@, frame_bytes@).1,
    {
        if self.dead || self.jumped {
            let none: Vec<u8> = Vec::new();
            proof {
                assert(none@ =~= Seq::<u8>::empty());
            }
            return none;
        }
        let lead: u8 = if frame_bytes.len() == 0 {
            0
        } else {
            frame_bytes[0]
        };
        proof {
            assert(0u8 | 0x80u8 == 0x80u8) by (bit_vector);
        }
        let reply: u8 = lead | RSP_FLAG;
        let ghost s = self@;
        match frame::decode(frame_bytes) {
            Err(_) => framed(reply, &one(ST_BAD_FRAME)),
            Ok(f) => {
                proof {
                    lemma_response_len(s, f.cmd, f.payload@);
                }
                match self.handle(f.cmd, f.payload) {
                    Some(payload) => framed(reply, &payload),
                    None => {
                        let none: Vec<u8> = Vec::new();
                        proof {
                            assert(none@ =~= Seq::<u8>::empty());
                        }
                        none
                    },
                }
            },
        }
    }

    /// Feeds bytes to the stream link: every completed frame is handled, and
    /// each reply leaves as a sync byte and a frame. Returns all bytes sent.
    /// A frame may be torn across calls.
    pub fn request_stream(&mut self, bytes: &[u8]) -> (r: Vec<u8>)
        ensures
            final(self)@ == sim_streamed(old(self)@, bytes@).0,
            r@ == sim_streamed(old(self)@, bytes@).1,
    {
        let mut out: Vec<u8> = Vec::new();
        let mut i: usize = 0;
        proof {
            assert(bytes@.take(0) =~= Seq::<u8>::empty());
            assert(out@ =~= Seq::<u8>::empty());
        }
        while i < bytes.len()
            invariant
                i <= bytes@.len(),
                self@ == sim_streamed(old(self)@, bytes@.take(i as int)).0,
                out@ == sim_streamed(old(self)@, bytes@.take(i as int)).1,
            decreases bytes@.len() - i,
        {
            proof {
                assert(bytes@.take(i + 1).drop_last() =~= bytes@.take(i as int));
                assert(bytes@.take(i + 1).last() == bytes@[i as int]);
            }
            self.stream_byte(bytes[i], &mut out);
            i = i + 1;
        }
        proof {
            assert(bytes@.take(i as int) =~= bytes@);
        }
        out
    }

    /// Takes one byte of the stream link and appends what is sent.
    fn stream_byte(&mut self, byte: u8, out: &mut Vec<u8>)
        ensures
            final(self)@ == sim_byte(old(self)@, byte).0,
            final(out)@ == old(out)@ + sim_byte(old(self)@, byte).1,
    {
        proof {
            assert(old(out)@ + Seq::<u8>::empty() =~= old(out)@);
        }
        if self.dead || self.jumped {
            return;
        }
        let scan: Scan = self.link.push(byte, &mut self.link_buf);
        if let Scan::Done { len } = scan {
            let mut frame_bytes: Vec<u8> = Vec::new();
            let mut i: usize = 0;
            proof {
                crate::stream::law_done_is_decodable(old(self)@.link, byte, old(self)@.link_buf);
            }
            while i < len
                invariant
                    i <= len <= LINK_BUF,
                    frame_bytes@ == self.link_buf@.take(i as int),
                decreases len - i,
            {
                frame_bytes.push(self.link_buf[i]);
                proof {
                    assert(self.link_buf@.take(i + 1) =~= self.link_buf@.take(i as int).push(
                        self.link_buf@[i as int],
                    ));
                }
                i = i + 1;
            }
            let response: Vec<u8> = self.request(frame_bytes.as_slice());
            if response.len() > 0 {
                out.push(SYNC);
                let ghost head = out@;
                let mut j: usize = 0;
                proof {
                    assert(response@.take(0) =~= Seq::<u8>::empty());
                    assert(head + Seq::<u8>::empty() =~= head);
                }
                while j < response.len()
                    invariant
                        j <= response@.len(),
                        out@ == head + response@.take(j as int),
                    decreases response@.len() - j,
                {
                    out.push(response[j]);
                    proof {
                        assert((head + response@.take(j as int)).push(response@[j as int])
                            =~= head + response@.take(j + 1));
                    }
                    j = j + 1;
                }
                proof {
                    assert(response@.take(j as int) =~= response@);
                    assert(head + response@ =~= old(out)@ + (seq![SYNC] + response@));
                }
            }
        }
    }
}

impl Sim {
    /// A transport over this device, like a fixed-length I2C read.
    pub fn transport(&mut self) -> (r: SimTransport<'_>)
        ensures
            r.sim@ == old(self)@,
            *final(self) == *final(r.sim),
            r.log() == Seq::<crate::transport::Attempt<Infallible>>::empty(),
    {
        SimTransport { sim: self, made: Ghost(Seq::empty()) }
    }

    /// A transport over the stream link of this device: requests go out as
    /// sync byte and frame, responses are scanned. `lag` busy bytes precede
    /// every response, as with the shift register of an SPI slave.
    pub fn stream_transport(&mut self, lag: usize) -> (r: SimStreamTransport<'_>)
        ensures
            r.sim@ == old(self)@,
            *final(self) == *final(r.sim),
            r.log() == Seq::<crate::transport::Attempt<StreamError>>::empty(),
    {
        SimStreamTransport { sim: self, lag, made: Ghost(Seq::empty()) }
    }
}

/// The loopback transport: the response goes to the front of the receive
/// buffer and the remainder is filled with `0xFF` idle bytes, so every
/// exchange goes through padded decoding. A stopped device reads as all
/// `0xFF`.
pub struct SimTransport<'a> {
    /// The device.
    pub sim: &'a mut Sim,
    /// The requests made over it.
    pub made: Ghost<Seq<crate::transport::Attempt<Infallible>>>,
}

impl<'a> Transport for SimTransport<'a> {
    type Err = Infallible;

    open spec fn log(&self) -> Seq<crate::transport::Attempt<Infallible>> {
        self.made@
    }

    fn request(&mut self, req: &[u8], rsp: &mut [u8]) -> (r: Result<usize, Infallible>)
        ensures
            final(self).sim@ == sim_answered(old(self).sim@, req@).0,
            final(rsp)@ == crate::device::fitted(
                sim_answered(old(self).sim@, req@).1,
                old(rsp)@.len(),
            ),
            r == Ok::<usize, Infallible>(old(rsp)@.len() as usize),
    {
        let raw: Vec<u8> = self.sim.request(req);
        let ghost want = crate::device::fitted(raw@, rsp@.len());
        let mut i: usize = 0;
        while i < rsp.len()
            invariant
                i <= rsp@.len(),
                rsp@.len() == old(rsp)@.len(),
                want == crate::device::fitted(raw@, rsp@.len()),
                forall|j: int| 0 <= j < i ==> rsp@[j] == want[j],
            decreases rsp@.len() - i,
        {
            rsp[i] = if i < raw.len() {
                raw[i]
            } else {
                0xFF
            };
            i = i + 1;
        }
        proof {
            assert(rsp@ =~= want);
        }
        let r: Result<usize, Infallible> = Ok(rsp.len());
        self.made = Ghost(
            self.made@.push(crate::transport::Attempt { req: req@, rsp: rsp@, res: r }),
        );
        r
    }
}

/// The stream transport found no response frame: a stopped device, or a scan
/// that never completed.
#[derive(Debug, Clone, Copy, PartialEq, Eq)]
pub struct StreamError;

impl StreamError {
    /// The error in words.
    pub fn message(&self) -> (r: String)
        ensures
            r@ == "no valid frame in the response stream"@,
    {
        String::from_str("no valid frame in the response stream")
    }
}

/// What scanning `bytes` for one frame comes to: the buffer, and the length of
/// the first frame found.
pub open spec fn first_frame(
    state: crate::stream::ScanState,
    bytes: Seq<u8>,
    buf: Seq<u8>,
) -> (Seq<u8>, Option<usize>)
    decreases bytes.len(),
{
    if bytes.len() == 0 {
        (buf, None)
    } else {
        let p = crate::stream::pushed(state, bytes[0], buf);
        match p.scan {
            Scan::Done { len } => (p.buf, Some(len)),
            _ => first_frame(p.state, bytes.skip(1), p.buf),
        }
    }
}

/// The loopback stream transport.
pub struct SimStreamTransport<'a> {
    /// The device.
    pub sim: &'a mut Sim,
    /// Busy bytes before every response.
    pub lag: usize,
    /// The requests made over it.
    pub made: Ghost<Seq<crate::transport::Attempt<StreamError>>>,
}

impl<'a> Transport for SimStreamTransport<'a> {
    type Err = StreamError;

    open spec fn log(&self) -> Seq<crate::transport::Attempt<StreamError>> {
        self.made@
    }

    fn request(&mut self, req: &[u8], rsp: &mut [u8]) -> (r: Result<usize, StreamError>)
        ensures
            final(self).sim@ == sim_streamed(old(self).sim@, seq![SYNC] + req@).0,
            ({
                let sent = sim_streamed(old(self).sim@, seq![SYNC] + req@).1;
                let (buf, found) = first_frame(
                    crate::stream::ScanState::Hunting,
                    sent,
                    old(rsp)@,
                );
                &&& final(rsp)@ == buf
                &&& r == match found {
                    Some(len) => Ok::<usize, StreamError>(len),
                    None => Err(StreamError),
                }
            }),
    {
        let mut tx: Vec<u8> = Vec::new();
        tx.push(SYNC);
        let mut i: usize = 0;
        proof {
            assert(seq![SYNC] + req@.take(0) =~= tx@);
        }
        while i < req.len()
            invariant
                i <= req@.len(),
                tx@ == seq![SYNC] + req@.take(i as int),
            decreases req@.len() - i,
        {
            tx.push(req[i]);
            proof {
                assert((seq![SYNC] + req@.take(i as int)).push(req@[i as int]) =~= seq![SYNC]
                    + req@.take(i + 1));
            }
            i = i + 1;
        }
        proof {
            assert(req@.take(i as int) =~= req@);
        }
        let raw: Vec<u8> = self.sim.request_stream(tx.as_slice());
        let r: Result<usize, StreamError> = scan_response(self.lag, &raw, rsp);
        self.made = Ghost(
            self.made@.push(crate::transport::Attempt { req: req@, rsp: rsp@, res: r }),
        );
        r
    }
}

/// Scans `lag` busy bytes and then `raw` for the first frame.
fn scan_response(lag: usize, raw: &Vec<u8>, rsp: &mut [u8]) -> (r: Result<usize, StreamError>)
    ensures
        ({
            let (buf, found) = first_frame(
                crate::stream::ScanState::Hunting,
                raw@,
                old(rsp)@,
            );
            &&& final(rsp)@ == buf
            &&& final(rsp)@.len() == old(rsp)@.len()
            &&& r == match found {
                Some(len) => Ok::<usize, StreamError>(len),
                None => Err(StreamError),
            }
        }),
{
    let mut scanner: RxScanner = RxScanner::new();
    let mut k: usize = 0;
    while k < lag
        invariant
            k <= lag,
            scanner@ == crate::stream::ScanState::Hunting,
            rsp@ == old(rsp)@,
        decreases lag - k,
    {
        let _ = scanner.push(0x00, rsp);
        k = k + 1;
    }
    let mut i: usize = 0;
    proof {
        assert(raw@.skip(0) =~= raw@);
    }
    while i < raw.len()
        invariant
            i <= raw@.len(),
            rsp@.len() == old(rsp)@.len(),
            first_frame(crate::stream::ScanState::Hunting, raw@, old(rsp)@) == first_frame(
                scanner@,
                raw@.skip(i as int),
                rsp@,
            ),
        decreases raw@.len() - i,
    {
        proof {
            assert(raw@.skip(i as int)[0] == raw@[i as int]);
            assert(raw@.skip(i as int).skip(1) =~= raw@.skip(i + 1));
        }
        let scan: Scan = scanner.push(raw[i], rsp);
        if let Scan::Done { len } = scan {
            return Ok(len);
        }
        i = i + 1;
    }
    Err(StreamError)
}

/// What a power cut leaves. In an erase the pages before it and half of its
/// own are erased and the others as they were; in the write of a page the
/// first half of it is written and the second as it was. Either way there is
/// no response, and everything else is untouched.
pub proof fn law_what_a_power_cut_leaves(s: SimSpec, payload: Seq<u8>, k: int)
    requires
        s.dev.page_size == 128,
        s.dev.app_pages == 32,
        s.dev.flash.len() == 4096,
        0 <= k < 4096,
    ensures
        1 <= s.cut <= 32 ==> ({
            let (after, response) = sim_handled(s, 0x02, seq![0x45u8, 0x52, 0x41, 0x53]);
            &&& response is None
            &&& after.dead && after.cut == 0
            &&& after.dev.flash.len() == 4096
            &&& after.dev.flash[k] == (if k < 128 * s.cut - 64 {
                0xFFu8
            } else {
                s.dev.flash[k]
            })
            &&& after.dev.erased == s.dev.erased && after.dev.jumped == s.dev.jumped
        }),
        s.cut == 1 && s.dev.erased && payload.len() == 130 && payload[0] + 256 * payload[1] < 32
            ==> ({
            let (after, response) = sim_handled(s, 0x03, payload);
            let start = 128 * (payload[0] + 256 * payload[1]);
            &&& response is None
            &&& after.dead && after.cut == 0
            &&& after.dev.flash.len() == 4096
            &&& after.dev.flash[k] == (if start <= k < start + 64 {
                payload[2 + k - start]
            } else {
                s.dev.flash[k]
            })
        }),
{
    assert(frame::ERASE_MAGIC@ =~= seq![0x45u8, 0x52, 0x41, 0x53]);
    crate::le::law_little_end_first(0, 0, payload.take(2));
    assert(payload.len() == 130 ==> payload.take(2)[0] == payload[0] && payload.take(2)[1]
        == payload[1]);
}

/// When a power cut strikes: at the flash operation that it was set for, each
/// erased or written page being one. Before that they are counted, and a cut
/// that was not set never strikes.
pub proof fn law_when_a_power_cut_strikes(s: SimSpec, payload: Seq<u8>)
    requires
        s.dev.page_size == 128,
        s.dev.app_pages == 32,
        s.cut >= 0,
        s.ops + 32 <= 0xFFFF_FFFF,
        !s.dead,
    ensures
        s.cut == 0 || s.cut > 32 ==> ({
            let after = sim_handled(s, 0x02, seq![0x45u8, 0x52, 0x41, 0x53]).0;
            !after.dead && after.ops == s.ops + 32 && (s.cut > 0 ==> after.cut == s.cut - 32) && (
            s.cut == 0 ==> after.cut == 0)
        }),
        s.cut != 1 && s.dev.erased && payload.len() == 130 && payload[0] + 256 * payload[1] < 32
            ==> ({
            let after = sim_handled(s, 0x03, payload).0;
            !after.dead && after.ops == s.ops + 1 && (s.cut > 0 ==> after.cut == s.cut - 1) && (
            s.cut == 0 ==> after.cut == 0)
        }),
{
    assert(frame::ERASE_MAGIC@ =~= seq![0x45u8, 0x52, 0x41, 0x53]);
    crate::le::law_little_end_first(0, 0, payload.take(2));
    assert(payload.len() == 130 ==> payload.take(2)[0] == payload[0] && payload.take(2)[1]
        == payload[1]);
}

/// Bytes on the stream link that complete no frame are heard, and nothing is
/// sent.
proof fn lemma_streamed_quietly(s: SimSpec, bytes: Seq<u8>)
    requires
        !s.dead,
        !s.dev.jumped,
        forall|i: int|
            0 <= i < bytes.len() ==> !((#[trigger] crate::stream::run(
                s.link,
                bytes,
                s.link_buf,
            ).scans[i]) is Done),
    ensures
        ({
            let r = crate::stream::run(s.link, bytes, s.link_buf);
            sim_streamed(s, bytes) == (
                SimSpec { link: r.state, link_buf: r.buf, ..s },
                Seq::<u8>::empty(),
            )
        }),
    decreases bytes.len(),
{
    let r = crate::stream::run(s.link, bytes, s.link_buf);
    if bytes.len() > 0 {
        let head = bytes.drop_last();
        let q = crate::stream::run(s.link, head, s.link_buf);
        lemma_scans_len(s.link, head, s.link_buf);
        lemma_scans_len(s.link, bytes, s.link_buf);
        assert forall|i: int| 0 <= i < head.len() implies !((#[trigger] q.scans[i]) is Done) by {
            assert(r.scans[i] == q.scans[i]);
        }
        lemma_streamed_quietly(s, head);
        assert(!(r.scans[bytes.len() - 1] is Done));
        assert(Seq::<u8>::empty() + Seq::<u8>::empty() =~= Seq::<u8>::empty());
    }
}

/// There is one outcome per byte.
proof fn lemma_scans_len(state: crate::stream::ScanState, bytes: Seq<u8>, buf: Seq<u8>)
    ensures
        crate::stream::run(state, bytes, buf).scans.len() == bytes.len(),
    decreases bytes.len(),
{
    if bytes.len() > 0 {
        lemma_scans_len(state, bytes.drop_last(), buf);
    }
}

/// A request on the stream link is answered as one that arrives whole: a sync
/// and a frame bring a sync and that frame's answer, or nothing where it has
/// none.
pub proof fn law_stream_link_answers_alike(s: SimSpec, f: Seq<u8>)
    requires
        !s.dead,
        !s.dev.jumped,
        s.link == crate::stream::ScanState::Hunting,
        s.link_buf.len() == 255,
        frame::is_frame(f),
    ensures
        ({
            let (after, out) = sim_streamed(s, seq![0x7Eu8] + f);
            let (direct, answer) = sim_answered(s, f);
            &&& after.dev == direct.dev
            &&& after.dead == direct.dead && after.cut == direct.cut && after.ops == direct.ops
            &&& answer.len() > 0 ==> out == seq![0x7Eu8] + answer
            &&& answer.len() == 0 ==> out.len() == 0
        }),
{
    let bytes = seq![0x7Eu8] + f;
    let head = bytes.drop_last();
    frame::law_what_a_frame_is(f);
    crate::stream::law_last_byte_decides(f, s.link_buf);
    let r = crate::stream::run(s.link, bytes, s.link_buf);
    let q = crate::stream::run(s.link, head, s.link_buf);
    lemma_scans_len(s.link, head, s.link_buf);
    assert forall|i: int| 0 <= i < head.len() implies !((#[trigger] q.scans[i]) is Done) by {
        assert(r.scans[i] == q.scans[i]);
        assert(r.scans[i] == Scan::Frame);
    }
    lemma_streamed_quietly(s, head);
    let p = crate::stream::pushed(q.state, bytes.last(), q.buf);
    assert(r.scans[f.len() as int] == p.scan);
    assert(p.scan == (Scan::Done { len: f.len() as usize }));
    assert(p.buf == r.buf);
    assert(p.buf.take(f.len() as int) =~= f);
    let (after, answer) = sim_answered(s, f);
    assert(Seq::<u8>::empty() + (seq![0x7Eu8] + answer) =~= seq![0x7Eu8] + answer);
}

/// Bytes that complete no frame are scanned through.
proof fn lemma_scanned_through(
    state: crate::stream::ScanState,
    a: Seq<u8>,
    b: Seq<u8>,
    buf: Seq<u8>,
)
    requires
        forall|i: int|
            0 <= i < a.len() ==> !((#[trigger] crate::stream::run(state, a, buf).scans[i]) is Done),
    ensures
        first_frame(state, a + b, buf) == first_frame(
            crate::stream::run(state, a, buf).state,
            b,
            crate::stream::run(state, a, buf).buf,
        ),
    decreases a.len(),
{
    if a.len() == 0 {
        assert(a + b =~= b);
    } else {
        let one = seq![a[0]];
        let tail = a.skip(1);
        assert(one + tail =~= a);
        assert(one.drop_last() =~= Seq::<u8>::empty());
        let p = crate::stream::pushed(state, a[0], buf);
        let q = crate::stream::run(state, one, buf);
        let r = crate::stream::run(state, a, buf);
        assert(crate::stream::run(state, one.drop_last(), buf).state == state);
        assert(q.state == p.state && q.buf == p.buf && q.scans =~= seq![p.scan]);
        crate::stream::law_runs_compose(state, one, tail, buf);
        let s = crate::stream::run(p.state, tail, p.buf);
        lemma_scans_len(p.state, tail, p.buf);
        assert(r.scans[0] == p.scan);
        assert forall|i: int| 0 <= i < tail.len() implies !((#[trigger] s.scans[i]) is Done) by {
            assert(r.scans[i + 1] == s.scans[i]);
        }
        lemma_scanned_through(p.state, tail, b, p.buf);
        assert((a + b).skip(1) =~= tail + b);
        assert((a + b)[0] == a[0]);
    }
}

/// The first frame behind bytes without a sync is found whole, and what
/// follows it does not matter.
pub proof fn law_first_frame_is_found(
    garbage: Seq<u8>,
    f: Seq<u8>,
    more: Seq<u8>,
    buf: Seq<u8>,
)
    requires
        !garbage.contains(0x7Eu8),
        frame::is_frame(f),
        f.len() <= buf.len(),
    ensures
        first_frame(
            crate::stream::ScanState::Hunting,
            garbage + (seq![0x7Eu8] + f) + more,
            buf,
        ) == (f + buf.skip(f.len() as int), Some(f.len() as usize)),
        first_frame(crate::stream::ScanState::Hunting, garbage, buf) == (buf, None::<usize>),
{
    let hunting = crate::stream::ScanState::Hunting;
    let sync = seq![0x7Eu8];
    let run1 = crate::stream::run(hunting, garbage, buf);
    crate::stream::law_garbage_is_hunted_through(garbage, buf);
    lemma_scanned_through(hunting, garbage, seq![], buf);
    assert(garbage + Seq::<u8>::empty() =~= garbage);
    let bytes = sync + f;
    let head = bytes.drop_last();
    let last = seq![bytes.last()];
    frame::law_what_a_frame_is(f);
    crate::stream::law_last_byte_decides(f, buf);
    let r = crate::stream::run(hunting, bytes, buf);
    let q = crate::stream::run(hunting, head, buf);
    lemma_scans_len(hunting, head, buf);
    assert forall|i: int| 0 <= i < head.len() implies !((#[trigger] q.scans[i]) is Done) by {
        assert(r.scans[i] == q.scans[i]);
        assert(r.scans[i] == Scan::Frame);
    }
    let p = crate::stream::pushed(q.state, bytes.last(), q.buf);
    assert(r.scans[f.len() as int] == p.scan);
    let rest = bytes + more;
    lemma_scanned_through(hunting, garbage, rest, buf);
    assert(garbage + bytes + more =~= garbage + rest);
    lemma_scanned_through(hunting, head, last + more, buf);
    assert(head + (last + more) =~= rest);
    assert((last + more)[0] == bytes.last());
}

} // verus!
