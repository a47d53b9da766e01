//! Stream framing, shared by every byte-stream transport (UART, SPI,
//! bit-banged pins). I2C is transactional and does not use it.
//!
//! On the wire a [`SYNC`] byte precedes every frame. After sync acquisition
//! parsing is driven by the LEN byte, so sync bytes inside a frame are
//! harmless; hunting happens between frames only. A frame that cannot fit
//! the buffer, declares an impossible LEN or fails validation is dropped and
//! the scanner hunts again: retries own loss recovery.
//!
//! The scanner does no I/O: transports push the bytes they receive and act
//! on the returned [`Scan`].

use vstd::prelude::*;

use crate::frame;
use crate::frame::{FRAME_OVERHEAD, PAYLOAD_MAX};

verus! {

/// Stream sync byte: precedes every frame on the wire.
pub const SYNC: u8 = 0x7E;

/// Outcome of feeding one received byte to [`RxScanner::push`].
#[derive(Debug, Clone, Copy, PartialEq, Eq)]
pub enum Scan {
    /// Byte discarded while hunting for [`SYNC`].
    Hunt,
    /// Byte consumed; a frame is being assembled, or was just started.
    Frame,
    /// A complete, valid frame now occupies `buf[..len]`.
    Done {
        /// Frame length in bytes.
        len: usize,
    },
    /// A declared frame was dropped and hunting resumed.
    Dropped,
}

/// What a scanner is doing between two bytes.
pub ghost enum ScanState {
    /// Discarding bytes until the next sync.
    Hunting,
    /// That many bytes of a frame are at the front of the buffer.
    Assembling(nat),
}

/// Everything that one pushed byte changes.
pub ghost struct Pushed {
    pub state: ScanState,
    pub buf: Seq<u8>,
    pub scan: Scan,
}

/// What pushing `byte` does in `state` with the buffer `buf`.
pub open spec fn pushed(state: ScanState, byte: u8, buf: Seq<u8>) -> Pushed {
    match state {
        ScanState::Hunting => if byte == SYNC && buf.len() >= FRAME_OVERHEAD {
            Pushed { state: ScanState::Assembling(0), buf, scan: Scan::Frame }
        } else {
            Pushed { state, buf, scan: Scan::Hunt }
        },
        ScanState::Assembling(n) => if n >= buf.len() {
            Pushed { state: ScanState::Hunting, buf, scan: Scan::Dropped }
        } else {
            assembled(n + 1, buf.update(n as int, byte))
        },
    }
}

/// What happens once `n` bytes of a frame are at the front of `buf`.
pub open spec fn assembled(n: nat, buf: Seq<u8>) -> Pushed {
    let extent = frame::frame_extent(buf);
    if n < 2 {
        Pushed { state: ScanState::Assembling(n), buf, scan: Scan::Frame }
    } else if buf[1] > PAYLOAD_MAX || extent > buf.len() {
        Pushed { state: ScanState::Hunting, buf, scan: Scan::Dropped }
    } else if n < extent {
        Pushed { state: ScanState::Assembling(n), buf, scan: Scan::Frame }
    } else if frame::is_frame(buf.take(extent)) {
        Pushed { state: ScanState::Hunting, buf, scan: Scan::Done { len: extent as usize } }
    } else {
        Pushed { state: ScanState::Hunting, buf, scan: Scan::Dropped }
    }
}

/// Incremental receive scanner: push bytes as they arrive, get told when a
/// valid frame is complete.
///
/// Frame bytes are written to the front of the caller's buffer, which must
/// be the same buffer for every push of one frame (a shorter one handed in
/// mid-frame resolves as [`Scan::Dropped`]) and at least [`FRAME_OVERHEAD`]
/// bytes long, or no sync is ever accepted.
#[derive(Debug, Clone)]
pub struct RxScanner {
    /// Bytes assembled since the last sync.
    n: usize,
    /// Sync seen; accumulating.
    in_frame: bool,
}

impl View for RxScanner {
    type V = ScanState;

    closed spec fn view(&self) -> ScanState {
        if self.in_frame {
            ScanState::Assembling(self.n as nat)
        } else {
            ScanState::Hunting
        }
    }
}

impl Default for RxScanner {
    fn default() -> (r: Self)
        ensures
            r@ == ScanState::Hunting,
    {
        RxScanner::new()
    }
}

impl RxScanner {
    /// A fresh scanner, hunting for sync.
    #[must_use]
    pub fn new() -> (r: Self)
        ensures
            r@ == ScanState::Hunting,
    {
        RxScanner { n: 0, in_frame: false }
    }

    /// Abandons any partial frame and hunts for the next sync.
    pub fn reset(&mut self)
        ensures
            final(self)@ == ScanState::Hunting,
    {
        self.n = 0;
        self.in_frame = false;
    }

    /// Is a frame being assembled? Transports use it to tell a torn response
    /// from pure silence.
    #[must_use]
    pub fn in_frame(&self) -> (r: bool)
        ensures
            r == (self@ is Assembling),
    {
        self.in_frame
    }

    /// Feeds one received byte; frame bytes land at the front of `buf`.
    ///
    /// Returns [`Scan::Done`] exactly when `buf[..len]` holds a complete
    /// frame accepted by [`frame::decode`]. Total: there is no state, byte or
    /// buffer that it does not take.
    pub fn push(&mut self, byte: u8, buf: &mut [u8]) -> (r: Scan)
        ensures
            (Pushed { state: final(self)@, buf: final(buf)@, scan: r }) == pushed(
                old(self)@,
                byte,
                old(buf)@,
            ),
    {
        if !self.in_frame {
            if byte == SYNC && buf.len() >= FRAME_OVERHEAD {
                self.in_frame = true;
                self.n = 0;
                return Scan::Frame;
            }
            return Scan::Hunt;
        }
        if self.n >= buf.len() {
            self.reset();
            return Scan::Dropped;
        }
        buf[self.n] = byte;
        self.n = self.n + 1;
        if self.n < 2 {
            return Scan::Frame;
        }
        let declared: usize = buf[1] as usize;
        let total: usize = declared + FRAME_OVERHEAD;
        if declared > PAYLOAD_MAX || total > buf.len() {
            self.reset();
            return Scan::Dropped;
        }
        if self.n < total {
            return Scan::Frame;
        }
        self.reset();
        let raw: &[u8] = &buf[0..total];
        proof {
            assert(raw@ =~= buf@.take(total as int));
        }
        if frame::decode(raw).is_ok() {
            Scan::Done { len: total }
        } else {
            Scan::Dropped
        }
    }
}

/// A scanner in this state reads and writes inside a buffer that holds
/// `buf`, and its partial frame is short of the end that its LEN byte gives.
pub open spec fn in_bounds(state: ScanState, buf: Seq<u8>) -> bool {
    match state {
        ScanState::Hunting => true,
        ScanState::Assembling(n) => {
            &&& FRAME_OVERHEAD <= buf.len()
            &&& n < buf.len()
            &&& n >= 2 ==> n < frame::frame_extent(buf) <= buf.len()
        },
    }
}

/// With one buffer for every push, each state that a scanner reaches is in
/// bounds of it: no frame is ever dropped for want of a place for its next
/// byte.
pub proof fn law_scanner_stays_in_bounds(state: ScanState, byte: u8, buf: Seq<u8>)
    requires
        in_bounds(state, buf),
    ensures
        in_bounds(pushed(state, byte, buf).state, pushed(state, byte, buf).buf),
        pushed(state, byte, buf).buf.len() == buf.len(),
        state matches ScanState::Assembling(n) ==> pushed(state, byte, buf).buf == buf.update(
            n as int,
            byte,
        ),
{
}

/// A completed frame is one that decodes, its extent is fixed by its LEN
/// byte, and the scanner is hunting again.
pub proof fn law_done_is_decodable(state: ScanState, byte: u8, buf: Seq<u8>)
    ensures
        pushed(state, byte, buf).scan matches Scan::Done { len } ==> {
            &&& len <= buf.len()
            &&& len == frame::frame_extent(pushed(state, byte, buf).buf)
            &&& frame::is_frame(pushed(state, byte, buf).buf.take(len as int))
            &&& pushed(state, byte, buf).state == ScanState::Hunting
        },
        pushed(state, byte, buf).scan is Dropped ==> pushed(state, byte, buf).state
            == ScanState::Hunting,
{
    if let ScanState::Assembling(n) = state {
        if n < buf.len() {
            let b = buf.update(n as int, byte);
            assert(frame::frame_extent(b) as usize == frame::frame_extent(b));
        }
    }
}

/// Everything that a run of pushed bytes changes; `scans` has one outcome
/// per byte.
pub ghost struct Run {
    pub state: ScanState,
    pub buf: Seq<u8>,
    pub scans: Seq<Scan>,
}

/// What pushing all of `bytes` does, one after the other.
pub open spec fn run(state: ScanState, bytes: Seq<u8>, buf: Seq<u8>) -> Run
    decreases bytes.len(),
{
    if bytes.len() == 0 {
        Run { state, buf, scans: seq![] }
    } else {
        let before = run(state, bytes.drop_last(), buf);
        let last = pushed(before.state, bytes.last(), before.buf);
        Run { state: last.state, buf: last.buf, scans: before.scans.push(last.scan) }
    }
}

/// Pushing `a` and then `b` is pushing `a ++ b`.
pub proof fn law_runs_compose(state: ScanState, a: Seq<u8>, b: Seq<u8>, buf: Seq<u8>)
    ensures
        run(state, a + b, buf) == (Run {
            state: run(run(state, a, buf).state, b, run(state, a, buf).buf).state,
            buf: run(run(state, a, buf).state, b, run(state, a, buf).buf).buf,
            scans: run(state, a, buf).scans + run(
                run(state, a, buf).state,
                b,
                run(state, a, buf).buf,
            ).scans,
        }),
    decreases b.len(),
{
    let first = run(state, a, buf);
    if b.len() == 0 {
        assert(a + b =~= a);
        assert(first.scans + Seq::<Scan>::empty() =~= first.scans);
    } else {
        law_runs_compose(state, a, b.drop_last(), buf);
        assert((a + b).drop_last() =~= a + b.drop_last());
        let rest = run(first.state, b.drop_last(), first.buf);
        let last = pushed(rest.state, b.last(), rest.buf);
        assert((first.scans + rest.scans).push(last.scan) =~= first.scans + rest.scans.push(
            last.scan,
        ));
    }
}

/// Bytes without a sync among them are discarded one by one.
pub proof fn law_garbage_is_hunted_through(garbage: Seq<u8>, buf: Seq<u8>)
    requires
        !garbage.contains(SYNC),
    ensures
        run(ScanState::Hunting, garbage, buf) == (Run {
            state: ScanState::Hunting,
            buf,
            scans: Seq::new(garbage.len(), |i: int| Scan::Hunt),
        }),
    decreases garbage.len(),
{
    let scans = Seq::new(garbage.len(), |i: int| Scan::Hunt);
    if garbage.len() == 0 {
        assert(scans =~= Seq::<Scan>::empty());
    } else {
        let head = garbage.drop_last();
        assert(!head.contains(SYNC)) by {
            if head.contains(SYNC) {
                let i = choose|i: int| 0 <= i < head.len() && head[i] == SYNC;
                assert(garbage[i] == SYNC);
            }
        }
        law_garbage_is_hunted_through(head, buf);
        assert(garbage.last() != SYNC);
        assert(Seq::new(head.len(), |i: int| Scan::Hunt).push(Scan::Hunt) =~= scans);
    }
}

/// The first bytes of what may be a frame, pushed after its sync.
proof fn lemma_partial_frame(f: Seq<u8>, k: nat, buf: Seq<u8>)
    requires
        3 <= f.len() <= 255,
        f[1] == f.len() - 3,
        f.len() <= buf.len(),
        k < f.len(),
    ensures
        run(ScanState::Assembling(0), f.take(k as int), buf) == (Run {
            state: ScanState::Assembling(k),
            buf: f.take(k as int) + buf.skip(k as int),
            scans: Seq::new(k, |i: int| Scan::Frame),
        }),
    decreases k,
{
    let head = f.take(k as int);
    if k == 0 {
        assert(f.take(0) + buf.skip(0) =~= buf);
        assert(Seq::new(0, |i: int| Scan::Frame) =~= Seq::<Scan>::empty());
    } else {
        let j = (k - 1) as nat;
        lemma_partial_frame(f, j, buf);
        assert(head.drop_last() =~= f.take(j as int));
        let before = f.take(j as int) + buf.skip(j as int);
        let after = before.update(j as int, f[j as int]);
        assert(after =~= head + buf.skip(k as int));
        if k >= 2 {
            assert(after[1] == f[1]);
        }
        assert(Seq::new(j, |i: int| Scan::Frame).push(Scan::Frame) =~= Seq::new(
            k,
            |i: int| Scan::Frame,
        ));
    }
}

/// A sync and a frame that fits the buffer are accepted byte for byte:
/// nothing before the last byte completes, the last one does, and the frame
/// is at the front of the buffer.
pub proof fn law_sync_then_frame_is_accepted(f: Seq<u8>, buf: Seq<u8>)
    requires
        frame::is_frame(f),
        f.len() <= buf.len(),
    ensures
        run(ScanState::Hunting, seq![SYNC] + f, buf) == (Run {
            state: ScanState::Hunting,
            buf: f + buf.skip(f.len() as int),
            scans: Seq::new(f.len(), |i: int| Scan::Frame).push(
                Scan::Done { len: f.len() as usize },
            ),
        }),
{
    let k = (f.len() - 1) as nat;
    let sync = seq![SYNC];
    assert(sync.drop_last() =~= Seq::<u8>::empty());
    assert(run(ScanState::Hunting, sync.drop_last(), buf).state == ScanState::Hunting);
    assert(run(ScanState::Hunting, sync, buf).scans =~= seq![Scan::Frame]);
    lemma_partial_frame(f, k, buf);
    law_runs_compose(ScanState::Hunting, sync, f, buf);
    assert(f.drop_last() =~= f.take(k as int));
    let before = f.take(k as int) + buf.skip(k as int);
    let after = before.update(k as int, f.last());
    assert(after =~= f + buf.skip(f.len() as int));
    assert(after.take(f.len() as int) =~= f);
    assert(seq![Scan::Frame] + Seq::new(k, |i: int| Scan::Frame).push(
        Scan::Done { len: f.len() as usize },
    ) =~= Seq::new(f.len(), |i: int| Scan::Frame).push(Scan::Done { len: f.len() as usize }));
}

/// A request as a byte stream carries it: the sync byte, then the frame. It
/// goes out in one piece before anything is read, and nothing follows it.
pub fn stream_request(req: &[u8]) -> (r: Vec<u8>)
    ensures
        r@ == seq![SYNC] + req@,
{
    let mut out: Vec<u8> = Vec::new();
    out.push(SYNC);
    out.extend_from_slice(req);
    proof {
        assert(out@ =~= seq![SYNC] + req@);
    }
    out
}

/// From any garbage without a sync, the next frame is found; this is how
/// idle bytes and the stale byte of a lagging slave are skipped.
pub proof fn law_garbage_then_frame_is_accepted(garbage: Seq<u8>, f: Seq<u8>, buf: Seq<u8>)
    requires
        !garbage.contains(SYNC),
        frame::is_frame(f),
        f.len() <= buf.len(),
    ensures
        run(ScanState::Hunting, garbage + (seq![SYNC] + f), buf) == (Run {
            state: ScanState::Hunting,
            buf: f + buf.skip(f.len() as int),
            scans: Seq::new(garbage.len(), |i: int| Scan::Hunt) + Seq::new(
                f.len(),
                |i: int| Scan::Frame,
            ).push(Scan::Done { len: f.len() as usize }),
        }),
{
    law_garbage_is_hunted_through(garbage, buf);
    law_sync_then_frame_is_accepted(f, buf);
    law_runs_compose(ScanState::Hunting, garbage, seq![SYNC] + f, buf);
}

/// What follows a sync is collected until as many bytes as its second one
/// announces have come, three more than that. Only the last of them decides:
/// without a remainder they are a frame, and with one they are dropped. Either
/// way they are at the front of the buffer, the rest of it is as it was, and
/// the hunt for the next sync begins.
pub proof fn law_last_byte_decides(g: Seq<u8>, buf: Seq<u8>)
    requires
        3 <= g.len() <= 255,
        g[1] == g.len() - 3,
        g.len() <= buf.len(),
    ensures
        ({
            let r = run(ScanState::Hunting, seq![0x7Eu8] + g, buf);
            let n = g.len();
            &&& r.state == ScanState::Hunting
            &&& r.buf == g + buf.skip(n as int)
            &&& r.scans.len() == n + 1
            &&& forall|i: int| 0 <= i < n ==> #[trigger] r.scans[i] == Scan::Frame
            &&& frame::crc8_of(g) == 0 ==> r.scans[n as int] == (Scan::Done { len: n as usize })
            &&& frame::crc8_of(g) != 0 ==> r.scans[n as int] == Scan::Dropped
        }),
{
    let k = (g.len() - 1) as nat;
    let sync = seq![SYNC];
    assert(sync.drop_last() =~= Seq::<u8>::empty());
    assert(run(ScanState::Hunting, sync.drop_last(), buf).state == ScanState::Hunting);
    assert(run(ScanState::Hunting, sync, buf).scans =~= seq![Scan::Frame]);
    lemma_partial_frame(g, k, buf);
    law_runs_compose(ScanState::Hunting, sync, g, buf);
    assert(g.drop_last() =~= g.take(k as int));
    let before = g.take(k as int) + buf.skip(k as int);
    let after = before.update(k as int, g.last());
    assert(after =~= g + buf.skip(g.len() as int));
    assert(after.take(g.len() as int) =~= g);
    frame::law_what_a_frame_is(g);
}

/// A sync is dropped again as soon as the length behind it says that no frame
/// follows that the buffer could take.
pub proof fn law_impossible_length_is_dropped(cmd: u8, len: u8, buf: Seq<u8>)
    requires
        buf.len() >= 3,
        len > 252 || len + 3 > buf.len(),
    ensures
        run(ScanState::Hunting, seq![0x7Eu8, cmd, len], buf) == (Run {
            state: ScanState::Hunting,
            buf: buf.update(0, cmd).update(1, len),
            scans: seq![Scan::Frame, Scan::Frame, Scan::Dropped],
        }),
{
    let all = seq![0x7Eu8, cmd, len];
    let two = seq![0x7Eu8, cmd];
    let one = seq![0x7Eu8];
    assert(all.drop_last() =~= two);
    assert(two.drop_last() =~= one);
    assert(one.drop_last() =~= Seq::<u8>::empty());
    assert(run(ScanState::Hunting, Seq::<u8>::empty(), buf).state == ScanState::Hunting);
    assert(run(ScanState::Hunting, one, buf).scans =~= seq![Scan::Frame]);
    assert(run(ScanState::Hunting, one, buf).state == ScanState::Assembling(0));
    let r = run(ScanState::Hunting, two, buf);
    assert(r.state == ScanState::Assembling(1) && r.buf == buf.update(0, cmd));
    assert(r.scans =~= seq![Scan::Frame, Scan::Frame]);
    let q = run(ScanState::Hunting, all, buf);
    assert(q.buf == buf.update(0, cmd).update(1, len));
    assert(q.scans =~= seq![Scan::Frame, Scan::Frame, Scan::Dropped]);
}

} // verus!
