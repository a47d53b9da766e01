//! Borrowed images: footer construction and page rendering.
//!
//! An [`Image`] borrows the raw application binary and knows the target's
//! page geometry. The last 16 bytes of the app region hold the footer that
//! the device's boot gate validates: magic `"OTAU"`, image length (u32 LE),
//! CRC-32 (u32 LE), then four `0xFF` bytes.
//!
//! [`Image::pages`] goes through the indices of the pages that must be
//! written: those with a byte other than `0xFF`, the footer page always
//! among them. Erased flash already reads `0xFF`, so the others are skipped.
//! [`Image::page_into`] renders any page into a caller-provided buffer.

use core::convert::Infallible;
use vstd::prelude::*;

use crate::error::Error;
use crate::frame::PAYLOAD_MAX;
use crate::le::to_le32;

verus! {

/// Size of the image footer at the end of the app region.
pub const FOOTER_LEN: usize = 16;

/// Footer magic: "OTAU".
pub const FOOTER_MAGIC: [u8; 4] = [0x4F, 0x54, 0x41, 0x55];

/// Largest usable page: a write request carries the page and two more bytes
/// in one frame.
pub const PAGE_SIZE_MAX: usize = PAYLOAD_MAX - 2;

/// One bit of the reflected CRC-32.
pub open spec fn crc32_shift(crc: u32) -> u32 {
    if crc & 1 != 0 {
        (crc >> 1) ^ 0xEDB8_8320
    } else {
        crc >> 1
    }
}

/// `n` bits of the reflected CRC-32.
pub open spec fn crc32_shifts(crc: u32, n: nat) -> u32
    decreases n,
{
    if n == 0 {
        crc
    } else {
        crc32_shift(crc32_shifts(crc, (n - 1) as nat))
    }
}

/// The CRC-32 register after `data`, before the final XOR.
pub open spec fn crc32_register(data: Seq<u8>) -> u32
    decreases data.len(),
{
    if data.len() == 0 {
        0xFFFF_FFFF
    } else {
        crc32_shifts(crc32_register(data.drop_last()) ^ (data.last() as u32), 8)
    }
}

/// CRC-32 (IEEE 802.3) of `data`.
pub open spec fn crc32_of(data: Seq<u8>) -> u32 {
    crc32_register(data) ^ 0xFFFF_FFFF
}

/// CRC-32 (IEEE 802.3, reflected, init `0xFFFF_FFFF`, final XOR) over
/// `data`.
#[must_use]
pub fn crc32(data: &[u8]) -> (r: u32)
    ensures
        r == crc32_of(data@),
{
    let mut crc: u32 = 0xFFFF_FFFF;
    let mut i: usize = 0;
    while i < data.len()
        invariant
            i <= data@.len(),
            crc == crc32_register(data@.take(i as int)),
        decreases data@.len() - i,
    {
        let ghost start = crc ^ (data@[i as int] as u32);
        proof {
            assert(data@.take(i + 1).drop_last() =~= data@.take(i as int));
        }
        crc = crc ^ (data[i] as u32);
        let mut bit: u8 = 0;
        while bit < 8
            invariant
                bit <= 8,
                crc == crc32_shifts(start, bit as nat),
            decreases 8 - bit,
        {
            crc = if crc & 1 != 0 {
                (crc >> 1) ^ 0xEDB8_8320
            } else {
                crc >> 1
            };
            bit = bit + 1;
        }
        i = i + 1;
    }
    proof {
        assert(data@.take(i as int) =~= data@);
    }
    crc ^ 0xFFFF_FFFF
}

/// An image and the geometry that it is bound to.
pub ghost struct ImageSpec {
    /// The application binary.
    pub data: Seq<u8>,
    /// Bytes in a page.
    pub page_size: int,
    /// Pages in the app region.
    pub app_pages: int,
}

/// Whether pages of this size, and this many of them, can host an image.
pub open spec fn usable_geometry(page_size: int, app_pages: int) -> bool {
    app_pages > 0 && FOOTER_LEN <= page_size <= PAGE_SIZE_MAX
}

impl ImageSpec {
    /// Bytes in the app region.
    pub open spec fn region(self) -> int {
        self.page_size * self.app_pages
    }

    /// Bytes that the footer leaves for the application.
    pub open spec fn capacity(self) -> int {
        self.region() - FOOTER_LEN
    }

    /// Usable geometry, and a binary that fits it.
    pub open spec fn well_formed(self) -> bool {
        &&& usable_geometry(self.page_size, self.app_pages)
        &&& self.page_size <= u16::MAX
        &&& self.app_pages <= u16::MAX
        &&& self.data.len() <= self.capacity()
    }

    /// The footer: magic, length, CRC-32 and four `0xFF` bytes.
    pub open spec fn footer(self) -> Seq<u8> {
        FOOTER_MAGIC@ + crate::le::le32(self.data.len() as u32) + crate::le::le32(
            crc32_of(self.data),
        ) + seq![0xFFu8, 0xFF, 0xFF, 0xFF]
    }

    /// What the whole app region holds after an update: the binary, `0xFF`
    /// padding, and the footer at the end.
    pub open spec fn contents(self) -> Seq<u8> {
        self.data + Seq::new(
            (self.capacity() - self.data.len()) as nat,
            |i: int| 0xFFu8,
        ) + self.footer()
    }

    /// The bytes of page `i`.
    pub open spec fn page(self, i: int) -> Seq<u8> {
        self.contents().subrange(i * self.page_size, i * self.page_size + self.page_size)
    }

    /// Whether page `i` differs from erased flash.
    pub open spec fn must_write(self, i: int) -> bool {
        !crate::frame::is_filler(self.page(i))
    }

    /// The pages from `from` on that must be written, ascending.
    pub open spec fn must_write_from(self, from: int) -> Seq<u16>
        decreases self.app_pages - from,
    {
        if from >= self.app_pages {
            seq![]
        } else if self.must_write(from) {
            seq![from as u16] + self.must_write_from(from + 1)
        } else {
            self.must_write_from(from + 1)
        }
    }

    /// The pages that must be written, ascending.
    pub open spec fn write_list(self) -> Seq<u16> {
        self.must_write_from(0)
    }
}

/// Pages lie one after the other inside the region.
pub(crate) proof fn lemma_page_bounds(m: ImageSpec, i: int)
    requires
        m.page_size > 0,
        0 <= i < m.app_pages,
    ensures
        0 <= i * m.page_size,
        i * m.page_size + m.page_size <= m.region(),
        i < m.app_pages - 1 ==> i * m.page_size + m.page_size <= m.region() - m.page_size,
        i == m.app_pages - 1 ==> i * m.page_size + m.page_size == m.region(),
{
    let ps = m.page_size;
    let ap = m.app_pages;
    assert(0 <= i * ps) by (nonlinear_arith)
        requires
            0 <= i,
            ps > 0,
    ;
    assert(i * ps + ps == (i + 1) * ps) by (nonlinear_arith);
    assert((i + 1) * ps <= ap * ps) by (nonlinear_arith)
        requires
            i + 1 <= ap,
            ps > 0,
    ;
    assert(ap * ps == ps * ap) by (nonlinear_arith);
    if i < ap - 1 {
        assert((i + 1) * ps <= (ap - 1) * ps) by (nonlinear_arith)
            requires
                i + 1 <= ap - 1,
                ps > 0,
        ;
        assert((ap - 1) * ps == ps * ap - ps) by (nonlinear_arith);
    }
}

/// The region is as long as the geometry says, and a page as long as a page.
pub(crate) proof fn lemma_contents_len(m: ImageSpec)
    requires
        m.well_formed(),
    ensures
        m.footer().len() == FOOTER_LEN,
        m.contents().len() == m.region(),
        forall|i: int| 0 <= i < m.app_pages ==> #[trigger] m.page(i).len() == m.page_size,
{
    assert(m.contents().len() == m.region());
    assert forall|i: int| 0 <= i < m.app_pages implies #[trigger] m.page(i).len()
        == m.page_size by {
        lemma_page_bounds(m, i);
    }
}

/// What one byte of a page is.
proof fn lemma_page_byte(m: ImageSpec, i: int, k: int)
    requires
        m.well_formed(),
        0 <= i < m.app_pages,
        0 <= k < m.page_size,
    ensures
        m.page(i).len() == m.page_size,
        m.page(i)[k] == (if i * m.page_size + k < m.data.len() {
            m.data[i * m.page_size + k]
        } else if i == m.app_pages - 1 && k >= m.page_size - FOOTER_LEN {
            m.footer()[k - (m.page_size - FOOTER_LEN)]
        } else {
            0xFF
        }),
{
    lemma_page_bounds(m, i);
    lemma_contents_len(m);
}

/// An application image borrowed from the caller, bound to a page geometry.
///
/// Construction validates that the image fits the region with room for the
/// footer; afterwards every accessor is total.
#[derive(Debug, Clone, Copy)]
pub struct Image<'a> {
    data: &'a [u8],
    page_size: u16,
    app_pages: u16,
    len: u32,
    crc: u32,
}

impl<'a> View for Image<'a> {
    type V = ImageSpec;

    closed spec fn view(&self) -> ImageSpec {
        ImageSpec {
            data: self.data@,
            page_size: self.page_size as int,
            app_pages: self.app_pages as int,
        }
    }
}

/// What [`Image::from_bin`] refuses, and why; `None` where it accepts.
pub open spec fn from_bin_error(len: nat, page_size: u16, app_pages: u16) -> Option<Error> {
    let region = page_size * app_pages;
    if !usable_geometry(page_size as int, app_pages as int) {
        Some(Error::BadGeometry { page_size, app_pages })
    } else if len > region - FOOTER_LEN {
        Some(
            Error::ImageTooLarge {
                len: len as usize,
                capacity: (region - FOOTER_LEN) as usize,
            },
        )
    } else {
        None
    }
}

impl<'a> Image<'a> {
    /// The fields agree with each other, and the image fits.
    #[verifier::type_invariant]
    spec fn inv(self) -> bool {
        &&& self@.well_formed()
        &&& self.len == self.data@.len()
        &&& self.crc == crc32_of(self.data@)
    }

    /// Wraps a raw binary for a device with `app_pages` pages of `page_size`
    /// bytes.
    ///
    /// # Errors
    ///
    /// [`Error::BadGeometry`] if `app_pages` is zero, if a page is smaller
    /// than the footer, or if `page_size` exceeds [`PAGE_SIZE_MAX`];
    /// [`Error::ImageTooLarge`] if `bytes` exceeds the region less the
    /// footer.
    pub fn from_bin(bytes: &'a [u8], page_size: u16, app_pages: u16) -> (r: Result<
        Self,
        Error,
    >)
        ensures
            match from_bin_error(bytes@.len(), page_size, app_pages) {
                Some(e) => r == Err::<Self, Error>(e),
                None => r is Ok && r->Ok_0@ == (ImageSpec {
                    data: bytes@,
                    page_size: page_size as int,
                    app_pages: app_pages as int,
                }) && r->Ok_0@.well_formed(),
            },
    {
        let ps: usize = page_size as usize;
        if app_pages == 0 || ps < FOOTER_LEN || ps > PAGE_SIZE_MAX {
            return Err(Error::BadGeometry { page_size, app_pages });
        }
        proof {
            assert(16 <= page_size * app_pages <= 250 * 65535) by (nonlinear_arith)
                requires
                    16 <= page_size <= 250,
                    1 <= app_pages <= 65535,
            ;
        }
        let region: usize = ps * app_pages as usize;
        let capacity: usize = region - FOOTER_LEN;
        if bytes.len() > capacity {
            return Err(Error::ImageTooLarge { len: bytes.len(), capacity });
        }
        Ok(
            Image {
                data: bytes,
                page_size,
                app_pages,
                len: bytes.len() as u32,
                crc: crc32(bytes),
            },
        )
    }

    /// Payload length in bytes: the length field of the footer.
    #[must_use]
    pub fn len(&self) -> (r: u32)
        ensures
            r == self@.data.len(),
    {
        proof {
            use_type_invariant(self);
        }
        self.len
    }

    /// `true` if the image carries no payload bytes.
    #[must_use]
    pub fn is_empty(&self) -> (r: bool)
        ensures
            r == (self@.data.len() == 0),
    {
        self.data.len() == 0
    }

    /// CRC-32 over the payload: the CRC field of the footer.
    #[must_use]
    pub fn crc32(&self) -> (r: u32)
        ensures
            r == crc32_of(self@.data),
    {
        proof {
            use_type_invariant(self);
        }
        self.crc
    }

    /// The raw payload that this image borrows.
    #[must_use]
    pub fn data(&self) -> (r: &'a [u8])
        ensures
            r@ == self@.data,
    {
        self.data
    }

    /// Page size in bytes.
    #[must_use]
    pub fn page_size(&self) -> (r: u16)
        ensures
            r == self@.page_size,
            self@.well_formed(),
    {
        proof {
            use_type_invariant(self);
        }
        self.page_size
    }

    /// Total number of pages in the app region.
    #[must_use]
    pub fn page_count(&self) -> (r: u16)
        ensures
            r == self@.app_pages,
            self@.well_formed(),
    {
        proof {
            use_type_invariant(self);
        }
        self.app_pages
    }

    /// Index of the page holding the footer: the last page of the region.
    #[must_use]
    pub fn footer_page_index(&self) -> (r: u16)
        ensures
            r == self@.app_pages - 1,
    {
        proof {
            use_type_invariant(self);
        }
        self.app_pages - 1
    }

    /// The footer: `"OTAU"`, length LE, CRC-32 LE, `FF FF FF FF`.
    #[must_use]
    pub fn footer(&self) -> (r: [u8; FOOTER_LEN])
        ensures
            r@ == self@.footer(),
    {
        proof {
            use_type_invariant(self);
        }
        let l: [u8; 4] = to_le32(self.len);
        let c: [u8; 4] = to_le32(self.crc);
        let m: [u8; 4] = FOOTER_MAGIC;
        let r: [u8; FOOTER_LEN] = [
            m[0],
            m[1],
            m[2],
            m[3],
            l[0],
            l[1],
            l[2],
            l[3],
            c[0],
            c[1],
            c[2],
            c[3],
            0xFF,
            0xFF,
            0xFF,
            0xFF,
        ];
        proof {
            assert(r@ =~= self@.footer());
        }
        r
    }

    /// Renders page `index` into `out`: image bytes where the page overlaps
    /// the payload, `0xFF` padding elsewhere, and the footer overlaid on the
    /// last page. Exactly one page of `out` is written and any excess is left
    /// untouched; on an error all of `out` is.
    ///
    /// # Errors
    ///
    /// [`Error::PageOutOfRange`] if there is no such page;
    /// [`Error::BufferTooSmall`] if `out` is shorter than a page.
    pub fn page_into(&self, index: u16, out: &mut [u8]) -> (r: Result<(), Error>)
        ensures
            r == page_into_result(self@, index, old(out)@.len()),
            final(out)@ == (if r is Ok {
                self@.page(index as int) + old(out)@.skip(self@.page_size)
            } else {
                old(out)@
            }),
    {
        proof {
            use_type_invariant(self);
        }
        if index >= self.app_pages {
            return Err(Error::PageOutOfRange { index });
        }
        let ps: usize = self.page_size as usize;
        if out.len() < ps {
            return Err(Error::BufferTooSmall { needed: ps });
        }
        let ghost m = self@;
        proof {
            lemma_page_bounds(m, index as int);
            lemma_contents_len(m);
            assert(m.region() <= 250 * 65535) by (nonlinear_arith)
                requires
                    m.region() == m.page_size * m.app_pages,
                    0 <= m.page_size <= 250,
                    0 <= m.app_pages <= 65535,
            ;
        }
        let start: usize = index as usize * ps;
        let mut k: usize = 0;
        while k < ps
            invariant
                k <= ps,
                m == self@,
                m.well_formed(),
                ps == m.page_size,
                start == index * ps,
                start + ps <= m.region() <= 250 * 65535,
                index < m.app_pages,
                ps <= out@.len() == old(out)@.len(),
                forall|j: int|
                    0 <= j < k ==> out@[j] == (if start + j < m.data.len() {
                        m.data[start + j]
                    } else {
                        0xFF
                    }),
                forall|j: int| k <= j < out@.len() ==> out@[j] == old(out)@[j],
            decreases ps - k,
        {
            out[k] = if start + k < self.data.len() {
                self.data[start + k]
            } else {
                0xFF
            };
            k = k + 1;
        }
        if index == self.footer_page_index() {
            let footer: [u8; FOOTER_LEN] = self.footer();
            let offset: usize = ps - FOOTER_LEN;
            let mut f: usize = 0;
            while f < FOOTER_LEN
                invariant
                    f <= FOOTER_LEN,
                    m.well_formed(),
                    index == m.app_pages - 1,
                    ps == m.page_size,
                    offset == ps - FOOTER_LEN,
                    start == index * ps,
                    start + ps == m.region(),
                    footer@ == m.footer(),
                    ps <= out@.len() == old(out)@.len(),
                    forall|j: int|
                        0 <= j < offset ==> out@[j] == (if start + j < m.data.len() {
                            m.data[start + j]
                        } else {
                            0xFF
                        }),
                    forall|j: int| offset <= j < offset + f ==> out@[j] == footer@[j - offset],
                    forall|j: int| ps <= j < out@.len() ==> out@[j] == old(out)@[j],
                decreases FOOTER_LEN - f,
            {
                out[offset + f] = footer[f];
                f = f + 1;
            }
        }
        proof {
            assert forall|j: int| 0 <= j < ps implies out@[j] == m.page(index as int)[j] by {
                lemma_page_byte(m, index as int, j);
            }
            assert(out@ =~= m.page(index as int) + old(out)@.skip(ps as int));
        }
        Ok(())
    }

    /// The indices of the pages that must be written: every page with a byte
    /// other than `0xFF`, the footer page among them.
    #[must_use]
    pub fn pages(&self) -> (r: Pages<'a>)
        ensures
            r.image() == self@,
            r.cursor() == 0,
            r.remaining() == self@.write_list(),
    {
        proof {
            use_type_invariant(self);
        }
        Pages { img: *self, cursor: 0 }
    }

    /// Is page `index` the footer page, or does it hold a payload byte other
    /// than `0xFF`?
    fn must_write(&self, index: u16) -> (r: bool)
        requires
            index < self@.app_pages,
        ensures
            r == self@.must_write(index as int),
    {
        proof {
            use_type_invariant(self);
        }
        let ghost m = self@;
        let ghost i = index as int;
        proof {
            lemma_page_bounds(m, i);
            lemma_contents_len(m);
            assert(m.region() <= 250 * 65535) by (nonlinear_arith)
                requires
                    m.region() == m.page_size * m.app_pages,
                    0 <= m.page_size <= 250,
                    0 <= m.app_pages <= 65535,
            ;
        }
        if index == self.footer_page_index() {
            proof {
                law_footer_page_is_always_written(m);
            }
            return true;
        }
        let ps: usize = self.page_size as usize;
        let start: usize = index as usize * ps;
        let end: usize = if start + ps < self.data.len() {
            start + ps
        } else {
            self.data.len()
        };
        let mut k: usize = start;
        while k < end
            invariant
                m == self@,
                m.well_formed(),
                i == index,
                0 <= i < m.app_pages,
                ps == m.page_size,
                start == i * ps,
                start <= k,
                end <= start + ps,
                end <= m.data.len(),
                k <= end || end < start,
                forall|j: int| start <= j < k ==> m.data[j] == 0xFF,
            decreases end - k,
        {
            if self.data[k] != 0xFF {
                proof {
                    lemma_page_byte(m, i, k - start);
                    assert(m.page(i)[k - start] != 0xFF);
                }
                return true;
            }
            k = k + 1;
        }
        proof {
            assert forall|j: int| 0 <= j < m.page(i).len() implies m.page(i)[j] == 0xFF by {
                lemma_page_byte(m, i, j);
            }
        }
        false
    }
}

/// What [`Image::page_into`] returns for a buffer of `room` bytes.
pub open spec fn page_into_result(m: ImageSpec, index: u16, room: nat) -> Result<(), Error> {
    if index >= m.app_pages {
        Err(Error::PageOutOfRange { index })
    } else if room < m.page_size {
        Err(Error::BufferTooSmall { needed: m.page_size as usize })
    } else {
        Ok(())
    }
}

/// The page indices that an update must write; see [`Image::pages`].
#[derive(Debug)]
pub struct Pages<'a> {
    img: Image<'a>,
    cursor: u32,
}

impl<'a> Clone for Pages<'a> {
    fn clone(&self) -> (r: Self)
        ensures
            r == *self,
    {
        proof {
            use_type_invariant(self);
        }
        Pages { img: self.img, cursor: self.cursor }
    }
}

impl<'a> Pages<'a> {
    /// The image whose pages these are.
    pub closed spec fn image(self) -> ImageSpec {
        self.img@
    }

    /// The first page not looked at yet.
    pub closed spec fn cursor(self) -> int {
        self.cursor as int
    }

    /// The indices still to come.
    pub open spec fn remaining(self) -> Seq<u16> {
        self.image().must_write_from(self.cursor())
    }

    #[verifier::type_invariant]
    spec fn inv(self) -> bool {
        self.img@.well_formed() && self.cursor <= self.img@.app_pages
    }

    /// The next index, in ascending order; `None` once there is none left,
    /// and from then on.
    pub fn next(&mut self) -> (r: Option<u16>)
        ensures
            final(self).image() == old(self).image(),
            match r {
                Some(i) => old(self).remaining().len() > 0 && i == old(self).remaining()[0]
                    && final(self).remaining() == old(self).remaining().drop_first(),
                None => old(self).remaining().len() == 0 && final(self).remaining().len() == 0,
            },
    {
        proof {
            use_type_invariant(&*self);
        }
        let img: Image<'a> = self.img;
        let count: u32 = img.page_count() as u32;
        let mut at: u32 = self.cursor;
        while at < count
            invariant
                count == img@.app_pages,
                at <= count,
                count <= u16::MAX,
                img@.must_write_from(at as int) == old(self).remaining(),
                self.img == img,
                img@ == old(self).image(),
                img@.well_formed(),
                self.cursor <= count,
            decreases count - at,
        {
            let index: u16 = at as u16;
            at = at + 1;
            if img.must_write(index) {
                self.cursor = at;
                proof {
                    assert((seq![index] + img@.must_write_from(at as int)).drop_first()
                        =~= img@.must_write_from(at as int));
                }
                return Some(index);
            }
        }
        self.cursor = at;
        None
    }

    /// At least one index is left while any page is, the footer page being
    /// the last; at most every page is.
    pub fn size_hint(&self) -> (r: (usize, Option<usize>))
        ensures
            r.0 == (if self.cursor() < self.image().app_pages {
                1int
            } else {
                0
            }),
            r.1 == Some((self.image().app_pages - self.cursor()) as usize),
            r.0 <= self.remaining().len() <= r.1->0,
    {
        proof {
            use_type_invariant(self);
            lemma_must_write_len(self.img@, self.cursor as int);
        }
        let left: u32 = self.img.page_count() as u32 - self.cursor;
        let lower: usize = if left > 0 {
            1
        } else {
            0
        };
        (lower, Some(left as usize))
    }

    /// How many indices are left.
    pub fn count(self) -> (r: usize)
        ensures
            r == self.remaining().len(),
            r <= self.image().app_pages,
    {
        proof {
            use_type_invariant(&self);
            lemma_must_write_len(self.img@, self.cursor as int);
        }
        let mut it: Pages<'a> = self;
        let mut n: usize = 0;
        let ghost total = self.remaining().len();
        loop
            invariant
                n + it.remaining().len() == total,
                total <= u16::MAX,
            ensures
                n == total,
            decreases it.remaining().len(),
        {
            let step: Option<u16> = it.next();
            if step.is_none() {
                break;
            }
            n = n + 1;
        }
        n
    }
}

/// Bounds on the number of pages to write.
pub(crate) proof fn lemma_must_write_len(m: ImageSpec, from: int)
    requires
        m.well_formed(),
        0 <= from <= m.app_pages,
    ensures
        m.must_write_from(from).len() <= m.app_pages - from,
        from < m.app_pages ==> m.must_write_from(from).len() >= 1,
    decreases m.app_pages - from,
{
    if from < m.app_pages {
        lemma_must_write_len(m, from + 1);
        if from == m.app_pages - 1 {
            law_footer_page_is_always_written(m);
        }
    }
}

/// The footer page always differs from erased flash, so it is always among
/// the pages to write.
pub proof fn law_footer_page_is_always_written(m: ImageSpec)
    requires
        m.well_formed(),
    ensures
        m.must_write(m.app_pages - 1),
{
    let last = m.app_pages - 1;
    let k = m.page_size - FOOTER_LEN;
    lemma_page_byte(m, last, k);
    lemma_page_bounds(m, last);
    assert(m.footer()[0] == FOOTER_MAGIC@[0]);
    assert(m.page(last)[k] == 0x4F);
}

/// The pages tile the region: byte `k` of the contents is byte `k % page_size`
/// of page `k / page_size`.
pub proof fn law_pages_tile_the_region(m: ImageSpec, k: int)
    requires
        m.well_formed(),
        0 <= k < m.region(),
    ensures
        0 <= k / m.page_size < m.app_pages,
        m.page(k / m.page_size)[k % m.page_size] == m.contents()[k],
{
    lemma_page_of(m, k);
    lemma_page_bounds(m, k / m.page_size);
    lemma_contents_len(m);
}

/// Which page a byte is in.
proof fn lemma_page_of(m: ImageSpec, k: int)
    requires
        m.page_size > 0,
        0 <= k < m.region(),
    ensures
        0 <= k / m.page_size < m.app_pages,
        0 <= k % m.page_size < m.page_size,
        k == (k / m.page_size) * m.page_size + k % m.page_size,
{
    let ps = m.page_size;
    let ap = m.app_pages;
    vstd::arithmetic::div_mod::lemma_fundamental_div_mod(k, ps);
    let q = k / ps;
    assert(ps * q == q * ps) by (nonlinear_arith);
    assert(q >= 0) by (nonlinear_arith)
        requires
            k >= 0,
            ps > 0,
            q == k / ps,
    ;
    assert(q < ap) by (nonlinear_arith)
        requires
            ps * q <= k < ps * ap,
            ps > 0,
    ;
}

/// The pages to write are those that differ from erased flash and no others,
/// each once and in ascending order.
pub proof fn law_write_list_is_exact(m: ImageSpec, from: int)
    requires
        m.well_formed(),
        0 <= from <= m.app_pages,
    ensures
        forall|i: u16| #[trigger]
            m.must_write_from(from).contains(i) <==> from <= i < m.app_pages && m.must_write(
                i as int,
            ),
        forall|a: int, b: int|
            0 <= a < b < m.must_write_from(from).len() ==> m.must_write_from(from)[a]
                < m.must_write_from(from)[b],
    decreases m.app_pages - from,
{
    let all = m.must_write_from(from);
    if from < m.app_pages {
        law_write_list_is_exact(m, from + 1);
        let rest = m.must_write_from(from + 1);
        if m.must_write(from) {
            assert(all[0] == from as u16);
            assert forall|i: u16| #[trigger] all.contains(i) <==> from <= i < m.app_pages
                && m.must_write(i as int) by {
                if all.contains(i) {
                    let a = choose|a: int| 0 <= a < all.len() && all[a] == i;
                    if a > 0 {
                        assert(rest[a - 1] == i);
                        assert(rest.contains(i));
                    }
                }
                if from <= i < m.app_pages && m.must_write(i as int) {
                    if i > from {
                        assert(rest.contains(i));
                        let a = choose|a: int| 0 <= a < rest.len() && rest[a] == i;
                        assert(all[a + 1] == i);
                    }
                }
            }
            assert forall|a: int, b: int| 0 <= a < b < all.len() implies all[a] < all[b] by {
                assert(all[b] == rest[b - 1]);
                assert(rest.contains(rest[b - 1]));
                if a > 0 {
                    assert(all[a] == rest[a - 1]);
                }
            }
        } else {
            assert forall|i: u16| #[trigger] all.contains(i) <==> from <= i < m.app_pages
                && m.must_write(i as int) by {
                assert(rest.contains(i) <==> from + 1 <= i < m.app_pages && m.must_write(i as int));
            }
        }
    }
}

/// Flash after one page of it has been programmed.
pub open spec fn with_page(flash: Seq<u8>, page_size: int, i: int, page: Seq<u8>) -> Seq<u8> {
    flash.take(i * page_size) + page + flash.skip(i * page_size + page_size)
}

/// Flash after the listed pages of an image have been programmed in turn.
pub open spec fn programmed(m: ImageSpec, flash: Seq<u8>, pages: Seq<u16>) -> Seq<u8>
    decreases pages.len(),
{
    if pages.len() == 0 {
        flash
    } else {
        let i = pages.last() as int;
        with_page(programmed(m, flash, pages.drop_last()), m.page_size, i, m.page(i))
    }
}

/// What programming leaves in one byte of flash.
proof fn lemma_programmed_byte(m: ImageSpec, flash: Seq<u8>, pages: Seq<u16>, k: int)
    requires
        m.well_formed(),
        flash.len() == m.region(),
        forall|a: int| 0 <= a < pages.len() ==> (#[trigger] pages[a]) < m.app_pages,
        0 <= k < m.region(),
    ensures
        programmed(m, flash, pages).len() == m.region(),
        programmed(m, flash, pages)[k] == (if pages.contains((k / m.page_size) as u16) {
            m.contents()[k]
        } else {
            flash[k]
        }),
    decreases pages.len(),
{
    if pages.len() > 0 {
        let head = pages.drop_last();
        let i = pages.last() as int;
        let ps = m.page_size;
        let q = k / ps;
        lemma_programmed_byte(m, flash, head, k);
        lemma_page_bounds(m, i);
        lemma_contents_len(m);
        lemma_page_of(m, k);
        assert(pages.last() == pages[pages.len() - 1]);
        let before = programmed(m, flash, head);
        let after = programmed(m, flash, pages);
        assert(after == with_page(before, ps, i, m.page(i)));
        assert(after.len() == m.region());
        if q == i {
            assert(pages.contains(q as u16));
            assert(i * ps <= k < i * ps + ps);
            assert(after[k] == m.page(i)[k - i * ps]);
        } else {
            if q < i {
                assert(q * ps + ps <= i * ps) by (nonlinear_arith)
                    requires
                        q + 1 <= i,
                        ps > 0,
                ;
                assert(k < i * ps);
            } else {
                assert(i * ps + ps <= q * ps) by (nonlinear_arith)
                    requires
                        i + 1 <= q,
                        ps > 0,
                ;
                assert(k >= i * ps + ps);
            }
            assert(after[k] == before[k]);
            assert(pages.contains(q as u16) <==> head.contains(q as u16)) by {
                if pages.contains(q as u16) {
                    let a = choose|a: int| 0 <= a < pages.len() && pages[a] == q as u16;
                    assert(a != pages.len() - 1);
                    assert(head[a] == q as u16);
                }
                if head.contains(q as u16) {
                    let a = choose|a: int| 0 <= a < head.len() && head[a] == q as u16;
                    assert(pages[a] == q as u16);
                }
            }
        }
    }
}

/// Programming leaves the bytes of the last page alone while that page is not
/// listed.
pub(crate) proof fn lemma_unlisted_byte(m: ImageSpec, flash: Seq<u8>, pages: Seq<u16>, k: int)
    requires
        m.well_formed(),
        flash.len() == m.region(),
        forall|a: int| 0 <= a < pages.len() ==> (#[trigger] pages[a]) < m.app_pages - 1,
        m.region() - m.page_size <= k < m.region(),
    ensures
        programmed(m, flash, pages).len() == m.region(),
        programmed(m, flash, pages)[k] == flash[k],
{
    let last = m.app_pages - 1;
    lemma_page_bounds(m, last);
    lemma_programmed_byte(m, flash, pages, k);
    lemma_page_of(m, k);
    let q = k / m.page_size;
    if q < last {
        lemma_page_bounds(m, q);
    }
    if pages.contains(q as u16) {
        let a = choose|a: int| 0 <= a < pages.len() && pages[a] == q as u16;
        assert(pages[a] < m.app_pages - 1);
    }
}

/// Skipping pages loses nothing: erased flash with the listed pages
/// programmed holds exactly the image, its padding and its footer.
pub proof fn law_writing_the_listed_pages_gives_the_image(m: ImageSpec, flash: Seq<u8>)
    requires
        m.well_formed(),
        flash.len() == m.region(),
        crate::frame::is_filler(flash),
    ensures
        programmed(m, flash, m.write_list()) == m.contents(),
{
    let list = m.write_list();
    law_write_list_is_exact(m, 0);
    lemma_contents_len(m);
    assert forall|a: int| 0 <= a < list.len() implies (#[trigger] list[a]) < m.app_pages by {
        assert(list.contains(list[a]));
    }
    let done = programmed(m, flash, list);
    assert(m.region() > 0) by (nonlinear_arith)
        requires
            m.region() == m.page_size * m.app_pages,
            m.page_size > 0,
            m.app_pages > 0,
    ;
    lemma_programmed_byte(m, flash, list, 0);
    assert forall|k: int| 0 <= k < m.region() implies done[k] == m.contents()[k] by {
        lemma_programmed_byte(m, flash, list, k);
        lemma_page_of(m, k);
        let q = k / m.page_size;
        if !list.contains(q as u16) {
            assert(!m.must_write(q));
            law_pages_tile_the_region(m, k);
            assert(m.page(q).len() == m.page_size);
            assert(m.page(q)[k % m.page_size] == 0xFF);
        }
    }
    assert(done =~= m.contents());
}

/// The check that a device makes before it boots: footer magic present,
/// length within the region less the footer, and a matching CRC-32 over that
/// many bytes.
pub open spec fn boot_gate(flash: Seq<u8>) -> bool {
    let footer = flash.skip(flash.len() - FOOTER_LEN);
    let len = crate::le::from_le32(footer.subrange(4, 8));
    &&& flash.len() >= FOOTER_LEN
    &&& footer.take(4) == FOOTER_MAGIC@
    &&& len <= flash.len() - FOOTER_LEN
    &&& crc32_of(flash.take(len as int)) == crate::le::from_le32(footer.subrange(8, 12))
}

/// A region that holds a whole image passes the boot gate.
pub proof fn law_image_passes_the_boot_gate(m: ImageSpec)
    requires
        m.well_formed(),
    ensures
        boot_gate(m.contents()),
{
    let flash = m.contents();
    lemma_contents_len(m);
    assert(m.region() <= 250 * 65535) by (nonlinear_arith)
        requires
            m.region() == m.page_size * m.app_pages,
            0 <= m.page_size <= 250,
            0 <= m.app_pages <= 65535,
    ;
    let footer = flash.skip(flash.len() - FOOTER_LEN);
    assert(footer =~= m.footer());
    let n = m.data.len() as u32;
    let c = crc32_of(m.data);
    assert(footer.take(4) =~= FOOTER_MAGIC@);
    assert(footer.subrange(4, 8) =~= crate::le::le32(n));
    assert(footer.subrange(8, 12) =~= crate::le::le32(c));
    crate::le::law_le_round_trip(0, n);
    crate::le::law_le_round_trip(0, c);
    assert(flash.take(n as int) =~= m.data);
}

/// A CRC-32 register moved on by one bit: halved, and where a one fell out the
/// polynomial `0xEDB88320` against what is left.
pub open spec fn moved_by_bit(x: u32) -> u32 {
    if x % 2 == 1 {
        (x / 2) ^ 0xEDB8_8320
    } else {
        x / 2
    }
}

/// A CRC-32 register moved on by the eight bits of a byte.
pub open spec fn moved_by_byte(x: u32) -> u32 {
    let a = moved_by_bit(x);
    let b = moved_by_bit(a);
    let c = moved_by_bit(b);
    let d = moved_by_bit(c);
    let e = moved_by_bit(d);
    let f = moved_by_bit(e);
    let g = moved_by_bit(f);
    moved_by_bit(g)
}

/// Shifting out a bit is halving.
proof fn lemma_moved_by_bit(x: u32)
    ensures
        crc32_shift(x) == moved_by_bit(x),
{
    assert(x >> 1 == x / 2 && (x & 1 != 0 ==> x % 2 == 1) && (x & 1 == 0 ==> x % 2 == 0)) by (bit_vector);
}

/// Eight bits are a byte.
proof fn lemma_moved_by_byte(x: u32)
    ensures
        crc32_shifts(x, 8) == moved_by_byte(x),
{
    reveal_with_fuel(crc32_shifts, 9);
    lemma_moved_by_bit(x);
    let a = moved_by_bit(x);
    lemma_moved_by_bit(a);
    let b = moved_by_bit(a);
    lemma_moved_by_bit(b);
    let c = moved_by_bit(b);
    lemma_moved_by_bit(c);
    let d = moved_by_bit(c);
    lemma_moved_by_bit(d);
    let e = moved_by_bit(d);
    lemma_moved_by_bit(e);
    let f = moved_by_bit(e);
    lemma_moved_by_bit(f);
    lemma_moved_by_bit(moved_by_bit(f));
}

/// How the CRC-32 of a message follows from that of the message without its
/// last byte, whatever their length; that of no bytes is zero.
pub proof fn law_crc32_of_one_more_byte(data: Seq<u8>, b: u8)
    ensures
        crc32_of(seq![]) == 0,
        crc32_of(data.push(b)) == moved_by_byte((crc32_of(data) ^ 0xFFFF_FFFF) ^ (b as u32))
            ^ 0xFFFF_FFFF,
{
    assert(0xFFFF_FFFFu32 ^ 0xFFFF_FFFFu32 == 0u32) by (bit_vector);
    assert(data.push(b).drop_last() =~= data);
    let r: u32 = crc32_register(data);
    assert((r ^ 0xFFFF_FFFFu32) ^ 0xFFFF_FFFFu32 == r) by (bit_vector);
    lemma_moved_by_byte(r ^ (b as u32));
}

/// A message followed by its own CRC-32, low byte first, always has the same
/// CRC-32.
pub proof fn law_crc32_residue(data: Seq<u8>)
    ensures
        ({
            let c = crc32_of(data);
            crc32_of(
                data.push((c % 256) as u8).push((c / 256 % 256) as u8).push(
                    (c / 65536 % 256) as u8,
                ).push((c / 16777216) as u8),
            ) == 0x2144_DF1C
        }),
{
    let c: u32 = crc32_of(data);
    let b0: u8 = (c % 256) as u8;
    let b1: u8 = (c / 256 % 256) as u8;
    let b2: u8 = (c / 65536 % 256) as u8;
    let b3: u8 = (c / 16777216) as u8;
    let d1 = data.push(b0);
    let d2 = d1.push(b1);
    let d3 = d2.push(b2);
    lemma_crc32_constants();
    let r: u32 = crc32_register(data);
    let w0: u32 = c % 256;
    let w1: u32 = c / 256 % 256;
    let w2: u32 = c / 65536 % 256;
    let w3: u32 = c / 16777216;
    let q1: u32 = r >> 8u32;
    let q2: u32 = q1 >> 8u32;
    let q3: u32 = q2 >> 8u32;
    assert(b0 == ((r ^ 0xFFFF_FFFFu32) & 0xFF) as u8 && b1 == ((q1 ^ 0xFFFF_FFFFu32) & 0xFF) as u8
        && b2 == ((q2 ^ 0xFFFF_FFFFu32) & 0xFF) as u8 && b3 == ((q3 ^ 0xFFFF_FFFFu32) & 0xFF) as u8
        && q3 >> 8u32 == 0 && 0xDEBB20E3u32 ^ 0u32 == 0xDEBB20E3u32 && 0xDEBB20E3u32 ^ 0xFFFF_FFFFu32
        == 0x2144_DF1C && 0u32 ^ r == r && 0u32 ^ 0x2D02EF8Du32 == 0x2D02EF8Du32) by (bit_vector)
        requires
            c == r ^ 0xFFFF_FFFFu32,
            w0 == c % 256u32,
            w1 == (c / 256u32) % 256u32,
            w2 == (c / 65536u32) % 256u32,
            w3 == c / 16777216u32,
            b0 as u32 == w0,
            b1 as u32 == w1,
            b2 as u32 == w2,
            b3 as u32 == w3,
            q1 == r >> 8u32,
            q2 == q1 >> 8u32,
            q3 == q2 >> 8u32,
    ;
    lemma_crc32_byte_fed_back(r, 0, b0);
    lemma_crc32_byte_fed_back(q1, 0x2D02EF8Du32, b1);
    lemma_crc32_byte_fed_back(q2, 0xBE2612FFu32, b2);
    lemma_crc32_byte_fed_back(q3, 0x00BE2612u32, b3);
    let d4 = d3.push(b3);
    assert(d1.drop_last() =~= data);
    assert(d2.drop_last() =~= d1);
    assert(d3.drop_last() =~= d2);
    assert(d4.drop_last() =~= d3);
    assert(crc32_register(d1) == 0x2D02EF8Du32 ^ q1);
    assert(crc32_register(d2) == 0xBE2612FFu32 ^ q2);
    assert(crc32_register(d3) == 0x00BE2612u32 ^ q3);
    assert(crc32_register(d4) == 0xDEBB20E3u32);
}

/// Bits of CRC-32 add up.
proof fn lemma_crc32_shifts_add(a: u32, b: u32, n: nat)
    ensures
        crc32_shifts(a ^ b, n) == crc32_shifts(a, n) ^ crc32_shifts(b, n),
    decreases n,
{
    if n > 0 {
        let k = (n - 1) as nat;
        lemma_crc32_shifts_add(a, b, k);
        let x: u32 = crc32_shifts(a, k);
        let y: u32 = crc32_shifts(b, k);
        let z: u32 = x ^ y;
        let sx: u32 = crc32_shift(x);
        let sy: u32 = crc32_shift(y);
        let sz: u32 = crc32_shift(z);
        assert(sz == sx ^ sy) by (bit_vector)
            requires
                z == x ^ y,
                x & 1 != 0 ==> sx == (x >> 1) ^ 0xEDB8_8320u32,
                x & 1 == 0 ==> sx == x >> 1,
                y & 1 != 0 ==> sy == (y >> 1) ^ 0xEDB8_8320u32,
                y & 1 == 0 ==> sy == y >> 1,
                z & 1 != 0 ==> sz == (z >> 1) ^ 0xEDB8_8320u32,
                z & 1 == 0 ==> sz == z >> 1,
        ;
    }
}

/// Zeros that are shifted out change nothing.
proof fn lemma_crc32_shifts_zeros(y: u32, n: nat)
    requires
        n <= 8,
        y <= 0xFF_FFFF,
    ensures
        crc32_shifts(y << 8u32, n) == y << ((8 - n) as u32),
    decreases n,
{
    if n > 0 {
        lemma_crc32_shifts_zeros(y, (n - 1) as nat);
        let s: u32 = (8 - n) as u32;
        let s1: u32 = (9 - n) as u32;
        let t: u32 = y << s1;
        assert(t & 1 == 0 && t >> 1 == y << s) by (bit_vector)
            requires
                t == y << s1,
                (s == 0 && s1 == 1) || (s == 1 && s1 == 2) || (s == 2 && s1 == 3) || (s == 3 && s1
                    == 4) || (s == 4 && s1 == 5) || (s == 5 && s1 == 6) || (s == 6 && s1 == 7) || (s
                    == 7 && s1 == 8),
                y <= 0xFF_FFFF,
        ;
    }
}

/// A register with one byte more, where that byte is the complement of its
/// lowest, and `k` was against it.
proof fn lemma_crc32_byte_fed_back(r: u32, k: u32, b: u8)
    requires
        b == ((r ^ 0xFFFF_FFFF) & 0xFF) as u8,
    ensures
        crc32_shifts(k ^ r ^ (b as u32), 8) == crc32_shifts(k, 8) ^ crc32_shifts(0xFF, 8) ^ (r
            >> 8u32),
{
    let y: u32 = r >> 8u32;
    assert((k ^ r ^ (b as u32)) == (k ^ 0xFFu32) ^ (y << 8u32) && y <= 0xFF_FFFF && y << 0u32
        == y) by (bit_vector)
        requires
            b == ((r ^ 0xFFFF_FFFFu32) & 0xFF) as u8,
            y == r >> 8u32,
    ;
    lemma_crc32_shifts_add(k ^ 0xFF, y << 8u32, 8);
    lemma_crc32_shifts_add(k, 0xFF, 8);
    lemma_crc32_shifts_zeros(y, 8);
}

/// The register after the bytes `0xFF` of a register fed back.
proof fn lemma_crc32_constants()
    ensures
        crc32_shifts(0, 8) == 0,
        crc32_shifts(0xFF, 8) == 0x2D02EF8Du32,
        crc32_shifts(0x2D02EF8Du32, 8) ^ 0x2D02EF8Du32 == 0xBE2612FFu32,
        crc32_shifts(0xBE2612FFu32, 8) ^ 0x2D02EF8Du32 == 0x00BE2612u32,
        crc32_shifts(0x00BE2612u32, 8) ^ 0x2D02EF8Du32 == 0xDEBB20E3u32,
{
    reveal_with_fuel(crc32_shifts, 9);
    assert(0u32 & 1 == 0 && 0u32 >> 1 == 0u32) by (bit_vector);
    assert((0x000000FFu32 & 1 != 0 && (0x000000FFu32 >> 1) ^ 0xEDB8_8320 == 0xEDB8835F)
        && (0xEDB8835Fu32 & 1 != 0 && (0xEDB8835Fu32 >> 1) ^ 0xEDB8_8320 == 0x9B64C28F)
        && (0x9B64C28Fu32 & 1 != 0 && (0x9B64C28Fu32 >> 1) ^ 0xEDB8_8320 == 0xA00AE267)
        && (0xA00AE267u32 & 1 != 0 && (0xA00AE267u32 >> 1) ^ 0xEDB8_8320 == 0xBDBDF213)
        && (0xBDBDF213u32 & 1 != 0 && (0xBDBDF213u32 >> 1) ^ 0xEDB8_8320 == 0xB3667A29)
        && (0xB3667A29u32 & 1 != 0 && (0xB3667A29u32 >> 1) ^ 0xEDB8_8320 == 0xB40BBE34)
        && (0xB40BBE34u32 & 1 == 0 && 0xB40BBE34u32 >> 1 == 0x5A05DF1A)
        && (0x5A05DF1Au32 & 1 == 0 && 0x5A05DF1Au32 >> 1 == 0x2D02EF8D)
        && (0x2D02EF8Du32 & 1 != 0 && (0x2D02EF8Du32 >> 1) ^ 0xEDB8_8320 == 0xFB39F4E6)
        && (0xFB39F4E6u32 & 1 == 0 && 0xFB39F4E6u32 >> 1 == 0x7D9CFA73)
        && (0x7D9CFA73u32 & 1 != 0 && (0x7D9CFA73u32 >> 1) ^ 0xEDB8_8320 == 0xD376FE19)
        && (0xD376FE19u32 & 1 != 0 && (0xD376FE19u32 >> 1) ^ 0xEDB8_8320 == 0x8403FC2C)
        && (0x8403FC2Cu32 & 1 == 0 && 0x8403FC2Cu32 >> 1 == 0x4201FE16)
        && (0x4201FE16u32 & 1 == 0 && 0x4201FE16u32 >> 1 == 0x2100FF0B)
        && (0x2100FF0Bu32 & 1 != 0 && (0x2100FF0Bu32 >> 1) ^ 0xEDB8_8320 == 0xFD38FCA5)
        && (0xFD38FCA5u32 & 1 != 0 && (0xFD38FCA5u32 >> 1) ^ 0xEDB8_8320 == 0x9324FD72)
        && (0xBE2612FFu32 & 1 != 0 && (0xBE2612FFu32 >> 1) ^ 0xEDB8_8320 == 0xB2AB8A5F)
        && (0xB2AB8A5Fu32 & 1 != 0 && (0xB2AB8A5Fu32 >> 1) ^ 0xEDB8_8320 == 0xB4ED460F)
        && (0xB4ED460Fu32 & 1 != 0 && (0xB4ED460Fu32 >> 1) ^ 0xEDB8_8320 == 0xB7CE2027)
        && (0xB7CE2027u32 & 1 != 0 && (0xB7CE2027u32 >> 1) ^ 0xEDB8_8320 == 0xB65F9333)
        && (0xB65F9333u32 & 1 != 0 && (0xB65F9333u32 >> 1) ^ 0xEDB8_8320 == 0xB6974AB9)
        && (0xB6974AB9u32 & 1 != 0 && (0xB6974AB9u32 >> 1) ^ 0xEDB8_8320 == 0xB6F3267C)
        && (0xB6F3267Cu32 & 1 == 0 && 0xB6F3267Cu32 >> 1 == 0x5B79933E)
        && (0x5B79933Eu32 & 1 == 0 && 0x5B79933Eu32 >> 1 == 0x2DBCC99F)
        && (0x00BE2612u32 & 1 == 0 && 0x00BE2612u32 >> 1 == 0x005F1309)
        && (0x005F1309u32 & 1 != 0 && (0x005F1309u32 >> 1) ^ 0xEDB8_8320 == 0xED970AA4)
        && (0xED970AA4u32 & 1 == 0 && 0xED970AA4u32 >> 1 == 0x76CB8552)
        && (0x76CB8552u32 & 1 == 0 && 0x76CB8552u32 >> 1 == 0x3B65C2A9)
        && (0x3B65C2A9u32 & 1 != 0 && (0x3B65C2A9u32 >> 1) ^ 0xEDB8_8320 == 0xF00A6274)
        && (0xF00A6274u32 & 1 == 0 && 0xF00A6274u32 >> 1 == 0x7805313A)
        && (0x7805313Au32 & 1 == 0 && 0x7805313Au32 >> 1 == 0x3C02989D)
        && (0x3C02989Du32 & 1 != 0 && (0x3C02989Du32 >> 1) ^ 0xEDB8_8320 == 0xF3B9CF6E)) by (bit_vector);
    assert(0x9324FD72u32 ^ 0x2D02EF8Du32 == 0xBE2612FFu32 && 0x2DBCC99Fu32 ^ 0x2D02EF8Du32 == 0x00BE2612u32 && 0xF3B9CF6Eu32 ^ 0x2D02EF8Du32 == 0xDEBB20E3u32) by (bit_vector);
}

/// Where every byte of the region stands: the binary from the start, erased
/// flash behind it, and at the very end sixteen bytes of footer: `OTAU`, the
/// length and the CRC-32 of the binary, low byte first, and four erased ones.
/// The pages are the region cut in equal pieces.
pub proof fn law_image_layout(m: ImageSpec, k: int)
    requires
        m.well_formed(),
        0 <= k < m.page_size * m.app_pages,
    ensures
        ({
            let end = m.page_size * m.app_pages - 16;
            let c = crc32_of(m.data);
            let n = m.data.len();
            &&& m.contents().len() == m.page_size * m.app_pages
            &&& k < n ==> m.contents()[k] == m.data[k]
            &&& n <= k < end ==> m.contents()[k] == 0xFF
            &&& m.contents()[end] == 0x4F
            &&& m.contents()[end + 1] == 0x54
            &&& m.contents()[end + 2] == 0x41
            &&& m.contents()[end + 3] == 0x55
            &&& m.contents()[end + 4] == n % 256
            &&& m.contents()[end + 5] == n / 256 % 256
            &&& m.contents()[end + 6] == n / 65536 % 256
            &&& m.contents()[end + 7] == n / 16777216
            &&& m.contents()[end + 8] == c % 256
            &&& m.contents()[end + 9] == c / 256 % 256
            &&& m.contents()[end + 10] == c / 65536 % 256
            &&& m.contents()[end + 11] == c / 16777216
            &&& end + 12 <= k ==> m.contents()[k] == 0xFF
            &&& m.page(k / m.page_size).len() == m.page_size
            &&& m.page(k / m.page_size)[k % m.page_size] == m.contents()[k]
        }),
{
    lemma_contents_len(m);
    lemma_page_of(m, k);
    lemma_page_bounds(m, k / m.page_size);
    lemma_page_bounds(m, m.app_pages - 1);
    crate::le::law_little_end_first(0, m.data.len() as u32, seq![]);
    crate::le::law_little_end_first(0, crc32_of(m.data), seq![]);
    assert(m.page_size * m.app_pages <= 0xFFFF * 0xFFFF) by (nonlinear_arith)
        requires
            0 < m.page_size <= 0xFFFF,
            0 < m.app_pages <= 0xFFFF,
    ;
    let q = k / m.page_size;
    vstd::arithmetic::div_mod::lemma_fundamental_div_mod(k, m.page_size);
    assert(q * m.page_size == m.page_size * q) by (nonlinear_arith);
}

/// A page must be written if and only if a byte of it is not that of erased
/// flash.
pub proof fn law_written_pages_hold_something(m: ImageSpec, i: int)
    requires
        m.well_formed(),
        0 <= i < m.app_pages,
    ensures
        m.must_write(i) <==> exists|j: int|
            0 <= j < m.page_size && #[trigger] m.page(i)[j] != 0xFF,
        m.write_list().contains(i as u16) <==> exists|j: int|
            0 <= j < m.page_size && #[trigger] m.page(i)[j] != 0xFF,
{
    lemma_contents_len(m);
    law_write_list_is_exact(m, 0);
    if m.must_write(i) {
        let j = choose|j: int| 0 <= j < m.page(i).len() && m.page(i)[j] != 0xFF;
        assert(m.page(i)[j] != 0xFF);
    }
}

/// Which binaries an app region takes, and what the others are told.
pub proof fn law_what_fits(len: nat, page_size: u16, app_pages: u16)
    ensures
        from_bin_error(len, page_size, app_pages) is None <==> app_pages > 0 && 16 <= page_size
            <= 250 && len + 16 <= page_size * app_pages,
        from_bin_error(len, page_size, app_pages) matches Some(e) ==> (match e {
            Error::BadGeometry { page_size: p, app_pages: a } => p == page_size && a == app_pages
                && (app_pages == 0 || page_size < 16 || page_size > 250),
            Error::ImageTooLarge { len: l, capacity } => app_pages > 0 && 16 <= page_size <= 250 && (
            len <= usize::MAX ==> l == len) && capacity == page_size * app_pages - 16,
            _ => false,
        }),
{
    assert(page_size * app_pages <= 0xFFFF * 0xFFFF) by (nonlinear_arith)
        requires
            page_size <= 0xFFFF,
            app_pages <= 0xFFFF,
    ;
    if app_pages > 0 && page_size >= 16 {
        assert(page_size * app_pages >= 16) by (nonlinear_arith)
            requires
                page_size >= 16,
                app_pages >= 1,
        ;
    }
}

/// Which flash boots: that whose last sixteen bytes start with `OTAU`, a
/// length that leaves room for them, and the CRC-32 of that many bytes from
/// the start; both numbers low byte first.
pub proof fn law_which_flash_boots(flash: Seq<u8>)
    ensures
        boot_gate(flash) <==> {
            let e = flash.len() - 16;
            let len = flash[e + 4] + 256 * flash[e + 5] + 65536 * flash[e + 6] + 16777216 * flash[e
                + 7];
            let crc = flash[e + 8] + 256 * flash[e + 9] + 65536 * flash[e + 10] + 16777216 * flash[e
                + 11];
            &&& e >= 0
            &&& flash[e] == 0x4F && flash[e + 1] == 0x54 && flash[e + 2] == 0x41 && flash[e + 3]
                == 0x55
            &&& len <= e
            &&& crc32_of(flash.take(len)) == crc
        },
{
    if flash.len() >= 16 {
        let e = flash.len() - 16;
        let footer = flash.skip(e);
        crate::le::law_little_end_first(0, 0, footer.subrange(4, 8));
        crate::le::law_little_end_first(0, 0, footer.subrange(8, 12));
        let magic = FOOTER_MAGIC@;
        let front = footer.take(4);
        assert(magic.len() == 4 && magic[0] == 0x4F && magic[1] == 0x54 && magic[2] == 0x41
            && magic[3] == 0x55);
        assert(front[0] == flash[e] && front[1] == flash[e + 1] && front[2] == flash[e + 2]
            && front[3] == flash[e + 3]);
        if front[0] == magic[0] && front[1] == magic[1] && front[2] == magic[2] && front[3]
            == magic[3] {
            assert(front =~= magic);
        }
    }
}

/// A page can be had if and only if the region has it and the buffer takes it;
/// that the region does not is told first.
pub proof fn law_which_pages_can_be_had(m: ImageSpec, index: u16, room: nat)
    requires
        m.well_formed(),
    ensures
        page_into_result(m, index, room) is Ok <==> index < m.app_pages && room >= m.page_size,
        page_into_result(m, index, room) matches Err(e) ==> (match e {
            Error::PageOutOfRange { index: i } => i == index && index >= m.app_pages,
            Error::BufferTooSmall { needed } => index < m.app_pages && needed == m.page_size && room
                < m.page_size,
            _ => false,
        }),
{
}

} // verus!
