//! Properties of the frame codec and of image handling, sampled over their
//! full input ranges with a deterministic generator.

use updater_sdk::frame::{self, FRAME_OVERHEAD, PAYLOAD_MAX};
use updater_sdk::image::{self, Image, FOOTER_LEN, FOOTER_MAGIC};
use updater_sdk::Error;

/// xorshift64.
struct Gen(u64);

impl Gen {
    fn next(&mut self) -> u64 {
        self.0 ^= self.0 << 13;
        self.0 ^= self.0 >> 7;
        self.0 ^= self.0 << 17;
        self.0
    }

    fn byte(&mut self) -> u8 {
        (self.next() & 0xFF) as u8
    }

    /// Some number in `lo..=hi`.
    fn within(&mut self, lo: usize, hi: usize) -> usize {
        lo + (self.next() as usize) % (hi - lo + 1)
    }

    fn bytes(&mut self, lo: usize, hi: usize) -> Vec<u8> {
        let n = self.within(lo, hi);
        (0..n).map(|_| self.byte()).collect()
    }
}

/// encode, then decode, gives command and payload back over the full payload
/// range 0..=252, and the returned length is exact.
#[test]
fn roundtrip_full_payload_range() {
    let mut g = Gen(0x9E37_79B9_7F4A_7C15);
    for _ in 0..512 {
        let cmd = g.byte();
        let payload = g.bytes(0, PAYLOAD_MAX);
        let mut out = vec![0u8; payload.len() + FRAME_OVERHEAD];
        let n = frame::encode(cmd, &payload, &mut out).expect("payload fits a frame");
        assert_eq!(n, payload.len() + FRAME_OVERHEAD);
        let f = frame::decode(&out[..n]).expect("own frames must decode");
        assert_eq!(f.cmd, cmd);
        assert_eq!(f.payload, &payload[..]);
    }
}

/// Both decoders are total over arbitrary junk up to 300 bytes (past the
/// 255-byte wire maximum), and whenever `decode` accepts a buffer,
/// `decode_padded` accepts it identically.
#[test]
fn decode_total_on_junk() {
    let mut g = Gen(0x1234_5678_9ABC_DEF1);
    for _ in 0..512 {
        let raw = g.bytes(0, 300);
        let plain = frame::decode(&raw);
        let padded = frame::decode_padded(&raw);
        if let Ok(f) = plain {
            let h = padded.expect("decode_padded accepts every exact frame");
            assert_eq!(f, h);
        }
    }
}

/// A frame followed by 0xFF bytes is accepted with the identical result, and
/// corrupting any one filler byte to a non-0xFF value is rejected.
#[test]
fn decode_padded_is_decode_plus_filler() {
    let mut g = Gen(0xDEAD_BEEF_0BAD_F00D);
    for _ in 0..512 {
        let cmd = g.byte();
        let payload = g.bytes(0, PAYLOAD_MAX);
        let filler = g.within(0, 48);
        let n = payload.len() + FRAME_OVERHEAD;
        let mut buf = vec![0u8; n + filler];
        frame::encode(cmd, &payload, &mut buf).expect("payload fits a frame");
        buf[n..].fill(0xFF);

        let f = frame::decode_padded(&buf).expect("frame + 0xFF filler must decode");
        let h = frame::decode(&buf[..n]).expect("bare frame must decode");
        assert_eq!(f, h);
        assert_eq!(f.cmd, cmd);
        assert_eq!(f.payload, &payload[..]);

        if filler > 0 {
            let pos = n + g.within(0, filler - 1);
            buf[pos] = g.byte() & 0x7F;
            assert!(frame::decode_padded(&buf).is_err());
        }
    }
}

/// CRC-8 detects every single-bit error: flipping any one bit of an encoded
/// frame makes `decode` reject it.
#[test]
fn single_bit_flip_rejected() {
    let mut g = Gen(0x0F0F_1E1E_2D2D_3C3C);
    for _ in 0..512 {
        let cmd = g.byte();
        let payload = g.bytes(0, PAYLOAD_MAX);
        let n = payload.len() + FRAME_OVERHEAD;
        let mut buf = vec![0u8; n];
        frame::encode(cmd, &payload, &mut buf).expect("payload fits a frame");
        let bit = g.within(0, n * 8 - 1);
        buf[bit / 8] ^= 1 << (bit % 8);
        assert!(frame::decode(&buf).is_err());
    }
}

/// For any accepted image, rendering all pages reconstructs exactly data,
/// 0xFF padding and footer; `pages` yields precisely the pages that must be
/// written, in order; out-of-range indices and short buffers fail typed.
#[test]
fn image_pages_render_consistently() {
    let mut g = Gen(0x5555_AAAA_3333_CCCC);
    for _ in 0..128 {
        // Bias towards 0xFF so that skippable all-0xFF pages occur.
        let len = g.within(0, 1024);
        let data: Vec<u8> = (0..len)
            .map(|_| if g.within(0, 2) < 2 { 0xFF } else { g.byte() })
            .collect();
        let page_size = g.within(16, 250) as u16;
        let app_pages = g.within(1, 64) as u16;
        let ps = usize::from(page_size);
        let region = ps * usize::from(app_pages);
        let capacity = region - FOOTER_LEN;

        let img = match Image::from_bin(&data, page_size, app_pages) {
            Ok(img) => img,
            Err(Error::ImageTooLarge { len, capacity: cap }) => {
                assert_eq!(len, data.len());
                assert_eq!(cap, capacity);
                assert!(data.len() > capacity);
                continue;
            }
            Err(e) => panic!("geometry in the valid range must not fail: {e:?}"),
        };
        assert_eq!(img.len() as usize, data.len());
        assert_eq!(img.crc32(), image::crc32(&data));

        let mut rendered = Vec::with_capacity(region);
        let mut page = vec![0u8; ps];
        for index in 0..app_pages {
            img.page_into(index, &mut page).expect("in-range page must render");
            rendered.extend_from_slice(&page);
        }

        assert_eq!(&rendered[..data.len()], &data[..]);
        let footer_at = region - FOOTER_LEN;
        assert!(rendered[data.len()..footer_at].iter().all(|&b| b == 0xFF));
        assert_eq!(&rendered[footer_at..], &img.footer()[..]);
        assert_eq!(&img.footer()[..4], &FOOTER_MAGIC[..]);

        let mut pages = img.pages();
        let mut yielded: Vec<u16> = Vec::new();
        while let Some(i) = pages.next() {
            yielded.push(i);
        }
        assert!(yielded.windows(2).all(|w| w[0] < w[1]));
        for index in 0..app_pages {
            let chunk = &rendered[usize::from(index) * ps..][..ps];
            let must_write = index == app_pages - 1 || chunk.iter().any(|&b| b != 0xFF);
            assert_eq!(yielded.contains(&index), must_write, "page {index} must_write mismatch");
        }

        assert!(matches!(
            img.page_into(app_pages, &mut page),
            Err(Error::PageOutOfRange { index }) if index == app_pages
        ));
        let mut short = vec![0u8; ps - 1];
        assert!(matches!(
            img.page_into(0, &mut short),
            Err(Error::BufferTooSmall { needed }) if needed == ps
        ));
    }
}
