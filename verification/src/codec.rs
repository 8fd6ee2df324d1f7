use vstd::prelude::*;

use crate::color::Color;
use crate::color::color_of_bgr;
use crate::geom::Point;
use crate::image::Image;

verus! {

/// Why a byte stream failed to decode: it ended before the declared pixel
/// count was satisfied, or the header declared a feature this codec does
/// not implement.
#[derive(Clone, Copy, Debug, PartialEq, Eq, Structural)]
pub enum DecodeError {
    /// The stream ended before the header or the declared pixel count was
    /// complete.
    UnexpectedEnd,
    /// The header declares a color map.
    UnsupportedColorMap,
    /// The header declares an image type other than uncompressed or
    /// run-length-compressed truecolor.
    UnsupportedImageType,
    /// The header declares an origin other than (0, 0).
    UnsupportedOrigin,
    /// The header declares a pixel depth other than 24 bits.
    UnsupportedDepth,
    /// The header sets a descriptor bit this codec does not implement.
    UnsupportedDescriptor,
    /// The declared dimensions overflow the raster's index arithmetic.
    UnsupportedDimensions,
}

/// The little-endian 16-bit value stored at offset `i`.
pub open spec fn rd_u16(b: Seq<u8>, i: int) -> int {
    b[i] + 256 * b[i + 1]
}

/// The two little-endian bytes of a 16-bit value.
pub open spec fn le16(v: int) -> Seq<u8> {
    seq![(v % 256) as u8, ((v / 256) % 256) as u8]
}

/// The four little-endian bytes of a 32-bit value.
pub open spec fn le32(v: int) -> Seq<u8> {
    seq![
        (v % 256) as u8,
        ((v / 256) % 256) as u8,
        ((v / 0x10000) % 256) as u8,
        ((v / 0x1000000) % 256) as u8,
    ]
}

/// The fixed 18-byte header of an image file with the given compression
/// flag and dimensions: no image id, no color map, truecolor image type,
/// origin (0, 0), 24-bit pixels, descriptor 0.
pub open spec fn tga_header(rle: bool, w: int, h: int) -> Seq<u8> {
    seq![
        0u8,
        0u8,
        if rle { 10u8 } else { 2u8 },
        0u8, 0u8, 0u8, 0u8, 0u8,
        0u8, 0u8, 0u8, 0u8,
    ] + le16(w) + le16(h) + seq![24u8, 0u8]
}

/// The fixed 26-byte trailer of an image file: two zeroed offsets and the
/// format's signature text.
pub open spec fn tga_footer() -> Seq<u8> {
    seq![
        0u8, 0u8, 0u8, 0u8,
        0u8, 0u8, 0u8, 0u8,
        84u8, 82u8, 85u8, 69u8, 86u8, 73u8, 83u8, 73u8, 79u8, 78u8,
        45u8, 88u8, 70u8, 73u8, 76u8, 69u8, 46u8, 0u8,
    ]
}

/// The color triple stored `k` triples after the header byte at `pos`.
pub open spec fn triple_at(b: Seq<u8>, pos: int, k: int) -> Color {
    color_of_bgr(b[pos + 1 + 3 * k], b[pos + 2 + 3 * k], b[pos + 3 + 3 * k])
}

/// Decode run-length packets from `bytes` starting at `pos` until at least
/// `need` pixels have been produced. Each packet is one header byte: a high
/// bit of one means one color repeated low-bits-plus-one times; a high bit
/// of zero means low-bits-plus-one raw colors. Yields the decoded pixels
/// (possibly more than `need` when the last packet overshoots) and the
/// position after the last packet, or nothing when the bytes end too early.
pub open spec fn spec_decode_packets(bytes: Seq<u8>, pos: int, need: int) -> Option<(Seq<Color>, int)>
    decreases need,
{
    if need <= 0 {
        Some((Seq::empty(), pos))
    } else if pos < 0 || pos >= bytes.len() {
        None
    } else {
        let hdr = bytes[pos];
        if hdr < 128 {
            let n = hdr + 1;
            if pos + 1 + 3 * n > bytes.len() {
                None
            } else {
                let colors = Seq::new(n as nat, |k: int| color_of_bgr(
                    bytes[pos + 1 + 3 * k], bytes[pos + 2 + 3 * k], bytes[pos + 3 + 3 * k]));
                if need - n <= 0 {
                    Some((colors, pos + 1 + 3 * n))
                } else {
                    match spec_decode_packets(bytes, pos + 1 + 3 * n, need - n) {
                        Some((rest, end)) => Some((colors + rest, end)),
                        None => None,
                    }
                }
            }
        } else {
            let n = hdr - 128 + 1;
            if pos + 4 > bytes.len() {
                None
            } else {
                let c = color_of_bgr(bytes[pos + 1], bytes[pos + 2], bytes[pos + 3]);
                let colors = Seq::new(n as nat, |k: int| c);
                if need - n <= 0 {
                    Some((colors, pos + 4))
                } else {
                    match spec_decode_packets(bytes, pos + 4, need - n) {
                        Some((rest, end)) => Some((colors + rest, end)),
                        None => None,
                    }
                }
            }
        }
    }
}

/// Appending bytes after the region a packet decode consumed does not
/// change its result.
pub proof fn lemma_decode_packets_extend(bytes: Seq<u8>, suffix: Seq<u8>, pos: int, need: int)
    requires
        spec_decode_packets(bytes, pos, need) is Some,
    ensures
        spec_decode_packets(bytes + suffix, pos, need) == spec_decode_packets(bytes, pos, need),
    decreases need,
{
    if need <= 0 {
    } else {
        let hdr = bytes[pos];
        let all = bytes + suffix;
        assert(all[pos] == hdr);
        if hdr < 128 {
            let n = hdr + 1;
            let colors = Seq::new(n as nat, |k: int| color_of_bgr(
                bytes[pos + 1 + 3 * k], bytes[pos + 2 + 3 * k], bytes[pos + 3 + 3 * k]));
            let colors2 = Seq::new(n as nat, |k: int| color_of_bgr(
                all[pos + 1 + 3 * k], all[pos + 2 + 3 * k], all[pos + 3 + 3 * k]));
            assert(colors =~= colors2);
            if need - n > 0 {
                lemma_decode_packets_extend(bytes, suffix, pos + 1 + 3 * n, need - n);
            }
        } else {
            let n = hdr - 128 + 1;
            let c = color_of_bgr(bytes[pos + 1], bytes[pos + 2], bytes[pos + 3]);
            let colors = Seq::new(n as nat, |k: int| c);
            let c2 = color_of_bgr(all[pos + 1], all[pos + 2], all[pos + 3]);
            let colors2 = Seq::new(n as nat, |k: int| c2);
            assert(colors =~= colors2);
            if need - n > 0 {
                lemma_decode_packets_extend(bytes, suffix, pos + 4, need - n);
            }
        }
    }
}

/// Packet decodes compose: a decode of exactly `n1` pixels followed from
/// its end position by a decode of `n2` pixels is a decode of `n1 + n2`
/// pixels.
pub proof fn lemma_decode_packets_append(bytes: Seq<u8>, pos: int, n1: int, n2: int)
    requires
        n1 >= 0,
        n2 >= 0,
        spec_decode_packets(bytes, pos, n1) is Some,
        spec_decode_packets(bytes, pos, n1)->Some_0.0.len() == n1,
        spec_decode_packets(bytes, spec_decode_packets(bytes, pos, n1)->Some_0.1, n2) is Some,
    ensures
        ({
            let (p1, e1) = spec_decode_packets(bytes, pos, n1)->Some_0;
            let (p2, e2) = spec_decode_packets(bytes, e1, n2)->Some_0;
            spec_decode_packets(bytes, pos, n1 + n2) == Some((p1 + p2, e2))
        }),
    decreases n1,
{
    let (p1, e1) = spec_decode_packets(bytes, pos, n1)->Some_0;
    let (p2, e2) = spec_decode_packets(bytes, e1, n2)->Some_0;
    if n1 <= 0 {
        assert(p1 + p2 =~= p2);
        if n2 <= 0 {
            assert(p1 + p2 =~= Seq::<Color>::empty());
        }
    } else {
        let hdr = bytes[pos];
        let n: int = if hdr < 128 { hdr + 1 } else { hdr - 128 + 1 };
        let pos2: int = if hdr < 128 { pos + 1 + 3 * n } else { pos + 4 };
        let colors: Seq<Color> = if hdr < 128 {
            Seq::new(n as nat, |k: int| color_of_bgr(
                bytes[pos + 1 + 3 * k], bytes[pos + 2 + 3 * k], bytes[pos + 3 + 3 * k]))
        } else {
            Seq::new(n as nat, |k: int| color_of_bgr(bytes[pos + 1], bytes[pos + 2], bytes[pos + 3]))
        };
        if n1 - n <= 0 {
            // This packet alone supplied the n1 pixels; it cannot overshoot
            // because the decoded length equals n1.
            assert(p1 == colors && e1 == pos2);
            assert(n == n1);
            if n2 <= 0 {
                assert(p1 + p2 =~= p1);
            } else {
                assert(spec_decode_packets(bytes, pos, n1 + n2)
                    == Some((colors + p2, e2)));
            }
        } else {
            let (r1, f1) = spec_decode_packets(bytes, pos2, n1 - n)->Some_0;
            assert(p1 == colors + r1 && e1 == f1);
            assert(r1.len() == n1 - n);
            lemma_decode_packets_append(bytes, pos2, n1 - n, n2);
            assert(spec_decode_packets(bytes, pos2, n1 - n + n2) == Some((r1 + p2, e2)));
            assert(n1 + n2 - n == n1 - n + n2);
            assert(colors + (r1 + p2) =~= (colors + r1) + p2);
        }
    }
}

/// The pixel array `pix` of a `w` by `h` image after the optional
/// horizontal and vertical mirrorings that the header's descriptor bits ask
/// for.
pub open spec fn flip_pixels(w: int, h: int, pix: Seq<Color>, fh: bool, fv: bool) -> Seq<Color> {
    Seq::new((w * h) as nat, |k: int| {
        let x = if fh { w - 1 - k % w } else { k % w };
        let y = if fv { h - 1 - k / w } else { k / w };
        pix[y * w + x]
    })
}

/// What a byte stream decodes to: the width, height and pixel array of the
/// image it carries, or the first error the decoder meets, reading the
/// fields in the order they are stored.
pub open spec fn spec_decode_tga(bytes: Seq<u8>) -> Result<(int, int, Seq<Color>), DecodeError> {
    if bytes.len() < 2 {
        Err(DecodeError::UnexpectedEnd)
    } else if bytes[1] != 0 {
        Err(DecodeError::UnsupportedColorMap)
    } else if bytes.len() < 3 {
        Err(DecodeError::UnexpectedEnd)
    } else if bytes[2] != 2 && bytes[2] != 10 {
        Err(DecodeError::UnsupportedImageType)
    } else if bytes.len() < 12 {
        Err(DecodeError::UnexpectedEnd)
    } else if rd_u16(bytes, 8) != 0 || rd_u16(bytes, 10) != 0 {
        Err(DecodeError::UnsupportedOrigin)
    } else if bytes.len() < 17 {
        Err(DecodeError::UnexpectedEnd)
    } else if bytes[16] != 24 {
        Err(DecodeError::UnsupportedDepth)
    } else if bytes.len() < 18 {
        Err(DecodeError::UnexpectedEnd)
    } else if bytes[17] & 103 != 0 {
        Err(DecodeError::UnsupportedDescriptor)
    } else {
        let w = rd_u16(bytes, 12);
        let h = rd_u16(bytes, 14);
        if w * h > i32::MAX {
            Err(DecodeError::UnsupportedDimensions)
        } else {
            let rle = bytes[2] == 10;
            let fh = bytes[17] & 8 != 0;
            let fv = bytes[17] & 16 != 0;
            let pos0 = 18 + bytes[0];
            let n = w * h;
            if rle {
                match spec_decode_packets(bytes, pos0 as int, n) {
                    Some((pix, _)) => Ok((w, h, flip_pixels(w, h, pix.take(n), fh, fv))),
                    None => Err(DecodeError::UnexpectedEnd),
                }
            } else {
                if n > 0 && pos0 + 3 * n > bytes.len() {
                    Err(DecodeError::UnexpectedEnd)
                } else {
                    let pix = Seq::new(n as nat, |k: int| color_of_bgr(
                        bytes[pos0 + 3 * k], bytes[pos0 + 3 * k + 1], bytes[pos0 + 3 * k + 2]));
                    Ok((w, h, flip_pixels(w, h, pix, fh, fv)))
                }
            }
        }
    }
}

/// Decode the run-length packet stream of `bytes` starting at `start` into
/// at least `n` pixels, then truncate to exactly `n`; an error exactly when
/// the stream ends too early.
fn decode_packets_exec(bytes: &Vec<u8>, start: usize, n: usize) -> (r: Result<Vec<Color>, DecodeError>)
    ensures
        match r {
            Ok(v) => {
                &&& spec_decode_packets(bytes@, start as int, n as int) is Some
                &&& v@ == spec_decode_packets(bytes@, start as int, n as int)->Some_0.0.take(n as int)
                &&& v@.len() == n
            },
            Err(e) => {
                &&& e == DecodeError::UnexpectedEnd
                &&& spec_decode_packets(bytes@, start as int, n as int) is None
            },
        },
{
    let mut pixels: Vec<Color> = Vec::new();
    let mut pos: usize = start;
    while pixels.len() < n
        invariant
            match spec_decode_packets(bytes@, pos as int, n - pixels@.len()) {
                Some((s, e)) => spec_decode_packets(bytes@, start as int, n as int)
                    == Some((pixels@ + s, e)),
                None => spec_decode_packets(bytes@, start as int, n as int) is None,
            },
        decreases (if pixels@.len() <= n { n - pixels@.len() } else { 0int }),
    {
        if pos >= bytes.len() {
            return Err(DecodeError::UnexpectedEnd);
        }
        let hdr = bytes[pos];
        let ghost rem = n - pixels@.len() as int;
        let ghost pos_old = pos as int;
        let ghost produced0 = pixels@;
        if hdr < 128 {
            let cnt: usize = (hdr as usize) + 1;
            if bytes.len() - pos < 1 + 3 * cnt {
                return Err(DecodeError::UnexpectedEnd);
            }
            let ghost colors = Seq::new(cnt as nat, |k: int| color_of_bgr(
                bytes@[pos_old + 1 + 3 * k], bytes@[pos_old + 2 + 3 * k], bytes@[pos_old + 3 + 3 * k]));
            let mut j: usize = 0;
            while j < cnt
                invariant
                    j <= cnt,
                    cnt <= 128,
                    pos == pos_old,
                    pos + 1 + 3 * cnt <= bytes@.len(),
                    bytes@.len() <= usize::MAX,
                    pixels@ == produced0 + colors.take(j as int),
                    colors == Seq::new(cnt as nat, |k: int| color_of_bgr(
                        bytes@[pos_old + 1 + 3 * k], bytes@[pos_old + 2 + 3 * k], bytes@[pos_old + 3 + 3 * k])),
                decreases cnt - j,
            {
                let c = Color::from_bytes([
                    bytes[pos + 1 + 3 * j],
                    bytes[pos + 2 + 3 * j],
                    bytes[pos + 3 + 3 * j],
                ]);
                pixels.push(c);
                proof {
                    assert(pixels@ =~= produced0 + colors.take(j + 1));
                }
                j = j + 1;
            }
            pos = pos + 1 + 3 * cnt;
            proof {
                assert(colors.take(cnt as int) =~= colors);
                assert(pixels@ == produced0 + colors);
                if rem - cnt <= 0 {
                    assert(spec_decode_packets(bytes@, pos_old, rem) == Some((colors, pos as int)));
                    assert(pixels@ + Seq::<Color>::empty() =~= pixels@);
                } else {
                    if spec_decode_packets(bytes@, pos as int, rem - cnt) is Some {
                        let (s2, e2) = spec_decode_packets(bytes@, pos as int, rem - cnt)->Some_0;
                        assert(spec_decode_packets(bytes@, pos_old, rem) == Some((colors + s2, e2)));
                        assert(produced0 + (colors + s2) =~= pixels@ + s2);
                    }
                }
            }
        } else {
            let cnt: usize = (hdr as usize) - 128 + 1;
            if bytes.len() - pos < 4 {
                return Err(DecodeError::UnexpectedEnd);
            }
            let c = Color::from_bytes([bytes[pos + 1], bytes[pos + 2], bytes[pos + 3]]);
            let ghost colors = Seq::new(cnt as nat, |k: int| color_of_bgr(
                bytes@[pos_old + 1], bytes@[pos_old + 2], bytes@[pos_old + 3]));
            let mut j: usize = 0;
            while j < cnt
                invariant
                    j <= cnt,
                    cnt <= 129,
                    pos == pos_old,
                    bytes@.len() <= usize::MAX,
                    c == color_of_bgr(bytes@[pos_old + 1], bytes@[pos_old + 2], bytes@[pos_old + 3]),
                    pos + 4 <= bytes@.len(),
                    pixels@ == produced0 + colors.take(j as int),
                    colors == Seq::new(cnt as nat, |k: int| color_of_bgr(
                        bytes@[pos_old + 1], bytes@[pos_old + 2], bytes@[pos_old + 3])),
                decreases cnt - j,
            {
                pixels.push(c);
                proof {
                    assert(pixels@ =~= produced0 + colors.take(j + 1));
                }
                j = j + 1;
            }
            pos = pos + 4;
            proof {
                assert(colors.take(cnt as int) =~= colors);
                assert(pixels@ == produced0 + colors);
                if rem - cnt <= 0 {
                    assert(spec_decode_packets(bytes@, pos_old, rem) == Some((colors, pos as int)));
                    assert(pixels@ + Seq::<Color>::empty() =~= pixels@);
                } else {
                    if spec_decode_packets(bytes@, pos as int, rem - cnt) is Some {
                        let (s2, e2) = spec_decode_packets(bytes@, pos as int, rem - cnt)->Some_0;
                        assert(spec_decode_packets(bytes@, pos_old, rem) == Some((colors + s2, e2)));
                        assert(produced0 + (colors + s2) =~= pixels@ + s2);
                    }
                }
            }
        }
    }
    proof {
        assert(pixels@ + Seq::<Color>::empty() =~= pixels@);
    }
    let ghost fullp = pixels@;
    pixels.truncate(n);
    proof {
        assert(spec_decode_packets(bytes@, start as int, n as int)->Some_0.0 == fullp);
        assert(pixels@ == fullp.take(n as int));
    }
    Ok(pixels)
}

/// Append one run-length packet: `cnt` copies of `color` as one header byte
/// and one color triple.
fn emit_run_packet(out: &mut Vec<u8>, color: Color, cnt: i32)
    requires
        1 <= cnt <= 128,
    ensures
        final(out)@.len() == old(out)@.len() + 4,
        forall|i: int| 0 <= i < old(out)@.len() ==> final(out)@[i] == old(out)@[i],
        spec_decode_packets(final(out)@, old(out)@.len() as int, cnt as int)
            == Some((Seq::new(cnt as nat, |k: int| color), final(out)@.len() as int)),
{
    let ghost pos = out@.len() as int;
    out.push(128 + (cnt - 1) as u8);
    out.push(color.b);
    out.push(color.g);
    out.push(color.r);
    proof {
        let b = out@;
        assert(b[pos] == 128 + (cnt - 1));
        assert(color_of_bgr(b[pos + 1], b[pos + 2], b[pos + 3]) == color);
        assert(Seq::new(cnt as nat, |k: int| color_of_bgr(b[pos + 1], b[pos + 2], b[pos + 3]))
            =~= Seq::new(cnt as nat, |k: int| color));
    }
}

/// Append one raw packet: one header byte followed by the color triples of
/// the `cnt` pixels of row `y` starting at column `x`.
#[verifier::rlimit(100)]
fn emit_raw_packet(out: &mut Vec<u8>, img: &Image, y: i32, x: i32, cnt: i32)
    requires
        img.wf(),
        0 <= y < img.height,
        0 <= x,
        x + cnt <= img.width,
        1 <= cnt <= 128,
    ensures
        final(out)@.len() == old(out)@.len() + 1 + 3 * cnt,
        forall|i: int| 0 <= i < old(out)@.len() ==> final(out)@[i] == old(out)@[i],
        spec_decode_packets(final(out)@, old(out)@.len() as int, cnt as int)
            == Some((
                Seq::new(cnt as nat, |k: int| img.pix(x + k, y as int)),
                final(out)@.len() as int,
            )),
{
    let ghost pos = out@.len() as int;
    out.push((cnt - 1) as u8);
    let mut j: i32 = 0;
    while j < cnt
        invariant
            img.wf(),
            0 <= y < img.height,
            0 <= x,
            x + cnt <= img.width,
            1 <= cnt <= 128,
            0 <= j <= cnt,
            pos == old(out)@.len(),
            out@.len() == pos + 1 + 3 * j,
            out@[pos] == cnt - 1,
            forall|i: int| 0 <= i < pos ==> out@[i] == old(out)@[i],
            forall|k: int| 0 <= k < j ==> #[trigger] triple_at(out@, pos, k)
                == img.pix(x + k, y as int),
        decreases cnt - j,
    {
        let ghost prevb = out@;
        let c = img.get(Point { x: x + j, y }).unwrap();
        out.push(c.b);
        out.push(c.g);
        out.push(c.r);
        proof {
            assert forall|k: int| 0 <= k < j + 1 implies #[trigger] triple_at(out@, pos, k)
                == img.pix(x + k, y as int) by {
                if k < j {
                    assert(triple_at(prevb, pos, k) == img.pix(x + k, y as int));
                    assert(prevb.len() == pos + 1 + 3 * j);
                    assert(0 <= pos + 1 + 3 * k < prevb.len());
                    assert(0 <= pos + 3 + 3 * k < prevb.len());
                    assert(out@[pos + 1 + 3 * k] == prevb[pos + 1 + 3 * k]);
                    assert(out@[pos + 2 + 3 * k] == prevb[pos + 2 + 3 * k]);
                    assert(out@[pos + 3 + 3 * k] == prevb[pos + 3 + 3 * k]);
                } else {
                    assert(out@[pos + 1 + 3 * k] == c.b);
                    assert(out@[pos + 2 + 3 * k] == c.g);
                    assert(out@[pos + 3 + 3 * k] == c.r);
                }
            }
        }
        j = j + 1;
    }
    proof {
        let b = out@;
        assert(b[pos] == cnt - 1 && cnt - 1 < 128);
        assert(Seq::new(cnt as nat, |q: int| color_of_bgr(
            b[pos + 1 + 3 * q], b[pos + 2 + 3 * q], b[pos + 3 + 3 * q]))
            =~= Seq::new(cnt as nat, |q: int| triple_at(b, pos, q)));
        assert(Seq::new(cnt as nat, |q: int| triple_at(b, pos, q))
            =~= Seq::new(cnt as nat, |k: int| img.pix(x + k, y as int)));
    }
}

/// The 54-byte bitmap header: magic, file size, reserved fields, pixel
/// offset, info-header size, signed dimensions, one color plane, 24-bit
/// pixels, no compression, image size, no resolution preference, no
/// palette.
pub open spec fn bmp_header(w: int, h: int) -> Seq<u8> {
    seq![66u8, 77u8]
        + le32(54 + 3 * w * h)
        + le16(0) + le16(0)
        + le32(54)
        + le32(40)
        + le32(w) + le32(h)
        + le16(1) + le16(24)
        + le32(0)
        + le32(3 * w * h)
        + le32(0) + le32(0)
        + le32(0) + le32(0)
}

/// The whole bitmap file: the header followed by one on-disk color triple
/// per pixel in row-major order.
pub open spec fn bmp_bytes(img: Image) -> Seq<u8> {
    bmp_header(img.width as int, img.height as int)
        + Seq::new((3 * img.pixels@.len()) as nat, |i: int| {
            let c = img.pixels@[i / 3];
            if i % 3 == 0 {
                c.b
            } else if i % 3 == 1 {
                c.g
            } else {
                c.r
            }
        })
}

/// Append the four little-endian bytes of a 32-bit value.
fn push_le32(out: &mut Vec<u8>, v: u32)
    ensures
        final(out)@ == old(out)@ + le32(v as int),
{
    out.push((v % 256) as u8);
    out.push(((v / 256) % 256) as u8);
    out.push(((v / 0x10000) % 256) as u8);
    out.push(((v / 0x1000000) % 256) as u8);
    proof {
        assert(out@ =~= old(out)@ + le32(v as int));
    }
}

/// The length of the run of equal pixels that starts at column `x` of row
/// `y`: how many further columns hold the same color, the starting one
/// included.
fn run_length(img: &Image, y: i32, x: i32) -> (run: i32)
    requires
        img.wf(),
        0 <= y < img.height,
        0 <= x < img.width,
    ensures
        1 <= run,
        x + run <= img.width,
        forall|i: int| x < i < x + run ==> img.pix(i, y as int) == img.pix(x as int, y as int),
{
    let first = img.get(Point { x, y }).unwrap();
    let mut run: i32 = 1;
    let mut go: bool = true;
    while go
        invariant
            img.wf(),
            0 <= y < img.height,
            0 <= x < img.width,
            first == img.pix(x as int, y as int),
            1 <= run,
            x + run <= img.width,
            forall|i: int| x < i < x + run ==> img.pix(i, y as int) == img.pix(x as int, y as int),
        decreases img.width - (x + run) + (if go { 1int } else { 0 }),
    {
        if x + run < img.width {
            let nx = img.get(Point { x: x + run, y }).unwrap();
            if nx.r == first.r && nx.g == first.g && nx.b == first.b {
                run = run + 1;
            } else {
                go = false;
            }
        } else {
            go = false;
        }
    }
    run
}

/// One packet carried the next `cnt` pixels of row `y`: the decoded prefix
/// of the byte stream grows from `xdone` to `xdone + cnt` pixels of that
/// row.
proof fn lemma_row_advance(
    img: Image, oldout: Seq<u8>, newout: Seq<u8>, y: int, xdone: int, cnt: int, seg: Seq<Color>,
)
    requires
        img.wf(),
        0 <= y < img.height,
        0 <= xdone,
        xdone + cnt <= img.width,
        1 <= cnt,
        oldout.len() >= 18,
        newout.len() >= oldout.len(),
        forall|i: int| 0 <= i < oldout.len() ==> newout[i] == oldout[i],
        spec_decode_packets(oldout, 18, y * img.width + xdone)
            == Some((img.pixels@.take(y * img.width + xdone), oldout.len() as int)),
        spec_decode_packets(newout, oldout.len() as int, cnt as int)
            == Some((seg, newout.len() as int)),
        seg.len() == cnt,
        forall|k: int| 0 <= k < cnt ==> seg[k] == img.pix(xdone + k, y),
    ensures
        spec_decode_packets(newout, 18, y * img.width + (xdone + cnt))
            == Some((img.pixels@.take(y * img.width + (xdone + cnt)), newout.len() as int)),
{
    let w = img.width as int;
    let h = img.height as int;
    let done = y * w + xdone;
    assert(0 <= done && done + cnt <= w * h) by (nonlinear_arith)
        requires
            done == y * w + xdone,
            0 <= y < h,
            0 <= xdone,
            xdone + cnt <= w,
            0 <= cnt,
    ;
    let suffix = newout.subrange(oldout.len() as int, newout.len() as int);
    assert(newout =~= oldout + suffix);
    lemma_decode_packets_extend(oldout, suffix, 18, done);
    assert(spec_decode_packets(newout, 18, done)
        == Some((img.pixels@.take(done), oldout.len() as int)));
    assert(img.pixels@.take(done).len() == done);
    lemma_decode_packets_append(newout, 18, done, cnt);
    assert forall|i: int| 0 <= i < done + cnt implies
        (img.pixels@.take(done) + seg)[i] == img.pixels@.take(done + cnt)[i] by {
        if i >= done {
            assert(seg[i - done] == img.pix(xdone + (i - done), y));
        }
    }
    assert(img.pixels@.take(done) + seg =~= img.pixels@.take(done + cnt));
}

impl Image {
    /// Decode a byte stream in the binary image format into a raster
    /// surface, checking each header field in the order it is stored and
    /// reading either the raw pixel triples or the run-length packet
    /// stream.
    pub fn decode_tga(bytes: &Vec<u8>) -> (r: Result<Image, DecodeError>)
        ensures
            ({
                let s = spec_decode_tga(bytes@);
                match r {
                    Ok(img) => img.wf() && s == Ok::<(int, int, Seq<Color>), DecodeError>(
                        (img.width as int, img.height as int, img.pixels@)),
                    Err(e) => s == Err::<(int, int, Seq<Color>), DecodeError>(e),
                }
            }),
    {
        if bytes.len() < 2 {
            return Err(DecodeError::UnexpectedEnd);
        }
        let id_len = bytes[0];
        if bytes[1] != 0 {
            return Err(DecodeError::UnsupportedColorMap);
        }
        if bytes.len() < 3 {
            return Err(DecodeError::UnexpectedEnd);
        }
        let image_type = bytes[2];
        if image_type != 2 && image_type != 10 {
            return Err(DecodeError::UnsupportedImageType);
        }
        if bytes.len() < 12 {
            return Err(DecodeError::UnexpectedEnd);
        }
        let x_origin: u32 = bytes[8] as u32 + 256 * (bytes[9] as u32);
        let y_origin: u32 = bytes[10] as u32 + 256 * (bytes[11] as u32);
        if x_origin != 0 || y_origin != 0 {
            return Err(DecodeError::UnsupportedOrigin);
        }
        if bytes.len() < 17 {
            return Err(DecodeError::UnexpectedEnd);
        }
        let w16: u32 = bytes[12] as u32 + 256 * (bytes[13] as u32);
        let h16: u32 = bytes[14] as u32 + 256 * (bytes[15] as u32);
        if bytes[16] != 24 {
            return Err(DecodeError::UnsupportedDepth);
        }
        if bytes.len() < 18 {
            return Err(DecodeError::UnexpectedEnd);
        }
        let descriptor = bytes[17];
        if descriptor & 103 != 0 {
            return Err(DecodeError::UnsupportedDescriptor);
        }
        proof {
            assert((w16 as u64) * (h16 as u64) <= 0xffff_ffff && (w16 as u64) * (h16 as u64) == w16 * h16)
                by (nonlinear_arith)
                requires w16 <= 0xffff, h16 <= 0xffff;
        }
        if (w16 as u64) * (h16 as u64) > 0x7fff_ffff {
            return Err(DecodeError::UnsupportedDimensions);
        }
        let fh = (descriptor & 8) != 0;
        let fv = (descriptor & 16) != 0;
        let rle = image_type == 10;
        let pos0: usize = 18 + (id_len as usize);
        let n: usize = (w16 as usize) * (h16 as usize);
        let ghost ni = rd_u16(bytes@, 12) * rd_u16(bytes@, 14);

        let mut pixels: Vec<Color>;
        let ghost raw: Seq<Color>;
        if rle {
            match decode_packets_exec(bytes, pos0, n) {
                Ok(v) => {
                    pixels = v;
                    proof {
                        raw = spec_decode_packets(bytes@, pos0 as int, ni)->Some_0.0.take(ni);
                    }
                }
                Err(e) => {
                    return Err(e);
                }
            }
        } else {
            if n > 0 && (pos0 as u64) + 3 * (n as u64) > bytes.len() as u64 {
                return Err(DecodeError::UnexpectedEnd);
            }
            pixels = Vec::new();
            let mut k: usize = 0;
            while k < n
                invariant
                    k <= n,
                    n > 0 ==> pos0 + 3 * n <= bytes@.len(),
                    bytes@.len() <= usize::MAX,
                    pos0 <= 273,
                    n <= 0x7fff_ffff,
                    pixels@.len() == k,
                    forall|i: int| 0 <= i < k ==> pixels@[i] == color_of_bgr(
                        bytes@[pos0 + 3 * i], bytes@[pos0 + 3 * i + 1], bytes@[pos0 + 3 * i + 2]),
                decreases n - k,
            {
                let c = Color::from_bytes([
                    bytes[pos0 + 3 * k],
                    bytes[pos0 + 3 * k + 1],
                    bytes[pos0 + 3 * k + 2],
                ]);
                pixels.push(c);
                k = k + 1;
            }
            proof {
                raw = Seq::new(ni as nat, |i: int| color_of_bgr(
                    bytes@[pos0 + 3 * i], bytes@[pos0 + 3 * i + 1], bytes@[pos0 + 3 * i + 2]));
                assert(pixels@ =~= raw);
            }
        }

        let mut image = Image { width: w16 as i32, height: h16 as i32, pixels };
        let ghost w = image.width as int;
        let ghost h = image.height as int;
        if fh {
            image.flip_horizontally();
        }
        if fv {
            image.flip_vertically();
        }
        proof {
            assert(image.pixels@.len() == w * h);
            assert forall|k: int| 0 <= k < image.pixels@.len() implies
                image.pixels@[k] == flip_pixels(w, h, raw, fh, fv)[k] by {
                assert(w > 0 && h > 0) by (nonlinear_arith)
                    requires 0 <= w, 0 <= h, w * h > 0;
                crate::image::lemma_grid_index_inverse(w, h, k);
                let x = k % w;
                let y = k / w;
                let sx = if fh { w - 1 - x } else { x };
                let sy = if fv { h - 1 - y } else { y };
                crate::image::lemma_grid_index_bounds(w, h, sx, sy);
                assert(image.pix(x, y) == raw[sy * w + sx]);
            }
            assert(image.pixels@ =~= flip_pixels(w, h, raw, fh, fv));
        }
        Ok(image)
    }

    /// Serialize the raster surface to the binary image format, raw or
    /// run-length-compressed: greedy runs of equal pixels become run
    /// packets, lone pixels gather into raw packets, and anything longer
    /// than 128 splits. The output decodes back to this image exactly, and
    /// begins with the fixed header and ends with the fixed trailer.
    #[verifier::rlimit(100)]
    pub fn encode_tga(&self, rle: bool) -> (out: Vec<u8>)
        requires
            self.wf(),
            self.width <= 0xffff,
            self.height <= 0xffff,
            rle && self.height > 0 ==> self.width > 0,
        ensures
            spec_decode_tga(out@) == Ok::<(int, int, Seq<Color>), DecodeError>(
                (self.width as int, self.height as int, self.pixels@)),
            out@.len() >= 44,
            out@.subrange(0, 18) == tga_header(rle, self.width as int, self.height as int),
            out@.subrange(out@.len() - 26, out@.len() as int) == tga_footer(),
    {
        let w = self.width;
        let h = self.height;
        let ghost wi = w as int;
        let ghost hi = h as int;
        let ghost pixn = wi * hi;
        let mut out: Vec<u8> = Vec::new();
        out.push(0);
        out.push(0);
        out.push(if rle { 10 } else { 2 });
        out.push(0);
        out.push(0);
        out.push(0);
        out.push(0);
        out.push(0);
        out.push(0);
        out.push(0);
        out.push(0);
        out.push(0);
        let wu = w as u16;
        let hu = h as u16;
        out.push((wu % 256) as u8);
        out.push((wu / 256) as u8);
        out.push((hu % 256) as u8);
        out.push((hu / 256) as u8);
        out.push(24);
        out.push(0);
        proof {
            assert(out@ =~= tga_header(rle, wi, hi));
        }

        if rle {
            proof {
                assert(self.pixels@.take(0) =~= Seq::<Color>::empty());
            }
            let mut y: i32 = 0;
            while y < h
                invariant
                    self.wf(),
                    w == self.width,
                    h == self.height,
                    wi == w as int,
                    hi == h as int,
                    w <= 0xffff,
                    h <= 0xffff,
                    h > 0 ==> w > 0,
                    0 <= y <= h,
                    out@.len() >= 18,
                    forall|i: int| 0 <= i < 18 ==> out@[i] == tga_header(true, wi, hi)[i],
                    rle,
                    spec_decode_packets(out@, 18, y * wi)
                        == Some((self.pixels@.take(y * wi), out@.len() as int)),
                decreases h - y,
            {
                let ghost row0 = y * wi;
                let mut x: i32 = 0;
                while x < w
                    invariant
                        self.wf(),
                        w == self.width,
                        h == self.height,
                        wi == w as int,
                        hi == h as int,
                        w <= 0xffff,
                        h <= 0xffff,
                        0 <= y < h,
                        0 <= x <= w,
                        row0 == y * wi,
                        out@.len() >= 18,
                        forall|i: int| 0 <= i < 18 ==> out@[i] == tga_header(true, wi, hi)[i],
                        spec_decode_packets(out@, 18, row0 + x)
                            == Some((self.pixels@.take(row0 + x), out@.len() as int)),
                    decreases w - x,
                {
                    let run = run_length(self, y, x);
                    let first = self.get(Point { x, y }).unwrap();
                    if run >= 2 {
                        // A run packet for every 128 pixels, one for the rest.
                        let mut rem: i32 = run;
                        while rem > 128
                            invariant
                                self.wf(),
                                w == self.width,
                                h == self.height,
                                wi == w as int,
                                hi == h as int,
                                0 <= y < h,
                                0 <= x,
                                1 <= rem <= run,
                                x + run <= w,
                                row0 == y * wi,
                                first == self.pix(x as int, y as int),
                                forall|i: int| x < i < x + run ==>
                                    self.pix(i, y as int) == self.pix(x as int, y as int),
                                out@.len() >= 18,
                                forall|i: int| 0 <= i < 18 ==> out@[i] == tga_header(true, wi, hi)[i],
                                spec_decode_packets(out@, 18, row0 + x + (run - rem))
                                    == Some((self.pixels@.take(row0 + x + (run - rem)), out@.len() as int)),
                            decreases rem,
                        {
                            let ghost oldout = out@;
                            let ghost xdone = x + (run - rem);
                            emit_run_packet(&mut out, first, 128);
                            proof {
                                let seg = Seq::new(128nat, |k: int| first);
                                assert forall|k: int| 0 <= k < 128 implies
                                    seg[k] == self.pix(xdone + k, y as int) by {}
                                lemma_row_advance(*self, oldout, out@, y as int, xdone, 128, seg);
                            }
                            rem = rem - 128;
                        }
                        let ghost oldout = out@;
                        let ghost xdone = x + (run - rem);
                        emit_run_packet(&mut out, first, rem);
                        proof {
                            let seg = Seq::new(rem as nat, |k: int| first);
                            assert forall|k: int| 0 <= k < rem implies
                                seg[k] == self.pix(xdone + k, y as int) by {}
                            lemma_row_advance(*self, oldout, out@, y as int, xdone, rem as int, seg);
                        }
                        x = x + run;
                    } else {
                        // A raw segment: every pixel whose run stops at
                        // itself, in packets of at most 128.
                        let mut m: i32 = 1;
                        let mut go: bool = true;
                        while go
                            invariant
                                self.wf(),
                                w == self.width,
                                h == self.height,
                                0 <= y < h,
                                0 <= x < w,
                                1 <= m,
                                x + m <= w,
                            decreases w - (x + m) + (if go { 1int } else { 0 }),
                        {
                            if x + m < w {
                                let a = self.get(Point { x: x + m, y }).unwrap();
                                let more = if x + m + 1 < w {
                                    let b = self.get(Point { x: x + m + 1, y }).unwrap();
                                    a.r != b.r || a.g != b.g || a.b != b.b
                                } else {
                                    true
                                };
                                if more {
                                    m = m + 1;
                                } else {
                                    go = false;
                                }
                            } else {
                                go = false;
                            }
                        }
                        let mut rem: i32 = m;
                        while rem > 128
                            invariant
                                self.wf(),
                                w == self.width,
                                h == self.height,
                                wi == w as int,
                                hi == h as int,
                                0 <= y < h,
                                0 <= x,
                                1 <= rem <= m,
                                x + m <= w,
                                row0 == y * wi,
                                out@.len() >= 18,
                                forall|i: int| 0 <= i < 18 ==> out@[i] == tga_header(true, wi, hi)[i],
                                spec_decode_packets(out@, 18, row0 + x + (m - rem))
                                    == Some((self.pixels@.take(row0 + x + (m - rem)), out@.len() as int)),
                            decreases rem,
                        {
                            let ghost oldout = out@;
                            let xcur = x + (m - rem);
                            emit_raw_packet(&mut out, self, y, xcur, 128);
                            proof {
                                let seg = Seq::new(128nat, |k: int| self.pix(xcur + k, y as int));
                                lemma_row_advance(*self, oldout, out@, y as int, xcur as int, 128, seg);
                            }
                            rem = rem - 128;
                        }
                        let ghost oldout = out@;
                        let xcur = x + (m - rem);
                        emit_raw_packet(&mut out, self, y, xcur, rem);
                        proof {
                            let seg = Seq::new(rem as nat, |k: int| self.pix(xcur + k, y as int));
                            lemma_row_advance(*self, oldout, out@, y as int, xcur as int, rem as int, seg);
                        }
                        x = x + m;
                    }
                }
                proof {
                    assert(row0 + wi == (y + 1) * wi) by (nonlinear_arith)
                        requires row0 == y * wi;
                }
                y = y + 1;
            }
            proof {
                assert(hi * wi == pixn) by (nonlinear_arith)
                    requires pixn == wi * hi;
            }
        } else {
            // Raw truecolor payload: one color triple per pixel.
            let n = self.pixels.len();
            let mut k: usize = 0;
            while k < n
                invariant
                    self.wf(),
                    w == self.width,
                    h == self.height,
                    wi == w as int,
                    hi == h as int,
                    n == self.pixels@.len(),
                    0 <= k <= n,
                    out@.len() == 18 + 3 * k,
                    forall|i: int| 0 <= i < 18 ==> out@[i] == tga_header(false, wi, hi)[i],
                    forall|i: int| 0 <= i < k ==> #[trigger] triple_at(out@, 17, i) == self.pixels@[i],
                decreases n - k,
            {
                let ghost prevb = out@;
                let c = self.pixels[k];
                out.push(c.b);
                out.push(c.g);
                out.push(c.r);
                proof {
                    assert forall|i: int| 0 <= i < k + 1 implies #[trigger] triple_at(out@, 17, i)
                        == self.pixels@[i] by {
                        if i < k {
                            assert(triple_at(prevb, 17, i) == self.pixels@[i]);
                            assert(out@[17 + 1 + 3 * i] == prevb[17 + 1 + 3 * i]);
                            assert(out@[17 + 2 + 3 * i] == prevb[17 + 2 + 3 * i]);
                            assert(out@[17 + 3 + 3 * i] == prevb[17 + 3 + 3 * i]);
                        } else {
                            assert(out@[17 + 1 + 3 * i] == c.b);
                            assert(out@[17 + 2 + 3 * i] == c.g);
                            assert(out@[17 + 3 + 3 * i] == c.r);
                        }
                    }
                }
                k = k + 1;
            }
        }

        // Trailer: two zeroed offsets and the signature text.
        let ghost pre = out@;
        out.push(0);
        out.push(0);
        out.push(0);
        out.push(0);
        out.push(0);
        out.push(0);
        out.push(0);
        out.push(0);
        out.push(84);
        out.push(82);
        out.push(85);
        out.push(69);
        out.push(86);
        out.push(73);
        out.push(83);
        out.push(73);
        out.push(79);
        out.push(78);
        out.push(45);
        out.push(88);
        out.push(70);
        out.push(73);
        out.push(76);
        out.push(69);
        out.push(46);
        out.push(0);
        proof {
            assert(out@ =~= pre + tga_footer());
            let b = out@;
            let hdr = tga_header(rle, wi, hi);
            assert(b.subrange(out@.len() - 26, out@.len() as int) =~= tga_footer());
            assert forall|i: int| 0 <= i < 18 implies b[i] == hdr[i] by {}
            assert(b.subrange(0, 18) =~= hdr);

            // Header fields as the decoder reads them.
            assert(hdr[0] == 0 && hdr[1] == 0 && hdr[8] == 0 && hdr[9] == 0
                && hdr[10] == 0 && hdr[11] == 0 && hdr[16] == 24 && hdr[17] == 0);
            assert(hdr[2] == (if rle { 10u8 } else { 2u8 }));
            assert(hdr[12] == (wi % 256) as u8 && hdr[13] == ((wi / 256) % 256) as u8);
            assert(hdr[14] == (hi % 256) as u8 && hdr[15] == ((hi / 256) % 256) as u8);
            vstd::arithmetic::div_mod::lemma_fundamental_div_mod(wi, 256);
            vstd::arithmetic::div_mod::lemma_fundamental_div_mod(hi, 256);
            assert(rd_u16(b, 12) == wi);
            assert(rd_u16(b, 14) == hi);
            assert(0u8 & 103u8 == 0) by (bit_vector);
            assert(0u8 & 8u8 == 0) by (bit_vector);
            assert(0u8 & 16u8 == 0) by (bit_vector);
            assert(wi * hi <= i32::MAX);

            // The payload decodes to exactly the pixel array.
            if rle {
                lemma_decode_packets_extend(pre, tga_footer(), 18, pixn);
                assert(spec_decode_packets(b, 18, pixn)
                    == Some((self.pixels@.take(pixn), pre.len() as int)));
                assert(self.pixels@.take(pixn) =~= self.pixels@);
                assert(self.pixels@.take(pixn).take(pixn) =~= self.pixels@);
            } else {
                assert(pre.len() == 18 + 3 * pixn);
                assert(!(pixn > 0 && 18 + 3 * pixn > b.len()));
                assert forall|q: int| 0 <= q < pixn implies
                    Seq::new(pixn as nat, |kk: int| color_of_bgr(
                        b[18 + 3 * kk], b[18 + 3 * kk + 1], b[18 + 3 * kk + 2]))[q]
                    == self.pixels@[q] by {
                    assert(b[17 + 1 + 3 * q] == pre[17 + 1 + 3 * q]);
                    assert(b[17 + 2 + 3 * q] == pre[17 + 2 + 3 * q]);
                    assert(b[17 + 3 + 3 * q] == pre[17 + 3 + 3 * q]);
                    assert(triple_at(pre, 17, q) == self.pixels@[q]);
                }
                assert(Seq::new(pixn as nat, |kk: int| color_of_bgr(
                    b[18 + 3 * kk], b[18 + 3 * kk + 1], b[18 + 3 * kk + 2]))
                    =~= self.pixels@);
            }

            // No descriptor bit is set, so no mirroring applies.
            assert forall|k: int| 0 <= k < pixn implies
                flip_pixels(wi, hi, self.pixels@, false, false)[k] == self.pixels@[k] by {
                assert(wi > 0 && hi > 0) by (nonlinear_arith)
                    requires 0 <= wi, 0 <= hi, wi * hi > 0;
                crate::image::lemma_grid_index_inverse(wi, hi, k);
            }
            assert(flip_pixels(wi, hi, self.pixels@, false, false) =~= self.pixels@);
        }
        out
    }

    /// Serialize the raster surface to the uncompressed bitmap format:
    /// exactly the fixed header for these dimensions followed by one color
    /// triple per pixel.
    pub fn encode_bmp(&self) -> (r: Vec<u8>)
        requires
            self.wf(),
            3 * self.width <= i32::MAX,
            3 * self.width * self.height <= i32::MAX,
        ensures
            r@ == bmp_bytes(*self),
    {
        let wi32 = self.width;
        let hi32 = self.height;
        let ghost wi = wi32 as int;
        let ghost hi = hi32 as int;
        let image_size: i32 = 3 * wi32 * hi32;
        let mut out: Vec<u8> = Vec::new();
        out.push(66);
        out.push(77);
        push_le32(&mut out, 54 + (image_size as u32));
        out.push(0);
        out.push(0);
        out.push(0);
        out.push(0);
        push_le32(&mut out, 54);
        push_le32(&mut out, 40);
        push_le32(&mut out, wi32 as u32);
        push_le32(&mut out, hi32 as u32);
        out.push(1);
        out.push(0);
        out.push(24);
        out.push(0);
        push_le32(&mut out, 0);
        push_le32(&mut out, image_size as u32);
        push_le32(&mut out, 0);
        push_le32(&mut out, 0);
        push_le32(&mut out, 0);
        push_le32(&mut out, 0);
        proof {
            assert(out@ =~= bmp_header(wi, hi));
        }
        let n = self.pixels.len();
        let mut k: usize = 0;
        while k < n
            invariant
                self.wf(),
                wi == self.width as int,
                hi == self.height as int,
                n == self.pixels@.len(),
                0 <= k <= n,
                out@.len() == 54 + 3 * k,
                forall|i: int| 0 <= i < 54 ==> out@[i] == bmp_header(wi, hi)[i],
                forall|i: int| 0 <= i < k ==> #[trigger] triple_at(out@, 53, i) == self.pixels@[i],
            decreases n - k,
        {
            let ghost prevb = out@;
            let c = self.pixels[k];
            out.push(c.b);
            out.push(c.g);
            out.push(c.r);
            proof {
                assert forall|i: int| 0 <= i < k + 1 implies #[trigger] triple_at(out@, 53, i)
                    == self.pixels@[i] by {
                    if i < k {
                        assert(triple_at(prevb, 53, i) == self.pixels@[i]);
                        assert(out@[53 + 1 + 3 * i] == prevb[53 + 1 + 3 * i]);
                        assert(out@[53 + 2 + 3 * i] == prevb[53 + 2 + 3 * i]);
                        assert(out@[53 + 3 + 3 * i] == prevb[53 + 3 + 3 * i]);
                    } else {
                        assert(out@[53 + 1 + 3 * i] == c.b);
                        assert(out@[53 + 2 + 3 * i] == c.g);
                        assert(out@[53 + 3 + 3 * i] == c.r);
                    }
                }
            }
            k = k + 1;
        }
        proof {
            let b = out@;
            let target = bmp_bytes(*self);
            assert(target.len() == 54 + 3 * n);
            assert forall|i: int| 0 <= i < b.len() implies b[i] == target[i] by {
                if i >= 54 {
                    let j = i - 54;
                    vstd::arithmetic::div_mod::lemma_fundamental_div_mod(j, 3);
                    vstd::arithmetic::div_mod::lemma_mod_bound(j, 3);
                    let q = j / 3;
                    let r = j % 3;
                    assert(0 <= q < n) by (nonlinear_arith)
                        requires j == 3 * q + r, 0 <= r < 3, 0 <= j < 3 * n;
                    assert(triple_at(b, 53, q) == self.pixels@[q]);
                    assert(b[54 + 3 * q] == self.pixels@[q].b
                        && b[54 + 3 * q + 1] == self.pixels@[q].g
                        && b[54 + 3 * q + 2] == self.pixels@[q].r);
                }
            }
            assert(b =~= target);
        }
        out
    }
}

} // verus!
