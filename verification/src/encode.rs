//! The encoder: a packed row-major RGB image becomes a header followed by
//! one length-prefixed chunk per 8x8 block, in row-major block order.

use vstd::prelude::*;
use vstd::arithmetic::div_mod::{
    lemma_fundamental_div_mod_converse_div,
    lemma_fundamental_div_mod_converse_mod,
};
use crate::EncodeError;
use crate::FileHeader;
use crate::header_bytes_spec;
use crate::valid_dimensions;
use crate::chunk::{chunk_compress, chunk_decompress, compress};
use crate::color::{MpicRgb888, MpicYuv666, yuv_y6, yuv_u6, yuv_v6};
use crate::mosaic::{mosaic_seq, mosaic_cell, mosaic_uv};

verus! {

/// Byte offset of pixel (x, y) in a packed row-major RGB buffer.
pub open spec fn pix_off(w: int, x: int, y: int) -> int {
    3 * (y * w + x)
}

/// The 64 luma samples of the 8x8 block at (x8, y8), row-major.
pub open spec fn plane_y(data: Seq<u8>, w: int, x8: int, y8: int) -> Seq<u8> {
    Seq::new(
        64,
        |i: int|
            {
                let o = pix_off(w, x8 + i % 8, y8 + i / 8);
                yuv_y6(data[o] as int, data[o + 1] as int, data[o + 2] as int) as u8
            },
    )
}

/// The 64 U chroma samples of the 8x8 block at (x8, y8), row-major.
pub open spec fn plane_u(data: Seq<u8>, w: int, x8: int, y8: int) -> Seq<u8> {
    Seq::new(
        64,
        |i: int|
            {
                let o = pix_off(w, x8 + i % 8, y8 + i / 8);
                yuv_u6(data[o] as int, data[o + 1] as int, data[o + 2] as int) as u8
            },
    )
}

/// The 64 V chroma samples of the 8x8 block at (x8, y8), row-major.
pub open spec fn plane_v(data: Seq<u8>, w: int, x8: int, y8: int) -> Seq<u8> {
    Seq::new(
        64,
        |i: int|
            {
                let o = pix_off(w, x8 + i % 8, y8 + i / 8);
                yuv_v6(data[o] as int, data[o + 1] as int, data[o + 2] as int) as u8
            },
    )
}

/// The 96-byte uncompressed payload of the block at (x8, y8): the luma
/// plane, then the mosaiced U plane, then the mosaiced V plane.
pub open spec fn block_payload(data: Seq<u8>, w: int, x8: int, y8: int) -> Seq<u8> {
    plane_y(data, w, x8, y8) + mosaic_seq(plane_u(data, w, x8, y8)) + mosaic_seq(
        plane_v(data, w, x8, y8),
    )
}

/// Number of 8x8 blocks of a (w, h) image.
pub open spec fn num_blocks(w: int, h: int) -> int {
    (w / 8) * (h / 8)
}

/// The chunk stream from block `i` on: for each block in row-major order,
/// one length byte followed by the compressed chunk.
pub open spec fn encode_blocks(data: Seq<u8>, w: int, h: int, i: int) -> Seq<u8>
    decreases num_blocks(w, h) - i when i >= 0
{
    if i >= num_blocks(w, h) {
        Seq::empty()
    } else {
        let bx = i % (w / 8);
        let by = i / (w / 8);
        let ch = chunk_compress(block_payload(data, w, 8 * bx, 8 * by));
        seq![ch.len() as u8] + ch + encode_blocks(data, w, h, i + 1)
    }
}

/// The whole encoded file: the header, then the chunk stream.
pub open spec fn encode_spec(data: Seq<u8>, w: int, h: int) -> Seq<u8> {
    header_bytes_spec(w, h, 0) + encode_blocks(data, w, h, 0)
}

/// Every byte of a block payload is a 6-bit value: the luma samples stay
/// in 4..=58 and the chroma samples in 4..=60, and averaging keeps the
/// bound.
pub proof fn lemma_block_payload_bounded(data: Seq<u8>, w: int, x8: int, y8: int)
    ensures
        block_payload(data, w, x8, y8).len() == 96,
        forall|k: int| 0 <= k < 96 ==> block_payload(data, w, x8, y8)[k] <= 0x3F,
{
    let py = plane_y(data, w, x8, y8);
    let pu = plane_u(data, w, x8, y8);
    let pv = plane_v(data, w, x8, y8);
    assert forall|i: int| 0 <= i < 64 implies py[i] <= 0x3F && pu[i] <= 0x3F && pv[i]
        <= 0x3F by {
        let o = pix_off(w, x8 + i % 8, y8 + i / 8);
        crate::color::lemma_yuv_range(data[o] as int, data[o + 1] as int, data[o + 2] as int);
    }
    let p = block_payload(data, w, x8, y8);
    assert forall|k: int| 0 <= k < 96 implies p[k] <= 0x3F by {
        if k < 64 {
            assert(p[k] == py[k]);
        } else if k < 80 {
            assert(p[k] == mosaic_seq(pu)[k - 64]);
            assert(mosaic_cell(pu, k - 64) <= 0x3F);
        } else {
            assert(p[k] == mosaic_seq(pv)[k - 80]);
            assert(mosaic_cell(pv, k - 80) <= 0x3F);
        }
    }
}

/// A pixel inside the image lies inside the buffer: row-major position
/// (x, y) is below w * h.
proof fn lemma_grid_bound(x: int, y: int, w: int, h: int)
    by (nonlinear_arith)
    requires
        0 <= x < w,
        0 <= y < h,
    ensures
        0 <= y * w + x < w * h,
{
}

/// Append the contents of `src` to `out`.
fn append_vec(out: &mut Vec<u8>, src: &Vec<u8>)
    ensures
        final(out)@ == old(out)@ + src@,
{
    let mut j: usize = 0;
    while j < src.len()
        invariant
            j <= src@.len(),
            out@ =~= old(out)@ + src@.subrange(0, j as int),
        decreases src@.len() - j,
    {
        let v = src[j];
        out.push(v);
        j = j + 1;
    }
    assert(out@ =~= old(out)@ + src@);
}

/// Gather the YUV planes of the 8x8 block at (x8, y8): every pixel of the
/// block converted to YUV, each channel in its own 64-sample plane.
fn gather_block(data: &[u8], w: usize, h: usize, x8: usize, y8: usize) -> (bufs: (
    Vec<u8>,
    Vec<u8>,
    Vec<u8>,
))
    requires
        x8 + 8 <= w,
        y8 + 8 <= h,
        w <= 0xFFFF,
        h <= 0xFFFF,
        data@.len() >= 3 * ((w as int) * (h as int)),
    ensures
        bufs.0@ == plane_y(data@, w as int, x8 as int, y8 as int),
        bufs.1@ == plane_u(data@, w as int, x8 as int, y8 as int),
        bufs.2@ == plane_v(data@, w as int, x8 as int, y8 as int),
        forall|i: int| 0 <= i < 64 ==> bufs.0@[i] <= 0x3F,
        forall|i: int| 0 <= i < 64 ==> bufs.1@[i] <= 0x3F,
        forall|i: int| 0 <= i < 64 ==> bufs.2@[i] <= 0x3F,
{
    let n = data.len();
    let mut buf_y: Vec<u8> = Vec::new();
    let mut buf_u: Vec<u8> = Vec::new();
    let mut buf_v: Vec<u8> = Vec::new();
    let mut k: usize = 0;
    while k < 64
        invariant
            k <= 64,
            n == data@.len(),
            x8 + 8 <= w,
            y8 + 8 <= h,
            w <= 0xFFFF,
            h <= 0xFFFF,
            data@.len() >= 3 * ((w as int) * (h as int)),
            buf_y@ =~= plane_y(data@, w as int, x8 as int, y8 as int).subrange(0, k as int),
            buf_u@ =~= plane_u(data@, w as int, x8 as int, y8 as int).subrange(0, k as int),
            buf_v@ =~= plane_v(data@, w as int, x8 as int, y8 as int).subrange(0, k as int),
            forall|i: int| 0 <= i < k ==> buf_y@[i] <= 0x3F,
            forall|i: int| 0 <= i < k ==> buf_u@[i] <= 0x3F,
            forall|i: int| 0 <= i < k ==> buf_v@[i] <= 0x3F,
        decreases 64 - k,
    {
        let x7 = k % 8;
        let y7 = k / 8;
        proof {
            lemma_grid_bound(x8 + x7 as int, y8 + y7 as int, w as int, h as int);
            assert(((y8 + y7) as int) * (w as int) <= ((y8 + y7) as int) * (w as int) + (
            (x8 + x7) as int) < (w as int) * (h as int));
            assert(3 * ((w as int) * (h as int)) <= n);
        }
        let off = ((y8 + y7) * w + x8 + x7) * 3;
        let r = data[off];
        let g = data[off + 1];
        let b = data[off + 2];
        let yuv = MpicYuv666::from_rgb(MpicRgb888::new(r, g, b));
        buf_y.push(yuv.y);
        buf_u.push(yuv.u);
        buf_v.push(yuv.v);
        proof {
            assert(off == pix_off(w as int, x8 + k as int % 8, y8 + k as int / 8));
            assert(buf_y@ =~= plane_y(data@, w as int, x8 as int, y8 as int).subrange(
                0,
                k + 1,
            ));
            assert(buf_u@ =~= plane_u(data@, w as int, x8 as int, y8 as int).subrange(
                0,
                k + 1,
            ));
            assert(buf_v@ =~= plane_v(data@, w as int, x8 as int, y8 as int).subrange(
                0,
                k + 1,
            ));
        }
        k = k + 1;
    }
    assert(buf_y@ =~= plane_y(data@, w as int, x8 as int, y8 as int));
    assert(buf_u@ =~= plane_u(data@, w as int, x8 as int, y8 as int));
    assert(buf_v@ =~= plane_v(data@, w as int, x8 as int, y8 as int));
    (buf_y, buf_u, buf_v)
}

/// The encoder.  All entry points are associated functions.
pub struct Encoder;

impl Encoder {
    /// Compress one block from its three 64-sample YUV planes: the chroma
    /// planes are mosaiced, the payload is assembled and compressed.  The
    /// chunk always decompresses back to that payload.
    pub fn encode_chunk(buf_y: &Vec<u8>, buf_u: &Vec<u8>, buf_v: &Vec<u8>) -> (out: Vec<u8>)
        requires
            buf_y@.len() == 64,
            buf_u@.len() == 64,
            buf_v@.len() == 64,
            forall|i: int| 0 <= i < 64 ==> buf_y@[i] <= 0x3F,
            forall|i: int| 0 <= i < 64 ==> buf_u@[i] <= 0x3F,
            forall|i: int| 0 <= i < 64 ==> buf_v@[i] <= 0x3F,
        ensures
            out@ == chunk_compress(buf_y@ + mosaic_seq(buf_u@) + mosaic_seq(buf_v@)),
            chunk_decompress(out@) == Some(buf_y@ + mosaic_seq(buf_u@) + mosaic_seq(buf_v@)),
            5 <= out@.len() <= 72,
    {
        let (mu, mv) = mosaic_uv(buf_u, buf_v);
        let mut payload: Vec<u8> = Vec::new();
        append_vec(&mut payload, buf_y);
        append_vec(&mut payload, &mu);
        append_vec(&mut payload, &mv);
        let ghost p = buf_y@ + mosaic_seq(buf_u@) + mosaic_seq(buf_v@);
        proof {
            assert(payload@ =~= p);
            assert forall|i: int| 0 <= i < 96 implies p[i] <= 0x3F by {
                if i < 64 {
                    assert(p[i] == buf_y@[i]);
                } else if i < 80 {
                    assert(p[i] == mosaic_seq(buf_u@)[i - 64]);
                    assert(mosaic_cell(buf_u@, i - 64) <= 0x3F);
                } else {
                    assert(p[i] == mosaic_seq(buf_v@)[i - 80]);
                    assert(mosaic_cell(buf_v@, i - 80) <= 0x3F);
                }
            }
        }
        compress(&payload)
    }

    /// Encode a packed row-major RGB image (3 bytes per pixel) into a new
    /// byte vector: the header, then one length-prefixed chunk per 8x8
    /// block in row-major block order.  Fails with `InvalidInput` when the
    /// dimensions are zero, above 65535, or not multiples of 8, or when
    /// the buffer holds fewer than width * height * 3 bytes.
    pub fn encode(data: &[u8], width: u32, height: u32) -> (r: Result<Vec<u8>, EncodeError>)
        ensures
            r is Ok <==> valid_dimensions(width as int, height as int) && data@.len() >= 3 * (
            (width as int) * (height as int)),
            r matches Ok(v) ==> v@ == encode_spec(data@, width as int, height as int),
            r matches Err(e) ==> e == EncodeError::InvalidInput,
    {
        let header = match FileHeader::new(width, height) {
            Some(h) => h,
            None => {
                return Err(EncodeError::InvalidInput);
            },
        };
        proof {
            assert((width as int) * (height as int) <= 0xFFFF * 0xFFFF) by (nonlinear_arith)
                requires
                    0 <= (width as int) <= 0xFFFF,
                    0 <= (height as int) <= 0xFFFF,
            ;
        }
        let need = (width as u64) * (height as u64) * 3;
        if (data.len() as u64) < need {
            return Err(EncodeError::InvalidInput);
        }
        let w = width as usize;
        let h = height as usize;
        let wb = w / 8;
        let hb = h / 8;
        let ghost dv = data@;

        let mut out = header.bytes();
        proof {
            assert(out@ + encode_blocks(dv, w as int, h as int, 0) =~= encode_spec(
                dv,
                w as int,
                h as int,
            ));
        }
        let mut by: usize = 0;
        while by < hb
            invariant
                valid_dimensions(w as int, h as int),
                wb == (w as int) / 8,
                hb == (h as int) / 8,
                w <= 0xFFFF,
                h <= 0xFFFF,
                by <= hb,
                dv == data@,
                dv.len() >= 3 * ((w as int) * (h as int)),
                out@ + encode_blocks(dv, w as int, h as int, (by * wb) as int) == encode_spec(
                    dv,
                    w as int,
                    h as int,
                ),
            decreases hb - by,
        {
            let mut bx: usize = 0;
            while bx < wb
                invariant
                    valid_dimensions(w as int, h as int),
                    wb == (w as int) / 8,
                    hb == (h as int) / 8,
                    w <= 0xFFFF,
                    h <= 0xFFFF,
                    by < hb,
                    bx <= wb,
                    dv == data@,
                    dv.len() >= 3 * ((w as int) * (h as int)),
                    out@ + encode_blocks(dv, w as int, h as int, (by * wb + bx) as int)
                        == encode_spec(dv, w as int, h as int),
                decreases wb - bx,
            {
                let ghost i = (by * wb + bx) as int;
                proof {
                    lemma_grid_bound(bx as int, by as int, wb as int, hb as int);
                    lemma_fundamental_div_mod_converse_div(i, wb as int, by as int, bx as int);
                    lemma_fundamental_div_mod_converse_mod(i, wb as int, by as int, bx as int);
                    assert(i < num_blocks(w as int, h as int));
                    assert(8 * (bx as int) + 8 <= w) by (nonlinear_arith)
                        requires
                            (bx as int) < (w as int) / 8,
                    ;
                    assert(8 * (by as int) + 8 <= h) by (nonlinear_arith)
                        requires
                            (by as int) < (h as int) / 8,
                    ;
                }
                let x8 = bx * 8;
                let y8 = by * 8;
                let (buf_y, buf_u, buf_v) = gather_block(data, w, h, x8, y8);
                let chunk = Self::encode_chunk(&buf_y, &buf_u, &buf_v);
                let ghost prev = out@;
                out.push(chunk.len() as u8);
                append_vec(&mut out, &chunk);
                proof {
                    assert(encode_blocks(dv, w as int, h as int, i) == seq![
                        chunk@.len() as u8,
                    ] + chunk@ + encode_blocks(dv, w as int, h as int, i + 1));
                    assert(out@ =~= prev + seq![chunk@.len() as u8] + chunk@);
                    assert(out@ + encode_blocks(dv, w as int, h as int, i + 1) =~= prev
                        + encode_blocks(dv, w as int, h as int, i));
                }
                bx = bx + 1;
            }
            by = by + 1;
            proof {
                assert(by * wb == (by - 1) * wb + wb) by (nonlinear_arith);
            }
        }
        proof {
            assert((hb * wb) as int >= num_blocks(w as int, h as int)) by (nonlinear_arith)
                requires
                    wb == (w as int) / 8,
                    hb == (h as int) / 8,
            ;
            assert(encode_blocks(dv, w as int, h as int, (hb * wb) as int) =~= Seq::<
                u8,
            >::empty());
            assert(out@ =~= encode_spec(dv, w as int, h as int));
        }
        Ok(out)
    }

    /// Encode an image and hand the whole encoded stream to `writer` in
    /// one call.  The writer is the caller's output edge; nothing is
    /// promised about what it does with the bytes.
    pub fn encode_to_writer<F: FnOnce(&[u8])>(
        data: &[u8],
        width: u32,
        height: u32,
        writer: F,
    ) -> (r: Result<(), EncodeError>)
        requires
            forall|s: &[u8]| #[trigger] writer.requires((s,)),
        ensures
            r is Ok <==> valid_dimensions(width as int, height as int) && data@.len() >= 3 * (
            (width as int) * (height as int)),
            r matches Err(e) ==> e == EncodeError::InvalidInput,
    {
        match Self::encode(data, width, height) {
            Ok(v) => {
                writer(v.as_slice());
                Ok(())
            },
            Err(e) => Err(e),
        }
    }
}

} // verus!
