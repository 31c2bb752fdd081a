//! The decoder: a header plus chunk stream becomes an image again.
//!
//! All decode paths share one traversal: blocks are read in row-major
//! order, each one a length byte followed by that many chunk bytes, and
//! every decoded block paints an 8x8 pixel square of the output.

use vstd::prelude::*;
use vstd::arithmetic::div_mod::{
    lemma_fundamental_div_mod_converse_div,
    lemma_fundamental_div_mod_converse_mod,
};
use crate::DecodeError;
use crate::FileHeader;
use crate::ImageInfo;
use crate::header_parses;
use crate::parsed_width;
use crate::parsed_height;
use crate::valid_dimensions;
use crate::bitops::expand6;
use crate::chunk::{chunk_compress, chunk_decompress, decompress, lemma_chunk_round_trip};
use crate::color::{MpicRgb666, MpicRgb888, MpicYuv666, inv_r6, inv_g6, inv_b6};
use crate::encode::{
    block_payload,
    encode_blocks,
    encode_spec,
    lemma_block_payload_bounded,
    num_blocks,
    plane_u,
    plane_v,
    plane_y,
};
use crate::header_bytes_spec;
use crate::mosaic::{demosaic_seq, demosaic_uv, mosaic_seq};

verus! {

/// The value of an `Option` of a byte sequence, or the empty sequence.
pub open spec fn opt_seq(o: Option<Seq<u8>>) -> Seq<u8> {
    match o {
        Some(s) => s,
        None => Seq::empty(),
    }
}

/// Read position of the length byte of block `i`: the first block starts
/// right after the 9-byte header, and each block advances the cursor by
/// one length byte plus that many chunk bytes.
pub open spec fn chunk_start(blob: Seq<u8>, i: int) -> int
    decreases i when i >= 0
{
    if i <= 0 {
        9
    } else {
        let p = chunk_start(blob, i - 1);
        p + 1 + blob[p]
    }
}

/// The chunk bytes of block `i` (without the length byte).
pub open spec fn block_chunk(blob: Seq<u8>, i: int) -> Seq<u8> {
    let p = chunk_start(blob, i);
    blob.subrange(p + 1, p + 1 + blob[p])
}

/// Block `i` can be decoded: its length byte and chunk bytes lie inside
/// the blob, and the chunk decompresses.
pub open spec fn block_ok(blob: Seq<u8>, i: int) -> bool {
    let p = chunk_start(blob, i);
    &&& p < blob.len()
    &&& p + 1 + blob[p] <= blob.len()
    &&& chunk_decompress(block_chunk(blob, i)) is Some
}

/// The first `n` blocks of the blob can all be decoded.
pub open spec fn blocks_ok(blob: Seq<u8>, n: int) -> bool {
    forall|j: int| 0 <= j < n ==> block_ok(blob, j)
}

/// The decoded payload of block `i`, split into its three planes.
pub open spec fn block_planes(blob: Seq<u8>, i: int) -> (Seq<u8>, Seq<u8>, Seq<u8>) {
    let p = opt_seq(chunk_decompress(block_chunk(blob, i)));
    (p.subrange(0, 64), demosaic_seq(p.subrange(64, 80)), demosaic_seq(p.subrange(80, 96)))
}

/// Output byte of channel `c` of sample `i` of a block given its decoded
/// planes: the 6-bit RGB reconstruction expanded to 8 bits, or a fixed
/// opaque alpha for channel 3.
pub open spec fn block_pixel_byte(
    py: Seq<u8>,
    pu: Seq<u8>,
    pv: Seq<u8>,
    i: int,
    c: int,
) -> u8 {
    let y = py[i] as int;
    let u = pu[i] as int;
    let v = pv[i] as int;
    if c == 0 {
        expand6(inv_r6(y, u, v)) as u8
    } else if c == 1 {
        expand6(inv_g6(y, u, v)) as u8
    } else if c == 2 {
        expand6(inv_b6(y, u, v)) as u8
    } else {
        255u8
    }
}

/// Byte `p` of the decoded image at `bpp` bytes per pixel: the pixel's
/// block is found from its coordinates, and the byte comes from that
/// block's decoded planes.
pub open spec fn decoded_byte(blob: Seq<u8>, w: int, bpp: int, p: int) -> u8 {
    let pix = p / bpp;
    let c = p % bpp;
    let x = pix % w;
    let y = pix / w;
    let j = (y / 8) * (w / 8) + x / 8;
    let i = (y % 8) * 8 + x % 8;
    let planes = block_planes(blob, j);
    block_pixel_byte(planes.0, planes.1, planes.2, i, c)
}

/// Row-major index of the 8x8 block that byte `p` of the output belongs
/// to, at `bpp` bytes per pixel.
pub open spec fn block_of(p: int, w: int, bpp: int) -> int {
    let pix = p / bpp;
    let x = pix % w;
    let y = pix / w;
    (y / 8) * (w / 8) + x / 8
}

/// The output buffer `post` is `pre` with the blocks of index `lo` up to
/// (excluding) `hi` painted in at `bpp` bytes per pixel: bytes of those
/// blocks hold the decoded image, all other bytes are unchanged.
pub open spec fn painted(
    pre: Seq<u8>,
    post: Seq<u8>,
    blob: Seq<u8>,
    w: int,
    h: int,
    bpp: int,
    lo: int,
    hi: int,
) -> bool {
    &&& post.len() == pre.len()
    &&& forall|p: int|
        0 <= p < post.len() ==> post[p] == (if p < bpp * (w * h) && lo <= block_of(p, w, bpp)
            < hi {
            decoded_byte(blob, w, bpp, p)
        } else {
            pre[p]
        })
}

/// The pixel of an output byte lies inside the image grid.
proof fn lemma_pix_bounds(p: int, w: int, h: int, bpp: int)
    by (nonlinear_arith)
    requires
        0 < w,
        0 < h,
        0 < bpp,
        0 <= p < bpp * (w * h),
    ensures
        0 <= p / bpp < w * h,
        0 <= (p / bpp) % w < w,
        0 <= (p / bpp) / w < h,
        0 <= p % bpp < bpp,
{
}

/// An output byte belongs to the block at (8 bx, 8 by) exactly when its
/// block index is the row-major index of that block.
proof fn lemma_block_of_in_block(p: int, w: int, h: int, bpp: int, bx: int, by: int)
    requires
        0 < w <= 0xFFFF,
        0 < h <= 0xFFFF,
        w % 8 == 0,
        0 < bpp,
        0 <= p < bpp * (w * h),
        0 <= bx < w / 8,
        0 <= by < h / 8,
    ensures
        in_block(p, w, bpp, 8 * bx, 8 * by) <==> block_of(p, w, bpp) == by * (w / 8) + bx,
{
    let pix = p / bpp;
    let x = pix % w;
    let y = pix / w;
    lemma_pix_bounds(p, w, h, bpp);
    let wb = w / 8;
    assert(x / 8 < wb) by (nonlinear_arith)
        requires
            0 <= x < w,
            w % 8 == 0,
            wb == w / 8,
    ;
    assert(0 <= x / 8 && 0 <= y / 8);
    if in_block(p, w, bpp, 8 * bx, 8 * by) {
        lemma_fundamental_div_mod_converse_div(x, 8, bx, x - 8 * bx);
        lemma_fundamental_div_mod_converse_div(y, 8, by, y - 8 * by);
        assert(block_of(p, w, bpp) == by * wb + bx);
    }
    if block_of(p, w, bpp) == by * wb + bx {
        lemma_fundamental_div_mod_converse_div((y / 8) * wb + x / 8, wb, by, bx);
        lemma_fundamental_div_mod_converse_mod((y / 8) * wb + x / 8, wb, by, bx);
        lemma_fundamental_div_mod_converse_div((y / 8) * wb + x / 8, wb, y / 8, x / 8);
        lemma_fundamental_div_mod_converse_mod((y / 8) * wb + x / 8, wb, y / 8, x / 8);
        assert(y / 8 == by && x / 8 == bx);
        vstd::arithmetic::div_mod::lemma_fundamental_div_mod(x, 8);
        vstd::arithmetic::div_mod::lemma_fundamental_div_mod(y, 8);
        assert(in_block(p, w, bpp, 8 * bx, 8 * by));
    }
}

/// Decode the block at block coordinates (bx, by), whose length byte
/// stands at `cursor`, and paint its 8x8 square into `output`.  On
/// success the returned cursor points at the next block's length byte.
#[verifier::rlimit(100)]
fn decode_block_step(
    blob: &[u8],
    w: usize,
    h: usize,
    bpp: usize,
    cursor: usize,
    bx: usize,
    by: usize,
    output: &mut [u8],
) -> (r: Result<usize, DecodeError>)
    requires
        valid_dimensions(w as int, h as int),
        bpp == 3 || bpp == 4,
        bx < (w as int) / 8,
        by < (h as int) / 8,
        old(output)@.len() >= (bpp as int) * ((w as int) * (h as int)),
        cursor == chunk_start(blob@, (by as int) * ((w as int) / 8) + bx as int),
    ensures
        final(output)@.len() == old(output)@.len(),
        r is Ok <==> block_ok(blob@, (by as int) * ((w as int) / 8) + bx as int),
        r matches Ok(c2) ==> c2 == chunk_start(
            blob@,
            (by as int) * ((w as int) / 8) + bx as int + 1,
        ),
        r is Ok ==> painted(
            old(output)@,
            final(output)@,
            blob@,
            w as int,
            h as int,
            bpp as int,
            (by as int) * ((w as int) / 8) + bx as int,
            (by as int) * ((w as int) / 8) + bx as int + 1,
        ),
        r matches Err(e) ==> e == DecodeError::InvalidData,
{
    let ghost bv = blob@;
    let ghost i = (by as int) * ((w as int) / 8) + bx as int;
    let ghost wh3 = (bpp as int) * ((w as int) * (h as int));
    let n = blob.len();
    if cursor >= n {
        proof {
            assert(!block_ok(bv, i));
        }
        return Err(DecodeError::InvalidData);
    }
    let len_b = blob[cursor] as usize;
    if len_b + 1 > n - cursor {
        proof {
            assert(!block_ok(bv, i));
        }
        return Err(DecodeError::InvalidData);
    }
    let chunk = &blob[cursor + 1..cursor + 1 + len_b];
    proof {
        assert(chunk@ == block_chunk(bv, i));
    }
    let planes = match Decoder::decode_chunk(chunk) {
        Ok(t) => t,
        Err(_) => {
            proof {
                assert(!block_ok(bv, i));
            }
            return Err(DecodeError::InvalidData);
        },
    };
    proof {
        assert(8 * (bx as int) + 8 <= w as int) by (nonlinear_arith)
            requires
                (bx as int) < (w as int) / 8,
                (w as int) % 8 == 0,
        ;
        assert(8 * (by as int) + 8 <= h as int) by (nonlinear_arith)
            requires
                (by as int) < (h as int) / 8,
                (h as int) % 8 == 0,
        ;
    }
    let x8 = bx * 8;
    let y8 = by * 8;
    let ghost before = output@;
    write_block(output, w, h, bpp, x8, y8, &planes.0, &planes.1, &planes.2);
    proof {
        assert(block_ok(bv, i));
        assert forall|p: int|
            0 <= p < output@.len() implies output@[p] == (if p < (bpp as int) * ((w as int)
                * (h as int)) && i <= block_of(p, w as int, bpp as int) < i + 1 {
                decoded_byte(blob@, w as int, bpp as int, p)
            } else {
                before[p]
            }) by {
            let wi = w as int;
            let bi = bpp as int;
            if 0 <= p < wh3 {
                lemma_block_of_in_block(p, wi, h as int, bi, bx as int, by as int);
                lemma_pix_bounds(p, wi, h as int, bi);
                if in_block(p, wi, bi, x8 as int, y8 as int) {
                    let pix = p / bi;
                    let x = pix % wi;
                    let y = pix / wi;
                    lemma_fundamental_div_mod_converse_div(x, 8, bx as int, x - x8);
                    lemma_fundamental_div_mod_converse_mod(x, 8, bx as int, x - x8);
                    lemma_fundamental_div_mod_converse_div(y, 8, by as int, y - y8);
                    lemma_fundamental_div_mod_converse_mod(y, 8, by as int, y - y8);
                    assert(x % 8 == x - x8 && y % 8 == y - y8);
                    assert(output@[p] == block_pixel_byte(
                        planes.0@,
                        planes.1@,
                        planes.2@,
                        (y - y8) * 8 + (x - x8),
                        p % bi,
                    ));
                    assert(decoded_byte(bv, wi, bi, p) == output@[p]);
                } else {
                    assert(output@[p] == before[p]);
                }
            } else {
                if p >= wh3 {
                    let pix = p / bi;
                    if in_block(p, wi, bi, x8 as int, y8 as int) {
                        assert(pix / wi < h as int) by (nonlinear_arith)
                            requires
                                0 <= pix / wi,
                                (pix / wi) < (y8 as int) + 8,
                                (y8 as int) + 8 <= h as int,
                        ;
                        assert(pix % wi < wi);
                        assert(pix == wi * (pix / wi) + pix % wi) by {
                            vstd::arithmetic::div_mod::lemma_fundamental_div_mod(pix, wi);
                        }
                        assert(pix < wi * (h as int)) by (nonlinear_arith)
                            requires
                                pix == wi * (pix / wi) + pix % wi,
                                pix / wi < h as int,
                                0 <= pix % wi < wi,
                                0 < wi,
                        ;
                        assert(p == bi * (p / bi) + p % bi) by {
                            vstd::arithmetic::div_mod::lemma_fundamental_div_mod(p, bi);
                        }
                        assert(p < bi * (wi * (h as int))) by (nonlinear_arith)
                            requires
                                p == bi * (p / bi) + p % bi,
                                p / bi < wi * (h as int),
                                0 <= p % bi < bi,
                                0 < bi,
                        ;
                        assert(false);
                    }
                    assert(output@[p] == before[p]);
                }
            }
        }
        assert(painted(before, output@, blob@, w as int, h as int, bpp as int, i, i + 1));
        assert(chunk_start(bv, i + 1) == chunk_start(bv, i) + 1 + bv[chunk_start(bv, i)]);
    }
    Ok(cursor + 1 + len_b)
}

/// Decode the whole chunk stream of `blob` into `output` at `bpp` bytes
/// per pixel.  Blocks are read in row-major order; the first failure
/// (truncated stream or malformed chunk) aborts with `InvalidData`.
#[verifier::rlimit(100)]
fn decode_into(blob: &[u8], w: usize, h: usize, bpp: usize, output: &mut [u8]) -> (r:
    Result<(), DecodeError>)
    requires
        valid_dimensions(w as int, h as int),
        bpp == 3 || bpp == 4,
        old(output)@.len() >= (bpp as int) * ((w as int) * (h as int)),
    ensures
        final(output)@.len() == old(output)@.len(),
        r is Ok <==> blocks_ok(blob@, num_blocks(w as int, h as int)),
        r is Ok ==> painted(
            old(output)@,
            final(output)@,
            blob@,
            w as int,
            h as int,
            bpp as int,
            0,
            num_blocks(w as int, h as int),
        ),
        r matches Err(e) ==> e == DecodeError::InvalidData,
{
    let wb = w / 8;
    let hb = h / 8;
    let n = blob.len();
    let ghost bv = blob@;
    let ghost wh3 = (bpp as int) * ((w as int) * (h as int));
    let mut cursor: usize = FileHeader::MINIMAL_SIZE;
    let mut by: usize = 0;
    while by < hb
        invariant
            valid_dimensions(w as int, h as int),
            bpp == 3 || bpp == 4,
            wb == (w as int) / 8,
            hb == (h as int) / 8,
            by <= hb,
            n == bv.len(),
            bv == blob@,
            wh3 == (bpp as int) * ((w as int) * (h as int)),
            output@.len() == old(output)@.len(),
            output@.len() >= wh3,
            cursor == chunk_start(bv, (by * wb) as int),
            blocks_ok(bv, (by * wb) as int),
            forall|p: int|
                0 <= p < output@.len() ==> output@[p] == (if p < wh3 && block_of(
                    p,
                    w as int,
                    bpp as int,
                ) < (by * wb) as int {
                    decoded_byte(bv, w as int, bpp as int, p)
                } else {
                    old(output)@[p]
                }),
        decreases hb - by,
    {
        let mut bx: usize = 0;
        while bx < wb
            invariant
                valid_dimensions(w as int, h as int),
                bpp == 3 || bpp == 4,
                wb == (w as int) / 8,
                hb == (h as int) / 8,
                by < hb,
                bx <= wb,
                n == bv.len(),
                bv == blob@,
                wh3 == (bpp as int) * ((w as int) * (h as int)),
                output@.len() == old(output)@.len(),
                output@.len() >= wh3,
                cursor == chunk_start(bv, (by * wb + bx) as int),
                blocks_ok(bv, (by * wb + bx) as int),
                forall|p: int|
                    0 <= p < output@.len() ==> output@[p] == (if p < wh3 && block_of(
                        p,
                        w as int,
                        bpp as int,
                    ) < (by * wb + bx) as int {
                        decoded_byte(bv, w as int, bpp as int, p)
                    } else {
                        old(output)@[p]
                    }),
            decreases wb - bx,
        {
            let ghost i = (by * wb + bx) as int;
            proof {
                lemma_grid_bound(bx as int, by as int, wb as int, hb as int);
                assert(i < num_blocks(w as int, h as int));
            }
            let ghost before = output@;
            let step = decode_block_step(blob, w, h, bpp, cursor, bx, by, output);
            let next = match step {
                Ok(c) => c,
                Err(e) => {
                    proof {
                        assert(!block_ok(bv, i));
                    }
                    return Err(e);
                },
            };
            cursor = next;
            proof {
                assert(blocks_ok(bv, i + 1));
                assert forall|p: int|
                    0 <= p < output@.len() implies output@[p] == (if p < wh3 && block_of(
                        p,
                        w as int,
                        bpp as int,
                    ) < i + 1 {
                        decoded_byte(bv, w as int, bpp as int, p)
                    } else {
                        old(output)@[p]
                    }) by {
                    if 0 <= p < wh3 && block_of(p, w as int, bpp as int) < i {
                        assert(output@[p] == before[p]);
                    }
                }
            }
            bx = bx + 1;
        }
        by = by + 1;
        proof {
            assert(by * wb == (by - 1) * wb + wb) by (nonlinear_arith);
        }
    }
    proof {
        assert((hb * wb) as int >= num_blocks(w as int, h as int)) by (nonlinear_arith)
            requires
                wb == (w as int) / 8,
                hb == (h as int) / 8,
        ;
        assert(blocks_ok(bv, num_blocks(w as int, h as int)));
        assert((wb * hb) as int == num_blocks(w as int, h as int)) by (nonlinear_arith)
            requires
                wb == (w as int) / 8,
                hb == (h as int) / 8,
        ;
        assert forall|p: int|
            0 <= p < output@.len() && p < wh3 implies 0 <= block_of(p, w as int, bpp as int)
                && block_of(p, w as int, bpp as int) < num_blocks(w as int, h as int) && block_of(
                p,
                w as int,
                bpp as int,
            ) < (hb * wb) as int by {
            lemma_pix_bounds(p, w as int, h as int, bpp as int);
            let pix = p / (bpp as int);
            let x = pix % (w as int);
            let y = pix / (w as int);
            assert(x / 8 < wb && y / 8 < hb) by (nonlinear_arith)
                requires
                    0 <= x < w as int,
                    0 <= y < h as int,
                    (w as int) % 8 == 0,
                    (h as int) % 8 == 0,
                    wb == (w as int) / 8,
                    hb == (h as int) / 8,
            ;
            lemma_grid_bound(x / 8, y / 8, wb as int, hb as int);
        }
        assert forall|p: int|
            0 <= p < output@.len() implies output@[p] == (if p < (bpp as int) * ((w as int)
                * (h as int)) && 0 <= block_of(p, w as int, bpp as int) < num_blocks(
                w as int,
                h as int,
            ) {
                decoded_byte(blob@, w as int, bpp as int, p)
            } else {
                old(output)@[p]
            }) by {}
        assert(painted(
            old(output)@,
            output@,
            blob@,
            w as int,
            h as int,
            bpp as int,
            0,
            num_blocks(w as int, h as int),
        ));
    }
    Ok(())
}

/// A decoder handle over an encoded byte blob whose header has been
/// validated.
pub struct Decoder<'a> {
    pub blob: &'a [u8],
    pub info: ImageInfo,
}

impl<'a> Decoder<'a> {
    /// The handle's dimensions are the format's valid ones; decoding
    /// relies on them.
    pub open spec fn wf(&self) -> bool {
        valid_dimensions(self.info.width as int, self.info.height as int)
    }

    /// Validate the header of `blob` and return a decoder handle; `None`
    /// when the blob is too short, the magic or version byte is wrong, or
    /// the dimensions are invalid.
    pub fn new(blob: &'a [u8]) -> (r: Option<Decoder<'a>>)
        ensures
            r is Some <==> header_parses(blob@),
            r matches Some(d) ==> {
                &&& d.blob@ == blob@
                &&& d.info.width == parsed_width(blob@)
                &&& d.info.height == parsed_height(blob@)
                &&& d.wf()
            },
    {
        let header = match FileHeader::from_bytes(blob) {
            Some(h) => h,
            None => {
                return None;
            },
        };
        Some(Decoder { blob, info: header.info() })
    }

    /// The image dimensions read from the header.
    pub fn info(&self) -> (r: ImageInfo)
        ensures
            r == self.info,
    {
        self.info
    }

    /// Decode one chunk into its three 64-sample planes: the luma plane and
    /// the two demosaiced chroma planes.  `InvalidData` reports a chunk that
    /// does not decompress.
    pub fn decode_chunk(src: &[u8]) -> (r: Result<(Vec<u8>, Vec<u8>, Vec<u8>), DecodeError>)
        ensures
            r is Ok <==> chunk_decompress(src@) is Some,
            r matches Ok(t) ==> {
                let p = opt_seq(chunk_decompress(src@));
                &&& t.0@ == p.subrange(0, 64)
                &&& t.1@ == demosaic_seq(p.subrange(64, 80))
                &&& t.2@ == demosaic_seq(p.subrange(80, 96))
            },
            r matches Err(e) ==> e == DecodeError::InvalidData,
    {
        let payload = match decompress(src) {
            Some(v) => v,
            None => {
                return Err(DecodeError::InvalidData);
            },
        };
        let mut buf_y: Vec<u8> = Vec::new();
        let mut i: usize = 0;
        while i < 64
            invariant
                i <= 64,
                payload@.len() == 96,
                buf_y@ =~= payload@.subrange(0, i as int),
            decreases 64 - i,
        {
            buf_y.push(payload[i]);
            i = i + 1;
        }
        let mut mos_u: Vec<u8> = Vec::new();
        let mut j: usize = 64;
        while j < 80
            invariant
                64 <= j <= 80,
                payload@.len() == 96,
                mos_u@ =~= payload@.subrange(64, j as int),
            decreases 80 - j,
        {
            mos_u.push(payload[j]);
            j = j + 1;
        }
        let mut mos_v: Vec<u8> = Vec::new();
        let mut k: usize = 80;
        while k < 96
            invariant
                80 <= k <= 96,
                payload@.len() == 96,
                mos_v@ =~= payload@.subrange(80, k as int),
            decreases 96 - k,
        {
            mos_v.push(payload[k]);
            k = k + 1;
        }
        let buf_u = demosaic_uv(&mos_u);
        let buf_v = demosaic_uv(&mos_v);
        proof {
            assert(buf_y@ =~= payload@.subrange(0, 64));
            assert(mos_u@ =~= payload@.subrange(64, 80));
            assert(mos_v@ =~= payload@.subrange(80, 96));
        }
        Ok((buf_y, buf_u, buf_v))
    }

    /// Decode into a caller-owned buffer of at least width * height * 3
    /// bytes, 3 bytes per pixel in row-major order.  `InvalidInput`
    /// reports an undersized buffer, `InvalidData` a malformed stream; on
    /// an error the buffer's length is unchanged but its contents are
    /// unspecified.
    pub fn decode_to_slice(&self, output: &mut [u8]) -> (r: Result<(), DecodeError>)
        requires
            self.wf(),
        ensures
            final(output)@.len() == old(output)@.len(),
            r == Err::<(), DecodeError>(DecodeError::InvalidInput) <==> old(output)@.len() < 3
                * ((self.info.width as int) * (self.info.height as int)),
            r is Ok <==> old(output)@.len() >= 3 * ((self.info.width as int) * (
            self.info.height as int)) && blocks_ok(
                self.blob@,
                num_blocks(self.info.width as int, self.info.height as int),
            ),
            r is Ok ==> painted(
                old(output)@,
                final(output)@,
                self.blob@,
                self.info.width as int,
                self.info.height as int,
                3,
                0,
                num_blocks(self.info.width as int, self.info.height as int),
            ),
    {
        let w = self.info.width as usize;
        let h = self.info.height as usize;
        proof {
            lemma_image_size_bound(w as int, h as int);
        }
        let need = (w as u64) * (h as u64) * 3;
        if (output.len() as u64) < need {
            return Err(DecodeError::InvalidInput);
        }
        decode_into(self.blob, w, h, 3, output)
    }

    /// Decode into a newly allocated buffer of width * height * 3 bytes,
    /// 3 bytes per pixel in row-major order.
    pub fn decode(&self) -> (r: Result<Vec<u8>, DecodeError>)
        requires
            self.wf(),
            3 * ((self.info.width as int) * (self.info.height as int)) <= usize::MAX,
        ensures
            r is Ok <==> blocks_ok(
                self.blob@,
                num_blocks(self.info.width as int, self.info.height as int),
            ),
            r matches Ok(v) ==> {
                &&& v@.len() == 3 * ((self.info.width as int) * (self.info.height as int))
                &&& forall|p: int|
                    0 <= p < v@.len() ==> v@[p] == decoded_byte(
                        self.blob@,
                        self.info.width as int,
                        3,
                        p,
                    )
            },
            r matches Err(e) ==> e == DecodeError::InvalidData,
    {
        let w = self.info.width as usize;
        let h = self.info.height as usize;
        proof {
            lemma_image_size_bound(w as int, h as int);
        }
        let need = w * h * 3;
        let mut out: Vec<u8> = vec![0u8; need];
        match decode_into(self.blob, w, h, 3, out.as_mut_slice()) {
            Ok(_) => {
                proof {
                    assert forall|p: int| 0 <= p < out@.len() implies out@[p] == decoded_byte(
                        self.blob@,
                        self.info.width as int,
                        3,
                        p,
                    ) by {
                        lemma_block_of_range(p, w as int, h as int, 3);
                    }
                }
                Ok(out)
            },
            Err(_) => Err(DecodeError::InvalidData),
        }
    }

    /// Decode into a newly allocated buffer of width * height * 4 bytes,
    /// 4 bytes per pixel in row-major order, with every alpha byte 255.
    pub fn decode_rgba(&self) -> (r: Result<Vec<u8>, DecodeError>)
        requires
            self.wf(),
            4 * ((self.info.width as int) * (self.info.height as int)) <= usize::MAX,
        ensures
            r is Ok <==> blocks_ok(
                self.blob@,
                num_blocks(self.info.width as int, self.info.height as int),
            ),
            r matches Ok(v) ==> {
                &&& v@.len() == 4 * ((self.info.width as int) * (self.info.height as int))
                &&& forall|p: int|
                    0 <= p < v@.len() ==> v@[p] == decoded_byte(
                        self.blob@,
                        self.info.width as int,
                        4,
                        p,
                    )
            },
            r matches Err(e) ==> e == DecodeError::InvalidData,
    {
        let w = self.info.width as usize;
        let h = self.info.height as usize;
        proof {
            lemma_image_size_bound(w as int, h as int);
        }
        let need = w * h * 4;
        let mut out: Vec<u8> = vec![0u8; need];
        match decode_into(self.blob, w, h, 4, out.as_mut_slice()) {
            Ok(_) => {
                proof {
                    assert forall|p: int| 0 <= p < out@.len() implies out@[p] == decoded_byte(
                        self.blob@,
                        self.info.width as int,
                        4,
                        p,
                    ) by {
                        lemma_block_of_range(p, w as int, h as int, 4);
                    }
                }
                Ok(out)
            },
            Err(_) => Err(DecodeError::InvalidData),
        }
    }

    /// Decode without allocating an output buffer: `f` is called once for
    /// each pixel with its coordinates and its reconstructed 8-bit RGB
    /// value, in row-major order within each block and row-major block
    /// order over the image.  Side effects of `f` are the caller's.
    pub fn decode_callback<F: Fn(u32, u32, MpicRgb888)>(&self, f: &F) -> (r: Result<
        (),
        DecodeError,
    >)
        requires
            self.wf(),
            forall|x: u32, y: u32, p: MpicRgb888| #[trigger] f.requires((x, y, p)),
        ensures
            r is Ok <==> blocks_ok(
                self.blob@,
                num_blocks(self.info.width as int, self.info.height as int),
            ),
            r matches Err(e) ==> e == DecodeError::InvalidData,
    {
        let blob = self.blob;
        let w = self.info.width as usize;
        let h = self.info.height as usize;
        let wb = w / 8;
        let hb = h / 8;
        let n = blob.len();
        let ghost bv = blob@;
        let mut cursor: usize = FileHeader::MINIMAL_SIZE;
        let mut by: usize = 0;
        while by < hb
            invariant
                valid_dimensions(w as int, h as int),
                w == self.info.width,
                h == self.info.height,
                bv == self.blob@,
                wb == (w as int) / 8,
                hb == (h as int) / 8,
                by <= hb,
                n == bv.len(),
                bv == blob@,
                cursor == chunk_start(bv, (by * wb) as int),
                blocks_ok(bv, (by * wb) as int),
                forall|x: u32, y: u32, p: MpicRgb888| #[trigger] f.requires((x, y, p)),
            decreases hb - by,
        {
            let mut bx: usize = 0;
            while bx < wb
                invariant
                    valid_dimensions(w as int, h as int),
                    w == self.info.width,
                    h == self.info.height,
                    bv == self.blob@,
                    wb == (w as int) / 8,
                    hb == (h as int) / 8,
                    by < hb,
                    bx <= wb,
                    n == bv.len(),
                    bv == blob@,
                    cursor == chunk_start(bv, (by * wb + bx) as int),
                    blocks_ok(bv, (by * wb + bx) as int),
                    forall|x: u32, y: u32, p: MpicRgb888| #[trigger] f.requires((x, y, p)),
                decreases wb - bx,
            {
                let ghost i = (by * wb + bx) as int;
                proof {
                    lemma_grid_bound(bx as int, by as int, wb as int, hb as int);
                    assert(i < num_blocks(w as int, h as int));
                }
                if cursor >= n {
                    proof {
                        assert(!block_ok(bv, i));
                    }
                    return Err(DecodeError::InvalidData);
                }
                let len_b = blob[cursor] as usize;
                if len_b + 1 > n - cursor {
                    proof {
                        assert(!block_ok(bv, i));
                    }
                    return Err(DecodeError::InvalidData);
                }
                let chunk = &blob[cursor + 1..cursor + 1 + len_b];
                proof {
                    assert(chunk@ == block_chunk(bv, i));
                }
                let planes = match Self::decode_chunk(chunk) {
                    Ok(t) => t,
                    Err(_) => {
                        proof {
                            assert(!block_ok(bv, i));
                        }
                        return Err(DecodeError::InvalidData);
                    },
                };
                proof {
                    assert(8 * (bx as int) + 8 <= w as int) by (nonlinear_arith)
                        requires
                            (bx as int) < (w as int) / 8,
                            (w as int) % 8 == 0,
                    ;
                    assert(8 * (by as int) + 8 <= h as int) by (nonlinear_arith)
                        requires
                            (by as int) < (h as int) / 8,
                            (h as int) % 8 == 0,
                    ;
                }
                let x8 = bx * 8;
                let y8 = by * 8;
                let mut k: usize = 0;
                while k < 64
                    invariant
                        k <= 64,
                        x8 + 8 <= w <= 0xFFFF,
                        y8 + 8 <= h <= 0xFFFF,
                        planes.0@.len() == 64,
                        planes.1@.len() == 64,
                        planes.2@.len() == 64,
                        forall|x: u32, y: u32, p: MpicRgb888| #[trigger] f.requires((x, y, p)),
                    decreases 64 - k,
                {
                    let rgb = MpicRgb888::from_yuv(
                        MpicYuv666::new(planes.0[k], planes.1[k], planes.2[k]),
                    );
                    f((x8 + k % 8) as u32, (y8 + k / 8) as u32, rgb);
                    k = k + 1;
                }
                cursor = cursor + 1 + len_b;
                proof {
                    assert(block_ok(bv, i));
                    assert(blocks_ok(bv, i + 1));
                    assert(chunk_start(bv, i + 1) == chunk_start(bv, i) + 1 + bv[chunk_start(
                        bv,
                        i,
                    )]);
                }
                bx = bx + 1;
            }
            by = by + 1;
            proof {
                assert(by * wb == (by - 1) * wb + wb) by (nonlinear_arith);
            }
        }
        proof {
            assert((hb * wb) as int >= num_blocks(w as int, h as int)) by (nonlinear_arith)
                requires
                    wb == (w as int) / 8,
                    hb == (h as int) / 8,
            ;
        }
        Ok(())
    }
}

/// The pixel count of a valid image is small enough that byte offsets at
/// 3 or 4 bytes per pixel cannot overflow 64-bit arithmetic.
proof fn lemma_image_size_bound(w: int, h: int)
    by (nonlinear_arith)
    requires
        0 <= w <= 0xFFFF,
        0 <= h <= 0xFFFF,
    ensures
        0 <= w * h <= 0xFFFF * 0xFFFF,
{
}

/// Every byte of a full-size output buffer belongs to one of the image's
/// blocks.
proof fn lemma_block_of_range(p: int, w: int, h: int, bpp: int)
    requires
        valid_dimensions(w, h),
        0 < bpp,
        0 <= p < bpp * (w * h),
    ensures
        0 <= block_of(p, w, bpp) < num_blocks(w, h),
{
    lemma_pix_bounds(p, w, h, bpp);
    let pix = p / bpp;
    let x = pix % w;
    let y = pix / w;
    let wb = w / 8;
    let hb = h / 8;
    assert(x / 8 < wb && y / 8 < hb) by (nonlinear_arith)
        requires
            0 <= x < w,
            0 <= y < h,
            w % 8 == 0,
            h % 8 == 0,
            wb == w / 8,
            hb == h / 8,
    ;
    lemma_grid_bound(x / 8, y / 8, wb, hb);
}

/// A pixel inside the image lies inside the buffer: row-major position
/// (x, y) is below w * h.
proof fn lemma_grid_bound(x: int, y: int, w: int, h: int)
    by (nonlinear_arith)
    requires
        0 <= x < w,
        0 <= y < h,
    ensures
        0 <= y * w + x < w * h,
{
}

/// Byte `p` of the output belongs to the 8x8 block at (x8, y8): its pixel
/// lies inside that square.
pub open spec fn in_block(p: int, w: int, bpp: int, x8: int, y8: int) -> bool {
    let pix = p / bpp;
    &&& x8 <= pix % w < x8 + 8
    &&& y8 <= pix / w < y8 + 8
}

/// Paint the 8x8 block at (x8, y8) into the output buffer from the
/// block's three decoded planes, at `bpp` bytes per pixel (alpha bytes,
/// present when `bpp` is 4, are set to 255).  Bytes outside the block's
/// square are untouched.
#[verifier::rlimit(100)]
fn write_block(
    output: &mut [u8],
    w: usize,
    h: usize,
    bpp: usize,
    x8: usize,
    y8: usize,
    buf_y: &Vec<u8>,
    buf_u: &Vec<u8>,
    buf_v: &Vec<u8>,
)
    requires
        bpp == 3 || bpp == 4,
        x8 + 8 <= w,
        y8 + 8 <= h,
        w <= 0xFFFF,
        h <= 0xFFFF,
        old(output)@.len() >= (bpp as int) * ((w as int) * (h as int)),
        buf_y@.len() == 64,
        buf_u@.len() == 64,
        buf_v@.len() == 64,
    ensures
        final(output)@.len() == old(output)@.len(),
        forall|p: int|
            0 <= p < final(output)@.len() ==> final(output)@[p] == (if in_block(
                p,
                w as int,
                bpp as int,
                x8 as int,
                y8 as int,
            ) {
                block_pixel_byte(
                    buf_y@,
                    buf_u@,
                    buf_v@,
                    ((p / (bpp as int)) / (w as int) - y8) * 8 + ((p / (bpp as int)) % (
                    w as int) - x8),
                    p % (bpp as int),
                )
            } else {
                old(output)@[p]
            }),
{
    let n = output.len();
    let mut k: usize = 0;
    while k < 64
        invariant
            k <= 64,
            bpp == 3 || bpp == 4,
            x8 + 8 <= w,
            y8 + 8 <= h,
            w <= 0xFFFF,
            h <= 0xFFFF,
            n == output@.len(),
            n >= (bpp as int) * ((w as int) * (h as int)),
            buf_y@.len() == 64,
            buf_u@.len() == 64,
            buf_v@.len() == 64,
            output@.len() == old(output)@.len(),
            forall|p: int|
                0 <= p < output@.len() ==> output@[p] == (if in_block(
                    p,
                    w as int,
                    bpp as int,
                    x8 as int,
                    y8 as int,
                ) && ((p / (bpp as int)) / (w as int) - y8) * 8 + ((p / (bpp as int)) % (
                w as int) - x8) < k {
                    block_pixel_byte(
                        buf_y@,
                        buf_u@,
                        buf_v@,
                        ((p / (bpp as int)) / (w as int) - y8) * 8 + ((p / (bpp as int)) % (
                        w as int) - x8),
                        p % (bpp as int),
                    )
                } else {
                    old(output)@[p]
                }),
        decreases 64 - k,
    {
        let x = x8 + k % 8;
        let y = y8 + k / 8;
        proof {
            lemma_grid_bound(x as int, y as int, w as int, h as int);
        }
        let pix = y * w + x;
        let base = pix * bpp;
        let rgb = MpicRgb666::from_yuv(MpicYuv666::new(buf_y[k], buf_u[k], buf_v[k]));
        let ghost before = output@;
        output[base] = rgb.r8();
        output[base + 1] = rgb.g8();
        output[base + 2] = rgb.b8();
        if bpp == 4 {
            output[base + 3] = 255;
        }
        proof {
            let wi = w as int;
            let bi = bpp as int;
            let pixi = pix as int;
            lemma_fundamental_div_mod_converse_div(pixi, wi, y as int, x as int);
            lemma_fundamental_div_mod_converse_mod(pixi, wi, y as int, x as int);
            assert forall|c: int| 0 <= c < bi implies #[trigger] ((base + c) / bi) == pixi && (
            base + c) % bi == c by {
                lemma_fundamental_div_mod_converse_div(base + c, bi, pixi, c);
                lemma_fundamental_div_mod_converse_mod(base + c, bi, pixi, c);
            }
            assert((y as int - y8) * 8 + (x as int - x8) == k) by {
                assert(x as int - x8 == k as int % 8);
                assert(y as int - y8 == k as int / 8);
            }
            assert forall|p: int|
                0 <= p < output@.len() implies output@[p] == (if in_block(
                    p,
                    wi,
                    bi,
                    x8 as int,
                    y8 as int,
                ) && ((p / bi) / wi - y8) * 8 + ((p / bi) % wi - x8) < k + 1 {
                    block_pixel_byte(
                        buf_y@,
                        buf_u@,
                        buf_v@,
                        ((p / bi) / wi - y8) * 8 + ((p / bi) % wi - x8),
                        p % bi,
                    )
                } else {
                    old(output)@[p]
                }) by {
                if base <= p < base + bi {
                    assert((p / bi) == pixi && p % bi == p - base);
                } else {
                    assert(output@[p] == before[p]);
                    if (p / bi) == pixi {
                        vstd::arithmetic::div_mod::lemma_fundamental_div_mod(p, bi);
                        assert(false);
                    }
                    if in_block(p, wi, bi, x8 as int, y8 as int) {
                        let pixp = p / bi;
                        let ap = pixp / wi - y8;
                        let bp = pixp % wi - x8;
                        if ap * 8 + bp == k {
                            lemma_fundamental_div_mod_converse_div(k as int, 8, ap, bp);
                            lemma_fundamental_div_mod_converse_mod(k as int, 8, ap, bp);
                            assert(pixp % wi == x && pixp / wi == y);
                            vstd::arithmetic::div_mod::lemma_fundamental_div_mod(pixp, wi);
                            assert(wi * (y as int) == (y as int) * wi) by (nonlinear_arith);
                            assert(pixp == pixi);
                            assert(false);
                        }
                    }
                }
            }
        }
        k = k + 1;
    }
}

/// The encoded stream, seen from block `i` on: the cursor of block `i`
/// lands right where the remaining chunk stream begins.
proof fn lemma_encode_suffix(data: Seq<u8>, w: int, h: int, i: int)
    requires
        valid_dimensions(w, h),
        0 <= i <= num_blocks(w, h),
    ensures
        chunk_start(encode_spec(data, w, h), i) == encode_spec(data, w, h).len()
            - encode_blocks(data, w, h, i).len(),
        encode_spec(data, w, h).subrange(
            chunk_start(encode_spec(data, w, h), i),
            encode_spec(data, w, h).len() as int,
        ) == encode_blocks(data, w, h, i),
        chunk_start(encode_spec(data, w, h), i) >= 9,
    decreases i,
{
    let b = encode_spec(data, w, h);
    if i == 0 {
        assert(b.subrange(9, b.len() as int) =~= encode_blocks(data, w, h, 0));
    } else {
        lemma_encode_suffix(data, w, h, i - 1);
        let cs = chunk_start(b, i - 1);
        let bx = (i - 1) % (w / 8);
        let by = (i - 1) / (w / 8);
        let payload = block_payload(data, w, 8 * bx, 8 * by);
        lemma_block_payload_bounded(data, w, 8 * bx, 8 * by);
        lemma_chunk_round_trip(payload);
        let ch = chunk_compress(payload);
        let rest = encode_blocks(data, w, h, i);
        assert(encode_blocks(data, w, h, i - 1) == seq![ch.len() as u8] + ch + rest);
        assert(encode_blocks(data, w, h, i - 1).len() == 1 + ch.len() + rest.len());
        assert(cs < b.len());
        let suf = b.subrange(cs, b.len() as int);
        assert(suf[0] == b[cs]);
        assert(suf[0] == ch.len() as u8);
        assert(b[cs] == ch.len());
        assert(chunk_start(b, i) == cs + 1 + ch.len());
        assert forall|j: int| 0 <= j < rest.len() implies b[cs + 1 + ch.len() + j] == rest[j] by {
            assert(suf[1 + ch.len() + j] == b[cs + 1 + ch.len() + j]);
            assert(suf[1 + ch.len() + j] == (seq![ch.len() as u8] + ch + rest)[1 + ch.len()
                + j]);
        }
        assert(b.subrange(chunk_start(b, i), b.len() as int) =~= rest);
    }
}

/// One encoded block decodes: its chunk stands at its cursor, it
/// decompresses, and the decoded planes are the block's luma plane and
/// its chroma planes after the mosaic / demosaic round trip.
proof fn lemma_encode_block_decodes(data: Seq<u8>, w: int, h: int, i: int)
    requires
        valid_dimensions(w, h),
        0 <= i < num_blocks(w, h),
    ensures
        block_ok(encode_spec(data, w, h), i),
        block_planes(encode_spec(data, w, h), i) == (
            plane_y(data, w, 8 * (i % (w / 8)), 8 * (i / (w / 8))),
            demosaic_seq(mosaic_seq(plane_u(data, w, 8 * (i % (w / 8)), 8 * (i / (w / 8))))),
            demosaic_seq(mosaic_seq(plane_v(data, w, 8 * (i % (w / 8)), 8 * (i / (w / 8))))),
        ),
{
    let b = encode_spec(data, w, h);
    lemma_encode_suffix(data, w, h, i);
    lemma_encode_suffix(data, w, h, i + 1);
    let cs = chunk_start(b, i);
    let bx = i % (w / 8);
    let by = i / (w / 8);
    let payload = block_payload(data, w, 8 * bx, 8 * by);
    lemma_block_payload_bounded(data, w, 8 * bx, 8 * by);
    lemma_chunk_round_trip(payload);
    let ch = chunk_compress(payload);
    let rest = encode_blocks(data, w, h, i + 1);
    assert(encode_blocks(data, w, h, i) == seq![ch.len() as u8] + ch + rest);
    assert(encode_blocks(data, w, h, i).len() == 1 + ch.len() + rest.len());
    assert(cs < b.len());
    let suf = b.subrange(cs, b.len() as int);
    assert(suf[0] == b[cs]);
    assert(suf[0] == ch.len() as u8);
    assert(b[cs] == ch.len());
    assert(cs + 1 + b[cs] <= b.len());
    assert forall|j: int| 0 <= j < ch.len() implies b[cs + 1 + j] == ch[j] by {
        assert(suf[1 + j] == b[cs + 1 + j]);
        assert(suf[1 + j] == (seq![ch.len() as u8] + ch + rest)[1 + j]);
    }
    assert(block_chunk(b, i) =~= ch);
    assert(chunk_decompress(block_chunk(b, i)) == Some(payload));
    let py = plane_y(data, w, 8 * bx, 8 * by);
    let mu = mosaic_seq(plane_u(data, w, 8 * bx, 8 * by));
    let mv = mosaic_seq(plane_v(data, w, 8 * bx, 8 * by));
    assert(payload.subrange(0, 64) =~= py);
    assert(payload.subrange(64, 80) =~= mu);
    assert(payload.subrange(80, 96) =~= mv);
}

/// Everything the encoder emits, the decoder accepts.  The encoded
/// stream of an image opens with a header that parses back to the same
/// dimensions; every block's chunk stands at its cursor and
/// decompresses; and block `i` decodes to its luma plane and its chroma
/// planes after the mosaic / demosaic round trip.
pub proof fn lemma_encoded_stream_decodes(data: Seq<u8>, w: int, h: int)
    requires
        valid_dimensions(w, h),
    ensures
        header_parses(encode_spec(data, w, h)),
        parsed_width(encode_spec(data, w, h)) == w,
        parsed_height(encode_spec(data, w, h)) == h,
        blocks_ok(encode_spec(data, w, h), num_blocks(w, h)),
        forall|i: int|
            0 <= i < num_blocks(w, h) ==> #[trigger] block_planes(encode_spec(data, w, h), i)
                == (
            plane_y(data, w, 8 * (i % (w / 8)), 8 * (i / (w / 8))),
            demosaic_seq(mosaic_seq(plane_u(data, w, 8 * (i % (w / 8)), 8 * (i / (w / 8))))),
            demosaic_seq(mosaic_seq(plane_v(data, w, 8 * (i % (w / 8)), 8 * (i / (w / 8))))),
            ),
{
    let b = encode_spec(data, w, h);
    crate::lemma_header_round_trip(w, h);
    assert forall|j: int| 0 <= j < 9 implies b[j] == header_bytes_spec(w, h, 0)[j] by {}
    assert(header_parses(b));
    assert(parsed_width(b) == w && parsed_height(b) == h);

    assert forall|i: int| 0 <= i < num_blocks(w, h) implies #[trigger] block_ok(b, i) by {
        lemma_encode_block_decodes(data, w, h, i);
    }
    assert forall|i: int|
        0 <= i < num_blocks(w, h) implies #[trigger] block_planes(b, i) == (
        plane_y(data, w, 8 * (i % (w / 8)), 8 * (i / (w / 8))),
        demosaic_seq(mosaic_seq(plane_u(data, w, 8 * (i % (w / 8)), 8 * (i / (w / 8))))),
        demosaic_seq(mosaic_seq(plane_v(data, w, 8 * (i % (w / 8)), 8 * (i / (w / 8))))),
        ) by {
        lemma_encode_block_decodes(data, w, h, i);
    }
    assert(blocks_ok(b, num_blocks(w, h)));
}

/// Pixel-level corollary of the encoder / decoder connection: the byte
/// the decoder yields for channel `c` of pixel (x, y) of an encoded
/// image is the reconstruction from that pixel's block: its luma plane
/// and its chroma planes after the mosaic / demosaic round trip.
pub proof fn lemma_encode_decode_pixel(data: Seq<u8>, w: int, h: int, x: int, y: int, c: int)
    requires
        valid_dimensions(w, h),
        0 <= x < w,
        0 <= y < h,
        0 <= c < 3,
    ensures
        decoded_byte(encode_spec(data, w, h), w, 3, (y * w + x) * 3 + c) == ({
            let x8 = 8 * (x / 8);
            let y8 = 8 * (y / 8);
            block_pixel_byte(
                plane_y(data, w, x8, y8),
                demosaic_seq(mosaic_seq(plane_u(data, w, x8, y8))),
                demosaic_seq(mosaic_seq(plane_v(data, w, x8, y8))),
                (y % 8) * 8 + x % 8,
                c,
            )
        }),
{
    lemma_encoded_stream_decodes(data, w, h);
    let b = encode_spec(data, w, h);
    let p = (y * w + x) * 3 + c;
    lemma_fundamental_div_mod_converse_div(p, 3, y * w + x, c);
    lemma_fundamental_div_mod_converse_mod(p, 3, y * w + x, c);
    assert(p / 3 == y * w + x && p % 3 == c);
    lemma_fundamental_div_mod_converse_div(y * w + x, w, y, x);
    lemma_fundamental_div_mod_converse_mod(y * w + x, w, y, x);
    assert((p / 3) % w == x && (p / 3) / w == y);
    let i = (y / 8) * (w / 8) + x / 8;
    let wb = w / 8;
    let hb = h / 8;
    assert(x / 8 < wb && y / 8 < hb) by (nonlinear_arith)
        requires
            0 <= x < w,
            0 <= y < h,
            w % 8 == 0,
            h % 8 == 0,
            wb == w / 8,
            hb == h / 8,
    ;
    lemma_grid_bound(x / 8, y / 8, wb, hb);
    assert(0 <= i < num_blocks(w, h));
    lemma_fundamental_div_mod_converse_div(i, wb, y / 8, x / 8);
    lemma_fundamental_div_mod_converse_mod(i, wb, y / 8, x / 8);
    assert(i % (w / 8) == x / 8 && i / (w / 8) == y / 8);
    assert(block_planes(b, i) == (
        plane_y(data, w, 8 * (x / 8), 8 * (y / 8)),
        demosaic_seq(mosaic_seq(plane_u(data, w, 8 * (x / 8), 8 * (y / 8)))),
        demosaic_seq(mosaic_seq(plane_v(data, w, 8 * (x / 8), 8 * (y / 8)))),
    ));
}

} // verus!
