//! Chroma subsampling: 2x2 averaging on encode (mosaic) and 2x2
//! replication on decode (demosaic).
//!
//! A 64-sample 8x8 chroma plane is reduced to a 4x4 grid of 16 samples by
//! averaging each 2x2 quad; decoding replicates each sample back into its
//! quad (nearest-neighbor upsampling).

use vstd::prelude::*;

verus! {

/// Average of the 2x2 quad of `plane` (an 8x8 grid, row-major, 64 samples)
/// that cell `j` of the 4x4 mosaic covers.
pub open spec fn mosaic_cell(plane: Seq<u8>, j: int) -> int {
    let base = (j / 4) * 16 + (j % 4) * 2;
    (plane[base] + plane[base + 1] + plane[base + 8] + plane[base + 9]) / 4
}

/// The 16-sample mosaic of a 64-sample plane.
pub open spec fn mosaic_seq(plane: Seq<u8>) -> Seq<u8> {
    Seq::new(16, |j: int| mosaic_cell(plane, j) as u8)
}

/// Index into the 4x4 mosaic that covers position `i` of the 8x8 plane.
pub open spec fn quad_index(i: int) -> int {
    (i / 8 / 2) * 4 + (i % 8) / 2
}

/// The 64-sample plane rebuilt from a 16-sample mosaic by replication.
pub open spec fn demosaic_seq(m: Seq<u8>) -> Seq<u8> {
    Seq::new(64, |i: int| m[quad_index(i)])
}

/// Mosaic the U and V planes of one block: each 2x2 quad of the 8x8 input
/// grids is averaged into one cell of the 4x4 output grids.
pub fn mosaic_uv(buf_u: &Vec<u8>, buf_v: &Vec<u8>) -> (r: (Vec<u8>, Vec<u8>))
    requires
        buf_u@.len() == 64,
        buf_v@.len() == 64,
    ensures
        r.0@ == mosaic_seq(buf_u@),
        r.1@ == mosaic_seq(buf_v@),
{
    let mut out_u: Vec<u8> = Vec::new();
    let mut out_v: Vec<u8> = Vec::new();

    let mut j: usize = 0;
    while j < 16
        invariant
            j <= 16,
            buf_u@.len() == 64,
            buf_v@.len() == 64,
            out_u@ =~= mosaic_seq(buf_u@).subrange(0, j as int),
            out_v@ =~= mosaic_seq(buf_v@).subrange(0, j as int),
        decreases 16 - j,
    {
        let base = (j / 4) * 16 + (j % 4) * 2;

        let u0 = buf_u[base] as u32;
        let u1 = buf_u[base + 1] as u32;
        let u2 = buf_u[base + 8] as u32;
        let u3 = buf_u[base + 9] as u32;
        out_u.push(((u0 + u1 + u2 + u3) / 4) as u8);

        let v0 = buf_v[base] as u32;
        let v1 = buf_v[base + 1] as u32;
        let v2 = buf_v[base + 8] as u32;
        let v3 = buf_v[base + 9] as u32;
        out_v.push(((v0 + v1 + v2 + v3) / 4) as u8);

        j = j + 1;
    }
    assert(out_u@ =~= mosaic_seq(buf_u@));
    assert(out_v@ =~= mosaic_seq(buf_v@));
    (out_u, out_v)
}

/// Rebuild a 64-sample chroma plane from its 16-sample mosaic by
/// replicating each sample into its 2x2 quad.
pub fn demosaic_uv(data: &Vec<u8>) -> (r: Vec<u8>)
    requires
        data@.len() == 16,
    ensures
        r@ == demosaic_seq(data@),
{
    let mut buf: Vec<u8> = Vec::new();
    let mut i: usize = 0;
    while i < 64
        invariant
            i <= 64,
            data@.len() == 16,
            buf@ =~= demosaic_seq(data@).subrange(0, i as int),
        decreases 64 - i,
    {
        let q = ((i / 8) / 2) * 4 + (i % 8) / 2;
        buf.push(data[q]);
        i = i + 1;
    }
    assert(buf@ =~= demosaic_seq(data@));
    buf
}

/// A plane whose samples are constant within each 2x2 quad survives the
/// mosaic / demosaic round trip unchanged.
pub proof fn lemma_mosaic_demosaic(plane: Seq<u8>)
    requires
        plane.len() == 64,
        forall|i: int| 0 <= i < 64 ==> plane[i] == plane[quad_base(i)],
    ensures
        demosaic_seq(mosaic_seq(plane)) =~= plane,
{
    assert forall|i: int| 0 <= i < 64 implies demosaic_seq(mosaic_seq(plane))[i]
        == plane[i] by {
        let b = quad_base(i);
        assert(plane[b] == plane[b + 1]) by {
            assert(quad_base(b + 1) == b);
        }
        assert(plane[b] == plane[b + 8]) by {
            assert(quad_base(b + 8) == b);
        }
        assert(plane[b] == plane[b + 9]) by {
            assert(quad_base(b + 9) == b);
        }
        assert(mosaic_cell(plane, quad_index(i)) == plane[b]);
    }
}

/// Row-major position of the top-left sample of the 2x2 quad that covers
/// position `i` of an 8x8 plane.
pub open spec fn quad_base(i: int) -> int {
    (i / 8 / 2) * 16 + ((i % 8) / 2) * 2
}

} // verus!
