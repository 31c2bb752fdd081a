//! The chunk codec: compression and decompression of the fixed 96-byte
//! block payload.
//!
//! A payload is compressed by one of three strategies, told apart on decode
//! purely by the chunk length:
//! - a greedy LZ-style scheme with back-references (length 5 to 71),
//! - a 6-bit compaction that packs four samples into three bytes (length 72),
//! - the raw payload (length 96; accepted on decode, never emitted).
//!
//! The encoder first attempts the LZ scheme and keeps its output only when
//! it is shorter than the compacted form; otherwise it emits the compaction.

use vstd::prelude::*;
use vstd::arithmetic::div_mod::{lemma_small_mod, lemma_mod_sub_multiples_vanish};

verus! {

/// Size of the uncompressed 96-byte payload.
pub const UNCOMPRESSED_SIZE: usize = 96;

/// Size of the 6-bit compacted form: 96 / 4 * 3 bytes.
pub const COMPACTED_SIZE: usize = 72;

/// Smallest possible LZ output: one literal plus two back-references.
pub const MINIMAL_COMPRESSED_SIZE: usize = 5;

/// Chunk lengths handled by the LZ decoder.
pub open spec fn valid_compressed_size(size: int) -> bool {
    5 <= size < 72
}

/// A chunk length is an LZ length exactly when it lies in 5..72.
pub fn is_valid_compressed_size(size: usize) -> (r: bool)
    ensures
        r == valid_compressed_size(size as int),
{
    size >= MINIMAL_COMPRESSED_SIZE && size < COMPACTED_SIZE
}

/// Length of the longest common prefix of the suffixes of `src` that start
/// at `lhs` and `rhs`; it stops at the end of the buffer.
pub open spec fn match_len(src: Seq<u8>, lhs: int, rhs: int) -> int
    decreases src.len() - lhs when 0 <= lhs <= src.len() && 0 <= rhs
{
    if lhs >= src.len() || rhs >= src.len() || src[lhs] != src[rhs] {
        0
    } else {
        1 + match_len(src, lhs + 1, rhs + 1)
    }
}

/// A match length is never negative, never runs past the end of the
/// buffer on either side, and the two matched ranges agree pointwise.
pub proof fn lemma_match_len_props(src: Seq<u8>, lhs: int, rhs: int)
    requires
        0 <= lhs <= src.len(),
        0 <= rhs <= src.len(),
    ensures
        0 <= match_len(src, lhs, rhs) <= src.len() - lhs,
        match_len(src, lhs, rhs) <= src.len() - rhs,
        forall|k: int|
            0 <= k < match_len(src, lhs, rhs) ==> src[lhs + k] == #[trigger] src[rhs + k],
    decreases src.len() - lhs,
{
    if lhs < src.len() && rhs < src.len() && src[lhs] == src[rhs] {
        lemma_match_len_props(src, lhs + 1, rhs + 1);
        let m = match_len(src, lhs, rhs);
        assert forall|k: int| 0 <= k < m implies src[lhs + k] == #[trigger] src[rhs + k] by {
            if k > 0 {
                assert(src[lhs + 1 + (k - 1)] == src[rhs + 1 + (k - 1)]);
            }
        }
    }
}

/// Compare the suffixes of `src` starting at `lhs` and `rhs` and return the
/// length of their longest common prefix.
pub fn check_len(src: &Vec<u8>, lhs: usize, rhs: usize) -> (len: usize)
    requires
        lhs <= src@.len(),
        rhs <= src@.len(),
    ensures
        len == match_len(src@, lhs as int, rhs as int),
        len <= src@.len() - lhs,
        len <= src@.len() - rhs,
{
    let n = src.len();
    let mut len: usize = 0;
    proof {
        lemma_match_len_props(src@, lhs as int, rhs as int);
    }
    loop
        invariant
            lhs + len <= n,
            rhs + len <= n,
            n == src@.len(),
            match_len(src@, lhs as int, rhs as int) == len + match_len(
                src@,
                lhs + len,
                rhs + len,
            ),
            match_len(src@, lhs + len as int, rhs + len as int) >= 0,
        ensures
            len == match_len(src@, lhs as int, rhs as int),
        decreases n - lhs - len,
    {
        if lhs + len >= n || rhs + len >= n {
            return len;
        }
        if src[lhs + len] != src[rhs + len] {
            return len;
        }
        len = len + 1;
        proof {
            lemma_match_len_props(src@, lhs + len as int, rhs + len as int);
        }
    }
}

/// Longest backward match found by scanning slides 1 up to `s` at position
/// `cursor`, as a (length, slide) pair.  Lengths are capped at 64; on equal
/// lengths the smaller slide wins; (0, 0) means no match at all.
pub open spec fn best_match_upto(src: Seq<u8>, cursor: int, s: int) -> (int, int)
    decreases s when s >= 0
{
    if s <= 0 {
        (0, 0)
    } else {
        let prev = best_match_upto(src, cursor, s - 1);
        let m = match_len(src, cursor, cursor - s);
        let l = if m > 64 {
            64
        } else {
            m
        };
        if prev.0 < l {
            (l, s)
        } else {
            prev
        }
    }
}

/// The best match never exceeds 64 samples or the end of the buffer, and a
/// found match reports a usable slide whose match really has that length.
pub proof fn lemma_best_match_props(src: Seq<u8>, cursor: int, s: int)
    requires
        0 <= s <= cursor <= src.len(),
    ensures
        0 <= best_match_upto(src, cursor, s).0 <= 64,
        best_match_upto(src, cursor, s).0 <= src.len() - cursor,
        best_match_upto(src, cursor, s).0 >= 1 ==> {
            let (l, sl) = best_match_upto(src, cursor, s);
            &&& 1 <= sl <= s
            &&& match_len(src, cursor, cursor - sl) >= l
        },
        best_match_upto(src, cursor, s).0 == 0 ==> best_match_upto(src, cursor, s).1 == 0,
    decreases s,
{
    if s > 0 {
        lemma_best_match_props(src, cursor, s - 1);
        lemma_match_len_props(src, cursor, cursor - s);
    }
}

/// The LZ stream that the greedy compressor emits for the suffix of `src`
/// that starts at `cursor`: a literal byte for an unmatched sample, or an
/// opcode byte (0x40 plus length minus 3) and a slide byte for a match of
/// length at least 3.
pub open spec fn lz_compress_from(src: Seq<u8>, cursor: int) -> Seq<u8>
    decreases src.len() - cursor when cursor >= 0
{
    if cursor >= src.len() {
        Seq::empty()
    } else {
        let max_slide = if cursor > 64 {
            64
        } else {
            cursor
        };
        let bm = best_match_upto(src, cursor, max_slide);
        if bm.0 >= 3 {
            let next = if cursor + bm.0 > src.len() {
                src.len() as int
            } else {
                cursor + bm.0
            };
            seq![(0x40 + bm.0 - 3) as u8, (bm.1 - 1) as u8] + lz_compress_from(src, next)
        } else {
            seq![src[cursor]] + lz_compress_from(src, cursor + 1)
        }
    }
}

/// The bytes a back-reference appends: `len` bytes copied from the last
/// `slide` bytes of the output so far, wrapping around for a
/// self-referential copy (slide smaller than len).
pub open spec fn copy_back(acc: Seq<u8>, slide: int, len: int) -> Seq<u8> {
    Seq::new(len as nat, |j: int| acc[acc.len() - slide + (j % slide)])
}

/// One pass of the LZ decoder over `stream` from read position `i`, with
/// `acc` the output built so far.  `None` is a malformed stream: a reserved
/// opcode, a truncated back-reference, a slide running off the start, or
/// output past 96 bytes.
pub open spec fn lz_exec_at(stream: Seq<u8>, i: int, acc: Seq<u8>) -> Option<Seq<u8>>
    decreases stream.len() - i when i >= 0
{
    if i >= stream.len() {
        Some(acc)
    } else {
        let op = stream[i];
        if op < 0x40 {
            lz_exec_at(stream, i + 1, acc.push(op))
        } else if op < 0x80 {
            if i + 1 < stream.len() {
                let len = op - 0x40 + 3;
                let slide = stream[i + 1] % 128 + 1;
                if slide <= acc.len() && acc.len() + len <= 96 {
                    lz_exec_at(stream, i + 2, acc + copy_back(acc, slide as int, len as int))
                } else {
                    None
                }
            } else {
                None
            }
        } else {
            None
        }
    }
}

/// A whole LZ chunk decodes to the 96-byte payload it encodes, or to
/// nothing if the stream is malformed or yields the wrong length.
pub open spec fn lz_decode(stream: Seq<u8>) -> Option<Seq<u8>> {
    match lz_exec_at(stream, 0, Seq::empty()) {
        Some(p) => if p.len() == 96 {
            Some(p)
        } else {
            None
        },
        None => None,
    }
}

/// The chunk the compressor emits for payload `p`: the LZ stream when it
/// is shorter than the compacted form, the compacted form otherwise.
pub open spec fn chunk_compress(p: Seq<u8>) -> Seq<u8> {
    let lz = lz_compress_from(p, 0);
    if lz.len() < 72 {
        lz
    } else {
        compact_seq(p)
    }
}

/// The payload a chunk decodes to, dispatched purely on the chunk length:
/// 96 is the raw payload, 72 the compacted form, 5 to 71 an LZ stream, and
/// every other length is malformed.
pub open spec fn chunk_decompress(s: Seq<u8>) -> Option<Seq<u8>> {
    if s.len() == 96 {
        Some(s)
    } else if s.len() == 72 {
        Some(uncompact_seq(s))
    } else if valid_compressed_size(s.len() as int) {
        lz_decode(s)
    } else {
        None
    }
}

/// Decoding a concatenated stream from the start of its tail part only
/// looks at the tail: the read cursor never moves backwards.
proof fn lemma_lz_exec_shift(pre: Seq<u8>, rest: Seq<u8>, k: int, acc: Seq<u8>)
    requires
        0 <= k,
    ensures
        lz_exec_at(pre + rest, pre.len() + k, acc) == lz_exec_at(rest, k, acc),
    decreases rest.len() - k,
{
    let stream = pre + rest;
    let i = pre.len() + k;
    if k >= rest.len() {
    } else {
        let op = rest[k];
        assert(stream[i] == op);
        if op < 0x40 {
            lemma_lz_exec_shift(pre, rest, k + 1, acc.push(op));
        } else if op < 0x80 {
            if k + 1 < rest.len() {
                assert(stream[i + 1] == rest[k + 1]);
                let len = op - 0x40 + 3;
                let slide = rest[k + 1] % 128 + 1;
                if slide <= acc.len() && acc.len() + len <= 96 {
                    lemma_lz_exec_shift(
                        pre,
                        rest,
                        k + 2,
                        acc + copy_back(acc, slide as int, len as int),
                    );
                }
            }
        }
    }
}

/// A back-reference emitted at `cursor` with slide `s` and length `l`
/// copies exactly the next `l` source bytes: the copied range repeats the
/// `s` bytes before `cursor` cyclically, and the match found by the
/// compressor says the source does the same.
proof fn lemma_copy_back_matches(src: Seq<u8>, cursor: int, s: int, l: int)
    requires
        0 <= l,
        1 <= s <= cursor,
        cursor + l <= src.len(),
        match_len(src, cursor, cursor - s) >= l,
    ensures
        copy_back(src.subrange(0, cursor), s, l) =~= src.subrange(cursor, cursor + l),
{
    lemma_match_len_props(src, cursor, cursor - s);
    assert forall|j: int| 0 <= j < l implies copy_back(src.subrange(0, cursor), s, l)[j]
        == src.subrange(cursor, cursor + l)[j] by {
        lemma_cyclic_match(src, cursor, s, j);
        assert(copy_back(src.subrange(0, cursor), s, l)[j] == src[cursor - s + (j % s)]);
    }
}

/// Pointwise form of the cyclic copy: if the `s` bytes before `cursor`
/// match the bytes from `cursor` on for at least `j + 1` samples, then
/// sample `cursor + j` equals the sample `j % s` positions into the window.
proof fn lemma_cyclic_match(src: Seq<u8>, cursor: int, s: int, j: int)
    requires
        1 <= s <= cursor,
        0 <= j,
        cursor + j < src.len(),
        match_len(src, cursor, cursor - s) > j,
    ensures
        src[cursor + j] == src[cursor - s + (j % s)],
    decreases j,
{
    lemma_match_len_props(src, cursor, cursor - s);
    assert(src[cursor + j] == src[cursor - s + j]);
    if j < s {
        lemma_small_mod(j as nat, s as nat);
        assert(j % s == j);
    } else {
        lemma_cyclic_match(src, cursor, s, j - s);
        lemma_mod_sub_multiples_vanish(j, s);
        assert((j - s) % s == j % s);
        assert(src[cursor - s + j] == src[cursor + (j - s)]);
    }
}

/// The stream the compressor emits for the suffix at `cursor` decodes on
/// top of the already-decoded prefix to the whole payload.
proof fn lemma_lz_compress_decodes(src: Seq<u8>, cursor: int)
    requires
        src.len() == 96,
        forall|i: int| 0 <= i < 96 ==> src[i] <= 0x3F,
        0 <= cursor <= 96,
    ensures
        lz_exec_at(lz_compress_from(src, cursor), 0, src.subrange(0, cursor)) == Some(src),
    decreases 96 - cursor,
{
    let acc = src.subrange(0, cursor);
    if cursor >= 96 {
        assert(acc =~= src);
    } else {
        let max_slide = if cursor > 64 {
            64
        } else {
            cursor
        };
        let bm = best_match_upto(src, cursor, max_slide);
        lemma_best_match_props(src, cursor, max_slide);
        if bm.0 >= 3 {
            let l = bm.0;
            let s = bm.1;
            let next = cursor + l;
            let pre = seq![(0x40 + l - 3) as u8, (s - 1) as u8];
            let rest = lz_compress_from(src, next);
            let stream = pre + rest;
            assert(lz_compress_from(src, cursor) == stream);
            assert(stream[0] == 0x40 + l - 3 && stream[1] == s - 1);
            let acc2 = acc + copy_back(acc, s, l);
            lemma_copy_back_matches(src, cursor, s, l);
            assert(acc2 =~= src.subrange(0, next));
            assert(lz_exec_at(stream, 0, acc) == lz_exec_at(stream, 2, acc2));
            lemma_lz_exec_shift(pre, rest, 0, acc2);
            lemma_lz_compress_decodes(src, next);
        } else {
            let pre = seq![src[cursor]];
            let rest = lz_compress_from(src, cursor + 1);
            let stream = pre + rest;
            assert(lz_compress_from(src, cursor) == stream);
            assert(stream[0] == src[cursor]);
            let acc2 = acc.push(src[cursor]);
            assert(acc2 =~= src.subrange(0, cursor + 1));
            assert(lz_exec_at(stream, 0, acc) == lz_exec_at(stream, 1, acc2));
            lemma_lz_exec_shift(pre, rest, 0, acc2);
            lemma_lz_compress_decodes(src, cursor + 1);
        }
    }
}

/// Fewest stream bytes the compressor can emit for `n` remaining payload
/// samples: a match advances at most 64 samples for two bytes.
pub open spec fn lz_min_emitted(n: int) -> int {
    if n >= 66 {
        4
    } else if n == 65 {
        3
    } else if n >= 2 {
        2
    } else if n == 1 {
        1
    } else {
        0
    }
}

/// Length bounds of the emitted LZ stream: never longer than the remaining
/// payload, never shorter than `lz_min_emitted` of it.
proof fn lemma_lz_len_bounds(src: Seq<u8>, cursor: int)
    requires
        src.len() == 96,
        0 <= cursor <= 96,
    ensures
        lz_min_emitted(96 - cursor) <= lz_compress_from(src, cursor).len() <= 96 - cursor,
    decreases 96 - cursor,
{
    if cursor < 96 {
        let max_slide = if cursor > 64 {
            64
        } else {
            cursor
        };
        lemma_best_match_props(src, cursor, max_slide);
        let bm = best_match_upto(src, cursor, max_slide);
        if bm.0 >= 3 {
            lemma_lz_len_bounds(src, cursor + bm.0);
        } else {
            lemma_lz_len_bounds(src, cursor + 1);
        }
    }
}

/// The LZ pass over a whole payload emits between 5 and 96 bytes.
pub proof fn lemma_lz_whole_len(src: Seq<u8>)
    requires
        src.len() == 96,
    ensures
        5 <= lz_compress_from(src, 0).len() <= 96,
{
    assert(best_match_upto(src, 0, 0) == (0int, 0int));
    assert(lz_compress_from(src, 0) == seq![src[0]] + lz_compress_from(src, 1));
    lemma_lz_len_bounds(src, 1);
}

/// The round-trip law of the chunk codec: compressing any payload of 96
/// 6-bit samples gives a chunk of a valid size (5 to 71 for the LZ
/// strategy, or exactly 72 for the compaction) that decompresses back to
/// exactly that payload.
pub proof fn lemma_chunk_round_trip(p: Seq<u8>)
    requires
        p.len() == 96,
        forall|i: int| 0 <= i < 96 ==> p[i] <= 0x3F,
    ensures
        chunk_decompress(chunk_compress(p)) == Some(p),
        5 <= chunk_compress(p).len() <= 72,
        valid_compressed_size(chunk_compress(p).len() as int) || chunk_compress(p).len() == 72,
{
    let lz = lz_compress_from(p, 0);
    lemma_lz_whole_len(p);
    if lz.len() < 72 {
        lemma_lz_compress_decodes(p, 0);
        assert(p.subrange(0, 0) =~= Seq::<u8>::empty());
        assert(lz_exec_at(lz, 0, Seq::empty()) == Some(p));
    } else {
        lemma_compact_round_trip(p);
    }
}

/// Compress a 96-byte payload of 6-bit samples.  The greedy LZ pass runs
/// first; its output is kept only when it is shorter than the 72-byte
/// compacted form, which is emitted otherwise.  The chunk always
/// decompresses back to exactly the input payload.
pub fn compress(src: &Vec<u8>) -> (out: Vec<u8>)
    requires
        src@.len() == 96,
        forall|i: int| 0 <= i < 96 ==> src@[i] <= 0x3F,
    ensures
        out@ == chunk_compress(src@),
        chunk_decompress(out@) == Some(src@),
        5 <= out@.len() <= 72,
{
    let mut out: Vec<u8> = Vec::new();

    // LZ pass
    let mut cursor: usize = 0;
    proof {
        assert(out@ + lz_compress_from(src@, 0) =~= lz_compress_from(src@, 0));
    }
    while cursor < 96
        invariant
            src@.len() == 96,
            forall|i: int| 0 <= i < 96 ==> src@[i] <= 0x3F,
            cursor <= 96,
            out@ + lz_compress_from(src@, cursor as int) == lz_compress_from(src@, 0),
        decreases 96 - cursor,
    {
        let max_slide = if cursor < 64 {
            cursor
        } else {
            64
        };
        let mut best_len: usize = 0;
        let mut best_slide: usize = 0;
        let mut slide: usize = 1;
        while slide <= max_slide
            invariant
                src@.len() == 96,
                cursor < 96,
                max_slide <= cursor,
                max_slide <= 64,
                1 <= slide <= max_slide + 1,
                (best_len as int, best_slide as int) == best_match_upto(
                    src@,
                    cursor as int,
                    slide - 1,
                ),
            decreases max_slide + 1 - slide,
        {
            let l0 = check_len(src, cursor, cursor - slide);
            let l = if l0 > 64 {
                64
            } else {
                l0
            };
            if best_len < l {
                best_len = l;
                best_slide = slide;
            }
            slide = slide + 1;
        }
        proof {
            lemma_best_match_props(src@, cursor as int, max_slide as int);
        }
        let ghost prev_out = out@;
        let advance: usize = if best_len >= 3 {
            out.push(0x40 + (best_len - 3) as u8);
            out.push((best_slide - 1) as u8);
            best_len
        } else {
            out.push(src[cursor]);
            1
        };
        proof {
            let c = cursor as int;
            if best_len >= 3 {
                assert(lz_compress_from(src@, c) == seq![
                    (0x40 + best_len - 3) as u8,
                    (best_slide - 1) as u8,
                ] + lz_compress_from(src@, c + best_len));
                assert(out@ =~= prev_out + seq![
                    (0x40 + best_len - 3) as u8,
                    (best_slide - 1) as u8,
                ]);
            } else {
                assert(lz_compress_from(src@, c) == seq![src@[c]] + lz_compress_from(
                    src@,
                    c + 1,
                ));
                assert(out@ =~= prev_out + seq![src@[c]]);
            }
            assert(out@ + lz_compress_from(src@, c + advance) =~= prev_out
                + lz_compress_from(src@, c));
        }
        cursor = cursor + advance;
    }
    assert(out@ == lz_compress_from(src@, 0));
    proof {
        lemma_lz_whole_len(src@);
        lemma_chunk_round_trip(src@);
    }

    if out.len() < COMPACTED_SIZE {
        return out;
    }

    // 6-bit compaction
    out.clear();
    let mut g: usize = 0;
    while g < 24
        invariant
            src@.len() == 96,
            g <= 24,
            out@ =~= compact_seq(src@).subrange(0, 3 * g),
        decreases 24 - g,
    {
        let s1 = (src[4 * g] % 64) as u32;
        let s2 = (src[4 * g + 1] % 64) as u32;
        let s3 = (src[4 * g + 2] % 64) as u32;
        let s4 = (src[4 * g + 3] % 64) as u32;
        let d = s1 + s2 * 64 + s3 * 4096 + s4 * 262144;

        out.push((d % 256) as u8);
        out.push(((d / 256) % 256) as u8);
        out.push((d / 65536) as u8);

        proof {
            let gi = g as int;
            assert(compact_group(src@, gi) == d);
            assert((3 * gi) / 3 == gi && (3 * gi + 1) / 3 == gi && (3 * gi + 2) / 3 == gi);
            assert((3 * gi) % 3 == 0 && (3 * gi + 1) % 3 == 1 && (3 * gi + 2) % 3 == 2);
            assert(out@ =~= compact_seq(src@).subrange(0, 3 * (gi + 1)));
        }
        g = g + 1;
    }
    assert(out@ =~= compact_seq(src@));
    out
}

/// Decompress a chunk into its 96-byte payload.  The strategy is told
/// apart by the chunk length alone; `None` reports malformed data: an
/// unknown length, a reserved opcode, a truncated or out-of-bounds
/// back-reference, or an LZ stream that does not yield exactly 96 bytes.
pub fn decompress(src: &[u8]) -> (r: Option<Vec<u8>>)
    ensures
        match r {
            Some(out) => chunk_decompress(src@) == Some(out@) && out@.len() == 96,
            None => chunk_decompress(src@) is None,
        },
{
    let n = src.len();
    let mut out: Vec<u8> = Vec::new();
    if n == UNCOMPRESSED_SIZE {
        // raw payload
        let mut i: usize = 0;
        while i < 96
            invariant
                src@.len() == 96,
                i <= 96,
                out@ =~= src@.subrange(0, i as int),
            decreases 96 - i,
        {
            out.push(src[i]);
            i = i + 1;
        }
        assert(out@ =~= src@);
        Some(out)
    } else if n == COMPACTED_SIZE {
        // 6-bit compacted payload
        let mut g: usize = 0;
        while g < 24
            invariant
                src@.len() == 72,
                g <= 24,
                out@ =~= uncompact_seq(src@).subrange(0, 4 * g),
            decreases 24 - g,
        {
            let b1 = src[3 * g] as u32;
            let b2 = src[3 * g + 1] as u32;
            let b3 = src[3 * g + 2] as u32;
            let d = b1 + b2 * 256 + b3 * 65536;

            out.push((d % 64) as u8);
            out.push(((d / 64) % 64) as u8);
            out.push(((d / 4096) % 64) as u8);
            out.push(((d / 262144) % 64) as u8);

            proof {
                let gi = g as int;
                assert(uncompact_group(src@, gi) == d);
                assert((4 * gi) / 4 == gi && (4 * gi + 1) / 4 == gi && (4 * gi + 2) / 4 == gi
                    && (4 * gi + 3) / 4 == gi);
                assert((4 * gi) % 4 == 0 && (4 * gi + 1) % 4 == 1 && (4 * gi + 2) % 4 == 2 && (
                4 * gi + 3) % 4 == 3);
                assert(out@ =~= uncompact_seq(src@).subrange(0, 4 * (gi + 1)));
            }
            g = g + 1;
        }
        assert(out@ =~= uncompact_seq(src@));
        Some(out)
    } else if is_valid_compressed_size(n) {
        // LZ stream
        let mut cursor: usize = 0;
        while cursor < n
            invariant
                n == src@.len(),
                valid_compressed_size(n as int),
                cursor <= n,
                lz_exec_at(src@, cursor as int, out@) == lz_exec_at(src@, 0, Seq::empty()),
            decreases n - cursor,
        {
            let op = src[cursor];
            if op < 0x40 {
                out.push(op);
                cursor = cursor + 1;
            } else if op < 0x80 {
                if cursor + 1 >= n {
                    proof {
                        assert(lz_exec_at(src@, cursor as int, out@) is None);
                    }
                    return None;
                }
                let len = (op - 0x40) as usize + 3;
                let slide = (src[cursor + 1] % 128) as usize + 1;
                if slide > out.len() || out.len() > 96 - len {
                    proof {
                        assert(len == op - 0x40 + 3);
                        assert(slide == src@[cursor + 1] % 128 + 1);
                        assert(lz_exec_at(src@, cursor as int, out@) is None);
                    }
                    return None;
                }
                let base = out.len() - slide;
                let ghost acc = out@;
                let mut k: usize = 0;
                while k < len
                    invariant
                        1 <= slide <= acc.len(),
                        base == acc.len() - slide,
                        acc.len() + len <= 96,
                        k <= len,
                        out@ =~= acc + copy_back(acc, slide as int, len as int).subrange(
                            0,
                            k as int,
                        ),
                    decreases len - k,
                {
                    let v = out[base + k];
                    proof {
                        if k < slide {
                            lemma_small_mod(k as nat, slide as nat);
                            assert(v == acc[base + (k as int % slide as int)]);
                        } else {
                            lemma_mod_sub_multiples_vanish(k as int, slide as int);
                            assert((k - slide) % (slide as int) == k as int % slide as int);
                            assert(v == copy_back(acc, slide as int, len as int)[k - slide]);
                            assert(v == acc[base + (k as int % slide as int)]);
                        }
                        assert(v == copy_back(acc, slide as int, len as int)[k as int]);
                    }
                    out.push(v);
                    proof {
                        assert(out@ =~= acc + copy_back(acc, slide as int, len as int).subrange(
                            0,
                            k + 1,
                        ));
                    }
                    k = k + 1;
                }
                proof {
                    assert(copy_back(acc, slide as int, len as int).subrange(0, len as int)
                        =~= copy_back(acc, slide as int, len as int));
                }
                cursor = cursor + 2;
            } else {
                return None;
            }
        }
        if out.len() == 96 {
            Some(out)
        } else {
            None
        }
    } else {
        None
    }
}

/// The 24-bit group value packing payload samples `4 g .. 4 g + 4`.
pub open spec fn compact_group(p: Seq<u8>, g: int) -> int {
    (p[4 * g] % 64) + 64 * (p[4 * g + 1] % 64) + 4096 * (p[4 * g + 2] % 64) + 262144 * (p[4 * g
        + 3] % 64)
}

/// The 72-byte compacted form of a 96-byte payload: each group of four
/// 6-bit samples becomes three little-endian bytes of a 24-bit value.
pub open spec fn compact_seq(p: Seq<u8>) -> Seq<u8> {
    Seq::new(72, |j: int| (compact_byte(p, j)) as u8)
}

/// Byte `j` of the compacted form.
pub open spec fn compact_byte(p: Seq<u8>, j: int) -> int {
    let d = compact_group(p, j / 3);
    if j % 3 == 0 {
        d % 256
    } else if j % 3 == 1 {
        (d / 256) % 256
    } else {
        d / 65536
    }
}

/// The 24-bit group value read back from compacted bytes `3 g .. 3 g + 3`.
pub open spec fn uncompact_group(s: Seq<u8>, g: int) -> int {
    s[3 * g] + 256 * s[3 * g + 1] + 65536 * s[3 * g + 2]
}

/// The 96-byte payload read back from a 72-byte compacted chunk.
pub open spec fn uncompact_seq(s: Seq<u8>) -> Seq<u8> {
    Seq::new(96, |i: int| (uncompact_byte(s, i)) as u8)
}

/// Sample `i` of the payload read back from a compacted chunk.
pub open spec fn uncompact_byte(s: Seq<u8>, i: int) -> int {
    let d = uncompact_group(s, i / 4);
    if i % 4 == 0 {
        d % 64
    } else if i % 4 == 1 {
        (d / 64) % 64
    } else if i % 4 == 2 {
        (d / 4096) % 64
    } else {
        (d / 262144) % 64
    }
}

/// Compaction followed by expansion restores any payload of 6-bit samples.
pub proof fn lemma_compact_round_trip(p: Seq<u8>)
    requires
        p.len() == 96,
        forall|i: int| 0 <= i < 96 ==> p[i] <= 0x3F,
    ensures
        uncompact_seq(compact_seq(p)) =~= p,
{
    assert forall|i: int| 0 <= i < 96 implies uncompact_seq(compact_seq(p))[i] == p[i] by {
        let g = i / 4;
        lemma_group_round_trip(p, g);
        assert(uncompact_byte(compact_seq(p), i) == p[i]);
    }
}

/// The three compacted bytes of one group reassemble to the group value,
/// and the four 6-bit samples can be read back out of it.
proof fn lemma_group_round_trip(p: Seq<u8>, g: int)
    requires
        p.len() == 96,
        0 <= g < 24,
        forall|i: int| 0 <= i < 96 ==> p[i] <= 0x3F,
    ensures
        uncompact_group(compact_seq(p), g) == compact_group(p, g),
        uncompact_byte(compact_seq(p), 4 * g) == p[4 * g],
        uncompact_byte(compact_seq(p), 4 * g + 1) == p[4 * g + 1],
        uncompact_byte(compact_seq(p), 4 * g + 2) == p[4 * g + 2],
        uncompact_byte(compact_seq(p), 4 * g + 3) == p[4 * g + 3],
{
    let s1 = p[4 * g] as int;
    let s2 = p[4 * g + 1] as int;
    let s3 = p[4 * g + 2] as int;
    let s4 = p[4 * g + 3] as int;
    let d = compact_group(p, g);
    assert(d == s1 + 64 * s2 + 4096 * s3 + 262144 * s4);
    assert(0 <= d < 16777216);

    assert(compact_seq(p)[3 * g] == d % 256);
    assert(compact_seq(p)[3 * g + 1] == (d / 256) % 256);
    assert(compact_seq(p)[3 * g + 2] == d / 65536);
    assert((3 * g) / 3 == g && (3 * g + 1) / 3 == g && (3 * g + 2) / 3 == g);
    assert((3 * g) % 3 == 0 && (3 * g + 1) % 3 == 1 && (3 * g + 2) % 3 == 2);

    assert(d % 256 + 256 * ((d / 256) % 256) + 65536 * (d / 65536) == d) by (nonlinear_arith)
        requires 0 <= d < 16777216;
    assert(uncompact_group(compact_seq(p), g) == d);

    assert((4 * g) / 4 == g && (4 * g + 1) / 4 == g && (4 * g + 2) / 4 == g && (4 * g + 3) / 4
        == g);
    assert((4 * g) % 4 == 0 && (4 * g + 1) % 4 == 1 && (4 * g + 2) % 4 == 2 && (4 * g + 3) % 4
        == 3);
    assert(d % 64 == s1 && (d / 64) % 64 == s2 && (d / 4096) % 64 == s3 && (d / 262144) % 64
        == s4) by (nonlinear_arith)
        requires
            d == s1 + 64 * s2 + 4096 * s3 + 262144 * s4,
            0 <= s1 < 64,
            0 <= s2 < 64,
            0 <= s3 < 64,
            0 <= s4 < 64;
}

} // verus!
