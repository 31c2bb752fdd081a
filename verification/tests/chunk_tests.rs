//! Chunk codec tests: strategy selection, sizes, and round trips.

use mpic::chunk::{compress, decompress, is_valid_compressed_size};

fn round_trip(source: Vec<u8>, expect_compressed: bool) {
    assert_eq!(source.len(), 96);
    let packed = compress(&source);
    if expect_compressed {
        assert!(
            is_valid_compressed_size(packed.len()),
            "is_compressed failed: {}",
            packed.len()
        );
    } else {
        assert!(
            !is_valid_compressed_size(packed.len()),
            "is_not_compressed failed: {}",
            packed.len()
        );
    }
    let unpacked = decompress(packed.as_slice()).unwrap();
    assert_eq!(source.as_slice(), unpacked.as_slice());
}

#[test]
fn compress_all_zero() {
    let mut source = Vec::new();
    for _ in 0..96 {
        source.push(0);
    }
    round_trip(source, true);
}

#[test]
fn compress_all_max() {
    let mut source = Vec::new();
    for _ in 0..96 {
        source.push(0x3F);
    }
    round_trip(source, true);
}

#[test]
fn compress_all_test_2a() {
    let mut source = Vec::new();
    for _ in 0..96 {
        source.push(0x2A);
    }
    round_trip(source, true);
}

#[test]
fn compress_all_test_15() {
    let mut source = Vec::new();
    for _ in 0..96 {
        source.push(0x15);
    }
    round_trip(source, true);
}

#[test]
fn compress_ordered_compressed() {
    let mut source = Vec::new();
    for i in 0..96u8 {
        source.push(i & 0x3F);
    }
    round_trip(source, true);
}

#[test]
fn compress_ordered_double_not_compressed() {
    let mut source = Vec::new();
    for i in 0..96u8 {
        source.push(i >> 1);
    }
    round_trip(source, false);
}

#[test]
fn compress_ordered_triple_not_compressed() {
    let mut source = Vec::new();
    for i in 0..96u8 {
        source.push(i / 3);
    }
    round_trip(source, false);
}

#[test]
fn compress_ordered_quadruple_not_compressed() {
    let mut source = Vec::new();
    for i in 0..96u8 {
        source.push(i / 4);
    }
    round_trip(source, false);
}

#[test]
fn compress_ordered_quintuple_compressed() {
    let mut source = Vec::new();
    for i in 0..96u8 {
        source.push(i / 5);
    }
    round_trip(source, true);
}

#[test]
fn compress_repeat_2() {
    let mut source = Vec::new();
    for _ in 0..48 {
        source.push(0x01);
        source.push(0x34);
    }
    round_trip(source, true);
}

#[test]
fn compress_repeat_4() {
    let mut source = Vec::new();
    for _ in 0..24 {
        source.push(0x15);
        source.push(0x2A);
        source.push(0x0C);
        source.push(0x33);
    }
    round_trip(source, true);
}

#[test]
fn compress_repeat_checked() {
    let mut source = Vec::new();
    for _ in 0..4 {
        for _ in 0..4 {
            source.push(0x15);
            source.push(0x2A);
        }
        for _ in 0..4 {
            source.push(0x2A);
            source.push(0x15);
        }
    }
    for _ in 0..16 {
        source.push(0x15);
    }
    for _ in 0..16 {
        source.push(0x2A);
    }
    round_trip(source, true);
}

#[test]
fn run_of_zeros_compresses_to_five_bytes() {
    let source = vec![0u8; 96];
    let packed = compress(&source);
    assert_eq!(packed.len(), 5);
    let unpacked = decompress(packed.as_slice()).unwrap();
    assert_eq!(unpacked, vec![0u8; 96]);
}

#[test]
fn run_of_max_samples_compresses_to_five_bytes() {
    let source = vec![0x3Fu8; 96];
    let packed = compress(&source);
    assert_eq!(packed.len(), 5);
    let unpacked = decompress(packed.as_slice()).unwrap();
    assert_eq!(unpacked, vec![0x3Fu8; 96]);
}

#[test]
fn ordered_samples_stay_under_compaction_size() {
    // A rising ramp matches itself 64 samples back, so the LZ pass wins
    // over the 72-byte compaction.
    let mut source = Vec::new();
    for i in 0..96u8 {
        source.push(i & 0x3F);
    }
    let packed = compress(&source);
    assert_eq!(packed.len(), 66);
}

#[test]
fn two_sample_pattern_compresses() {
    let mut source = Vec::new();
    for _ in 0..48 {
        source.push(0x01);
        source.push(0x34);
    }
    let packed = compress(&source);
    assert!(packed.len() < 72);
    let unpacked = decompress(packed.as_slice()).unwrap();
    assert_eq!(source, unpacked);
}

#[test]
fn incompressible_payload_uses_compaction() {
    let mut source = Vec::new();
    for i in 0..96u8 {
        source.push(i / 4);
    }
    let packed = compress(&source);
    assert_eq!(packed.len(), 72);
    let unpacked = decompress(packed.as_slice()).unwrap();
    assert_eq!(source, unpacked);
}

#[test]
fn compressed_size_bounds() {
    assert!(!is_valid_compressed_size(0));
    assert!(!is_valid_compressed_size(4));
    assert!(is_valid_compressed_size(5));
    assert!(is_valid_compressed_size(71));
    assert!(!is_valid_compressed_size(72));
    assert!(!is_valid_compressed_size(96));
}

#[test]
fn raw_chunk_of_96_bytes_is_accepted_verbatim() {
    let mut raw = Vec::new();
    for i in 0..96 {
        raw.push((i * 7 % 256) as u8);
    }
    let unpacked = decompress(raw.as_slice()).unwrap();
    assert_eq!(raw, unpacked);
}

#[test]
fn invalid_chunk_sizes_are_rejected() {
    assert!(decompress(&[]).is_none());
    assert!(decompress(&[0x00; 4]).is_none());
    assert!(decompress(&[0x00; 73]).is_none());
    assert!(decompress(&[0x00; 95]).is_none());
    assert!(decompress(&[0x00; 97]).is_none());
}

#[test]
fn reserved_opcode_is_rejected() {
    let mut chunk = vec![0x00u8; 10];
    chunk[3] = 0x80;
    assert!(decompress(chunk.as_slice()).is_none());
}

#[test]
fn back_reference_before_start_is_rejected() {
    // The first opcode is a back-reference, but nothing has been decoded
    // yet to copy from.
    let chunk = vec![0x40u8, 0x00, 0x00, 0x00, 0x00];
    assert!(decompress(chunk.as_slice()).is_none());
}

#[test]
fn truncated_back_reference_is_rejected() {
    // The stream ends right after a back-reference opcode byte.
    let chunk = vec![0x00u8, 0x00, 0x00, 0x00, 0x40];
    assert!(decompress(chunk.as_slice()).is_none());
}

#[test]
fn short_output_is_rejected() {
    // Five literals decode to five bytes, not 96.
    let chunk = vec![0x01u8, 0x02, 0x03, 0x04, 0x05];
    assert!(decompress(chunk.as_slice()).is_none());
}

#[test]
fn oversized_output_is_rejected() {
    // One literal and two maximal back-references overshoot 96 bytes.
    let chunk = vec![0x00u8, 0x7D, 0x00, 0x7D, 0x00];
    assert!(decompress(chunk.as_slice()).is_none());
}

#[test]
fn self_referential_copy_expands_a_run() {
    // One literal followed by a 95-sample copy at slide 1: run-length
    // behaviour of a self-referential back-reference, split as 62 + 33.
    let chunk = vec![0x2Au8, 0x40 + 59, 0x00, 0x40 + 30, 0x00];
    let unpacked = decompress(chunk.as_slice()).unwrap();
    assert_eq!(unpacked, vec![0x2Au8; 96]);
}
