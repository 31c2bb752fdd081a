//! Color transform and chroma mosaic tests.

use mpic::bitops::{u4_to_u8, u6_to_u8};
use mpic::color::{MpicRgb666, MpicRgb888, MpicYuv666};
use mpic::mosaic::{demosaic_uv, mosaic_uv};

fn rgb_error(lhs: MpicRgb888, rhs: MpicRgb888) -> isize {
    let l1 = lhs.r as isize;
    let l2 = lhs.g as isize;
    let l3 = lhs.b as isize;
    let r1 = rhs.r as isize;
    let r2 = rhs.g as isize;
    let r3 = rhs.b as isize;

    let diff1 = (l1 - r1).abs();
    let diff2 = (l2 - r2).abs();
    let diff3 = (l3 - r3).abs();

    diff1.max(diff2).max(diff3)
}

fn yuv_error(lhs: MpicYuv666, rhs: MpicYuv666) -> isize {
    let l1 = lhs.y as isize;
    let l2 = lhs.u as isize;
    let l3 = lhs.v as isize;
    let r1 = rhs.y as isize;
    let r2 = rhs.u as isize;
    let r3 = rhs.v as isize;

    let diff1 = (l1 - r1).abs();
    let diff2 = (l2 - r2).abs();
    let diff3 = (l3 - r3).abs();

    diff1.max(diff2).max(diff3)
}

#[test]
fn rgb_yuv() {
    let allowed_rgb_error = 12;
    let allowed_yuv_error = 1;

    let mut max_y = u8::MIN;
    let mut min_y = u8::MAX;
    let mut max_u = u8::MIN;
    let mut min_u = u8::MAX;
    let mut max_v = u8::MIN;
    let mut min_v = u8::MAX;

    for r in 0..64 {
        for g in 0..64 {
            for b in 0..64 {
                let r = u6_to_u8(r);
                let g = u6_to_u8(g);
                let b = u6_to_u8(b);
                let rgb = MpicRgb888 { r, g, b };
                let yuv = MpicYuv666::from_rgb(rgb);
                max_y = max_y.max(yuv.y);
                min_y = min_y.min(yuv.y);
                max_u = max_u.max(yuv.u);
                min_u = min_u.min(yuv.u);
                max_v = max_v.max(yuv.v);
                min_v = min_v.min(yuv.v);

                let rgb2 = MpicRgb888::from_yuv(yuv);
                let yuv2 = MpicYuv666::from_rgb(rgb2);

                let rgb_error = rgb_error(rgb, rgb2);
                let yuv_error = yuv_error(yuv, yuv2);

                assert!(
                    rgb_error <= allowed_rgb_error,
                    "RGB Error exceeded limit: {} > {} RGB {:?} => YUV {:?} => {:?} ",
                    rgb_error,
                    allowed_rgb_error,
                    (rgb.r, rgb.g, rgb.b),
                    (yuv.y, yuv.u, yuv.v),
                    (rgb2.r, rgb2.g, rgb2.b),
                );

                assert!(
                    yuv_error <= allowed_yuv_error,
                    "YUV Error exceeded limit: {} > {} RGB {:?} => YUV {:?} => {:?} => {:?}",
                    yuv_error,
                    allowed_yuv_error,
                    (rgb.r, rgb.g, rgb.b),
                    (yuv.y, yuv.u, yuv.v),
                    (rgb2.r, rgb2.g, rgb2.b),
                    (yuv2.y, yuv2.u, yuv2.v),
                );
            }
        }
    }

    assert_eq!(
        (min_y, min_u, min_v, max_y, max_u, max_v),
        (4, 4, 4, 58, 60, 60)
    );
}

#[test]
fn mosaic() {
    let original_left: Vec<u8> = vec![
        0x89, 0x89, 0x1b, 0x1b, 0x78, 0x78, 0xbb, 0xbb, 0x89, 0x89, 0x1b, 0x1b, 0x78, 0x78,
        0xbb, 0xbb, 0x80, 0x80, 0xc8, 0xc8, 0x67, 0x67, 0xcd, 0xcd, 0x80, 0x80, 0xc8, 0xc8,
        0x67, 0x67, 0xcd, 0xcd, 0x68, 0x68, 0xd8, 0xd8, 0xe5, 0xe5, 0x4e, 0x4e, 0x68, 0x68,
        0xd8, 0xd8, 0xe5, 0xe5, 0x4e, 0x4e, 0x21, 0x21, 0x6b, 0x6b, 0x1a, 0x1a, 0x97, 0x97,
        0x21, 0x21, 0x6b, 0x6b, 0x1a, 0x1a, 0x97, 0x97,
    ];
    let original_right: Vec<u8> = vec![
        0xf3, 0xf3, 0x75, 0x75, 0xd8, 0xd8, 0x96, 0x96, 0xf3, 0xf3, 0x75, 0x75, 0xd8, 0xd8,
        0x96, 0x96, 0xb1, 0xb1, 0x97, 0x97, 0x30, 0x30, 0xed, 0xed, 0xb1, 0xb1, 0x97, 0x97,
        0x30, 0x30, 0xed, 0xed, 0x7f, 0x7f, 0x26, 0x26, 0xbd, 0xbd, 0x56, 0x56, 0x7f, 0x7f,
        0x26, 0x26, 0xbd, 0xbd, 0x56, 0x56, 0xdb, 0xdb, 0xc8, 0xc8, 0x5a, 0x5a, 0x95, 0x95,
        0xdb, 0xdb, 0xc8, 0xc8, 0x5a, 0x5a, 0x95, 0x95,
    ];
    let expected_left: Vec<u8> = vec![
        0x89, 0x1b, 0x78, 0xbb, 0x80, 0xc8, 0x67, 0xcd, 0x68, 0xd8, 0xe5, 0x4e, 0x21, 0x6b,
        0x1a, 0x97,
    ];
    let expected_right: Vec<u8> = vec![
        0xf3, 0x75, 0xd8, 0x96, 0xb1, 0x97, 0x30, 0xed, 0x7f, 0x26, 0xbd, 0x56, 0xdb, 0xc8,
        0x5a, 0x95,
    ];

    let (left, right) = mosaic_uv(&original_left, &original_right);
    assert_eq!(left, expected_left);
    assert_eq!(right, expected_right);

    let left2 = demosaic_uv(&left);
    let right2 = demosaic_uv(&right);
    assert_eq!(left2, original_left);
    assert_eq!(right2, original_right);
}

#[test]
fn expand6_endpoints_and_monotonicity() {
    assert_eq!(u6_to_u8(0), 0);
    assert_eq!(u6_to_u8(63), 255);
    for v in 0..63u8 {
        assert!(u6_to_u8(v) < u6_to_u8(v + 1));
    }
}

#[test]
fn expand6_ignores_high_bits() {
    for v in 0..=255u8 {
        assert_eq!(u6_to_u8(v), u6_to_u8(v & 0x3F));
    }
}

#[test]
fn expand4_repeats_the_nibble() {
    assert_eq!(u4_to_u8(0), 0x00);
    assert_eq!(u4_to_u8(0x5), 0x55);
    assert_eq!(u4_to_u8(0xA), 0xAA);
    assert_eq!(u4_to_u8(0xF), 0xFF);
}

#[test]
fn mosaic_averages_each_quad() {
    // A plane that is not quad-constant: the averages round down.
    let mut plane = vec![0u8; 64];
    plane[0] = 1;
    plane[1] = 2;
    plane[8] = 3;
    plane[9] = 5;
    let flat = vec![0u8; 64];
    let (m, _) = mosaic_uv(&plane, &flat);
    assert_eq!(m[0], 2);
    assert_eq!(m[1], 0);
}

#[test]
fn yuv_of_solid_red() {
    let yuv = MpicYuv666::from_rgb(MpicRgb888::new(255, 0, 0));
    assert_eq!((yuv.y, yuv.u, yuv.v), (20, 22, 60));
    let rgb = MpicRgb666::from_yuv(yuv);
    assert_eq!((rgb.r8(), rgb.g8(), rgb.b8()), (255, 0, 0));
}

#[test]
fn rgb666_expands_to_full_range() {
    let c = MpicRgb666::new(63, 0, 32);
    let full = c.into_rgb888();
    assert_eq!((full.r, full.g, full.b), (255, 0, 130));
}
