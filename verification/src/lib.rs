//! mPic: a simple lossy image codec for small 16-bits-per-pixel displays.
//!
//! The codec converts a raster of 24-bit RGB pixels into a compact byte
//! stream and back.  An image is cut into 8x8 blocks; each block is turned
//! into a 96-byte payload (64 luma samples plus 16 + 16 subsampled chroma
//! samples) and compressed by one of three strategies.  Decoding needs only
//! small fixed-size buffers.
//!
//! A file is a 9-byte header followed by one length-prefixed chunk per
//! block in row-major block order.  Image width and height must be
//! multiples of 8.

use vstd::prelude::*;

pub mod bitops;
pub mod chunk;
pub mod color;
pub mod decode;
pub mod encode;
pub mod mosaic;

pub use decode::Decoder;
pub use encode::Encoder;

verus! {

/// Preferred file extension of the format.
pub const PREFERRED_FILE_EXT: &'static str = "mpic";

/// Encoding failures: the arguments violate the encoder's preconditions.
#[derive(Debug, Clone, Copy, PartialEq, Eq, Structural)]
pub enum EncodeError {
    InvalidInput,
}

/// Decoding failures: `InvalidInput` when an argument violates a
/// precondition (an undersized output buffer), `InvalidData` when the byte
/// stream violates the format.
#[derive(Debug, Clone, Copy, PartialEq, Eq, Structural)]
pub enum DecodeError {
    InvalidInput,
    InvalidData,
}

/// The version byte of the file format described here.
#[derive(Debug, Clone, Copy, PartialEq, Eq, Structural)]
pub struct Version(pub u8);

impl Version {
    /// The only version this codec reads and writes.
    pub fn current() -> (v: Version)
        ensures
            v.0 == 0,
    {
        Version(0)
    }
}

/// Image dimensions carried by a file header.
#[derive(Debug, Clone, Copy, PartialEq, Eq, Structural)]
pub struct ImageInfo {
    pub width: u16,
    pub height: u16,
}

impl ImageInfo {
    /// Image width in pixels.
    pub fn width(&self) -> (r: u32)
        ensures
            r == self.width,
    {
        self.width as u32
    }

    /// Image height in pixels.
    pub fn height(&self) -> (r: u32)
        ensures
            r == self.height,
    {
        self.height as u32
    }
}

/// Dimensions the format can carry: nonzero 16-bit numbers of pixels,
/// both multiples of 8.
pub open spec fn valid_dimensions(w: int, h: int) -> bool {
    &&& 0 < w <= 0xFFFF
    &&& 0 < h <= 0xFFFF
    &&& w % 8 == 0
    &&& h % 8 == 0
}

/// The 9 bytes of a file header: the magic, the width and the height in
/// little-endian order, and the version byte.
pub open spec fn header_bytes_spec(w: int, h: int, v: int) -> Seq<u8> {
    seq![
        0u8,
        0x6du8,
        0x70u8,
        0x69u8,
        (w % 256) as u8,
        (w / 256 % 256) as u8,
        (h % 256) as u8,
        (h / 256 % 256) as u8,
        v as u8,
    ]
}

/// Width stored in a header blob, little-endian.
pub open spec fn parsed_width(blob: Seq<u8>) -> int {
    blob[4] + 256 * blob[5]
}

/// Height stored in a header blob, little-endian.
pub open spec fn parsed_height(blob: Seq<u8>) -> int {
    blob[6] + 256 * blob[7]
}

/// A blob opens with a well-formed header: it is long enough, the magic
/// and the version byte are right, and the dimensions are valid.
pub open spec fn header_parses(blob: Seq<u8>) -> bool {
    &&& blob.len() >= 9
    &&& blob[0] == 0u8
    &&& blob[1] == 0x6du8
    &&& blob[2] == 0x70u8
    &&& blob[3] == 0x69u8
    &&& blob[8] == 0u8
    &&& valid_dimensions(parsed_width(blob), parsed_height(blob))
}

/// The parsed form of the 9-byte file container header.
#[derive(Debug, Clone, Copy, PartialEq, Eq, Structural)]
pub struct FileHeader {
    pub width: u16,
    pub height: u16,
    pub version: Version,
}

impl FileHeader {
    /// Number of bytes a blob must hold before a header can be read.
    pub const MINIMAL_SIZE: usize = 9;

    /// Make a header for an image of the given size; `None` when the size
    /// cannot be represented: zero, above 65535, or not a multiple of 8.
    pub fn new(width: u32, height: u32) -> (r: Option<FileHeader>)
        ensures
            r is Some <==> valid_dimensions(width as int, height as int),
            r matches Some(h) ==> h.width == width && h.height == height && h.version.0 == 0,
    {
        if width == 0 || width > 0xFFFF || height == 0 || height > 0xFFFF {
            return None;
        }
        if width % 8 != 0 || height % 8 != 0 {
            return None;
        }
        Some(FileHeader { width: width as u16, height: height as u16, version: Version(0) })
    }

    /// A header is valid when its version is the current one and its
    /// dimensions are valid.
    pub fn is_valid(&self) -> (r: bool)
        ensures
            r == (self.version.0 == 0 && valid_dimensions(self.width as int, self.height as int)),
    {
        self.version.0 == 0 && self.width > 0 && self.height > 0 && self.width % 8 == 0
            && self.height % 8 == 0
    }

    /// Read and validate a header from the first 9 bytes of a blob;
    /// `None` when the blob is too short or the header is not valid.
    pub fn from_bytes(blob: &[u8]) -> (r: Option<FileHeader>)
        ensures
            r is Some <==> header_parses(blob@),
            r matches Some(h) ==> h.width == parsed_width(blob@) && h.height == parsed_height(
                blob@,
            ) && h.version.0 == 0,
    {
        if blob.len() < 9 {
            return None;
        }
        if blob[0] != 0 || blob[1] != 0x6d || blob[2] != 0x70 || blob[3] != 0x69 {
            return None;
        }
        if blob[8] != 0 {
            return None;
        }
        let width = blob[4] as u16 + 256 * blob[5] as u16;
        let height = blob[6] as u16 + 256 * blob[7] as u16;
        if width == 0 || height == 0 || width % 8 != 0 || height % 8 != 0 {
            return None;
        }
        Some(FileHeader { width, height, version: Version(0) })
    }

    /// The 9 bytes of this header, little-endian dimensions.
    pub fn bytes(&self) -> (r: Vec<u8>)
        ensures
            r@ == header_bytes_spec(self.width as int, self.height as int, self.version.0 as int),
    {
        let mut out: Vec<u8> = Vec::new();
        out.push(0);
        out.push(0x6d);
        out.push(0x70);
        out.push(0x69);
        out.push((self.width % 256) as u8);
        out.push((self.width / 256) as u8);
        out.push((self.height % 256) as u8);
        out.push((self.height / 256) as u8);
        out.push(self.version.0);
        proof {
            assert(out@ =~= header_bytes_spec(
                self.width as int,
                self.height as int,
                self.version.0 as int,
            ));
        }
        out
    }

    /// The image dimensions of this header.
    pub fn info(&self) -> (r: ImageInfo)
        ensures
            r.width == self.width,
            r.height == self.height,
    {
        ImageInfo { width: self.width, height: self.height }
    }

    /// The version byte of this header.
    pub fn version(&self) -> (r: Version)
        ensures
            r == self.version,
    {
        self.version
    }
}

/// Reading back the bytes of a well-formed header gives the header again:
/// the 9-byte serialization is parsed by `header_parses` and yields the
/// same dimensions.
pub proof fn lemma_header_round_trip(w: int, h: int)
    requires
        valid_dimensions(w, h),
    ensures
        header_parses(header_bytes_spec(w, h, 0)),
        parsed_width(header_bytes_spec(w, h, 0)) == w,
        parsed_height(header_bytes_spec(w, h, 0)) == h,
{
    let b = header_bytes_spec(w, h, 0);
    assert(b[4] == w % 256 && b[5] == w / 256 % 256);
    assert(w % 256 + 256 * (w / 256 % 256) == w) by (nonlinear_arith)
        requires 0 < w <= 0xFFFF;
    assert(h % 256 + 256 * (h / 256 % 256) == h) by (nonlinear_arith)
        requires 0 < h <= 0xFFFF;
}

} // verus!
