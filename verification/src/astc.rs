//! ASTC texture files: the header that says a texture's block and image
//! size, and the OpenGL format that a block size stands for.
use vstd::prelude::*;

verus! {

/// The OpenGL compressed formats of the ASTC LDR profile
/// (`KHR_texture_compression_astc_ldr`), by block size.
pub const COMPRESSED_RGBA_ASTC_4X4: u32 = 0x93B0;
pub const COMPRESSED_RGBA_ASTC_5X4: u32 = 0x93B1;
pub const COMPRESSED_RGBA_ASTC_5X5: u32 = 0x93B2;
pub const COMPRESSED_RGBA_ASTC_6X5: u32 = 0x93B3;
pub const COMPRESSED_RGBA_ASTC_6X6: u32 = 0x93B4;
pub const COMPRESSED_RGBA_ASTC_8X5: u32 = 0x93B5;
pub const COMPRESSED_RGBA_ASTC_8X6: u32 = 0x93B6;
pub const COMPRESSED_RGBA_ASTC_8X8: u32 = 0x93B7;
pub const COMPRESSED_RGBA_ASTC_10X5: u32 = 0x93B8;
pub const COMPRESSED_RGBA_ASTC_10X6: u32 = 0x93B9;
pub const COMPRESSED_RGBA_ASTC_10X8: u32 = 0x93BA;
pub const COMPRESSED_RGBA_ASTC_10X10: u32 = 0x93BB;
pub const COMPRESSED_RGBA_ASTC_12X10: u32 = 0x93BC;
pub const COMPRESSED_RGBA_ASTC_12X12: u32 = 0x93BD;

/// The header fields of an ASTC file, and its image data.
pub struct AstcFile<'a> {
    pub block_x: u32,
    pub block_y: u32,
    pub dim_x: u32,
    pub dim_y: u32,
    pub bytes: &'a [u8],
}

/// Why bytes are not an ASTC file.
#[derive(Debug, PartialEq)]
pub enum AstcError {
    /// Fewer than the 16 bytes of the header.
    TooShort,
    /// The first four bytes are not `13 AB A1 5C`.
    BadMagic,
}

/// The magic number that starts an ASTC file.
pub open spec fn has_astc_magic(b: Seq<u8>) -> bool {
    b.len() >= 4 && b[0] == 0x13 && b[1] == 0xAB && b[2] == 0xA1 && b[3] == 0x5C
}

/// A little-endian 24-bit number at `i`.
pub open spec fn le24(b: Seq<u8>, i: int) -> int {
    b[i] + 256 * b[i + 1] + 65536 * b[i + 2]
}

/// Reads the header of an ASTC file: the block size (bytes 4 and 5) and the
/// image size (bytes 7 to 9 and 10 to 12, little-endian); the image data
/// follows the 16 header bytes.
pub fn parse_astc_from_bytes(bytes: &[u8]) -> (r: Result<AstcFile<'_>, AstcError>)
    ensures
        bytes@.len() < 16 <==> r == Err::<AstcFile<'_>, AstcError>(AstcError::TooShort),
        (bytes@.len() >= 16 && !has_astc_magic(bytes@)) <==> r == Err::<AstcFile<'_>, AstcError>(
            AstcError::BadMagic,
        ),
        r matches Ok(f) ==> {
            &&& bytes@.len() >= 16 && has_astc_magic(bytes@)
            &&& f.block_x == bytes@[4]
            &&& f.block_y == bytes@[5]
            &&& f.dim_x == le24(bytes@, 7)
            &&& f.dim_y == le24(bytes@, 10)
            &&& f.bytes@ == bytes@.subrange(16, bytes@.len() as int)
        },
{
    if bytes.len() < 16 {
        return Err(AstcError::TooShort);
    }
    if !(bytes[0] == 0x13 && bytes[1] == 0xAB && bytes[2] == 0xA1 && bytes[3] == 0x5C) {
        return Err(AstcError::BadMagic);
    }
    let block_x = bytes[4] as u32;
    let block_y = bytes[5] as u32;
    let dim_x = bytes[7] as u32 + 256 * (bytes[8] as u32) + 65536 * (bytes[9] as u32);
    let dim_y = bytes[10] as u32 + 256 * (bytes[11] as u32) + 65536 * (bytes[12] as u32);
    Ok(AstcFile { block_x, block_y, dim_x, dim_y, bytes: &bytes[16..bytes.len()] })
}

/// The OpenGL format of ASTC blocks of `block.0` by `block.1` texels: one of
/// the fourteen sizes of the LDR profile, or `0` for any other size.
pub open spec fn gl_compressed_type(block: (u32, u32)) -> u32 {
    match block {
        (4, 4) => COMPRESSED_RGBA_ASTC_4X4,
        (5, 4) => COMPRESSED_RGBA_ASTC_5X4,
        (5, 5) => COMPRESSED_RGBA_ASTC_5X5,
        (6, 5) => COMPRESSED_RGBA_ASTC_6X5,
        (6, 6) => COMPRESSED_RGBA_ASTC_6X6,
        (8, 5) => COMPRESSED_RGBA_ASTC_8X5,
        (8, 6) => COMPRESSED_RGBA_ASTC_8X6,
        (8, 8) => COMPRESSED_RGBA_ASTC_8X8,
        (10, 5) => COMPRESSED_RGBA_ASTC_10X5,
        (10, 6) => COMPRESSED_RGBA_ASTC_10X6,
        (10, 8) => COMPRESSED_RGBA_ASTC_10X8,
        (10, 10) => COMPRESSED_RGBA_ASTC_10X10,
        (12, 10) => COMPRESSED_RGBA_ASTC_12X10,
        (12, 12) => COMPRESSED_RGBA_ASTC_12X12,
        _ => 0,
    }
}

/// The OpenGL format of ASTC blocks of the given size: see
/// [`gl_compressed_type`].
pub fn get_gl_compressed_type(block: (u32, u32)) -> (r: u32)
    ensures
        r == gl_compressed_type(block),
{
    match block {
        (4, 4) => COMPRESSED_RGBA_ASTC_4X4,
        (5, 4) => COMPRESSED_RGBA_ASTC_5X4,
        (5, 5) => COMPRESSED_RGBA_ASTC_5X5,
        (6, 5) => COMPRESSED_RGBA_ASTC_6X5,
        (6, 6) => COMPRESSED_RGBA_ASTC_6X6,
        (8, 5) => COMPRESSED_RGBA_ASTC_8X5,
        (8, 6) => COMPRESSED_RGBA_ASTC_8X6,
        (8, 8) => COMPRESSED_RGBA_ASTC_8X8,
        (10, 5) => COMPRESSED_RGBA_ASTC_10X5,
        (10, 6) => COMPRESSED_RGBA_ASTC_10X6,
        (10, 8) => COMPRESSED_RGBA_ASTC_10X8,
        (10, 10) => COMPRESSED_RGBA_ASTC_10X10,
        (12, 10) => COMPRESSED_RGBA_ASTC_12X10,
        (12, 12) => COMPRESSED_RGBA_ASTC_12X12,
        _ => 0,
    }
}

} // verus!
