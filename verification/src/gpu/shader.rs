//! Decoding SPIR-V shader code from bytes.
use vstd::prelude::*;

verus! {

/// The SPIR-V magic number, the first word of every module.
pub const SPIRV_MAGIC: u32 = 0x0723_0203;

/// The bytes are not a SPIR-V module: their length is not a positive multiple
/// of four, or the first word is not the magic number in either byte order.
#[derive(Debug, Clone, Copy, PartialEq, Eq, Structural)]
pub enum ShaderError {
    InvalidSpirv,
}

/// Word `k` of `b` read in little-endian byte order.
pub open spec fn le_word(b: Seq<u8>, k: int) -> u32 {
    (b[4 * k] as u32) | ((b[4 * k + 1] as u32) << 8u32) | ((b[4 * k + 2] as u32) << 16u32) | ((b[4 * k
        + 3] as u32) << 24u32)
}

/// Word `k` of `b` read in big-endian byte order.
pub open spec fn be_word(b: Seq<u8>, k: int) -> u32 {
    (b[4 * k + 3] as u32) | ((b[4 * k + 2] as u32) << 8u32) | ((b[4 * k + 1] as u32) << 16u32) | ((b[4
        * k] as u32) << 24u32)
}

/// The bytes hold whole words, at least one, and the first word is the
/// magic number in one of the two byte orders.
pub open spec fn spirv_ok(b: Seq<u8>) -> bool {
    &&& b.len() % 4 == 0
    &&& b.len() >= 4
    &&& (le_word(b, 0) == SPIRV_MAGIC || be_word(b, 0) == SPIRV_MAGIC)
}

/// The words of a module, each read in the byte order in which the first
/// word is the magic number.
pub open spec fn spirv_words(b: Seq<u8>) -> Seq<u32> {
    if le_word(b, 0) == SPIRV_MAGIC {
        Seq::new(b.len() / 4, |k: int| le_word(b, k))
    } else {
        Seq::new(b.len() / 4, |k: int| be_word(b, k))
    }
}

/// `std::io::Error`, the error `ash::util::read_spv` returns, carried as an
/// opaque value; nothing is assumed of its contents.
#[verifier::external_type_specification]
#[verifier::external_body]
pub struct ExIoError(std::io::Error);

/// Calls `ash::util::read_spv` on the bytes through an in-memory cursor.
/// Assumed, as that function's source shows for a cursor over a slice: it
/// fails exactly when the length is not a multiple of four, is zero, or the
/// first word is not the magic number in either byte order; otherwise it
/// returns every word, byte-swapped when the magic number was found swapped,
/// so that the words come out in the byte order the magic number was written in.
#[verifier::external_body]
fn read_spv_words(bytes: &[u8]) -> (r: Result<Vec<u32>, std::io::Error>)
    ensures
        r is Ok <==> spirv_ok(bytes@),
        r matches Ok(words) ==> words@ == spirv_words(bytes@),
{
    ash::util::read_spv(&mut std::io::Cursor::new(bytes))
}

/// The words of the SPIR-V module in `bytes`, or `InvalidSpirv` when the
/// bytes are not one.
pub fn decode_spirv(bytes: &[u8]) -> (r: Result<Vec<u32>, ShaderError>)
    ensures
        r is Ok <==> spirv_ok(bytes@),
        r matches Ok(words) ==> words@ == spirv_words(bytes@),
        r matches Err(e) ==> e == ShaderError::InvalidSpirv,
{
    match read_spv_words(bytes) {
        Ok(words) => Ok(words),
        Err(_) => Err(ShaderError::InvalidSpirv),
    }
}

} // verus!
