//! The LZ4 block compression that every payload of the stream goes through.
//! Compression and decompression are done by the `lz4_flex` crate; what the
//! library relies on of it is stated here.

use vstd::prelude::*;

verus! {

/// The bytes that `lz4_flex::compress_prepend_size` produces for `input`.
pub uninterp spec fn lz4_compressed(input: Seq<u8>) -> Seq<u8>;

/// What `lz4_flex::decompress_size_prepended` yields for `input`: the
/// decompressed bytes, or nothing where it reports an error.
pub uninterp spec fn lz4_decompressed(input: Seq<u8>) -> Option<Seq<u8>>;

/// The longest input that is handed to `decompress_size_prepended`. The
/// decompressor adds up the bytes of a length field in a `u32`; an input of
/// at most this many bytes keeps that sum below `u32::MAX`.
pub const LZ4_MAX_INPUT: usize = 16_777_216;

/// `x` is what decompressing the compression of `x` gives, and that
/// compressed block is between 4 and 24 + len * 110 / 100 bytes long. A caller
/// learns this of a given `x` by compressing it with `compress_prepend_size`
/// and decompressing the result with `decompress_size_prepended`.
pub open spec fn lz4_roundtrips(x: Seq<u8>) -> bool {
    &&& lz4_decompressed(lz4_compressed(x)) == Some(x)
    &&& 4 <= lz4_compressed(x).len() <= 24 + x.len() * 110 / 100
}

/// The reasons `lz4_flex` gives for refusing a compressed block.
#[derive(Debug, Clone, Copy, PartialEq, Eq)]
pub enum Lz4Error {
    OutputTooSmall { expected: usize, actual: usize },
    LiteralOutOfBounds,
    ExpectedAnotherByte,
    OffsetZero,
    OffsetOutOfBounds,
    Other,
}

/// Calls `lz4_flex::compress_prepend_size`.
/// Claimed of it, as its source shows: the result depends on the input alone;
/// it starts with the input's length as a little-endian u32 and is at most
/// 24 + len * 110 / 100 bytes long.
#[verifier::external_body]
pub(crate) fn compress_prepend_size(input: &[u8]) -> (out: Vec<u8>)
    ensures
        out@ == lz4_compressed(input@),
        out@.len() <= 24 + input@.len() * 110 / 100,
        out@.len() >= 4,
{
    lz4_flex::compress_prepend_size(input)
}

/// Calls `lz4_flex::decompress_size_prepended`.
/// Claimed of it: the outcome depends on the input alone; an input shorter
/// than the 4-byte size prefix is refused; and, as the crate documents for
/// its block format, the output of `compress_prepend_size` on an input whose
/// length fits in a u32 decompresses to that input. Which error is reported
/// for a refused input is not stated. The input is at most `LZ4_MAX_INPUT`
/// bytes long: the crate sums the bytes of a length field in a `u32`, which
/// a longer run of 0xFF bytes would overflow.
#[verifier::external_body]
pub(crate) fn decompress_size_prepended(input: &[u8]) -> (r: Result<Vec<u8>, Lz4Error>)
    requires
        input@.len() <= LZ4_MAX_INPUT,
    ensures
        r is Ok <==> lz4_decompressed(input@) is Some,
        r matches Ok(v) ==> v@ == lz4_decompressed(input@)->0,
        input@.len() < 4 ==> r is Err,
        forall|x: Seq<u8>|
            x.len() <= u32::MAX && input@ == #[trigger] lz4_compressed(x) ==> r is Ok && r->Ok_0@
                == x,
{
    match lz4_flex::decompress_size_prepended(input) {
        Ok(v) => Ok(v),
        Err(lz4_flex::block::DecompressError::OutputTooSmall { expected, actual }) => Err(
            Lz4Error::OutputTooSmall { expected, actual },
        ),
        Err(lz4_flex::block::DecompressError::LiteralOutOfBounds) => Err(Lz4Error::LiteralOutOfBounds),
        Err(lz4_flex::block::DecompressError::ExpectedAnotherByte) => Err(Lz4Error::ExpectedAnotherByte),
        Err(lz4_flex::block::DecompressError::OffsetZero) => Err(Lz4Error::OffsetZero),
        Err(lz4_flex::block::DecompressError::OffsetOutOfBounds) => Err(Lz4Error::OffsetOutOfBounds),
        Err(_) => Err(Lz4Error::Other),
    }
}

/// Compresses `x` and decompresses the result, and reports whether `x` came
/// back; where it did, `lz4_roundtrips` holds of `x`, which is what the
/// stream laws ask of each section that a payload compresses. It comes back
/// for every input of up to 15,000,000 bytes.
pub fn lz4_roundtrip_holds(x: &[u8]) -> (r: bool)
    ensures
        r ==> lz4_roundtrips(x@),
        x@.len() <= 15_000_000 ==> r,
{
    if x.len() > 0xffff_ffff {
        return false;
    }
    let c = compress_prepend_size(x);
    if c.len() > LZ4_MAX_INPUT {
        return false;
    }
    match decompress_size_prepended(c.as_slice()) {
        Ok(_) => true,
        Err(_) => false,
    }
}

} // verus!
