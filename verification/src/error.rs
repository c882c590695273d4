//! Errors that the stream codecs report for payloads they cannot apply.

use vstd::prelude::*;
use crate::lz4::Lz4Error;

verus! {

/// Why a video or PPU payload was refused.
#[derive(Debug, Clone, Copy, PartialEq, Eq)]
pub enum CodecError {
    /// The LZ4 layer of a video payload did not decompress.
    Lz4(Lz4Error),
    /// A 4bpp keyframe is shorter than its palette-size header.
    Short4bpp,
    /// A 4bpp keyframe is shorter than its palette and packed pixels.
    Short4bppPayload,
    /// An 8bpp keyframe is shorter than its palette-size header.
    Short8bpp,
    /// An 8bpp keyframe is shorter than its palette and indices.
    Short8bppPayload,
    /// A raw keyframe is not exactly one screen of pixels.
    RawFrameSizeMismatch,
    /// A tile-delta frame is shorter than its block-count header.
    ShortDeltaHeader,
    /// A tile-delta block header is cut off.
    TruncatedBlockHeader,
    /// A solid tile is cut off.
    TruncatedSolidBlock,
    /// A tile-cache reference is cut off.
    TruncatedCacheHit,
    /// A tile-cache reference names no slot of the cache.
    CacheIdOutOfBounds,
    /// The palette size of a 4bpp tile is cut off.
    Truncated4bppPalLen,
    /// A 4bpp tile is cut off.
    Truncated4bppTile,
    /// A raw tile is cut off.
    TruncatedRawBlock,
    /// A tile-delta block has an unknown mode.
    InvalidBlockMode,
    /// The frame flag names no encoding.
    UnknownFlag,
    /// A keyframe pixel names a palette entry past the end of the palette.
    PaletteIndexOutOfRange,
    /// A tile-delta block names a tile past the bottom of the screen.
    BlockOutOfScreen,
    /// A PPU payload is shorter than its smallest header.
    PayloadTooShort,
    /// The OAM section runs past the end of a PPU payload.
    InvalidOamLen,
    /// The OAM section did not decompress.
    Lz4Oam(Lz4Error),
    /// The I/O-register section header is cut off.
    InvalidIoHeader,
    /// The I/O-register section runs past the end of the payload.
    InvalidIoLen,
    /// The I/O-register section did not decompress.
    Lz4Io(Lz4Error),
    /// The palette section header is cut off.
    InvalidPalHeader,
    /// The palette section runs past the end of the payload.
    InvalidPalLen,
    /// The palette section did not decompress.
    Lz4Pal(Lz4Error),
    /// The VRAM section header is cut off.
    InvalidVramHeader,
    /// The VRAM section runs past the end of the payload.
    VramSectionTruncated,
    /// A full VRAM section did not decompress.
    Lz4VramFull(Lz4Error),
    /// A delta VRAM section did not decompress.
    Lz4VramDelta(Lz4Error),
    /// A payload is longer than the LZ4 layer accepts (`LZ4_MAX_INPUT`).
    PayloadTooLong,
    /// The pixels of a tile-mask frame do not match its mask or the frame
    /// buffer.
    DeltaSizeMismatch,
}

} // verus!
