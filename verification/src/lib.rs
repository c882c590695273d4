//! Verified core of a Game Boy Advance streaming host: frame, tile and PPU
//! state codecs, audio framing, packet formats and reassembly, the control
//! channel of the browser host, run-ahead sequencing of the emulator and
//! the per-game run-ahead cache.

pub mod le;
pub mod lz4;
pub mod frame;
pub mod error;
pub mod tile_decoder;
pub mod palette;
pub mod palette_encoder;
pub mod video_laws;
pub mod audio;
pub mod ppu;
pub mod ppu_laws;
pub mod reassembler;
pub mod packets;
pub mod delta16;
pub mod delta32;
pub mod runahead_db;
pub mod retro;
pub mod control;
