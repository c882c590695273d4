# gba_streamer

A Game Boy Advance streaming host: a libretro core runs the game, and the
host sends each frame to a client as palette or tile-delta video, as PPU
memory state, or as tile-mask frames, with LZ4-compressed PCM audio.

The library under `src/` is written in Verus and verified:

- `palette_encoder`, `tile_decoder`, `video_laws`: palette keyframes and
  tile-delta frames with a tile dictionary. A decoder that starts with the
  encoder reproduces every frame it sends, however many tiles enter the
  dictionary: only tiles that the decoder's 4096-slot cache still holds are
  sent as cache references, any other is sent whole. The dictionary is a
  `Vec` of tiles searched over the last 4096 entries, not a `HashMap` keyed
  by tile: vstd specifies `HashMap` only for keys with its key model
  (integers, `bool` and boxes of them), and a `[u16; 64]` key would need an
  `assume`, which this crate does not use.
- `ppu`, `ppu_laws`: PPU state payloads (OAM, I/O registers, palette, VRAM
  blocks) and their application on the client; applying what the encoder
  sends restores the encoded state wherever LZ4 gives back each section it
  compressed.
- `delta16`, `delta32`: tile-mask frames of 16- and 32-bit pixels.
- `audio`: per-frame PCM blocks.
- `packets`, `reassembler`: input packets, UDP chunks and their reassembly,
  WebSocket stream packets.
- `control`: the browser host's control messages (pause, step, rewind, lag
  probe, run-ahead) and the emulation thread's decisions.
- `retro`: joypad bits, PPU memory regions, run-ahead step plans, lag
  measurement and copying the core's picture.
- `runahead_db`: the per-game run-ahead cache, its file format, and the
  cartridge header.
- `lz4`: what the library relies on of the `lz4_flex` crate. A compressed
  block longer than `LZ4_MAX_INPUT` bytes is refused before it reaches the
  decompressor; only the bytes handed to it count, not the whole payload.

`app/` is the program around it: loading the core with `libloading`, the
UDP and WebSocket hosts (`tokio`, `warp`), and file access. The browser
pages are served from `static/` at run time.
