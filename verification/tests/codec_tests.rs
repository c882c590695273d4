use gba_streamer::audio::AudioEncoder;
use gba_streamer::error::CodecError;
use gba_streamer::frame::{GBA_WIDTH, TOTAL_PIXELS};
use gba_streamer::palette_encoder::{encode_palette_frame, PaletteEncoder};
use gba_streamer::ppu::{ppu_payload_overruns, PpuState, PpuStateEncoder};
use gba_streamer::tile_decoder::TileCacheDecoder;

fn u16s_from_le(bytes: &[u8]) -> Vec<u16> {
    bytes.chunks_exact(2).map(|c| u16::from_le_bytes([c[0], c[1]])).collect()
}

#[test]
fn test_4bit_nibble_palette_roundtrip() {
    let mut encoder = PaletteEncoder::new();
    let mut frame = vec![0u16; TOTAL_PIXELS];
    for i in 0..TOTAL_PIXELS {
        frame[i] = (i % 16) as u16;
    }

    let (flag, compressed) = encoder.encode(&frame);
    assert_eq!(flag, 4, "Should select 4-bit nibble packing for <= 16 colors");

    let decomp = lz4_flex::decompress_size_prepended(&compressed).unwrap();
    let pal_len = u16::from_le_bytes(decomp[0..2].try_into().unwrap()) as usize;
    assert_eq!(pal_len, 16);

    let pal_src = u16s_from_le(&decomp[2..2 + pal_len * 2]);
    let packed = &decomp[2 + pal_len * 2..];
    assert_eq!(packed.len(), TOTAL_PIXELS / 2);

    let mut reconstructed = vec![0u16; TOTAL_PIXELS];
    for i in 0..TOTAL_PIXELS / 2 {
        let b = packed[i];
        reconstructed[i * 2] = pal_src[(b & 0x0F) as usize];
        reconstructed[i * 2 + 1] = pal_src[((b >> 4) & 0x0F) as usize];
    }

    assert_eq!(frame, reconstructed, "4-bit palette must be 100% bit-exact");
}

#[test]
fn test_8bit_palette_roundtrip() {
    let mut encoder = PaletteEncoder::new();
    let mut frame = vec![0u16; TOTAL_PIXELS];
    for i in 0..TOTAL_PIXELS {
        frame[i] = (i % 64) as u16;
    }

    let (flag, compressed) = encoder.encode(&frame);
    assert_eq!(flag, 2, "Should select 8-bit palette for 17-256 colors");

    let decomp = lz4_flex::decompress_size_prepended(&compressed).unwrap();
    let pal_len = u16::from_le_bytes(decomp[0..2].try_into().unwrap()) as usize;
    assert_eq!(pal_len, 64);

    let pal_src = u16s_from_le(&decomp[2..2 + pal_len * 2]);
    let indices = &decomp[2 + pal_len * 2..];
    assert_eq!(indices.len(), TOTAL_PIXELS);

    let mut reconstructed = vec![0u16; TOTAL_PIXELS];
    for p in 0..TOTAL_PIXELS {
        reconstructed[p] = pal_src[indices[p] as usize];
    }

    assert_eq!(frame, reconstructed, "8-bit palette must be 100% bit-exact");
}

#[test]
fn test_delta_tile_block_roundtrip() {
    let mut encoder = PaletteEncoder::new();
    let mut decoder = TileCacheDecoder::new();

    let frame1 = vec![0x1234u16; TOTAL_PIXELS];
    let (flag1, comp1) = encoder.encode(&frame1);
    assert_eq!(flag1, 4, "Initial frame is keyframe");
    let dec1 = decoder.decode(flag1, &comp1).unwrap();
    assert_eq!(dec1, frame1.as_slice(), "Keyframe must be bit-exact");

    let mut frame2 = frame1.clone();
    for py in 0..8 {
        for px in 0..8 {
            let p = py * GBA_WIDTH + (15 * 8 + px);
            frame2[p] = 0x5678u16;
        }
    }

    let (flag2, comp2) = encoder.encode(&frame2);
    assert_eq!(flag2, 8, "Small update must trigger Delta Block encoding");
    let dec2 = decoder.decode(flag2, &comp2).unwrap();
    assert_eq!(dec2, frame2.as_slice(), "Delta Block decoding must be 100% bit-exact");
}

#[test]
fn test_tile_cache_hit_and_solid_roundtrip() {
    let mut encoder = PaletteEncoder::new();
    let mut decoder = TileCacheDecoder::new();

    let frame1 = vec![0x0000u16; TOTAL_PIXELS];
    let (flag1, comp1) = encoder.encode(&frame1);
    let dec1 = decoder.decode(flag1, &comp1).unwrap();
    assert_eq!(dec1, frame1.as_slice());

    let mut frame2 = frame1.clone();
    for py in 0..8 {
        for px in 0..8 {
            frame2[py * GBA_WIDTH + (10 * 8 + px)] = 0xF800;
        }
    }
    let (flag2, comp2) = encoder.encode(&frame2);
    assert_eq!(flag2, 8);
    let dec2 = decoder.decode(flag2, &comp2).unwrap();
    assert_eq!(dec2, frame2.as_slice());

    let mut frame3 = frame2.clone();
    for py in 0..8 {
        for px in 0..8 {
            let color = if (px + py) % 2 == 0 { 0x07E0 } else { 0x001F };
            frame3[py * GBA_WIDTH + (20 * 8 + px)] = color;
        }
    }
    let (flag3, comp3) = encoder.encode(&frame3);
    assert_eq!(flag3, 8);
    let dec3 = decoder.decode(flag3, &comp3).unwrap();
    assert_eq!(dec3, frame3.as_slice());

    let mut frame4 = frame3.clone();
    for py in 0..8 {
        for px in 0..8 {
            let color = if (px + py) % 2 == 0 { 0x07E0 } else { 0x001F };
            frame4[py * GBA_WIDTH + (25 * 8 + px)] = color;
        }
    }
    let (flag4, comp4) = encoder.encode(&frame4);
    assert_eq!(flag4, 8);

    let decomp4 = lz4_flex::decompress_size_prepended(&comp4).unwrap();
    assert!(
        decomp4.len() <= 10,
        "Cache Hit block must be <= 10 bytes decompressed, got {}",
        decomp4.len()
    );

    let dec4 = decoder.decode(flag4, &comp4).unwrap();
    assert_eq!(dec4, frame4.as_slice(), "Cache Hit must be 100% bit-exact");
}

#[test]
fn test_audio_chunking_and_lz4_roundtrip() {
    let mut audio_enc = AudioEncoder::new(44100);
    let samples: Vec<i16> = (0..735 * 2).map(|i| (i % 1000) as i16).collect();
    audio_enc.push_samples(&samples);

    let compressed = audio_enc.flush_frame_lz4().expect("Must yield compressed audio");
    assert!(compressed.len() < samples.len() * 2, "LZ4 must compress repetitive audio PCM");

    let decomp = lz4_flex::decompress_size_prepended(&compressed).unwrap();
    let decomp_i16: Vec<i16> = decomp
        .chunks_exact(2)
        .map(|c| i16::from_le_bytes([c[0], c[1]]))
        .collect();
    assert_eq!(samples, decomp_i16, "Audio PCM must be 100% lossless bit-exact");
}

#[test]
fn test_ppu_state_encoder_roundtrip() {
    let mut encoder = PpuStateEncoder::new();
    let mut decoder = PpuState::new();

    let mut oam = vec![0u8; 1024];
    let mut io = vec![0u8; 128];
    let mut pal = vec![0u8; 1024];
    let mut vram = vec![0u8; 98304];

    oam[0] = 42;
    io[0] = 0x01;
    pal[0] = 0x1F;
    vram[0] = 0xAA;

    let payload1 = encoder.encode(&oam, &io, &pal, &vram);
    assert!(decoder.apply_payload(&payload1).is_ok());
    assert_eq!(decoder.oam[0], 42);
    assert_eq!(decoder.io[0], 0x01);
    assert_eq!(decoder.palette[0], 0x1F);
    assert_eq!(decoder.vram[0], 0xAA);

    oam[0] = 55;
    io[0x10] = 12;
    let payload2 = encoder.encode(&oam, &io, &pal, &vram);
    assert!(
        payload2.len() < 300,
        "Inter-frame PPU state must be < 300 bytes, got {}",
        payload2.len()
    );

    assert!(decoder.apply_payload(&payload2).is_ok());
    assert_eq!(decoder.oam[0], 55);
    assert_eq!(decoder.io[0x10], 12);
    assert_eq!(decoder.palette[0], 0x1F);
    assert_eq!(decoder.vram[0], 0xAA);

    vram[128] = 0xEE;
    let payload3 = encoder.encode(&oam, &io, &pal, &vram);
    assert!(
        payload3.len() < 400,
        "Delta VRAM update should be < 400 bytes, got {}",
        payload3.len()
    );

    assert!(decoder.apply_payload(&payload3).is_ok());
    assert_eq!(decoder.vram[128], 0xEE);
}

#[test]
fn video_stream_keeps_decoder_in_step_over_many_frames() {
    let mut encoder = PaletteEncoder::new();
    let mut decoder = TileCacheDecoder::new();
    let mut frame = vec![0u16; TOTAL_PIXELS];
    for step in 0..12u16 {
        let b = (step as usize * 37) % 600;
        let (bx, by) = (b % 30, b / 30);
        for py in 0..8 {
            for px in 0..8 {
                frame[(by * 8 + py) * GBA_WIDTH + bx * 8 + px] = step.wrapping_mul(997) ^ (px as u16 * 3 + py as u16);
            }
        }
        let (flag, payload) = encoder.encode(&frame);
        let shown = decoder.decode(flag, &payload).unwrap();
        assert_eq!(shown, frame.as_slice());
    }
}

#[test]
fn raw_keyframe_for_many_colours() {
    let mut encoder = PaletteEncoder::new();
    let frame: Vec<u16> = (0..TOTAL_PIXELS).map(|i| (i % 300) as u16).collect();
    let (flag, payload) = encoder.encode(&frame);
    assert_eq!(flag, 1);
    let decomp = lz4_flex::decompress_size_prepended(&payload).unwrap();
    assert_eq!(u16s_from_le(&decomp), frame);
    let mut decoder = TileCacheDecoder::new();
    assert_eq!(decoder.decode(flag, &payload).unwrap(), frame.as_slice());
}

#[test]
fn decoder_reports_unknown_flag_and_bad_lz4() {
    let mut decoder = TileCacheDecoder::new();
    let payload = lz4_flex::compress_prepend_size(&[0u8; 10]);
    assert_eq!(decoder.decode(77, &payload).unwrap_err(), CodecError::UnknownFlag);
    assert!(matches!(decoder.decode(4, &[1, 2]).unwrap_err(), CodecError::Lz4(_)));
    let short4 = lz4_flex::compress_prepend_size(&[5u8]);
    assert_eq!(decoder.decode(4, &short4).unwrap_err(), CodecError::Short4bpp);
    let short8 = lz4_flex::compress_prepend_size(&[5u8]);
    assert_eq!(decoder.decode(2, &short8).unwrap_err(), CodecError::Short8bpp);
    let raw_short = lz4_flex::compress_prepend_size(&[0u8; 100]);
    assert_eq!(decoder.decode(1, &raw_short).unwrap_err(), CodecError::RawFrameSizeMismatch);
    let delta_short = lz4_flex::compress_prepend_size(&[1u8]);
    assert_eq!(decoder.decode(8, &delta_short).unwrap_err(), CodecError::ShortDeltaHeader);
}

#[test]
fn decoder_refuses_a_palette_index_past_the_palette() {
    let mut decoder = TileCacheDecoder::new();
    let mut raw = vec![1u8, 0, 0x34, 0x12];
    raw.extend(std::iter::repeat(3u8).take(TOTAL_PIXELS));
    let payload = lz4_flex::compress_prepend_size(&raw);
    assert_eq!(decoder.decode(2, &payload).unwrap_err(), CodecError::PaletteIndexOutOfRange);
    assert!(decoder.screen().iter().all(|&p| p == 0));
}

#[test]
fn delta_blocks_report_truncation_and_bad_modes() {
    let mut decoder = TileCacheDecoder::new();
    let one_block_no_header = lz4_flex::compress_prepend_size(&[1u8, 0]);
    assert_eq!(decoder.decode(8, &one_block_no_header).unwrap_err(), CodecError::TruncatedBlockHeader);
    let bad_mode = lz4_flex::compress_prepend_size(&[1u8, 0, 0, 0, 9]);
    assert_eq!(decoder.decode(8, &bad_mode).unwrap_err(), CodecError::InvalidBlockMode);
    let off_screen = lz4_flex::compress_prepend_size(&[1u8, 0, 0x58, 0x02, 0, 0, 0]);
    assert_eq!(decoder.decode(8, &off_screen).unwrap_err(), CodecError::BlockOutOfScreen);
    let solid_cut = lz4_flex::compress_prepend_size(&[1u8, 0, 0, 0, 0, 7]);
    assert_eq!(decoder.decode(8, &solid_cut).unwrap_err(), CodecError::TruncatedSolidBlock);
    let hit_cut = lz4_flex::compress_prepend_size(&[1u8, 0, 0, 0, 1, 7]);
    assert_eq!(decoder.decode(8, &hit_cut).unwrap_err(), CodecError::TruncatedCacheHit);
    let hit_far = lz4_flex::compress_prepend_size(&[1u8, 0, 0, 0, 1, 0x00, 0x20]);
    assert_eq!(decoder.decode(8, &hit_far).unwrap_err(), CodecError::CacheIdOutOfBounds);
    let pal_cut = lz4_flex::compress_prepend_size(&[1u8, 0, 0, 0, 2]);
    assert_eq!(decoder.decode(8, &pal_cut).unwrap_err(), CodecError::Truncated4bppPalLen);
    let tile4_cut = lz4_flex::compress_prepend_size(&[1u8, 0, 0, 0, 2, 1, 0, 0]);
    assert_eq!(decoder.decode(8, &tile4_cut).unwrap_err(), CodecError::Truncated4bppTile);
    let raw_cut = lz4_flex::compress_prepend_size(&[1u8, 0, 0, 0, 3, 1, 2]);
    assert_eq!(decoder.decode(8, &raw_cut).unwrap_err(), CodecError::TruncatedRawBlock);
}

#[test]
fn keyframe_payloads_cut_short_are_refused() {
    let mut decoder = TileCacheDecoder::new();
    let p4 = lz4_flex::compress_prepend_size(&[2u8, 0, 1, 0, 2, 0]);
    assert_eq!(decoder.decode(4, &p4).unwrap_err(), CodecError::Short4bppPayload);
    let p8 = lz4_flex::compress_prepend_size(&[2u8, 0, 1, 0, 2, 0, 0, 1]);
    assert_eq!(decoder.decode(2, &p8).unwrap_err(), CodecError::Short8bppPayload);
}

#[test]
fn reset_cache_keeps_the_screen() {
    let mut encoder = PaletteEncoder::new();
    let mut decoder = TileCacheDecoder::new();
    let frame = vec![0x0101u16; TOTAL_PIXELS];
    let (flag, payload) = encoder.encode(&frame);
    decoder.decode(flag, &payload).unwrap();
    decoder.reset_cache();
    assert_eq!(decoder.screen(), frame.as_slice());
}

#[test]
fn host_frame_encoding_palette_and_raw() {
    let frame: Vec<u16> = (0..TOTAL_PIXELS).map(|i| (i % 200) as u16 * 3).collect();
    let (flag, payload) = encode_palette_frame(&frame);
    assert_eq!(flag, 2);
    let decomp = lz4_flex::decompress_size_prepended(&payload).unwrap();
    let pal_len = u16::from_le_bytes([decomp[0], decomp[1]]) as usize;
    assert_eq!(pal_len, 200);
    let pal = u16s_from_le(&decomp[2..2 + 2 * pal_len]);
    let idx = &decomp[2 + 2 * pal_len..];
    assert_eq!(idx.len(), TOTAL_PIXELS);
    for p in 0..TOTAL_PIXELS {
        assert_eq!(pal[idx[p] as usize], frame[p]);
    }
    let busy: Vec<u16> = (0..TOTAL_PIXELS).map(|i| i as u16).collect();
    let (flag2, payload2) = encode_palette_frame(&busy);
    assert_eq!(flag2, 1);
    assert_eq!(u16s_from_le(&lz4_flex::decompress_size_prepended(&payload2).unwrap()), busy);
}

#[test]
fn ppu_payload_errors() {
    let mut state = PpuState::new();
    assert_eq!(state.try_apply_payload(&[]).unwrap_err(), CodecError::PayloadTooShort);
    let mut oam_too_long = vec![0xffu8, 0xff];
    oam_too_long.extend_from_slice(&[0u8; 8]);
    assert_eq!(state.try_apply_payload(&oam_too_long).unwrap_err(), CodecError::InvalidOamLen);
}

#[test]
fn ppu_oam_section_lz4_error() {
    let mut state = PpuState::new();
    let payload = vec![3u8, 0, 1, 2, 3, 0, 0, 0, 0, 0];
    assert!(matches!(state.try_apply_payload(&payload).unwrap_err(), CodecError::Lz4Oam(_)));
}

fn ppu_sections(vram_section_len: u32, vram_mode: u8, vram_bytes: &[u8]) -> Vec<u8> {
    let oam = lz4_flex::compress_prepend_size(&[1u8; 1024]);
    let io = lz4_flex::compress_prepend_size(&[2u8; 128]);
    let mut p = Vec::new();
    p.extend_from_slice(&(oam.len() as u16).to_le_bytes());
    p.extend_from_slice(&oam);
    p.extend_from_slice(&(io.len() as u16).to_le_bytes());
    p.extend_from_slice(&io);
    p.extend_from_slice(&0u16.to_le_bytes());
    p.extend_from_slice(&vram_section_len.to_le_bytes());
    p.push(vram_mode);
    p.extend_from_slice(vram_bytes);
    p
}

#[test]
fn ppu_vram_section_past_the_end_is_refused() {
    let payload = ppu_sections(100, 1, &[1, 2, 3]);
    assert!(ppu_payload_overruns(&payload));
    let mut state = PpuState::new();
    assert_eq!(state.try_apply_payload(&payload).unwrap_err(), CodecError::VramSectionTruncated);
    assert!(state.oam.iter().all(|&b| b == 0));
}

#[test]
fn ppu_sections_without_vram_change_apply() {
    let payload = ppu_sections(1, 0, &[]);
    assert!(!ppu_payload_overruns(&payload));
    let mut state = PpuState::new();
    state.apply_payload(&payload).unwrap();
    assert!(state.oam.iter().all(|&b| b == 1));
    assert!(state.io.iter().all(|&b| b == 2));
    assert!(state.vram.iter().all(|&b| b == 0));
}

#[test]
fn ppu_vram_lz4_errors() {
    let mut state = PpuState::new();
    let full = ppu_sections(4, 1, &[9, 9, 9]);
    assert!(matches!(state.try_apply_payload(&full).unwrap_err(), CodecError::Lz4VramFull(_)));
    let delta = ppu_sections(4, 2, &[9, 9, 9]);
    assert!(matches!(state.try_apply_payload(&delta).unwrap_err(), CodecError::Lz4VramDelta(_)));
}

#[test]
fn ppu_unchanged_frame_still_decodes() {
    let mut encoder = PpuStateEncoder::new();
    let mut decoder = PpuState::new();
    let oam = vec![7u8; 1024];
    let io = vec![3u8; 128];
    let pal = vec![9u8; 1024];
    let vram: Vec<u8> = (0..98304u32).map(|i| (i % 251) as u8).collect();
    let p1 = encoder.encode(&oam, &io, &pal, &vram);
    decoder.apply_payload(&p1).unwrap();
    let p2 = encoder.encode(&oam, &io, &pal, &vram);
    decoder.apply_payload(&p2).unwrap();
    assert_eq!(&decoder.vram[..], &vram[..]);
    assert_eq!(&decoder.oam[..], &oam[..]);
    assert_eq!(&decoder.io[..], &io[..]);
    assert_eq!(&decoder.palette[..], &pal[..]);
}

fn ppu_head(io_section: Option<&[u8]>) -> Vec<u8> {
    let oam = lz4_flex::compress_prepend_size(&[1u8; 1024]);
    let mut p = Vec::new();
    p.extend_from_slice(&(oam.len() as u16).to_le_bytes());
    p.extend_from_slice(&oam);
    if let Some(io) = io_section {
        p.extend_from_slice(&(io.len() as u16).to_le_bytes());
        p.extend_from_slice(io);
    }
    p
}

#[test]
fn ppu_io_and_palette_section_errors() {
    let io_ok = lz4_flex::compress_prepend_size(&[2u8; 128]);
    let mut state = PpuState::new();

    let mut p = ppu_head(None);
    p.push(0);
    assert_eq!(state.try_apply_payload(&p).unwrap_err(), CodecError::InvalidIoHeader);

    let mut p = ppu_head(None);
    p.extend_from_slice(&500u16.to_le_bytes());
    assert_eq!(state.try_apply_payload(&p).unwrap_err(), CodecError::InvalidIoLen);

    let p = ppu_head(Some(&[7, 7, 7]));
    assert!(matches!(state.try_apply_payload(&p).unwrap_err(), CodecError::Lz4Io(_)));

    let mut p = ppu_head(Some(&io_ok));
    p.push(1);
    assert_eq!(state.try_apply_payload(&p).unwrap_err(), CodecError::InvalidPalHeader);

    let mut p = ppu_head(Some(&io_ok));
    p.extend_from_slice(&900u16.to_le_bytes());
    assert_eq!(state.try_apply_payload(&p).unwrap_err(), CodecError::InvalidPalLen);

    let mut p = ppu_head(Some(&io_ok));
    p.extend_from_slice(&3u16.to_le_bytes());
    p.extend_from_slice(&[5, 5, 5]);
    assert!(matches!(state.try_apply_payload(&p).unwrap_err(), CodecError::Lz4Pal(_)));

    let mut p = ppu_head(Some(&io_ok));
    p.extend_from_slice(&0u16.to_le_bytes());
    p.extend_from_slice(&[1, 0]);
    assert_eq!(state.try_apply_payload(&p).unwrap_err(), CodecError::InvalidVramHeader);
}

fn unique_tile(frame: &mut [u16], b: usize, id: u16) {
    let (bx, by) = (b % 30, b / 30);
    for i in 0..64 {
        let p = (by * 8 + i / 8) * GBA_WIDTH + bx * 8 + i % 8;
        frame[p] = if i == 0 { id } else { 0x4000 | i as u16 };
    }
}

#[test]
fn stream_stays_lossless_past_4096_new_tiles() {
    let mut encoder = PaletteEncoder::new();
    let mut decoder = TileCacheDecoder::new();
    let mut frame = vec![0u16; TOTAL_PIXELS];
    let (f, p) = encoder.encode(&frame);
    assert_eq!(decoder.decode(f, &p).unwrap(), frame.as_slice());
    // 17 delta frames of 250 new tiles each: 4250 tiles enter the dictionary.
    for k in 0..17u16 {
        for b in 0..250usize {
            unique_tile(&mut frame, b, k * 250 + b as u16);
        }
        let (f, p) = encoder.encode(&frame);
        assert_eq!(f, 8);
        assert_eq!(decoder.decode(f, &p).unwrap(), frame.as_slice());
    }
    // The very first tile's cache slot now holds a newer tile; showing it
    // again must still decode to it.
    unique_tile(&mut frame, 300, 0);
    unique_tile(&mut frame, 301, 4249);
    let (f, p) = encoder.encode(&frame);
    assert_eq!(f, 8);
    assert_eq!(decoder.decode(f, &p).unwrap(), frame.as_slice());
}

#[test]
fn overlong_payloads_are_refused() {
    let long = vec![0xFFu8; 16_777_217];
    let mut decoder = TileCacheDecoder::new();
    let before = decoder.screen().to_vec();
    assert_eq!(decoder.decode(4, &long), Err(CodecError::PayloadTooLong));
    assert_eq!(decoder.screen(), before.as_slice());
}

#[test]
fn ppu_payload_with_trailing_bytes_applies() {
    let mut encoder = PpuStateEncoder::new();
    let mut st = PpuState::new();
    let oam = vec![5u8; 1024];
    let io = vec![6u8; 128];
    let pal = vec![7u8; 1024];
    let vram = vec![8u8; 98304];
    let mut payload = encoder.encode(&oam, &io, &pal, &vram);
    payload.resize(payload.len() + 16_777_217, 0xAB);
    assert_eq!(st.try_apply_payload(&payload), Ok(()));
    assert_eq!(st.oam, [5u8; 1024]);
    assert_eq!(st.vram[98303], 8);
}

#[test]
fn ppu_vram_section_longer_than_lz4_accepts_is_refused() {
    let vlen: usize = 16_777_217;
    let mut p = ppu_sections((vlen + 1) as u32, 1, &[]);
    p.resize(p.len() + vlen, 0xFF);
    let mut st = PpuState::new();
    assert_eq!(st.try_apply_payload(&p), Err(CodecError::PayloadTooLong));
    assert_eq!(st.vram[0], 0);
}

#[test]
fn audio_encoder_keeps_its_rate() {
    let a = AudioEncoder::new(32768);
    assert_eq!(a.sample_rate, 32768);
}

#[test]
fn unchanged_frame_sends_an_empty_delta() {
    let mut encoder = PaletteEncoder::new();
    let mut frame = vec![0x0123u16; TOTAL_PIXELS];
    frame[5] = 0x7fff;
    let _ = encoder.encode(&frame);
    let (f, p) = encoder.encode(&frame);
    assert_eq!(f, 8);
    assert_eq!(lz4_flex::decompress_size_prepended(&p).unwrap(), vec![0u8, 0u8]);
}

#[test]
fn ppu_encoder_takes_sections_of_any_length() {
    let mut encoder = PpuStateEncoder::new();
    let mut decoder = PpuState::new();
    let oam = vec![9u8; 10];
    let io = vec![3u8; 200];
    let pal = vec![1u8; 1024];
    let vram = vec![2u8; 98304];
    let payload = encoder.encode(&oam, &io, &pal, &vram);
    assert!(decoder.apply_payload(&payload).is_ok());
    assert_eq!(decoder.oam, [0u8; 1024]);
    assert_eq!(decoder.io, [3u8; 128]);
    assert_eq!(decoder.vram[0], 2);
}

#[test]
fn lz4_sections_come_back() {
    let data: Vec<u8> = (0..5000u32).map(|i| (i % 7) as u8).collect();
    assert!(gba_streamer::lz4::lz4_roundtrip_holds(&data));
    assert!(gba_streamer::lz4::lz4_roundtrip_holds(&[]));
}
