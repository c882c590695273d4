use gba_streamer::delta16::{apply_delta_16, compress_delta_16, decompress_delta_16};
use gba_streamer::error::CodecError;
use gba_streamer::frame::{rgb555_to_rgba, GBA_WIDTH, TOTAL_PIXELS};

fn paint_tile(frame: &mut [u16], b: usize, c: u16) {
    let (bx, by) = (b % 30, b / 30);
    for y in 0..8 {
        for x in 0..8 {
            frame[(by * 8 + y) * GBA_WIDTH + bx * 8 + x] = c.wrapping_add((x + y) as u16);
        }
    }
}

#[test]
fn keyframe_then_tile_mask_frames_roundtrip() {
    let mut client = vec![0u16; TOTAL_PIXELS];
    let mut prev: Vec<u16> = Vec::new();
    let mut frame = vec![0x1111u16; TOTAL_PIXELS];
    for step in 0..6usize {
        if step > 0 {
            paint_tile(&mut frame, (step * 97) % 600, step as u16 * 1000);
        }
        let (flag, payload) = compress_delta_16(&frame, &prev, step == 3);
        let expected_flag = if step == 0 || step == 3 { 1 } else { 0 };
        assert_eq!(flag, expected_flag);
        decompress_delta_16(flag, &payload, &mut client).unwrap();
        assert_eq!(client, frame);
        prev = frame.clone();
    }
}

#[test]
fn unchanged_frame_has_no_payload() {
    let frame = vec![7u16; TOTAL_PIXELS];
    let (flag, payload) = compress_delta_16(&frame, &frame, false);
    assert_eq!(flag, 2);
    assert!(payload.is_empty());
    let mut client = frame.clone();
    decompress_delta_16(flag, &payload, &mut client).unwrap();
    assert_eq!(client, frame);
}

#[test]
fn tile_mask_marks_exactly_the_changed_tiles() {
    let prev = vec![0u16; TOTAL_PIXELS];
    let mut frame = prev.clone();
    paint_tile(&mut frame, 0, 5);
    paint_tile(&mut frame, 9, 5);
    paint_tile(&mut frame, 599, 5);
    let (flag, payload) = compress_delta_16(&frame, &prev, false);
    assert_eq!(flag, 0);
    let mask = &payload[..75];
    assert_eq!(mask[0], 0b0000_0001);
    assert_eq!(mask[1], 0b0000_0010);
    assert_eq!(mask[74], 0b1000_0000);
    assert_eq!(mask.iter().map(|b| b.count_ones()).sum::<u32>(), 3);
    let pixels = lz4_flex::decompress_size_prepended(&payload[75..]).unwrap();
    assert_eq!(pixels.len(), 3 * 64 * 2);
}

#[test]
fn refused_frames_leave_the_buffer() {
    let mut client = vec![3u16; TOTAL_PIXELS];
    assert!(matches!(decompress_delta_16(1, &[1, 2], &mut client), Err(CodecError::Lz4(_))));
    let short_key = lz4_flex::compress_prepend_size(&[0u8; 10]);
    assert_eq!(decompress_delta_16(1, &short_key, &mut client), Err(CodecError::DeltaSizeMismatch));
    let mut mask_frame = vec![0xffu8; 75];
    mask_frame.extend_from_slice(&lz4_flex::compress_prepend_size(&[0u8; 128]));
    assert_eq!(decompress_delta_16(0, &mask_frame, &mut client), Err(CodecError::DeltaSizeMismatch));
    assert!(client.iter().all(|&p| p == 3));
    assert_eq!(decompress_delta_16(9, &[], &mut client), Ok(()));
}

#[test]
fn apply_writes_marked_tiles_in_order() {
    let mut mask = vec![0u8; 75];
    mask[0] = 0b0000_0011;
    let mut pixels = Vec::new();
    for i in 0..128u16 {
        pixels.extend_from_slice(&(i + 1).to_le_bytes());
    }
    let mut buf = vec![0u16; TOTAL_PIXELS];
    apply_delta_16(0, &mask, &pixels, &mut buf);
    assert_eq!(buf[0], 1);
    assert_eq!(buf[7], 8);
    assert_eq!(buf[GBA_WIDTH], 9);
    assert_eq!(buf[8], 65);
    assert_eq!(buf[16], 0);
}

#[test]
fn rgb555_colours() {
    assert_eq!(rgb555_to_rgba(0x7C00), 0xFF00_00FF);
    assert_eq!(rgb555_to_rgba(0x03E0), 0xFF00_FF00);
    assert_eq!(rgb555_to_rgba(0x001F), 0xFFFF_0000);
    assert_eq!(rgb555_to_rgba(0), 0xFF00_0000);
    assert_eq!(rgb555_to_rgba(0x0421), 0xFF08_0808);
}

use gba_streamer::delta16::paint_client_frame;
use gba_streamer::delta32::{compress_delta, decompress_delta};

#[test]
fn rgba_frames_roundtrip_through_tile_masks() {
    let mut client = vec![0u32; TOTAL_PIXELS];
    let mut prev: Vec<u32> = Vec::new();
    let mut frame: Vec<u32> = (0..TOTAL_PIXELS as u32).map(|i| i.wrapping_mul(2654435761)).collect();
    for step in 0..5u32 {
        if step > 0 {
            let b = (step as usize * 131) % 600;
            let (bx, by) = (b % 30, b / 30);
            for y in 0..8 {
                for x in 0..8 {
                    frame[(by * 8 + y) * GBA_WIDTH + bx * 8 + x] ^= 0x00ff_00ff + step;
                }
            }
        }
        let out = compress_delta(&frame, &prev, step == 0);
        assert_eq!(out[0], if step == 0 { 1 } else { 0 });
        decompress_delta(&out, &mut client).unwrap();
        assert_eq!(client, frame);
        prev = frame.clone();
    }
    let same = compress_delta(&frame, &frame, false);
    assert_eq!(same, vec![2u8]);
    decompress_delta(&same, &mut client).unwrap();
    assert_eq!(client, frame);
}

#[test]
fn rgba_delta_errors_and_empty_input() {
    let mut buf = vec![5u32; TOTAL_PIXELS];
    assert_eq!(decompress_delta(&[], &mut buf), Ok(()));
    assert!(matches!(decompress_delta(&[1, 0, 0], &mut buf), Err(CodecError::Lz4(_))));
    let mut short = vec![1u8];
    short.extend_from_slice(&lz4_flex::compress_prepend_size(&[0u8; 16]));
    assert_eq!(decompress_delta(&short, &mut buf), Err(CodecError::DeltaSizeMismatch));
    assert!(buf.iter().all(|&p| p == 5));
}

#[test]
fn client_screen_painting() {
    let mut screen = vec![0u32; TOTAL_PIXELS];
    let pixels: Vec<u8> = [0x7C00u16, 0x001F].iter().flat_map(|p| p.to_le_bytes()).collect();
    paint_client_frame(1, &lz4_flex::compress_prepend_size(&pixels), &mut screen);
    assert_eq!(screen[0], 0xFF00_00FF);
    assert_eq!(screen[1], 0xFFFF_0000);
    assert_eq!(screen[2], 0);

    let mut screen2 = vec![7u32; TOTAL_PIXELS];
    let mut payload = vec![0u8; 75];
    payload[0] = 0b0000_0010;
    let tile: Vec<u8> = (0..10u16).flat_map(|_| 0x03E0u16.to_le_bytes()).collect();
    payload.extend_from_slice(&lz4_flex::compress_prepend_size(&tile));
    paint_client_frame(0, &payload, &mut screen2);
    assert_eq!(screen2[8], 0xFF00_FF00);
    assert_eq!(screen2[8 + 7], 0xFF00_FF00);
    assert_eq!(screen2[GBA_WIDTH + 8], 0xFF00_FF00);
    assert_eq!(screen2[GBA_WIDTH + 8 + 2], 7);
    assert_eq!(screen2[0], 7);
    paint_client_frame(0, &payload[..75], &mut screen2);
    paint_client_frame(3, &payload, &mut screen2);
    paint_client_frame(1, &[1, 2], &mut screen2);
    assert_eq!(screen2[0], 7);
}

#[test]
fn overlong_delta_payloads_are_refused() {
    let long = vec![0xFFu8; 16_777_217];
    let mut buf = vec![7u16; TOTAL_PIXELS];
    assert_eq!(decompress_delta_16(1, &long, &mut buf), Err(CodecError::PayloadTooLong));
    assert!(buf.iter().all(|&v| v == 7));
    let mut rgba = vec![9u32; TOTAL_PIXELS];
    let mut long32 = vec![0xFFu8; 16_777_218];
    long32[0] = 1;
    assert_eq!(decompress_delta(&long32, &mut rgba), Err(CodecError::PayloadTooLong));
    assert!(rgba.iter().all(|&v| v == 9));
    paint_client_frame(1, &long, &mut rgba);
    assert!(rgba.iter().all(|&v| v == 9));
}
