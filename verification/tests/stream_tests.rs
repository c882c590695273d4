use gba_streamer::control::{
    apply_client_message, begin_tick, bench_buttons, frame_input, new_control, on_client_connected,
    parse_client_message, parse_host_input, record_probe, ClientMessage, HostInput, PausedAction,
    Tick,
};
use gba_streamer::packets::{
    build_input_packet, build_stream_packet, build_web_frame_packet, parse_input_packet,
    probe_reply, udp_frame_packets,
};
use gba_streamer::reassembler::FrameReassembler;

#[test]
fn client_messages_in_check_order() {
    assert_eq!(parse_client_message(&[0xAA, 0x4B]), ClientMessage::ForceKeyframe);
    assert_eq!(parse_client_message(&[0xAA, 0x52, 1]), ClientMessage::SetRunahead(1));
    assert_eq!(parse_client_message(&[0xAA, 0x52, 9]), ClientMessage::SetRunahead(2));
    assert_eq!(parse_client_message(&[0xAA, 0x50, 2]), ClientMessage::Rewind);
    assert_eq!(parse_client_message(&[0xAA, 0x50, 1]), ClientMessage::SetPaused(true));
    assert_eq!(parse_client_message(&[0xAA, 0x50, 0, 7]), ClientMessage::SetPaused(false));
    assert_eq!(parse_client_message(&[0xAA, 0x53, 0x11, 0x00]), ClientMessage::Step(0x11));
    assert_eq!(parse_client_message(&[0xAA, 0x54]), ClientMessage::Probe(0));
    assert_eq!(parse_client_message(&[0xAA, 0x54, 0x01, 0x02]), ClientMessage::Probe(0x0201));
    assert_eq!(parse_client_message(&[0xAA, 0x54, 0x01]), ClientMessage::Probe(0));
    assert_eq!(
        parse_client_message(&[5, 0x10, 0x00]),
        ClientMessage::Input { seq: 5, mask: 0x10 }
    );
    assert_eq!(
        parse_client_message(&[0xAA, 0x52, 1, 0]),
        ClientMessage::Input { seq: 0xAA, mask: 0x0152 }
    );
    assert_eq!(parse_client_message(&[0x01, 0x80]), ClientMessage::Mask(-32767));
    assert_eq!(parse_client_message(&[0xAA]), ClientMessage::Ignored);
    assert_eq!(parse_client_message(&[]), ClientMessage::Ignored);
}

#[test]
fn brief_press_is_latched_until_the_frame() {
    let mut c = new_control(1);
    apply_client_message(&mut c, ClientMessage::Input { seq: 3, mask: 0x01 });
    apply_client_message(&mut c, ClientMessage::Input { seq: 4, mask: 0 });
    let (seq, mask, runahead) = frame_input(&mut c);
    assert_eq!((seq, mask, runahead), (4, 0x01, 1));
    let (_, mask2, _) = frame_input(&mut c);
    assert_eq!(mask2, 0);
}

#[test]
fn runahead_message_asks_to_store_the_value() {
    let mut c = new_control(0);
    assert_eq!(apply_client_message(&mut c, ClientMessage::SetRunahead(2)), Some(2));
    assert_eq!(c.runahead, 2);
    assert_eq!(apply_client_message(&mut c, ClientMessage::ForceKeyframe), None);
}

#[test]
fn pause_step_rewind_and_resume() {
    let mut c = new_control(2);
    let mut was_paused = false;
    assert_eq!(
        begin_tick(&mut c, &mut was_paused),
        Tick::Running { resume: None, keyframe: true, probe: None }
    );
    apply_client_message(&mut c, ClientMessage::SetPaused(true));
    assert_eq!(
        begin_tick(&mut c, &mut was_paused),
        Tick::Paused { enter: true, action: PausedAction::Wait }
    );
    apply_client_message(&mut c, ClientMessage::Step(0x10));
    assert_eq!(
        begin_tick(&mut c, &mut was_paused),
        Tick::Paused { enter: false, action: PausedAction::Step(0x10) }
    );
    assert_eq!(
        begin_tick(&mut c, &mut was_paused),
        Tick::Paused { enter: false, action: PausedAction::Wait }
    );
    apply_client_message(&mut c, ClientMessage::Rewind);
    assert_eq!(
        begin_tick(&mut c, &mut was_paused),
        Tick::Paused { enter: false, action: PausedAction::Rewind }
    );
    apply_client_message(&mut c, ClientMessage::SetPaused(false));
    apply_client_message(&mut c, ClientMessage::Probe(0x11));
    assert_eq!(
        begin_tick(&mut c, &mut was_paused),
        Tick::Running { resume: Some(2), keyframe: false, probe: Some(0x11) }
    );
    record_probe(&mut c, 1);
    assert_eq!(c.runahead, 1);
    assert_eq!(
        begin_tick(&mut c, &mut was_paused),
        Tick::Running { resume: None, keyframe: false, probe: None }
    );
}

#[test]
fn connecting_resumes_and_asks_for_a_keyframe() {
    let mut c = new_control(0);
    c.paused = true;
    c.force_keyframe = false;
    on_client_connected(&mut c);
    assert!(!c.paused);
    assert!(c.force_keyframe);
}

#[test]
fn host_input_messages() {
    let p = build_input_packet(7, 123456789, 0x0201);
    assert_eq!(p.len(), 14);
    assert_eq!(parse_host_input(&p), HostInput::Full { seq: 7, t_us: 123456789, mask: 0x0201 });
    assert_eq!(parse_host_input(&[0x10, 0x00, 0x01]), HostInput::MaskOnly(0x10));
    assert_eq!(parse_host_input(&[1]), HostInput::Ignored);
    assert_eq!(parse_input_packet(&p), Some((7, 123456789, 0x0201)));
    assert_eq!(parse_input_packet(&p[..13]), None);
}

#[test]
fn benchmark_button_schedule() {
    assert_eq!(bench_buttons(0, 120, false), 0x09);
    assert_eq!(bench_buttons(15, 120, true), 0);
    assert_eq!(bench_buttons(120, 120, true), 0x10 | 0x40 | 0x80 | 0x01);
    assert_eq!(bench_buttons(121, 120, true), 0x10 | 0x02);
    assert_eq!(bench_buttons(122, 120, true), 0x20 | 0x01);
    assert_eq!(bench_buttons(120, 120, false), 0x10 | 0x01 | 0x02);
    assert_eq!(bench_buttons(120 + 60, 120, false), 0x20);
    assert_eq!(bench_buttons(120 + 8, 120, false), 0x10 | 0x02);
}

#[test]
fn udp_chunks_reassemble_into_the_frame() {
    let payload: Vec<u8> = (0..2500u32).map(|i| (i * 7 % 256) as u8).collect();
    let packets = udp_frame_packets(9, 4, 100, 200, 2, &payload);
    assert_eq!(packets.len(), 3);
    assert_eq!(packets[0].len(), 19 + 1024);
    assert_eq!(packets[2].len(), 19 + 452);
    assert_eq!(&packets[1][0..4], &9u32.to_le_bytes());
    assert_eq!(packets[1][4], 1);
    assert_eq!(packets[1][5], 3);
    let mut r = FrameReassembler::new();
    assert!(r.push_chunk(&packets[0]).is_none());
    assert!(r.push_chunk(&packets[1]).is_none());
    let done = r.push_chunk(&packets[2]).unwrap();
    assert_eq!(done, (9, 4, 100, 2, payload));
}

#[test]
fn newer_frame_drops_an_unfinished_one() {
    let a: Vec<u8> = vec![1u8; 2000];
    let b: Vec<u8> = vec![2u8; 10];
    let pa = udp_frame_packets(1, 0, 0, 0, 1, &a);
    let pb = udp_frame_packets(2, 0, 0, 0, 1, &b);
    let mut r = FrameReassembler::new();
    assert!(r.push_chunk(&pa[0]).is_none());
    let done = r.push_chunk(&pb[0]).unwrap();
    assert_eq!(done.0, 2);
    assert_eq!(done.4, b);
    assert!(r.push_chunk(&pa[1]).is_none());
    assert!(r.push_chunk(&[0u8; 10]).is_none());
}

#[test]
fn stream_packet_layout() {
    let p = build_stream_packet(16, 2, 0x1234, &[9, 9], &[7, 7, 7]);
    assert_eq!(p, vec![16 | (2 << 6), 0x34, 2, 0, 9, 9, 7, 7, 7]);
    let paused = build_stream_packet(0x50, 0, 0, &[], &[1]);
    assert_eq!(paused, vec![0x10, 0, 0, 0, 1]);
    assert_eq!(probe_reply(2), vec![0xAA, 0x54, 2]);
    let w = build_web_frame_packet(1, 2, 3, 4, 5, 2, &[0xEE]);
    assert_eq!(w.len(), 34);
    assert_eq!(w[32], 2);
    assert_eq!(w[33], 0xEE);
    assert_eq!(&w[20..24], &4u32.to_le_bytes());
    assert_eq!(&w[16..20], &0u32.to_le_bytes());
}

#[test]
fn udp_chunks_reassemble_in_any_order() {
    let payload: Vec<u8> = (0..3000u32).map(|i| (i * 13 % 251) as u8).collect();
    let packets = udp_frame_packets(5, 7, 11, 13, 8, &payload);
    assert_eq!(packets.len(), 3);
    for order in [[2usize, 0, 1], [1, 2, 0], [2, 1, 0]] {
        let mut r = FrameReassembler::new();
        assert!(r.push_chunk(&packets[order[0]]).is_none());
        assert!(r.push_chunk(&packets[order[1]]).is_none());
        let done = r.push_chunk(&packets[order[2]]).unwrap();
        assert_eq!(done, (5, 7, 11, 8, payload.clone()));
    }
}

