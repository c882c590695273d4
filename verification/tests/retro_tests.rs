use gba_streamer::retro::{
    clamp_runahead, copy_pitched_frame, count_differences, joypad_pressed, measured_lag,
    pixel_format_supported, ppu_region, probe_mask, region_read_fits, runahead_active, step_plan,
    CoreOp, PpuRegion,
};

#[test]
fn joypad_buttons_map_to_mask_bits() {
    let mask: i16 = 0b10_0000_0001;
    assert_eq!(joypad_pressed(mask, 1, 8), 1);
    assert_eq!(joypad_pressed(mask, 1, 10), 1);
    assert_eq!(joypad_pressed(mask, 1, 0), 0);
    assert_eq!(joypad_pressed(mask, 2, 8), 0);
    assert_eq!(joypad_pressed(-1, 1, 1), 0);
    assert_eq!(joypad_pressed(0x10, 1, 7), 1);
    assert_eq!(joypad_pressed(0x100, 1, 11), 1);
}

#[test]
fn formats_regions_and_limits() {
    assert!(pixel_format_supported(0));
    assert!(pixel_format_supported(2));
    assert!(!pixel_format_supported(1));
    assert_eq!(ppu_region(0x0600_0000), Some(PpuRegion::Vram));
    assert_eq!(ppu_region(0x0500_0000), Some(PpuRegion::Palette));
    assert_eq!(ppu_region(0x0700_0000), Some(PpuRegion::Oam));
    assert_eq!(ppu_region(0x0400_0000), Some(PpuRegion::Io));
    assert_eq!(ppu_region(0x0200_0000), None);
    assert!(region_read_fits(PpuRegion::Vram, 98304));
    assert!(!region_read_fits(PpuRegion::Vram, 98305));
    assert!(region_read_fits(PpuRegion::Io, 1024));
    assert!(!region_read_fits(PpuRegion::Oam, 1025));
    assert_eq!(clamp_runahead(0), 0);
    assert_eq!(clamp_runahead(2), 2);
    assert_eq!(clamp_runahead(200), 2);
    assert!(runahead_active(1, true, true, 10));
    assert!(!runahead_active(0, true, true, 10));
    assert!(!runahead_active(1, true, false, 10));
    assert!(!runahead_active(1, true, true, 0));
}

#[test]
fn step_plans() {
    let (run, take, save, cap, drop, load) = (
        CoreOp::Run,
        CoreOp::TakeAudio,
        CoreOp::SaveState,
        CoreOp::Capture,
        CoreOp::DiscardAudio,
        CoreOp::LoadState,
    );
    assert_eq!(step_plan(2, false), vec![run, take, cap]);
    assert_eq!(step_plan(2, true), vec![run, take, save, run, run, cap, drop, load]);
    assert_eq!(step_plan(0, true), vec![run, take, save, cap, drop, load]);
}

#[test]
fn lag_probe_measurement() {
    assert_eq!(probe_mask(0), 0x11);
    assert_eq!(probe_mask(0x40), 0x40);
    let idle = vec![vec![0u16; 100]; 3];
    let mut pressed = idle.clone();
    for p in 0..60 {
        pressed[1][p] = 1;
    }
    for p in 0..20 {
        pressed[0][p] = 1;
    }
    assert_eq!(count_differences(&pressed[1], &idle[1]), 60);
    assert_eq!(count_differences(&[1, 2, 3], &[1, 0]), 1);
    assert_eq!(measured_lag(&pressed, &idle), 1);
    assert_eq!(measured_lag(&idle, &idle), 0);
    assert_eq!(measured_lag(&pressed, &Vec::new()), 0);
}

#[test]
fn pitched_copy() {
    let src: Vec<u16> = (0..20).collect();
    assert_eq!(copy_pitched_frame(&src, 3, 2, 10), vec![0, 1, 2, 5, 6, 7]);
    assert_eq!(copy_pitched_frame(&src, 0, 2, 10), Vec::<u16>::new());
    assert_eq!(copy_pitched_frame(&src, 4, 1, 2), vec![0, 1, 2, 3]);
}
