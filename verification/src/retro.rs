//! The decisions of the libretro host: joypad bits, accepted pixel formats,
//! the memory regions of the PPU, run-ahead sequencing of the emulator, lag
//! probing and the copy of a video frame out of the core's buffer.

use vstd::prelude::*;
use vstd::arithmetic::div_mod::lemma_fundamental_div_mod_converse;

verus! {

/// libretro's joypad device.
pub const RETRO_DEVICE_JOYPAD: u32 = 1;

/// The bit of the host's button mask for a libretro joypad button id: A, B,
/// Select, Start, Right, Left, Up, Down, R, L take bits 0 to 9.
pub open spec fn button_bit(id: u32) -> Option<u16> {
    if id == 8 {
        Some(0)
    } else if id == 0 {
        Some(1)
    } else if id == 2 {
        Some(2)
    } else if id == 3 {
        Some(3)
    } else if id == 7 {
        Some(4)
    } else if id == 6 {
        Some(5)
    } else if id == 4 {
        Some(6)
    } else if id == 5 {
        Some(7)
    } else if id == 11 {
        Some(8)
    } else if id == 10 {
        Some(9)
    } else {
        None
    }
}

/// What the core is told of a button: 1 where it is held, else 0.
pub open spec fn joypad_state(mask: i16, device: u32, id: u32) -> i16 {
    if device != 1 {
        0
    } else {
        match button_bit(id) {
            Some(k) => if mask & (1i16 << k) != 0 {
                1
            } else {
                0
            },
            None => 0,
        }
    }
}

/// The single-bit masks of bits 0 to 9.
proof fn lemma_bit_masks()
    ensures
        1i16 << 0u16 == 0x1i16,
        1i16 << 1u16 == 0x2i16,
        1i16 << 2u16 == 0x4i16,
        1i16 << 3u16 == 0x8i16,
        1i16 << 4u16 == 0x10i16,
        1i16 << 5u16 == 0x20i16,
        1i16 << 6u16 == 0x40i16,
        1i16 << 7u16 == 0x80i16,
        1i16 << 8u16 == 0x100i16,
        1i16 << 9u16 == 0x200i16,
{
    assert(1i16 << 0u16 == 0x1i16 && 1i16 << 1u16 == 0x2i16 && 1i16 << 2u16 == 0x4i16 && 1i16 << 3u16
        == 0x8i16 && 1i16 << 4u16 == 0x10i16 && 1i16 << 5u16 == 0x20i16 && 1i16 << 6u16 == 0x40i16
        && 1i16 << 7u16 == 0x80i16 && 1i16 << 8u16 == 0x100i16 && 1i16 << 9u16 == 0x200i16)
        by (bit_vector);
}

/// The core is told 1 for a held button and 0 otherwise: the joypad's A, B,
/// Select, Start, Right, Left, Up, Down, R and L (libretro ids 8, 0, 2, 3,
/// 7, 6, 4, 5, 11, 10) are bits 0 to 9 of the client's mask, in that order;
/// any other device or id reads 0.
pub proof fn lemma_joypad_buttons(mask: i16, device: u32, id: u32)
    ensures
        joypad_state(mask, device, id) == 0 || joypad_state(mask, device, id) == 1,
            device != 1 ==> joypad_state(mask, device, id) == 0,
            device == 1 && id == 8 ==> (joypad_state(mask, device, id) == 1 <==> mask & 0x1 != 0),
            device == 1 && id == 0 ==> (joypad_state(mask, device, id) == 1 <==> mask & 0x2 != 0),
            device == 1 && id == 2 ==> (joypad_state(mask, device, id) == 1 <==> mask & 0x4 != 0),
            device == 1 && id == 3 ==> (joypad_state(mask, device, id) == 1 <==> mask & 0x8 != 0),
            device == 1 && id == 7 ==> (joypad_state(mask, device, id) == 1 <==> mask & 0x10 != 0),
            device == 1 && id == 6 ==> (joypad_state(mask, device, id) == 1 <==> mask & 0x20 != 0),
            device == 1 && id == 4 ==> (joypad_state(mask, device, id) == 1 <==> mask & 0x40 != 0),
            device == 1 && id == 5 ==> (joypad_state(mask, device, id) == 1 <==> mask & 0x80 != 0),
            device == 1 && id == 11 ==> (joypad_state(mask, device, id) == 1 <==> mask & 0x100 != 0),
            device == 1 && id == 10 ==> (joypad_state(mask, device, id) == 1 <==> mask & 0x200 != 0),
            !(id == 8 || id == 0 || id == 2 || id == 3 || id == 7 || id == 6 || id == 4 || id == 5
                || id == 11 || id == 10) ==> joypad_state(mask, device, id) == 0,
{
    lemma_bit_masks();
}

/// Answers the core's question whether a button is held.
pub fn joypad_pressed(mask: i16, device: u32, id: u32) -> (r: i16)
    ensures
        r == joypad_state(mask, device, id),
        r == 0 || r == 1,
            device != 1 ==> r == 0,
            device == 1 && id == 8 ==> (r == 1 <==> mask & 0x1 != 0),
            device == 1 && id == 0 ==> (r == 1 <==> mask & 0x2 != 0),
            device == 1 && id == 2 ==> (r == 1 <==> mask & 0x4 != 0),
            device == 1 && id == 3 ==> (r == 1 <==> mask & 0x8 != 0),
            device == 1 && id == 7 ==> (r == 1 <==> mask & 0x10 != 0),
            device == 1 && id == 6 ==> (r == 1 <==> mask & 0x20 != 0),
            device == 1 && id == 4 ==> (r == 1 <==> mask & 0x40 != 0),
            device == 1 && id == 5 ==> (r == 1 <==> mask & 0x80 != 0),
            device == 1 && id == 11 ==> (r == 1 <==> mask & 0x100 != 0),
            device == 1 && id == 10 ==> (r == 1 <==> mask & 0x200 != 0),
            !(id == 8 || id == 0 || id == 2 || id == 3 || id == 7 || id == 6 || id == 4 || id == 5
                || id == 11 || id == 10) ==> r == 0,
{
    proof {
        lemma_joypad_buttons(mask, device, id);
    }
    if device != RETRO_DEVICE_JOYPAD {
        return 0;
    }
    let bit: u16 = if id == 8 {
        0
    } else if id == 0 {
        1
    } else if id == 2 {
        2
    } else if id == 3 {
        3
    } else if id == 7 {
        4
    } else if id == 6 {
        5
    } else if id == 4 {
        6
    } else if id == 5 {
        7
    } else if id == 11 {
        8
    } else if id == 10 {
        9
    } else {
        return 0;
    };
    if mask & (1i16 << bit) != 0 {
        1
    } else {
        0
    }
}

/// The pixel formats the host takes: 0RGB1555 (0) and RGB565 (2).
pub fn pixel_format_supported(fmt: u32) -> (r: bool)
    ensures
        r == (fmt == 0 || fmt == 2),
{
    fmt == 0 || fmt == 2
}

/// The memory regions of the PPU that the host mirrors.
#[derive(Debug, Clone, Copy, PartialEq, Eq, Structural)]
pub enum PpuRegion {
    Vram,
    Palette,
    Oam,
    Io,
}

/// The PPU region a memory descriptor maps, by its start address: VRAM at
/// 0x06000000, palette RAM at 0x05000000, OAM at 0x07000000, I/O registers
/// at 0x04000000.
pub open spec fn region_at(start: usize) -> Option<PpuRegion> {
    if start == 0x0600_0000 {
        Some(PpuRegion::Vram)
    } else if start == 0x0500_0000 {
        Some(PpuRegion::Palette)
    } else if start == 0x0700_0000 {
        Some(PpuRegion::Oam)
    } else if start == 0x0400_0000 {
        Some(PpuRegion::Io)
    } else {
        None
    }
}

/// Classifies a memory descriptor by its start address.
pub fn ppu_region(start: usize) -> (r: Option<PpuRegion>)
    ensures
        r == region_at(start),
{
    if start == 0x0600_0000 {
        Some(PpuRegion::Vram)
    } else if start == 0x0500_0000 {
        Some(PpuRegion::Palette)
    } else if start == 0x0700_0000 {
        Some(PpuRegion::Oam)
    } else if start == 0x0400_0000 {
        Some(PpuRegion::Io)
    } else {
        None
    }
}

/// Whether a buffer of `len` bytes is read from a region: at most 96 KiB of
/// VRAM, at most 1 KiB of each other region.
pub fn region_read_fits(region: PpuRegion, len: usize) -> (r: bool)
    ensures
        r == (len <= if region == PpuRegion::Vram {
            0x18000usize
        } else {
            0x400usize
        }),
{
    match region {
        PpuRegion::Vram => len <= 0x18000,
        _ => len <= 0x400,
    }
}

/// Run-ahead is kept between 0 and 2 frames.
pub fn clamp_runahead(frames: u8) -> (r: u8)
    ensures
        r == if frames < 2 {
            frames
        } else {
            2
        },
{
    if frames < 2 {
        frames
    } else {
        2
    }
}

/// Run-ahead is used when frames are asked for and the core can save and
/// load its state into a non-empty buffer.
pub fn runahead_active(frames: u8, can_save: bool, can_load: bool, state_size: usize) -> (r: bool)
    ensures
        r == (frames > 0 && can_save && can_load && state_size > 0),
{
    frames > 0 && can_save && can_load && state_size > 0
}

/// One call the host makes into the core, or on the buffers the core's
/// callbacks fill, while stepping a frame.
#[derive(Debug, Clone, Copy, PartialEq, Eq, Structural)]
pub enum CoreOp {
    /// Run the core for one frame.
    Run,
    /// Take the audio gathered so far as the frame's audio.
    TakeAudio,
    /// Drop the audio gathered so far.
    DiscardAudio,
    /// Save the core's state into the host's buffer.
    SaveState,
    /// Load the core's state from the host's buffer.
    LoadState,
    /// Capture the picture (video frame or PPU memory) the core shows now.
    Capture,
}

/// The calls that step one frame. With run-ahead: run the frame, take its
/// audio, save the state, run `frames` frames further, capture that
/// picture, drop the speculative audio and load the saved state back.
/// Without: run the frame, take its audio, capture its picture.
pub open spec fn step_plan_spec(frames: u8, active: bool) -> Seq<CoreOp> {
    if active {
        seq![CoreOp::Run, CoreOp::TakeAudio, CoreOp::SaveState] + Seq::new(
            frames as nat,
            |i: int| CoreOp::Run,
        ) + seq![CoreOp::Capture, CoreOp::DiscardAudio, CoreOp::LoadState]
    } else {
        seq![CoreOp::Run, CoreOp::TakeAudio, CoreOp::Capture]
    }
}

/// The calls that step one frame, as `step_plan_spec` says.
pub fn step_plan(frames: u8, active: bool) -> (r: Vec<CoreOp>)
    ensures
        r@ == step_plan_spec(frames, active),
{
    let mut ops: Vec<CoreOp> = Vec::new();
    if !active {
        ops.push(CoreOp::Run);
        ops.push(CoreOp::TakeAudio);
        ops.push(CoreOp::Capture);
        assert(ops@ =~= step_plan_spec(frames, active));
        return ops;
    }
    ops.push(CoreOp::Run);
    ops.push(CoreOp::TakeAudio);
    ops.push(CoreOp::SaveState);
    let ghost head = ops@;
    let mut i: u8 = 0;
    while i < frames
        invariant
            i <= frames,
            ops@ == head + Seq::new(i as nat, |j: int| CoreOp::Run),
        decreases frames - i,
    {
        ops.push(CoreOp::Run);
        i = i + 1;
        assert(ops@ =~= head + Seq::new(i as nat, |j: int| CoreOp::Run));
    }
    ops.push(CoreOp::Capture);
    ops.push(CoreOp::DiscardAudio);
    ops.push(CoreOp::LoadState);
    assert(ops@ =~= step_plan_spec(frames, active));
    ops
}

/// An emulator seen through frame numbers: the frame it is at, the frame
/// its saved state is at, the frames whose audio is gathered and not yet
/// taken, the frames whose audio was taken, and the frame last captured.
pub struct EmuModel {
    pub frame: int,
    pub saved: int,
    pub pending_audio: Seq<int>,
    pub taken_audio: Seq<int>,
    pub shown: int,
}

/// The emulator after one call.
pub open spec fn apply_op(s: EmuModel, op: CoreOp) -> EmuModel {
    match op {
        CoreOp::Run => EmuModel {
            frame: s.frame + 1,
            pending_audio: s.pending_audio.push(s.frame + 1),
            ..s
        },
        CoreOp::TakeAudio => EmuModel {
            taken_audio: s.taken_audio + s.pending_audio,
            pending_audio: Seq::empty(),
            ..s
        },
        CoreOp::DiscardAudio => EmuModel { pending_audio: Seq::empty(), ..s },
        CoreOp::SaveState => EmuModel { saved: s.frame, ..s },
        CoreOp::LoadState => EmuModel { frame: s.saved, ..s },
        CoreOp::Capture => EmuModel { shown: s.frame, ..s },
    }
}

/// The emulator after a sequence of calls.
pub open spec fn run_ops(s: EmuModel, ops: Seq<CoreOp>) -> EmuModel
    decreases ops.len(),
{
    if ops.len() == 0 {
        s
    } else {
        run_ops(apply_op(s, ops[0]), ops.drop_first())
    }
}

proof fn lemma_run_ops_concat(s: EmuModel, a: Seq<CoreOp>, b: Seq<CoreOp>)
    ensures
        run_ops(s, a + b) == run_ops(run_ops(s, a), b),
    decreases a.len(),
{
    if a.len() > 0 {
        assert((a + b).drop_first() =~= a.drop_first() + b);
        lemma_run_ops_concat(apply_op(s, a[0]), a.drop_first(), b);
    } else {
        assert(a + b =~= b);
    }
}

proof fn lemma_run_frames(s: EmuModel, n: nat)
    ensures
        run_ops(s, Seq::new(n, |i: int| CoreOp::Run)) == (EmuModel {
            frame: s.frame + n,
            pending_audio: s.pending_audio + Seq::new(n, |i: int| s.frame + 1 + i),
            ..s
        }),
    decreases n,
{
    if n == 0 {
        assert(s.pending_audio + Seq::new(0, |i: int| s.frame + 1 + i) =~= s.pending_audio);
    } else {
        let s1 = apply_op(s, CoreOp::Run);
        assert(Seq::new(n, |i: int| CoreOp::Run).drop_first() =~= Seq::new(
            (n - 1) as nat,
            |i: int| CoreOp::Run,
        ));
        lemma_run_frames(s1, (n - 1) as nat);
        assert(s1.pending_audio + Seq::new((n - 1) as nat, |i: int| s1.frame + 1 + i)
            =~= s.pending_audio + Seq::new(n, |i: int| s.frame + 1 + i));
    }
}

proof fn lemma_run3(s: EmuModel, a: CoreOp, b: CoreOp, c: CoreOp)
    ensures
        run_ops(s, seq![a, b, c]) == apply_op(apply_op(apply_op(s, a), b), c),
{
    let ops = seq![a, b, c];
    assert(ops.drop_first() =~= seq![b, c]);
    assert(seq![b, c].drop_first() =~= seq![c]);
    assert(seq![c].drop_first() =~= Seq::<CoreOp>::empty());
    assert(run_ops(apply_op(apply_op(apply_op(s, a), b), c), Seq::<CoreOp>::empty()) == apply_op(
        apply_op(apply_op(s, a), b),
        c,
    ));
    assert(run_ops(apply_op(apply_op(s, a), b), seq![c]) == run_ops(
        apply_op(apply_op(apply_op(s, a), b), c),
        seq![c].drop_first(),
    ));
    assert(run_ops(apply_op(s, a), seq![b, c]) == run_ops(
        apply_op(apply_op(s, a), b),
        seq![b, c].drop_first(),
    ));
    assert(run_ops(s, ops) == run_ops(apply_op(s, a), ops.drop_first()));
}

/// A step advances the emulator by exactly one frame and hands on the audio
/// gathered before it with the audio of that frame only; with run-ahead it
/// shows the picture `frames` frames further on, without it the picture of
/// that frame.
pub proof fn lemma_step_plan(s: EmuModel, frames: u8, active: bool)
    ensures
        ({
            let e = run_ops(s, step_plan_spec(frames, active));
            &&& e.frame == s.frame + 1
            &&& e.taken_audio == s.taken_audio + s.pending_audio.push(s.frame + 1)
            &&& e.pending_audio.len() == 0
            &&& e.shown == if active {
                s.frame + 1 + frames
            } else {
                s.frame + 1
            }
        }),
{
    let head = seq![CoreOp::Run, CoreOp::TakeAudio, CoreOp::SaveState];
    let runs = Seq::new(frames as nat, |i: int| CoreOp::Run);
    let tail = seq![CoreOp::Capture, CoreOp::DiscardAudio, CoreOp::LoadState];
    if active {
        lemma_run_ops_concat(s, head + runs, tail);
        lemma_run_ops_concat(s, head, runs);
        let s1 = run_ops(s, head);
        lemma_run3(s, CoreOp::Run, CoreOp::TakeAudio, CoreOp::SaveState);
        lemma_run_frames(s1, frames as nat);
        let s2 = run_ops(s1, runs);
        lemma_run3(s2, CoreOp::Capture, CoreOp::DiscardAudio, CoreOp::LoadState);
        assert(s.taken_audio + s.pending_audio.push(s.frame + 1) =~= s.taken_audio + (
        s.pending_audio.push(s.frame + 1)));
        assert(s1.taken_audio =~= s.taken_audio + s.pending_audio.push(s.frame + 1));
    } else {
        lemma_run3(s, CoreOp::Run, CoreOp::TakeAudio, CoreOp::Capture);
    }
}

/// The button mask a lag probe presses: the requested one, or Right and A
/// where none is requested.
pub fn probe_mask(test_mask: i16) -> (r: i16)
    ensures
        r == if test_mask != 0 {
            test_mask
        } else {
            0x11i16
        },
{
    if test_mask != 0 {
        test_mask
    } else {
        0x11
    }
}

/// Number of positions below `n` at which the two frames differ.
pub open spec fn diff_count(a: Seq<u16>, b: Seq<u16>, n: nat) -> nat
    decreases n,
{
    if n == 0 {
        0
    } else {
        diff_count(a, b, (n - 1) as nat) + if a[n - 1] != b[n - 1] {
            1nat
        } else {
            0nat
        }
    }
}

/// `diff_count` counts the positions below `n` at which the two frames
/// differ.
pub proof fn lemma_diff_count_counts(a: Seq<u16>, b: Seq<u16>, n: nat)
    ensures
        Set::new(|i: int| 0 <= i < n && a[i] != b[i]).finite(),
        diff_count(a, b, n) == Set::new(|i: int| 0 <= i < n && a[i] != b[i]).len(),
    decreases n,
{
    let s1 = Set::new(|i: int| 0 <= i < n && a[i] != b[i]);
    if n == 0 {
        assert(s1 =~= Set::empty());
    } else {
        let m = (n - 1) as nat;
        lemma_diff_count_counts(a, b, m);
        let s0 = Set::new(|i: int| 0 <= i < m && a[i] != b[i]);
        if a[m as int] != b[m as int] {
            assert(s1 =~= s0.insert(m as int));
            assert(!s0.contains(m as int));
        } else {
            assert(s1 =~= s0);
        }
    }
}

/// The shorter of two lengths.
pub open spec fn min_len(a: nat, b: nat) -> nat {
    if a < b {
        a
    } else {
        b
    }
}

/// Counts the pixels that differ between two frames, over the length of the
/// shorter.
pub fn count_differences(a: &[u16], b: &[u16]) -> (r: usize)
    ensures
        r == diff_count(a@, b@, min_len(a@.len(), b@.len())),
        r == Set::new(|i: int| 0 <= i < a@.len() && i < b@.len() && a@[i] != b@[i]).len(),
{
    proof {
        lemma_diff_count_counts(a@, b@, min_len(a@.len(), b@.len()));
        assert(Set::new(|i: int| 0 <= i < a@.len() && i < b@.len() && a@[i] != b@[i]) =~= Set::new(
            |i: int| 0 <= i < min_len(a@.len(), b@.len()) && a@[i] != b@[i],
        ));
    }
    let n = if a.len() < b.len() {
        a.len()
    } else {
        b.len()
    };
    let mut count: usize = 0;
    let mut i: usize = 0;
    while i < n
        invariant
            i <= n,
            n <= a@.len(),
            n <= b@.len(),
            n == min_len(a@.len(), b@.len()),
            count == diff_count(a@, b@, i as nat),
            count <= i,
        decreases n - i,
    {
        if a[i] != b[i] {
            count = count + 1;
        }
        i = i + 1;
    }
    count
}

/// The lag a probe measures: the first step, among those present in both
/// branches, at which the pressed branch differs from the idle one in more
/// than 50 pixels, from `k` on; 0 where none does.
pub open spec fn lag_from(input: Seq<Seq<u16>>, idle: Seq<Seq<u16>>, k: nat) -> u8
    decreases min_len(input.len(), idle.len()) - k,
{
    if k >= min_len(input.len(), idle.len()) {
        0
    } else if diff_count(input[k as int], idle[k as int], min_len(input[k as int].len(), idle[k as int].len())) > 50 {
        k as u8
    } else {
        lag_from(input, idle, k + 1)
    }
}

/// The lag a probe measures is the first step at which the pressed branch
/// differs from the idle one in more than 50 pixels (among the first 256
/// steps present in both branches, as the lag is one byte), and 0 where no
/// step differs that much.
pub proof fn lemma_lag_is_first_differing_step(ins: Seq<Seq<u16>>, ids: Seq<Seq<u16>>, k: nat)
    ensures
        (exists|j: int|
            k <= j < ins.len() && j < ids.len() && j < 256 && #[trigger] diff_count(
                ins[j],
                ids[j],
                min_len(ins[j].len(), ids[j].len()),
            ) > 50) ==> {
            let r = lag_from(ins, ids, k) as int;
            &&& k <= r
            &&& r < ins.len()
            &&& r < ids.len()
            &&& diff_count(ins[r], ids[r], min_len(ins[r].len(), ids[r].len())) > 50
            &&& forall|j: int|
                k <= j < r ==> #[trigger] diff_count(ins[j], ids[j], min_len(ins[j].len(), ids[j].len()))
                    <= 50
        },
        (forall|j: int|
            k <= j < ins.len() && j < ids.len() ==> #[trigger] diff_count(
                ins[j],
                ids[j],
                min_len(ins[j].len(), ids[j].len()),
            ) <= 50) ==> lag_from(ins, ids, k) == 0,
    decreases min_len(ins.len(), ids.len()) - k,
{
    if k < min_len(ins.len(), ids.len()) {
        lemma_lag_is_first_differing_step(ins, ids, k + 1);
        let dk = diff_count(ins[k as int], ids[k as int], min_len(ins[k as int].len(), ids[k as int].len()));
        if dk <= 50 {
            if exists|j: int|
                k <= j < ins.len() && j < ids.len() && j < 256 && #[trigger] diff_count(
                    ins[j],
                    ids[j],
                    min_len(ins[j].len(), ids[j].len()),
                ) > 50 {
                let w = choose|j: int|
                    k <= j < ins.len() && j < ids.len() && j < 256 && #[trigger] diff_count(
                        ins[j],
                        ids[j],
                        min_len(ins[j].len(), ids[j].len()),
                    ) > 50;
                assert(w != k);
                assert(k + 1 <= w);
            }
        } else {
            if exists|j: int|
                k <= j < ins.len() && j < ids.len() && j < 256 && #[trigger] diff_count(
                    ins[j],
                    ids[j],
                    min_len(ins[j].len(), ids[j].len()),
                ) > 50 {
                let w = choose|j: int|
                    k <= j < ins.len() && j < ids.len() && j < 256 && #[trigger] diff_count(
                        ins[j],
                        ids[j],
                        min_len(ins[j].len(), ids[j].len()),
                    ) > 50;
                assert(k < 256);
            }
        }
    }
}

/// Compares the frames of the pressed branch with those of the idle branch
/// step by step: the result is the first step (of the first 256) at which
/// they differ in more than 50 pixels, and 0 where none does.
pub fn measured_lag(input: &Vec<Vec<u16>>, idle: &Vec<Vec<u16>>) -> (r: u8)
    ensures
        r == lag_from(input@.map(|i: int, f: Vec<u16>| f@), idle@.map(|i: int, f: Vec<u16>| f@), 0),
        (exists|j: int|
            0 <= j < input@.len() && j < idle@.len() && j < 256 && #[trigger] diff_count(
                input@[j]@,
                idle@[j]@,
                min_len(input@[j]@.len(), idle@[j]@.len()),
            ) > 50) ==> {
            &&& (r as int) < input@.len()
            &&& (r as int) < idle@.len()
            &&& diff_count(
                input@[r as int]@,
                idle@[r as int]@,
                min_len(input@[r as int]@.len(), idle@[r as int]@.len()),
            ) > 50
            &&& forall|j: int|
                0 <= j < r ==> #[trigger] diff_count(
                    input@[j]@,
                    idle@[j]@,
                    min_len(input@[j]@.len(), idle@[j]@.len()),
                ) <= 50
        },
        (forall|j: int|
            0 <= j < input@.len() && j < idle@.len() ==> #[trigger] diff_count(
                input@[j]@,
                idle@[j]@,
                min_len(input@[j]@.len(), idle@[j]@.len()),
            ) <= 50) ==> r == 0,
{
    let ghost ins = input@.map(|i: int, f: Vec<u16>| f@);
    let ghost ids = idle@.map(|i: int, f: Vec<u16>| f@);
    let n = if input.len() < idle.len() {
        input.len()
    } else {
        idle.len()
    };
    let mut k: usize = 0;
    while k < n
        invariant
            k <= n,
            n == min_len(ins.len(), ids.len()),
            ins == input@.map(|i: int, f: Vec<u16>| f@),
            ids == idle@.map(|i: int, f: Vec<u16>| f@),
            lag_from(ins, ids, 0) == lag_from(ins, ids, k as nat),
        decreases n - k,
    {
        let d = count_differences(input[k].as_slice(), idle[k].as_slice());
        assert(ins[k as int] == input@[k as int]@);
        assert(ids[k as int] == idle@[k as int]@);
        if d > 50 {
            proof {
                lemma_lag_is_first_differing_step(ins, ids, 0);
                assert forall|j: int| 0 <= j < input@.len() implies ins[j] == #[trigger] input@[j]@ by {}
                assert forall|j: int| 0 <= j < idle@.len() implies ids[j] == #[trigger] idle@[j]@ by {}
            }
            return k as u8;
        }
        k = k + 1;
    }
    proof {
        lemma_lag_is_first_differing_step(ins, ids, 0);
        assert forall|j: int| 0 <= j < input@.len() implies ins[j] == #[trigger] input@[j]@ by {}
        assert forall|j: int| 0 <= j < idle@.len() implies ids[j] == #[trigger] idle@[j]@ by {}
    }
    0
}

/// A frame of `w` by `h` pixels copied out of a buffer whose rows start
/// every `ppr` pixels.
pub open spec fn pitched_frame(src: Seq<u16>, w: nat, h: nat, ppr: nat) -> Seq<u16> {
    Seq::new(w * h, |i: int| src[(i / w as int) * ppr + i % w as int])
}

/// Copies the picture the core hands over, `width` by `height` pixels with
/// rows `pitch` bytes apart, into a packed frame.
pub fn copy_pitched_frame(src: &[u16], width: u32, height: u32, pitch: usize) -> (r: Vec<u16>)
    requires
        width * height <= u32::MAX,
        height == 0 || width == 0 || (height - 1) * (pitch / 2) + width <= src@.len(),
    ensures
        r@ == pitched_frame(src@, width as nat, height as nat, (pitch / 2) as nat),
{
    let ppr = pitch / 2;
    let slen = src.len();
    let w = width as usize;
    let h = height as usize;
    let mut out: Vec<u16> = Vec::new();
    let mut y: usize = 0;
    while y < h
        invariant
            y <= h,
            w == width,
            h == height,
            ppr == pitch / 2,
            width * height <= u32::MAX,
            slen == src@.len(),
            height == 0 || width == 0 || (height - 1) * ppr + width <= src@.len(),
            out@ == Seq::new((y * w) as nat, |i: int| src@[(i / w as int) * ppr + i % w as int]),
        decreases h - y,
    {
        let mut x: usize = 0;
        while x < w
            invariant
                x <= w,
                y < h,
                w == width,
                h == height,
                ppr == pitch / 2,
                width * height <= u32::MAX,
                slen == src@.len(),
                width == 0 || (height - 1) * ppr + width <= src@.len(),
                out@ == Seq::new((y * w + x) as nat, |i: int| src@[(i / w as int) * ppr + i % w as int]),
            decreases w - x,
        {
            assert(y * ppr + x < src@.len()) by (nonlinear_arith)
                requires
                    y < h,
                    x < w,
                    (h - 1) * ppr + w <= src@.len(),
            ;
            assert(y * w + x <= u32::MAX) by (nonlinear_arith)
                requires
                    y < h,
                    x < w,
                    w * h <= u32::MAX,
            ;
            out.push(src[y * ppr + x]);
            proof {
                lemma_fundamental_div_mod_converse((y * w + x) as int, w as int, y as int, x as int);
            }
            x = x + 1;
            assert(out@ =~= Seq::new((y * w + x) as nat, |i: int| src@[(i / w as int) * ppr + i % w as int]));
        }
        y = y + 1;
        assert(y * w == (y - 1) * w + w) by (nonlinear_arith);
    }
    assert(h * w == w * h) by (nonlinear_arith);
    out
}

} // verus!
