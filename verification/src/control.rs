//! The web host's control channel: what a client's binary messages mean,
//! the control state they set, and what the emulation thread does with it
//! on each frame tick.

use vstd::prelude::*;
use crate::le::{u16_of, get16, read32};
use crate::packets::read64;
use crate::packets::{mask_of, input_packet_fields, parse_input_packet};

verus! {

/// A binary message from a browser client.
#[derive(Debug, Clone, Copy, PartialEq, Eq, Structural)]
pub enum ClientMessage {
    /// `AA 4B`: send a keyframe.
    ForceKeyframe,
    /// `AA 52 n`: run ahead `n` frames, at most 2.
    SetRunahead(u8),
    /// `AA 50 02`: go back to the frame where calibration started.
    Rewind,
    /// `AA 50 p`: pause (p != 0) or resume (p == 0).
    SetPaused(bool),
    /// `AA 53 lo hi`: while paused, step one frame holding these buttons.
    Step(i16),
    /// `AA 54 [lo hi]`: measure the game's input lag pressing these buttons.
    Probe(i16),
    /// `seq lo hi`: the buttons held, with the low byte of the input sequence.
    Input { seq: u32, mask: i16 },
    /// `lo hi`: the buttons held.
    Mask(i16),
    /// Anything shorter.
    Ignored,
}

/// What a message means, tested in this order: keyframe request (exactly
/// 2 bytes), run-ahead (exactly 3 bytes), pause or rewind (3 or more),
/// step (4 or more), probe (2 or more), input (3 or more), mask (2 or more).
pub open spec fn client_message(b: Seq<u8>) -> ClientMessage {
    if b.len() == 2 && b[0] == 0xAA && b[1] == 0x4B {
        ClientMessage::ForceKeyframe
    } else if b.len() == 3 && b[0] == 0xAA && b[1] == 0x52 {
        ClientMessage::SetRunahead(if b[2] < 2 { b[2] } else { 2 })
    } else if b.len() >= 3 && b[0] == 0xAA && b[1] == 0x50 {
        if b[2] == 2 {
            ClientMessage::Rewind
        } else {
            ClientMessage::SetPaused(b[2] != 0)
        }
    } else if b.len() >= 4 && b[0] == 0xAA && b[1] == 0x53 {
        ClientMessage::Step(mask_of(b[2], b[3]))
    } else if b.len() >= 2 && b[0] == 0xAA && b[1] == 0x54 {
        ClientMessage::Probe(if b.len() >= 4 { mask_of(b[2], b[3]) } else { 0 })
    } else if b.len() >= 3 {
        ClientMessage::Input { seq: b[0] as u32, mask: mask_of(b[1], b[2]) }
    } else if b.len() >= 2 {
        ClientMessage::Mask(mask_of(b[0], b[1]))
    } else {
        ClientMessage::Ignored
    }
}

/// The 3-byte message `AA 52 n` sets the run-ahead to `n` frames, and to 2
/// frames for any `n` above 2.
pub proof fn lemma_runahead_message(n: u8)
    ensures
        client_message(seq![0xAAu8, 0x52u8, n]) == ClientMessage::SetRunahead(
            if n <= 2 { n } else { 2 },
        ),
        n <= 2 ==> client_message(seq![0xAAu8, 0x52u8, n]) == ClientMessage::SetRunahead(n),
{
}

/// The button mask of bytes `lo`, `hi` is the 16-bit value `lo + 256 * hi`.
pub proof fn lemma_mask_bytes(lo: u8, hi: u8)
    ensures
        mask_of(lo, hi) as u16 as int == lo as int + 256 * hi as int,
{
    assert((((lo as u16) | ((hi as u16) << 8)) as u16) as i16 as u16 == lo as u16 + 256 * (hi as u16))
        by (bit_vector);
}

/// What each kind of client message means, by its bytes: `AA 4B` asks for
/// a keyframe; `AA 50 p` rewinds for p == 2 and else pauses (p != 0) or
/// resumes; `AA 53 lo hi` steps holding buttons `lo + 256 * hi`; `AA 54`
/// probes, holding the buttons of the next two bytes if they are there and
/// none otherwise; any other message of 3 or more bytes is an input with
/// sequence byte `b[0]` and buttons `b[1] + 256 * b[2]`; any other of 2
/// bytes is the buttons `b[0] + 256 * b[1]`; a shorter one is ignored.
pub proof fn lemma_client_message_kinds(b: Seq<u8>)
    ensures
        b == seq![0xAAu8, 0x4Bu8] ==> client_message(b) == ClientMessage::ForceKeyframe,
        b.len() >= 3 && b[0] == 0xAA && b[1] == 0x50 && b[2] == 2 ==> client_message(b)
            == ClientMessage::Rewind,
        b.len() >= 3 && b[0] == 0xAA && b[1] == 0x50 && b[2] != 2 ==> client_message(b)
            == ClientMessage::SetPaused(b[2] != 0),
        b.len() >= 4 && b[0] == 0xAA && b[1] == 0x53 ==> client_message(b) is Step && client_message(
            b,
        )->Step_0 as u16 as int == b[2] as int + 256 * b[3] as int,
        b.len() >= 4 && b[0] == 0xAA && b[1] == 0x54 ==> client_message(b) is Probe && client_message(
            b,
        )->Probe_0 as u16 as int == b[2] as int + 256 * b[3] as int,
        2 <= b.len() < 4 && b[0] == 0xAA && b[1] == 0x54 ==> client_message(b)
            == ClientMessage::Probe(0),
        b.len() >= 3 && b[0] != 0xAA ==> client_message(b) is Input && client_message(b)->seq
            == b[0] as u32 && client_message(b)->mask as u16 as int == b[1] as int + 256 * b[2] as int,
        b.len() == 2 && b[0] != 0xAA ==> client_message(b) is Mask && client_message(b)->Mask_0 as u16
            as int == b[0] as int + 256 * b[1] as int,
        b.len() < 2 ==> client_message(b) == ClientMessage::Ignored,
{
    if b.len() >= 4 {
        lemma_mask_bytes(b[2], b[3]);
    }
    if b.len() >= 3 {
        lemma_mask_bytes(b[1], b[2]);
    }
    if b.len() >= 2 {
        lemma_mask_bytes(b[0], b[1]);
    }
}

/// Reads a client's binary message.
pub fn parse_client_message(b: &[u8]) -> (r: ClientMessage)
    ensures
        r == client_message(b@),
        b@ == seq![0xAAu8, 0x52u8, b@[2]] ==> r == ClientMessage::SetRunahead(
            if b@[2] <= 2 { b@[2] } else { 2 },
        ),
{
    proof {
        if b@.len() == 3 {
            lemma_runahead_message(b@[2]);
        }
    }
    let n = b.len();
    if n == 2 && b[0] == 0xAA && b[1] == 0x4B {
        ClientMessage::ForceKeyframe
    } else if n == 3 && b[0] == 0xAA && b[1] == 0x52 {
        ClientMessage::SetRunahead(if b[2] < 2 { b[2] } else { 2 })
    } else if n >= 3 && b[0] == 0xAA && b[1] == 0x50 {
        if b[2] == 2 {
            ClientMessage::Rewind
        } else {
            ClientMessage::SetPaused(b[2] != 0)
        }
    } else if n >= 4 && b[0] == 0xAA && b[1] == 0x53 {
        ClientMessage::Step(get16(b, 2) as i16)
    } else if n >= 2 && b[0] == 0xAA && b[1] == 0x54 {
        ClientMessage::Probe(if n >= 4 { get16(b, 2) as i16 } else { 0 })
    } else if n >= 3 {
        ClientMessage::Input { seq: b[0] as u32, mask: get16(b, 1) as i16 }
    } else if n >= 2 {
        ClientMessage::Mask(get16(b, 0) as i16)
    } else {
        ClientMessage::Ignored
    }
}

/// What the client's messages have set, as the emulation thread reads it.
/// A step trigger of -1 means none and -2 a rewind; any other value is the
/// button mask of a step. A probe trigger below 0 means none.
#[derive(Debug, Clone, Copy, PartialEq, Eq, Structural)]
pub struct HostControl {
    pub paused: bool,
    pub runahead: u8,
    pub force_keyframe: bool,
    pub probe_trigger: i32,
    pub step_trigger: i32,
    pub last_input_seq: u32,
    pub input_mask: i16,
    pub latched_mask: i16,
}

/// The control state of a host whose core runs `runahead` frames ahead: not
/// paused, a keyframe due, nothing requested.
pub open spec fn initial_control(runahead: u8) -> HostControl {
    HostControl {
        paused: false,
        runahead,
        force_keyframe: true,
        probe_trigger: -1i32,
        step_trigger: -1i32,
        last_input_seq: 0,
        input_mask: 0,
        latched_mask: 0,
    }
}

/// The control state of a host that starts with `runahead` frames.
pub fn new_control(runahead: u8) -> (c: HostControl)
    ensures
        c == initial_control(runahead),
{
    HostControl {
        paused: false,
        runahead,
        force_keyframe: true,
        probe_trigger: -1,
        step_trigger: -1,
        last_input_seq: 0,
        input_mask: 0,
        latched_mask: 0,
    }
}

/// A client connected: the emulation runs and the next frame is a keyframe.
pub fn on_client_connected(c: &mut HostControl)
    ensures
        *final(c) == (HostControl { paused: false, force_keyframe: true, ..*old(c) }),
{
    c.paused = false;
    c.force_keyframe = true;
}

/// The control state after a message, and the run-ahead value to store for
/// the game where the message sets one.
pub open spec fn control_after(c: HostControl, m: ClientMessage) -> (HostControl, Option<u8>) {
    match m {
        ClientMessage::ForceKeyframe => (HostControl { force_keyframe: true, ..c }, None),
        ClientMessage::SetRunahead(n) => (HostControl { runahead: n, ..c }, Some(n)),
        ClientMessage::Rewind => (HostControl { step_trigger: -2i32, ..c }, None),
        ClientMessage::SetPaused(p) => (HostControl { paused: p, ..c }, None),
        ClientMessage::Step(mask) => (HostControl { step_trigger: mask as i32, ..c }, None),
        ClientMessage::Probe(mask) => (HostControl { probe_trigger: mask as i32, ..c }, None),
        ClientMessage::Input { seq, mask } => (
            HostControl {
                last_input_seq: seq,
                input_mask: mask,
                latched_mask: if mask != 0 {
                    c.latched_mask | mask
                } else {
                    c.latched_mask
                },
                ..c
            },
            None,
        ),
        ClientMessage::Mask(mask) => (
            HostControl {
                input_mask: mask,
                latched_mask: if mask != 0 {
                    c.latched_mask | mask
                } else {
                    c.latched_mask
                },
                ..c
            },
            None,
        ),
        ClientMessage::Ignored => (c, None),
    }
}

/// Applies a client's message; returns the run-ahead value to store for the
/// game where the message sets one.
pub fn apply_client_message(c: &mut HostControl, m: ClientMessage) -> (save: Option<u8>)
    ensures
        (*final(c), save) == control_after(*old(c), m),
{
    match m {
        ClientMessage::ForceKeyframe => {
            c.force_keyframe = true;
            None
        },
        ClientMessage::SetRunahead(n) => {
            c.runahead = n;
            Some(n)
        },
        ClientMessage::Rewind => {
            c.step_trigger = -2;
            None
        },
        ClientMessage::SetPaused(p) => {
            c.paused = p;
            None
        },
        ClientMessage::Step(mask) => {
            c.step_trigger = mask as i32;
            None
        },
        ClientMessage::Probe(mask) => {
            c.probe_trigger = mask as i32;
            None
        },
        ClientMessage::Input { seq, mask } => {
            c.last_input_seq = seq;
            c.input_mask = mask;
            if mask != 0 {
                c.latched_mask = c.latched_mask | mask;
            }
            None
        },
        ClientMessage::Mask(mask) => {
            c.input_mask = mask;
            if mask != 0 {
                c.latched_mask = c.latched_mask | mask;
            }
            None
        },
        ClientMessage::Ignored => None,
    }
}

/// What the emulation thread does on a tick while paused.
#[derive(Debug, Clone, Copy, PartialEq, Eq, Structural)]
pub enum PausedAction {
    /// Nothing requested: wait a little and look again.
    Wait,
    /// Load the calibration checkpoint and send its frame again.
    Rewind,
    /// Run one frame holding these buttons, without run-ahead.
    Step(i16),
}

/// What the emulation thread does on a tick.
#[derive(Debug, Clone, Copy, PartialEq, Eq, Structural)]
pub enum Tick {
    /// Paused. `enter` is set on the first paused tick: save the calibration
    /// checkpoint, stop run-ahead and keep the PPU memory as it is.
    Paused { enter: bool, action: PausedAction },
    /// Running. `resume` gives the run-ahead to go back to on the first tick
    /// after a pause; `keyframe` asks the PPU encoder for a keyframe;
    /// `probe` asks for a lag probe with these buttons.
    Running { resume: Option<u8>, keyframe: bool, probe: Option<i16> },
}

/// The tick, the control state after it (triggers taken are reset) and
/// whether the thread is paused after it.
pub open spec fn tick_spec(c: HostControl, was_paused: bool) -> (Tick, HostControl, bool) {
    if c.paused {
        let action = if c.step_trigger == -1 {
            PausedAction::Wait
        } else if c.step_trigger == -2 {
            PausedAction::Rewind
        } else {
            PausedAction::Step(c.step_trigger as i16)
        };
        (Tick::Paused { enter: !was_paused, action }, HostControl { step_trigger: -1i32, ..c }, true)
    } else {
        (
            Tick::Running {
                resume: if was_paused {
                    Some(c.runahead)
                } else {
                    None
                },
                keyframe: c.force_keyframe,
                probe: if c.probe_trigger >= 0 {
                    Some(c.probe_trigger as i16)
                } else {
                    None
                },
            },
            HostControl { force_keyframe: false, probe_trigger: -1i32, ..c },
            false,
        )
    }
}

/// Decides a tick of the emulation thread and takes the triggers it uses.
pub fn begin_tick(c: &mut HostControl, was_paused: &mut bool) -> (t: Tick)
    ensures
        (t, *final(c), *final(was_paused)) == tick_spec(*old(c), *old(was_paused)),
{
    if c.paused {
        let enter = !*was_paused;
        *was_paused = true;
        let req = c.step_trigger;
        c.step_trigger = -1;
        let action = if req == -1 {
            PausedAction::Wait
        } else if req == -2 {
            PausedAction::Rewind
        } else {
            PausedAction::Step(req as i16)
        };
        Tick::Paused { enter, action }
    } else {
        let resume = if *was_paused {
            Some(c.runahead)
        } else {
            None
        };
        *was_paused = false;
        let keyframe = c.force_keyframe;
        c.force_keyframe = false;
        let req = c.probe_trigger;
        c.probe_trigger = -1;
        let probe = if req >= 0 {
            Some(req as i16)
        } else {
            None
        };
        Tick::Running { resume, keyframe, probe }
    }
}

/// A probe measured `lag` frames: the host runs that far ahead from now on.
pub fn record_probe(c: &mut HostControl, lag: u8)
    ensures
        *final(c) == (HostControl { runahead: lag, ..*old(c) }),
{
    c.runahead = lag;
}

/// The input of a running frame: the matched sequence, the buttons held now
/// together with every button pressed since the last frame, and the
/// run-ahead to use; the latched buttons are cleared.
pub fn frame_input(c: &mut HostControl) -> (r: (u32, i16, u8))
    ensures
        r == (old(c).last_input_seq, old(c).input_mask | old(c).latched_mask, old(c).runahead),
        *final(c) == (HostControl { latched_mask: 0, ..*old(c) }),
{
    let latched = c.latched_mask;
    c.latched_mask = 0;
    (c.last_input_seq, c.input_mask | latched, c.runahead)
}

/// The control state after a sequence of messages.
pub open spec fn control_after_all(c: HostControl, ms: Seq<ClientMessage>) -> HostControl
    decreases ms.len(),
{
    if ms.len() == 0 {
        c
    } else {
        control_after_all(control_after(c, ms[0]).0, ms.drop_first())
    }
}

proof fn lemma_or_keeps(a: i16, x: i16, m: i16)
    requires
        a & m == m,
    ensures
        (a | x) & m == m,
{
    assert(a & m == m ==> (a | x) & m == m) by (bit_vector);
}

proof fn lemma_latch_kept(c: HostControl, ms: Seq<ClientMessage>, m: i16)
    requires
        c.latched_mask & m == m,
    ensures
        control_after_all(c, ms).latched_mask & m == m,
    decreases ms.len(),
{
    if ms.len() > 0 {
        let c1 = control_after(c, ms[0]).0;
        match ms[0] {
            ClientMessage::Input { seq, mask } => {
                if mask != 0 {
                    lemma_or_keeps(c.latched_mask, mask, m);
                }
            },
            ClientMessage::Mask(mask) => {
                if mask != 0 {
                    lemma_or_keeps(c.latched_mask, mask, m);
                }
            },
            _ => {},
        }
        lemma_latch_kept(c1, ms.drop_first(), m);
    }
}

/// A press reaches the next frame however briefly it is held: after an
/// input or mask message with buttons `m`, whatever messages follow before
/// the frame, the frame's buttons include every button of `m`.
pub proof fn lemma_press_reaches_frame(c: HostControl, ms: Seq<ClientMessage>, m: i16)
    requires
        ms.len() > 0,
        m != 0,
        ms[0] == ClientMessage::Mask(m) || exists|seq: u32| ms[0] == (ClientMessage::Input { seq, mask: m }),
    ensures
        ({
            let e = control_after_all(c, ms);
            (e.input_mask | e.latched_mask) & m == m
        }),
{
    let c1 = control_after(c, ms[0]).0;
    assert(c1.latched_mask == c.latched_mask | m);
    let l = c.latched_mask;
    assert((l | m) & m == m) by (bit_vector);
    lemma_latch_kept(c1, ms.drop_first(), m);
    let e = control_after_all(c, ms);
    let i = e.input_mask;
    let lm = e.latched_mask;
    assert(lm & m == m ==> (i | lm) & m == m) by (bit_vector);
}

/// While paused, a step or rewind is carried out on one tick only, and only
/// the first paused tick enters the pause: the tick after any paused tick,
/// with no message between, waits.
pub proof fn lemma_paused_request_once(c: HostControl, was_paused: bool)
    requires
        c.paused,
    ensures
        ({
            let (t1, c1, w1) = tick_spec(c, was_paused);
            let (t2, c2, w2) = tick_spec(c1, w1);
            &&& t1 == (Tick::Paused {
                enter: !was_paused,
                action: if c.step_trigger == -1 {
                    PausedAction::Wait
                } else if c.step_trigger == -2 {
                    PausedAction::Rewind
                } else {
                    PausedAction::Step(c.step_trigger as i16)
                },
            })
            &&& t2 == (Tick::Paused { enter: false, action: PausedAction::Wait })
            &&& c2 == c1
        }),
{
}

/// The first running tick after a pause goes back to the run-ahead the
/// client asked for; a lag probe or keyframe request is taken once.
pub proof fn lemma_resume(c: HostControl)
    requires
        !c.paused,
    ensures
        ({
            let (t1, c1, w1) = tick_spec(c, true);
            let (t2, c2, w2) = tick_spec(c1, w1);
            &&& t1 == (Tick::Running {
                resume: Some(c.runahead),
                keyframe: c.force_keyframe,
                probe: if c.probe_trigger >= 0 {
                    Some(c.probe_trigger as i16)
                } else {
                    None
                },
            })
            &&& t2 == (Tick::Running { resume: None, keyframe: false, probe: None })
        }),
{
}

/// The message `AA 52 n` makes the host run `n` frames ahead (2 for `n`
/// above 2) and asks for that value to be stored for the game; nothing else
/// of the control state changes.
pub proof fn lemma_runahead_request(c: HostControl, n: u8)
    ensures
        ({
            let (c2, save) = control_after(c, client_message(seq![0xAAu8, 0x52u8, n]));
            let want: u8 = if n <= 2 { n } else { 2 };
            &&& c2.runahead == want
            &&& save == Some(want)
            &&& c2 == HostControl { runahead: want, ..c }
        }),
{
    lemma_runahead_message(n);
}

/// The message `AA 50 p` pauses the host for `p` other than 0 and 2, so
/// that the next tick is a paused one, and resumes it for `p == 0`, so that
/// the next tick runs.
pub proof fn lemma_pause_request(c: HostControl, p: u8, was_paused: bool)
    ensures
        p != 0 && p != 2 ==> tick_spec(
            control_after(c, client_message(seq![0xAAu8, 0x50u8, p])).0,
            was_paused,
        ).0 is Paused,
        p == 0 ==> tick_spec(
            control_after(c, client_message(seq![0xAAu8, 0x50u8, p])).0,
            was_paused,
        ).0 is Running,
{
}

/// While paused, the message `AA 53 lo hi` makes the next tick run one
/// frame holding the buttons `lo + 256 * hi`, except for the two masks
/// 0xFFFF and 0xFFFE, which stand for "no step" and "rewind".
pub proof fn lemma_step_request(c: HostControl, lo: u8, hi: u8, was_paused: bool)
    requires
        c.paused,
        lo as int + 256 * hi as int != 0xFFFF,
        lo as int + 256 * hi as int != 0xFFFE,
    ensures
        ({
            let t = tick_spec(
                control_after(c, client_message(seq![0xAAu8, 0x53u8, lo, hi])).0,
                was_paused,
            ).0;
            &&& t matches Tick::Paused { enter, action: PausedAction::Step(m) }
            &&& enter == !was_paused
            &&& m as u16 as int == lo as int + 256 * hi as int
        }),
{
    lemma_mask_bytes(lo, hi);
    let m = mask_of(lo, hi);
    assert(m as u16 != 0xFFFFu16 ==> m as i32 != -1i32) by (bit_vector);
    assert(m as u16 != 0xFFFEu16 ==> m as i32 != -2i32) by (bit_vector);
    assert((m as i32) as i16 == m) by (bit_vector);
}

/// An input message of the standalone hosts.
#[derive(Debug, Clone, Copy, PartialEq, Eq, Structural)]
pub enum HostInput {
    /// A full input packet: sequence, client timestamp and buttons.
    Full { seq: u32, t_us: u64, mask: i16 },
    /// Only the buttons.
    MaskOnly(i16),
    /// Too short to mean anything.
    Ignored,
}

/// A message of at least 14 bytes is an input packet; a shorter one of at
/// least 2 bytes gives the buttons in its first two bytes.
pub open spec fn host_input(b: Seq<u8>) -> HostInput {
    match input_packet_fields(b) {
        Some((seq, t_us, mask)) => HostInput::Full { seq, t_us, mask },
        None => if b.len() >= 2 {
            HostInput::MaskOnly(mask_of(b[0], b[1]))
        } else {
            HostInput::Ignored
        },
    }
}

/// Reads an input message of the standalone hosts.
pub fn parse_host_input(b: &[u8]) -> (r: HostInput)
    ensures
        r == host_input(b@),
        b@.len() >= 14 ==> (r matches HostInput::Full { seq, t_us, mask } && seq == read32(b@, 0)
            && t_us == read64(b@, 4) && mask as u16 as int == b@[12] as int + 256 * b@[13] as int),
        2 <= b@.len() < 14 ==> (r matches HostInput::MaskOnly(m) && m as u16 as int == b@[0] as int
            + 256 * b@[1] as int),
        b@.len() < 2 ==> r == HostInput::Ignored,
{
    proof {
        lemma_host_input_fields(b@);
    }
    match parse_input_packet(b) {
        Some((seq, t_us, mask)) => HostInput::Full { seq, t_us, mask },
        None => if b.len() >= 2 {
            HostInput::MaskOnly(get16(b, 0) as i16)
        } else {
            HostInput::Ignored
        },
    }
}

/// A host input of 14 or more bytes is an input packet with the sequence
/// number at 0, the timestamp at 4 and the buttons `b[12] + 256 * b[13]`;
/// one of 2 to 13 bytes gives the buttons `b[0] + 256 * b[1]`; a shorter one
/// is ignored.
pub proof fn lemma_host_input_fields(b: Seq<u8>)
    ensures
        b.len() >= 14 ==> (host_input(b) matches HostInput::Full { seq, t_us, mask } && seq == read32(b, 0)
            && t_us == read64(b, 4) && mask as u16 as int == b[12] as int + 256 * b[13] as int),
        2 <= b.len() < 14 ==> (host_input(b) matches HostInput::MaskOnly(m) && m as u16 as int == b[0]
            as int + 256 * b[1] as int),
        b.len() < 2 ==> host_input(b) == HostInput::Ignored,
{
    crate::packets::lemma_input_packet_fields(0, 0, 0, b);
    if b.len() >= 2 {
        lemma_mask_bytes(b[0], b[1]);
    }
}

/// The buttons a benchmark client holds on frame `f`: during the `warmup`
/// frames Start and A for 10 frames out of every 20; then, under heavy
/// input, Right or Left alternating every 2 frames, Up every 3rd frame, Down
/// every 5th, A every 2nd and B on frames 1 past a multiple of 3; under
/// normal play Right for 60 frames out of 80 and Left for the rest, A for 8
/// frames out of 25 and B for 12 out of 45.
pub open spec fn bench_buttons_spec(f: u32, warmup: u32, heavy: bool) -> u16 {
    if f < warmup {
        if f % 20 < 10 {
            0x0009
        } else {
            0
        }
    } else {
        let g = (f - warmup) as u32;
        if heavy {
            let b0: u16 = if g % 4 < 2 {
                0x10
            } else {
                0x20
            };
            let b1: u16 = if g % 3 == 0 {
                b0 | 0x40
            } else {
                b0
            };
            let b2: u16 = if g % 5 == 0 {
                b1 | 0x80
            } else {
                b1
            };
            let b3: u16 = if g % 2 == 0 {
                b2 | 0x01
            } else {
                b2
            };
            if g % 3 == 1 {
                b3 | 0x02
            } else {
                b3
            }
        } else {
            let b0: u16 = if g % 80 < 60 {
                0x10
            } else {
                0x20
            };
            let b1: u16 = if g % 25 < 8 {
                b0 | 0x01
            } else {
                b0
            };
            if g % 45 < 12 {
                b1 | 0x02
            } else {
                b1
            }
        }
    }
}

/// The buttons a benchmark client holds on a frame, as
/// `bench_buttons_spec` says.
pub fn bench_buttons(f: u32, warmup: u32, heavy: bool) -> (r: u16)
    ensures
        r == bench_buttons_spec(f, warmup, heavy),
{
    if f < warmup {
        return if f % 20 < 10 {
            0x0009
        } else {
            0
        };
    }
    let g = f - warmup;
    if heavy {
        let mut b: u16 = if g % 4 < 2 {
            0x10
        } else {
            0x20
        };
        if g % 3 == 0 {
            b = b | 0x40;
        }
        if g % 5 == 0 {
            b = b | 0x80;
        }
        if g % 2 == 0 {
            b = b | 0x01;
        }
        if g % 3 == 1 {
            b = b | 0x02;
        }
        b
    } else {
        let mut b: u16 = if g % 80 < 60 {
            0x10
        } else {
            0x20
        };
        if g % 25 < 8 {
            b = b | 0x01;
        }
        if g % 45 < 12 {
            b = b | 0x02;
        }
        b
    }
}

} // verus!
