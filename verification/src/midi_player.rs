//! The MIDI timeline scheduler: follows the host transport block by block,
//! dispatches the events that fall into each block, and chases controller,
//! program and pitch-bend state when playback starts or jumps, and when a
//! channel is unmuted.
//!
//! The host transport is given in ticks (`BlockTiming`); turning beats, tempo
//! and sample rate into ticks, and deciding whether the playhead jumped, is
//! floating-point work done by the caller.
use vstd::prelude::*;
use crate::event::{MidiEvent, MidiMessage, controllers_valid, event_well_formed, events_well_formed};
use crate::midi_filter::{FilterSettings, apply_filter, filter_spec};
use crate::midi_mapper::{command_of, map_midi_event};
use crate::tick_sort::sorted_by_tick;
use crate::synth_command::{ChannelCommand, SynthCommand, CC_SUSTAIN, all_notes_off, all_notes_off_spec, sustain_pedal_off, sustain_pedal_off_spec, system_reset, system_reset_spec, set_percussion_mode};

verus! {

/// Where the current audio block lies on the tick timeline.
#[derive(Clone, Copy, Debug, PartialEq, Eq, Structural)]
pub struct BlockTiming {
    /// Whether the host transport is playing.
    pub playing: bool,
    /// Whether the playhead moved by more than half a beat since the end of
    /// the previous block.
    pub jumped: bool,
    /// The first whole tick at or after the block start.
    pub start_tick: u64,
    /// The first whole tick at or after the block end.
    pub end_tick: u64,
    /// The block start truncated to whole ticks: the tick chased to.
    pub chase_tick: u64,
}

/// The state of a player.
pub struct PlayerView {
    pub events: Seq<MidiEvent>,
    pub ppqn: u16,
    pub event_index: nat,
    pub was_playing: bool,
    pub last_mutes: Seq<bool>,
    pub last_drums: Seq<bool>,
}

/// The controllers chased, in the order they are sent: RPN, data entry and
/// bank select (each MSB then LSB), which go before the program change, then
/// volume, pan, expression, sustain, attack, release, cutoff and resonance,
/// which go after it.
pub open spec fn chase_cc_list() -> Seq<u8> {
    seq![101u8, 100u8, 6u8, 38u8, 0u8, 32u8, 7u8, 10u8, 11u8, 64u8, 73u8, 72u8, 74u8, 71u8]
}

/// The number of chased controllers.
pub const CHASE_CC_COUNT: usize = 14;

/// The number of chased controllers sent before the program change (RPN,
/// data entry and bank select).
pub const CHASE_CC_BEFORE_PROGRAM: usize = 6;

/// Controller `k` of the chase list.
pub fn chase_cc(k: usize) -> (cc: u8)
    requires
        k < CHASE_CC_COUNT,
    ensures
        cc == chase_cc_list()[k as int],
        cc < 128,
{
    match k {
        0 => 101,
        1 => 100,
        2 => 6,
        3 => 38,
        4 => 0,
        5 => 32,
        6 => 7,
        7 => 10,
        8 => 11,
        9 => 64,
        10 => 73,
        11 => 72,
        12 => 74,
        _ => 71,
    }
}

/// The first index at or after `from` whose event has a tick at or after
/// `target` (the length of `events` where there is none, `from` itself where
/// `from` is past the end).
pub open spec fn first_reaching(events: Seq<MidiEvent>, from: int, target: u64) -> int
    decreases events.len() - from,
{
    if from < 0 || from >= events.len() {
        from
    } else if events[from].tick >= target {
        from
    } else {
        first_reaching(events, from + 1, target)
    }
}

/// The events scanned when chasing to `target`: those before the first event
/// at or after `target`.
pub open spec fn scanned(events: Seq<MidiEvent>, target: u64) -> Seq<MidiEvent> {
    events.take(first_reaching(events, 0, target))
}

/// The value of the last change of controller `cc` on channel `ch` in `s`.
pub open spec fn last_cc(s: Seq<MidiEvent>, ch: u8, cc: u8) -> Option<u8>
    decreases s.len(),
{
    if s.len() == 0 {
        None
    } else {
        match s.last().message {
            MidiMessage::ControlChange { cc: c, value } => if s.last().channel == ch && c == cc {
                Some(value)
            } else {
                last_cc(s.drop_last(), ch, cc)
            },
            _ => last_cc(s.drop_last(), ch, cc),
        }
    }
}

/// The last program change on channel `ch` in `s`.
pub open spec fn last_pc(s: Seq<MidiEvent>, ch: u8) -> Option<u8>
    decreases s.len(),
{
    if s.len() == 0 {
        None
    } else {
        match s.last().message {
            MidiMessage::ProgramChange { pc } => if s.last().channel == ch {
                Some(pc)
            } else {
                last_pc(s.drop_last(), ch)
            },
            _ => last_pc(s.drop_last(), ch),
        }
    }
}

/// The last pitch bend on channel `ch` in `s`.
pub open spec fn last_pb(s: Seq<MidiEvent>, ch: u8) -> Option<i16>
    decreases s.len(),
{
    if s.len() == 0 {
        None
    } else {
        match s.last().message {
            MidiMessage::PitchBend { value } => if s.last().channel == ch {
                Some(value)
            } else {
                last_pb(s.drop_last(), ch)
            },
            _ => last_pb(s.drop_last(), ch),
        }
    }
}

/// The chase events for controllers `lo..n` of the chase list, in list order:
/// one for each that `prefix` sets on channel `ch`, with its latest value.
pub open spec fn chase_ccs(prefix: Seq<MidiEvent>, tick: u64, ch: u8, lo: int, n: int) -> Seq<MidiEvent>
    decreases n - lo,
{
    if n <= lo {
        Seq::empty()
    } else {
        chase_ccs(prefix, tick, ch, lo, n - 1) + match last_cc(prefix, ch, chase_cc_list()[n - 1]) {
            Some(v) => seq![MidiEvent { tick, channel: ch, message: MidiMessage::ControlChange { cc: chase_cc_list()[n - 1], value: v } }],
            None => Seq::empty(),
        }
    }
}

/// The chased program change of channel `ch`, if `prefix` sets one.
pub open spec fn chase_pc(prefix: Seq<MidiEvent>, tick: u64, ch: u8) -> Seq<MidiEvent> {
    match last_pc(prefix, ch) {
        Some(pc) => seq![MidiEvent { tick, channel: ch, message: MidiMessage::ProgramChange { pc } }],
        None => Seq::empty(),
    }
}

/// The chased pitch bend of channel `ch`, if `prefix` sets one.
pub open spec fn chase_pb(prefix: Seq<MidiEvent>, tick: u64, ch: u8) -> Seq<MidiEvent> {
    match last_pb(prefix, ch) {
        Some(value) => seq![MidiEvent { tick, channel: ch, message: MidiMessage::PitchBend { value } }],
        None => Seq::empty(),
    }
}

/// The chase events of one channel: RPN, data entry and bank select, then the
/// program, then the other chased controllers, then the pitch bend, each
/// where `prefix` sets it.
pub open spec fn chase_channel(prefix: Seq<MidiEvent>, tick: u64, ch: u8) -> Seq<MidiEvent> {
    chase_ccs(prefix, tick, ch, 0, 6) + chase_pc(prefix, tick, ch) + chase_ccs(prefix, tick, ch, 6, 14) + chase_pb(prefix, tick, ch)
}

/// The chase events of channels `0..n`, channel after channel.
pub open spec fn chase_all(prefix: Seq<MidiEvent>, tick: u64, n: int) -> Seq<MidiEvent>
    decreases n,
{
    if n <= 0 {
        Seq::empty()
    } else {
        chase_all(prefix, tick, n - 1) + chase_channel(prefix, tick, (n - 1) as u8)
    }
}

/// Every controller change on channel `ch` in `s` names a controller below 128.
pub open spec fn channel_controllers_valid(s: Seq<MidiEvent>, ch: u8) -> bool {
    forall|k: int| 0 <= k < s.len() && #[trigger] s[k].channel == ch ==> (s[k].message matches MidiMessage::ControlChange { cc, .. } ==> cc < 128)
}

/// Each event mapped to its synthesizer command.
pub open spec fn mapped(s: Seq<MidiEvent>) -> Seq<SynthCommand> {
    s.map_values(|e: MidiEvent| command_of(e))
}

/// What a mute change of channel `ch` sends: muting releases the channel's
/// notes and lifts its sustain pedal; unmuting chases the channel's state.
pub open spec fn mute_change(events: Seq<MidiEvent>, old: Seq<bool>, new: Seq<bool>, tick: u64, ch: int) -> Seq<SynthCommand> {
    (if old[ch] && !new[ch] {
        seq![
            SynthCommand::Channel(ch as u32, ChannelCommand::AllNotesOff),
            SynthCommand::Channel(ch as u32, ChannelCommand::Control(CC_SUSTAIN, 0)),
        ]
    } else {
        Seq::empty()
    }) + (if !old[ch] && new[ch] {
        mapped(chase_channel(scanned(events, tick), tick, ch as u8))
    } else {
        Seq::empty()
    })
}

/// The mute changes of channels `0..n`.
pub open spec fn mute_changes(events: Seq<MidiEvent>, old: Seq<bool>, new: Seq<bool>, tick: u64, n: int) -> Seq<SynthCommand>
    decreases n,
{
    if n <= 0 {
        Seq::empty()
    } else {
        mute_changes(events, old, new, tick, n - 1) + mute_change(events, old, new, tick, n - 1)
    }
}

/// The percussion-mode changes of channels `0..n`.
pub open spec fn drum_changes(old: Seq<bool>, new: Seq<bool>, n: int) -> Seq<SynthCommand>
    decreases n,
{
    if n <= 0 {
        Seq::empty()
    } else {
        drum_changes(old, new, n - 1) + if old[n - 1] != new[n - 1] {
            seq![SynthCommand::Channel((n - 1) as u32, ChannelCommand::SetPercussionMode(new[n - 1]))]
        } else {
            Seq::empty()
        }
    }
}

/// What event `k` sends when dispatched: nothing before the block start,
/// else the filtered event's command, if the filter keeps it.
pub open spec fn dispatch_one(events: Seq<MidiEvent>, k: int, start: u64, filter: FilterSettings, mutes: Seq<bool>) -> Seq<SynthCommand> {
    if events[k].tick >= start {
        match filter_spec(events[k], filter, mutes) {
            Some(f) => seq![command_of(f)],
            None => Seq::empty(),
        }
    } else {
        Seq::empty()
    }
}

/// What events `from..to` send when dispatched.
pub open spec fn dispatched(events: Seq<MidiEvent>, from: int, to: int, start: u64, filter: FilterSettings, mutes: Seq<bool>) -> Seq<SynthCommand>
    decreases to - from,
{
    if to <= from {
        Seq::empty()
    } else {
        dispatched(events, from, to - 1, start, filter, mutes) + dispatch_one(events, to - 1, start, filter, mutes)
    }
}

/// The event index that dispatching starts from in a playing block.
pub open spec fn block_start_index(pre: PlayerView, timing: BlockTiming) -> int {
    if timing.jumped {
        first_reaching(pre.events, 0, timing.start_tick)
    } else {
        pre.event_index as int
    }
}

/// Whether a playing block chases every channel's state: when the transport
/// starts (or resumes) and when the playhead jumped.
pub open spec fn chases_all(pre: PlayerView, timing: BlockTiming) -> bool {
    !pre.was_playing || timing.jumped
}

/// What a playing block sends before its events: a reset when the transport
/// starts and another after a jump; then, when it starts or jumped, every
/// channel's chased state; then the mute and drum changes.
pub open spec fn block_prelude(pre: PlayerView, timing: BlockTiming, mutes: Seq<bool>, drums: Seq<bool>) -> Seq<SynthCommand> {
    (if !pre.was_playing { system_reset_spec() } else { Seq::empty() })
    + (if timing.jumped { system_reset_spec() } else { Seq::empty() })
    + (if chases_all(pre, timing) {
        mapped(chase_all(scanned(pre.events, timing.chase_tick), timing.chase_tick, 256))
    } else {
        Seq::empty()
    })
    + mute_changes(pre.events, pre.last_mutes, mutes, timing.chase_tick, 256)
    + drum_changes(pre.last_drums, drums, 256)
}

/// The events a playing block dispatches: from where it starts up to the
/// first event at or after its end, those at or after its start that the
/// filter keeps.
pub open spec fn block_dispatch(pre: PlayerView, timing: BlockTiming, filter: FilterSettings, mutes: Seq<bool>) -> Seq<SynthCommand> {
    let idx = block_start_index(pre, timing);
    dispatched(pre.events, idx, first_reaching(pre.events, idx, timing.end_tick), timing.start_tick, filter, mutes)
}

/// The commands a block sends.
pub open spec fn process_commands(pre: PlayerView, timing: BlockTiming, filter: FilterSettings, mutes: Seq<bool>, drums: Seq<bool>) -> Seq<SynthCommand> {
    if !timing.playing {
        if pre.was_playing {
            all_notes_off_spec() + sustain_pedal_off_spec()
        } else {
            Seq::empty()
        }
    } else {
        block_prelude(pre, timing, mutes, drums) + block_dispatch(pre, timing, filter, mutes)
    }
}

/// The player's state after a block.
pub open spec fn process_state(pre: PlayerView, timing: BlockTiming, mutes: Seq<bool>, drums: Seq<bool>) -> PlayerView {
    if !timing.playing {
        PlayerView { was_playing: false, ..pre }
    } else {
        let idx = block_start_index(pre, timing);
        PlayerView {
            event_index: first_reaching(pre.events, idx, timing.end_tick) as nat,
            was_playing: true,
            last_mutes: mutes,
            last_drums: drums,
            ..pre
        }
    }
}

/// What a block needs of the events it chases: controller numbers below 128
/// in the events scanned (all channels on start or after a jump; an unmuted
/// channel's own).
pub open spec fn process_ready(pre: PlayerView, timing: BlockTiming, mutes: Seq<bool>) -> bool {
    timing.playing ==> {
        &&& chases_all(pre, timing) ==> controllers_valid(scanned(pre.events, timing.chase_tick))
        &&& forall|ch: int| 0 <= ch < 256 && !pre.last_mutes[ch] && #[trigger] mutes[ch] ==>
            channel_controllers_valid(scanned(pre.events, timing.chase_tick), ch as u8)
    }
}


/// Where a message goes in a channel's chase: RPN, data entry and bank
/// select (0 to 5), the program (6), the other chased controllers (7 to 14),
/// the pitch bend (15); anything else is not chased (16).
pub open spec fn chase_rank(m: MidiMessage) -> int {
    match m {
        MidiMessage::ControlChange { cc, .. } => {
            if cc == 101 { 0 } else if cc == 100 { 1 } else if cc == 6 { 2 } else if cc == 38 { 3 }
            else if cc == 0 { 4 } else if cc == 32 { 5 } else if cc == 7 { 7 } else if cc == 10 { 8 }
            else if cc == 11 { 9 } else if cc == 64 { 10 } else if cc == 73 { 11 } else if cc == 72 { 12 }
            else if cc == 74 { 13 } else if cc == 71 { 14 } else { 16 }
        },
        MidiMessage::ProgramChange { .. } => 6,
        MidiMessage::PitchBend { .. } => 15,
        _ => 16,
    }
}

/// The rank of controller `k` of the chase list.
pub open spec fn cc_rank(k: int) -> int {
    if k < 6 { k } else { k + 1 }
}

/// The events of `s` strictly follow the chase order.
pub open spec fn chase_ordered(s: Seq<MidiEvent>) -> bool {
    forall|i: int, j: int| 0 <= i < j < s.len() ==> chase_rank(s[i].message) < chase_rank(s[j].message)
}

/// Every event of `s` is stamped `tick` on channel `ch` and ranks in `lo..hi`.
pub open spec fn chase_within(s: Seq<MidiEvent>, tick: u64, ch: u8, lo: int, hi: int) -> bool {
    forall|i: int| 0 <= i < s.len() ==> {
        &&& (#[trigger] s[i]).tick == tick
        &&& s[i].channel == ch
        &&& lo <= chase_rank(s[i].message) < hi
    }
}

proof fn lemma_chase_rank_of_list(k: int)
    requires
        0 <= k < 14,
    ensures
        chase_rank(MidiMessage::ControlChange { cc: chase_cc_list()[k], value: 0 }) == cc_rank(k),
{
    let l = chase_cc_list();
    assert(l[0] == 101u8 && l[1] == 100u8 && l[2] == 6u8 && l[3] == 38u8 && l[4] == 0u8 && l[5] == 32u8 && l[6] == 7u8);
    assert(l[7] == 10u8 && l[8] == 11u8 && l[9] == 64u8 && l[10] == 73u8 && l[11] == 72u8 && l[12] == 74u8 && l[13] == 71u8);
}

proof fn lemma_concat_ordered(a: Seq<MidiEvent>, b: Seq<MidiEvent>, tick: u64, ch: u8, lo: int, mid: int, hi: int)
    requires
        lo <= mid <= hi,
        chase_ordered(a),
        chase_ordered(b),
        chase_within(a, tick, ch, lo, mid),
        chase_within(b, tick, ch, mid, hi),
    ensures
        chase_ordered(a + b),
        chase_within(a + b, tick, ch, lo, hi),
{
    let s = a + b;
    assert forall|i: int| 0 <= i < s.len() implies {
        &&& (#[trigger] s[i]).tick == tick
        &&& s[i].channel == ch
        &&& lo <= chase_rank(s[i].message) < hi
    } by {
        if i < a.len() {
            assert(s[i] == a[i]);
        } else {
            assert(s[i] == b[i - a.len()]);
        }
    }
    assert forall|i: int, j: int| 0 <= i < j < s.len() implies chase_rank(s[i].message) < chase_rank(s[j].message) by {
        if j < a.len() {
            assert(s[i] == a[i] && s[j] == a[j]);
        } else if i < a.len() {
            assert(s[i] == a[i] && s[j] == b[j - a.len()]);
        } else {
            assert(s[i] == b[i - a.len()] && s[j] == b[j - a.len()]);
        }
    }
}

proof fn lemma_chase_ccs_order(prefix: Seq<MidiEvent>, tick: u64, ch: u8, lo: int, n: int)
    requires
        0 <= lo <= n <= 14,
    ensures
        chase_ordered(chase_ccs(prefix, tick, ch, lo, n)),
        chase_within(chase_ccs(prefix, tick, ch, lo, n), tick, ch, cc_rank(lo), cc_rank(n - 1) + 1),
    decreases n - lo,
{
    if n > lo {
        lemma_chase_ccs_order(prefix, tick, ch, lo, n - 1);
        lemma_chase_rank_of_list(n - 1);
        let a = chase_ccs(prefix, tick, ch, lo, n - 1);
        let b = match last_cc(prefix, ch, chase_cc_list()[n - 1]) {
            Some(v) => seq![MidiEvent { tick, channel: ch, message: MidiMessage::ControlChange { cc: chase_cc_list()[n - 1], value: v } }],
            None => Seq::<MidiEvent>::empty(),
        };
        assert(chase_ccs(prefix, tick, ch, lo, n) == a + b);
        lemma_concat_ordered(a, b, tick, ch, cc_rank(lo), cc_rank(n - 1), cc_rank(n - 1) + 1);
    }
}

/// The chase of a channel sends each state at most once and in dependency
/// order: RPN, then data entry, then bank select (each MSB before LSB), then
/// the program, then volume, pan, expression, sustain, attack, release,
/// cutoff and resonance, then the pitch bend. Every chase event is stamped
/// with the chase tick and the channel.
pub proof fn law_chase_order(prefix: Seq<MidiEvent>, tick: u64, ch: u8)
    ensures
        chase_within(chase_channel(prefix, tick, ch), tick, ch, 0, 16),
        chase_ordered(chase_channel(prefix, tick, ch)),
{
    lemma_chase_ccs_order(prefix, tick, ch, 0, 6);
    lemma_chase_ccs_order(prefix, tick, ch, 6, 14);
    let a = chase_ccs(prefix, tick, ch, 0, 6);
    let b = chase_pc(prefix, tick, ch);
    let c = chase_ccs(prefix, tick, ch, 6, 14);
    let d = chase_pb(prefix, tick, ch);
    assert(chase_ordered(b) && chase_within(b, tick, ch, 6, 7));
    assert(chase_ordered(d) && chase_within(d, tick, ch, 15, 16));
    lemma_concat_ordered(a, b, tick, ch, 0, 6, 7);
    lemma_concat_ordered(a + b, c, tick, ch, 0, 7, 15);
    lemma_concat_ordered(a + b + c, d, tick, ch, 0, 15, 16);
}

proof fn lemma_last_pc_at(prefix: Seq<MidiEvent>, ch: u8, k: int, pc: u8)
    requires
        0 <= k < prefix.len(),
        prefix[k].channel == ch,
        prefix[k].message == (MidiMessage::ProgramChange { pc }),
        forall|j: int| k < j < prefix.len() && #[trigger] prefix[j].channel == ch ==> !(prefix[j].message is ProgramChange),
    ensures
        last_pc(prefix, ch) == Some(pc),
    decreases prefix.len(),
{
    let n = prefix.len() - 1;
    if k < n {
        let d = prefix.drop_last();
        assert(prefix.last() == prefix[n]);
        assert forall|j: int| k < j < d.len() && #[trigger] d[j].channel == ch implies !(d[j].message is ProgramChange) by {
            assert(d[j] == prefix[j]);
        }
        lemma_last_pc_at(d, ch, k, pc);
    }
}

proof fn lemma_last_pc_none(prefix: Seq<MidiEvent>, ch: u8)
    requires
        forall|j: int| 0 <= j < prefix.len() && #[trigger] prefix[j].channel == ch ==> !(prefix[j].message is ProgramChange),
    ensures
        last_pc(prefix, ch) is None,
    decreases prefix.len(),
{
    if prefix.len() > 0 {
        let d = prefix.drop_last();
        assert(prefix.last() == prefix[prefix.len() - 1]);
        assert forall|j: int| 0 <= j < d.len() && #[trigger] d[j].channel == ch implies !(d[j].message is ProgramChange) by {
            assert(d[j] == prefix[j]);
        }
        lemma_last_pc_none(d, ch);
    }
}

proof fn lemma_last_pb_at(prefix: Seq<MidiEvent>, ch: u8, k: int, value: i16)
    requires
        0 <= k < prefix.len(),
        prefix[k].channel == ch,
        prefix[k].message == (MidiMessage::PitchBend { value }),
        forall|j: int| k < j < prefix.len() && #[trigger] prefix[j].channel == ch ==> !(prefix[j].message is PitchBend),
    ensures
        last_pb(prefix, ch) == Some(value),
    decreases prefix.len(),
{
    let n = prefix.len() - 1;
    if k < n {
        let d = prefix.drop_last();
        assert(prefix.last() == prefix[n]);
        assert forall|j: int| k < j < d.len() && #[trigger] d[j].channel == ch implies !(d[j].message is PitchBend) by {
            assert(d[j] == prefix[j]);
        }
        lemma_last_pb_at(d, ch, k, value);
    }
}

proof fn lemma_last_pb_none(prefix: Seq<MidiEvent>, ch: u8)
    requires
        forall|j: int| 0 <= j < prefix.len() && #[trigger] prefix[j].channel == ch ==> !(prefix[j].message is PitchBend),
    ensures
        last_pb(prefix, ch) is None,
    decreases prefix.len(),
{
    if prefix.len() > 0 {
        let d = prefix.drop_last();
        assert(prefix.last() == prefix[prefix.len() - 1]);
        assert forall|j: int| 0 <= j < d.len() && #[trigger] d[j].channel == ch implies !(d[j].message is PitchBend) by {
            assert(d[j] == prefix[j]);
        }
        lemma_last_pb_none(d, ch);
    }
}

/// Whether `e` is a change of controller `cc` on channel `ch`.
pub open spec fn is_cc_change(e: MidiEvent, ch: u8, cc: u8) -> bool {
    &&& e.channel == ch
    &&& e.message matches MidiMessage::ControlChange { cc: c, .. } && c == cc
}

proof fn lemma_last_cc_at(prefix: Seq<MidiEvent>, ch: u8, cc: u8, k: int, value: u8)
    requires
        0 <= k < prefix.len(),
        prefix[k].channel == ch,
        prefix[k].message == (MidiMessage::ControlChange { cc, value }),
        forall|j: int| k < j < prefix.len() ==> !is_cc_change(#[trigger] prefix[j], ch, cc),
    ensures
        last_cc(prefix, ch, cc) == Some(value),
    decreases prefix.len(),
{
    let n = prefix.len() - 1;
    if k < n {
        let d = prefix.drop_last();
        assert(prefix.last() == prefix[n]);
        assert(!is_cc_change(prefix[n], ch, cc));
        assert forall|j: int| k < j < d.len() implies !is_cc_change(#[trigger] d[j], ch, cc) by {
            assert(d[j] == prefix[j]);
        }
        lemma_last_cc_at(d, ch, cc, k, value);
    }
}

proof fn lemma_last_cc_none(prefix: Seq<MidiEvent>, ch: u8, cc: u8)
    requires
        forall|j: int| 0 <= j < prefix.len() ==> !is_cc_change(#[trigger] prefix[j], ch, cc),
    ensures
        last_cc(prefix, ch, cc) is None,
    decreases prefix.len(),
{
    if prefix.len() > 0 {
        let d = prefix.drop_last();
        assert(prefix.last() == prefix[prefix.len() - 1]);
        assert(!is_cc_change(prefix[prefix.len() - 1], ch, cc));
        assert forall|j: int| 0 <= j < d.len() implies !is_cc_change(#[trigger] d[j], ch, cc) by {
            assert(d[j] == prefix[j]);
        }
        lemma_last_cc_none(d, ch, cc);
    }
}

proof fn lemma_chase_ccs_elems(prefix: Seq<MidiEvent>, tick: u64, ch: u8, lo: int, n: int)
    requires
        0 <= lo <= n <= 14,
    ensures
        forall|i: int| 0 <= i < chase_ccs(prefix, tick, ch, lo, n).len() ==>
            exists|q: int| lo <= q < n && #[trigger] chase_ccs(prefix, tick, ch, lo, n)[i] == (MidiEvent {
                tick, channel: ch,
                message: MidiMessage::ControlChange { cc: chase_cc_list()[q], value: last_cc(prefix, ch, chase_cc_list()[q]).unwrap() },
            }) && last_cc(prefix, ch, chase_cc_list()[q]) is Some,
        forall|q: int| lo <= q < n && (#[trigger] last_cc(prefix, ch, chase_cc_list()[q])) is Some ==>
            chase_ccs(prefix, tick, ch, lo, n).contains(MidiEvent {
                tick, channel: ch,
                message: MidiMessage::ControlChange { cc: chase_cc_list()[q], value: last_cc(prefix, ch, chase_cc_list()[q]).unwrap() },
            }),
    decreases n - lo,
{
    if n > lo {
        lemma_chase_ccs_elems(prefix, tick, ch, lo, n - 1);
        let a = chase_ccs(prefix, tick, ch, lo, n - 1);
        let s = chase_ccs(prefix, tick, ch, lo, n);
        let q = n - 1;
        let e = MidiEvent {
            tick, channel: ch,
            message: MidiMessage::ControlChange { cc: chase_cc_list()[q], value: last_cc(prefix, ch, chase_cc_list()[q]).unwrap() },
        };
        let b = match last_cc(prefix, ch, chase_cc_list()[q]) {
            Some(v) => seq![MidiEvent { tick, channel: ch, message: MidiMessage::ControlChange { cc: chase_cc_list()[q], value: v } }],
            None => Seq::<MidiEvent>::empty(),
        };
        assert(s == a + b);
        assert forall|i: int| 0 <= i < s.len() implies
            exists|r: int| lo <= r < n && #[trigger] s[i] == (MidiEvent {
                tick, channel: ch,
                message: MidiMessage::ControlChange { cc: chase_cc_list()[r], value: last_cc(prefix, ch, chase_cc_list()[r]).unwrap() },
            }) && last_cc(prefix, ch, chase_cc_list()[r]) is Some by {
            if i < a.len() {
                assert(s[i] == a[i]);
                let r = choose|r: int| lo <= r < n - 1 && #[trigger] a[i] == (MidiEvent {
                    tick, channel: ch,
                    message: MidiMessage::ControlChange { cc: chase_cc_list()[r], value: last_cc(prefix, ch, chase_cc_list()[r]).unwrap() },
                }) && last_cc(prefix, ch, chase_cc_list()[r]) is Some;
            } else {
                assert(s[i] == b[i - a.len()]);
                assert(s[i] == e);
            }
        }
        assert forall|r: int| lo <= r < n && (#[trigger] last_cc(prefix, ch, chase_cc_list()[r])) is Some implies
            s.contains(MidiEvent {
                tick, channel: ch,
                message: MidiMessage::ControlChange { cc: chase_cc_list()[r], value: last_cc(prefix, ch, chase_cc_list()[r]).unwrap() },
            }) by {
            let er = MidiEvent {
                tick, channel: ch,
                message: MidiMessage::ControlChange { cc: chase_cc_list()[r], value: last_cc(prefix, ch, chase_cc_list()[r]).unwrap() },
            };
            if r < n - 1 {
                assert(a.contains(er));
                let w = choose|w: int| 0 <= w < a.len() && a[w] == er;
                assert(s[w] == er);
            } else {
                assert(s[a.len() as int] == er);
            }
        }
    }
}

/// Where each event of a channel's chase comes from: a program change is the
/// channel's last program change, a pitch bend its last pitch bend, and a
/// controller change the last change of one of the chased controllers.
proof fn lemma_chase_channel_elems(prefix: Seq<MidiEvent>, tick: u64, ch: u8)
    ensures
        forall|i: int| 0 <= i < chase_channel(prefix, tick, ch).len() ==> {
            let e = #[trigger] chase_channel(prefix, tick, ch)[i];
            &&& e.message is ProgramChange ==> last_pc(prefix, ch) is Some
                && e == (MidiEvent { tick, channel: ch, message: MidiMessage::ProgramChange { pc: last_pc(prefix, ch).unwrap() } })
            &&& e.message is PitchBend ==> last_pb(prefix, ch) is Some
                && e == (MidiEvent { tick, channel: ch, message: MidiMessage::PitchBend { value: last_pb(prefix, ch).unwrap() } })
            &&& e.message is ControlChange ==> exists|q: int| 0 <= q < 14 && e == (MidiEvent {
                    tick, channel: ch,
                    message: MidiMessage::ControlChange { cc: chase_cc_list()[q], value: last_cc(prefix, ch, chase_cc_list()[q]).unwrap() },
                }) && (#[trigger] last_cc(prefix, ch, chase_cc_list()[q])) is Some
        },
{
    lemma_chase_ccs_elems(prefix, tick, ch, 0, 6);
    lemma_chase_ccs_elems(prefix, tick, ch, 6, 14);
    let a = chase_ccs(prefix, tick, ch, 0, 6);
    let b = chase_pc(prefix, tick, ch);
    let c = chase_ccs(prefix, tick, ch, 6, 14);
    let d = chase_pb(prefix, tick, ch);
    let s = chase_channel(prefix, tick, ch);
    assert(s == a + b + c + d);
    assert forall|i: int| 0 <= i < s.len() implies {
        let e = #[trigger] s[i];
        &&& e.message is ProgramChange ==> last_pc(prefix, ch) is Some
            && e == (MidiEvent { tick, channel: ch, message: MidiMessage::ProgramChange { pc: last_pc(prefix, ch).unwrap() } })
        &&& e.message is PitchBend ==> last_pb(prefix, ch) is Some
            && e == (MidiEvent { tick, channel: ch, message: MidiMessage::PitchBend { value: last_pb(prefix, ch).unwrap() } })
        &&& e.message is ControlChange ==> exists|q: int| 0 <= q < 14 && e == (MidiEvent {
                tick, channel: ch,
                message: MidiMessage::ControlChange { cc: chase_cc_list()[q], value: last_cc(prefix, ch, chase_cc_list()[q]).unwrap() },
            }) && (#[trigger] last_cc(prefix, ch, chase_cc_list()[q])) is Some
    } by {
        if i < a.len() {
            assert(s[i] == a[i]);
            let q = choose|q: int| 0 <= q < 6 && #[trigger] a[i] == (MidiEvent {
                tick, channel: ch,
                message: MidiMessage::ControlChange { cc: chase_cc_list()[q], value: last_cc(prefix, ch, chase_cc_list()[q]).unwrap() },
            }) && last_cc(prefix, ch, chase_cc_list()[q]) is Some;
        } else if i < a.len() + b.len() {
            assert(s[i] == b[i - a.len()]);
        } else if i < a.len() + b.len() + c.len() {
            assert(s[i] == c[i - a.len() - b.len()]);
            let q = choose|q: int| 6 <= q < 14 && #[trigger] c[i - a.len() - b.len()] == (MidiEvent {
                tick, channel: ch,
                message: MidiMessage::ControlChange { cc: chase_cc_list()[q], value: last_cc(prefix, ch, chase_cc_list()[q]).unwrap() },
            }) && last_cc(prefix, ch, chase_cc_list()[q]) is Some;
        } else {
            assert(s[i] == d[i - a.len() - b.len() - c.len()]);
        }
    }
}

/// The chase of a channel carries the program of the channel's last program
/// change before the tick, whatever its number, 0 included; with no program
/// change on the channel it carries none; and it never carries two.
pub proof fn law_chase_program(prefix: Seq<MidiEvent>, tick: u64, ch: u8, k: int, pc: u8)
    ensures
        (0 <= k < prefix.len() && prefix[k].channel == ch && prefix[k].message == (MidiMessage::ProgramChange { pc })
            && forall|j: int| k < j < prefix.len() && #[trigger] prefix[j].channel == ch ==> !(prefix[j].message is ProgramChange))
            ==> chase_channel(prefix, tick, ch).contains(MidiEvent { tick, channel: ch, message: MidiMessage::ProgramChange { pc } }),
        (forall|j: int| 0 <= j < prefix.len() && #[trigger] prefix[j].channel == ch ==> !(prefix[j].message is ProgramChange))
            ==> forall|i: int| 0 <= i < chase_channel(prefix, tick, ch).len() ==> !((#[trigger] chase_channel(prefix, tick, ch)[i]).message is ProgramChange),
        forall|a: int, b: int| 0 <= a < b < chase_channel(prefix, tick, ch).len() ==>
            !(chase_channel(prefix, tick, ch)[a].message is ProgramChange && chase_channel(prefix, tick, ch)[b].message is ProgramChange),
{
    lemma_chase_channel_elems(prefix, tick, ch);
    law_chase_order(prefix, tick, ch);
    let s = chase_channel(prefix, tick, ch);
    if 0 <= k < prefix.len() && prefix[k].channel == ch && prefix[k].message == (MidiMessage::ProgramChange { pc })
        && forall|j: int| k < j < prefix.len() && #[trigger] prefix[j].channel == ch ==> !(prefix[j].message is ProgramChange) {
        lemma_last_pc_at(prefix, ch, k, pc);
        let a = chase_ccs(prefix, tick, ch, 0, 6);
        assert(s[a.len() as int] == (MidiEvent { tick, channel: ch, message: MidiMessage::ProgramChange { pc } }));
    }
    if forall|j: int| 0 <= j < prefix.len() && #[trigger] prefix[j].channel == ch ==> !(prefix[j].message is ProgramChange) {
        lemma_last_pc_none(prefix, ch);
    }
    assert forall|a: int, b: int| 0 <= a < b < s.len() implies !(s[a].message is ProgramChange && s[b].message is ProgramChange) by {
        assert(chase_rank(s[a].message) < chase_rank(s[b].message));
    }
}

/// The chase of a channel carries the value of the channel's last pitch bend
/// before the tick, whatever it is, 0 included; with no pitch bend on the
/// channel it carries none; and it never carries two.
pub proof fn law_chase_pitch_bend(prefix: Seq<MidiEvent>, tick: u64, ch: u8, k: int, value: i16)
    ensures
        (0 <= k < prefix.len() && prefix[k].channel == ch && prefix[k].message == (MidiMessage::PitchBend { value })
            && forall|j: int| k < j < prefix.len() && #[trigger] prefix[j].channel == ch ==> !(prefix[j].message is PitchBend))
            ==> chase_channel(prefix, tick, ch).contains(MidiEvent { tick, channel: ch, message: MidiMessage::PitchBend { value } }),
        (forall|j: int| 0 <= j < prefix.len() && #[trigger] prefix[j].channel == ch ==> !(prefix[j].message is PitchBend))
            ==> forall|i: int| 0 <= i < chase_channel(prefix, tick, ch).len() ==> !((#[trigger] chase_channel(prefix, tick, ch)[i]).message is PitchBend),
        forall|a: int, b: int| 0 <= a < b < chase_channel(prefix, tick, ch).len() ==>
            !(chase_channel(prefix, tick, ch)[a].message is PitchBend && chase_channel(prefix, tick, ch)[b].message is PitchBend),
{
    lemma_chase_channel_elems(prefix, tick, ch);
    law_chase_order(prefix, tick, ch);
    let s = chase_channel(prefix, tick, ch);
    if 0 <= k < prefix.len() && prefix[k].channel == ch && prefix[k].message == (MidiMessage::PitchBend { value })
        && forall|j: int| k < j < prefix.len() && #[trigger] prefix[j].channel == ch ==> !(prefix[j].message is PitchBend) {
        lemma_last_pb_at(prefix, ch, k, value);
        assert(s[s.len() - 1] == (MidiEvent { tick, channel: ch, message: MidiMessage::PitchBend { value } }));
    }
    if forall|j: int| 0 <= j < prefix.len() && #[trigger] prefix[j].channel == ch ==> !(prefix[j].message is PitchBend) {
        lemma_last_pb_none(prefix, ch);
    }
    assert forall|a: int, b: int| 0 <= a < b < s.len() implies !(s[a].message is PitchBend && s[b].message is PitchBend) by {
        assert(chase_rank(s[a].message) < chase_rank(s[b].message));
    }
}

/// For each chased controller (entry `q` of the chase list), the chase of a
/// channel carries the value of the channel's last change of that controller
/// before the tick, whatever it is, 0 included; with no change of it on the
/// channel it carries none; and it never carries two changes of one
/// controller.
pub proof fn law_chase_controller(prefix: Seq<MidiEvent>, tick: u64, ch: u8, q: int, k: int, value: u8)
    requires
        0 <= q < 14,
    ensures
        ({
            let cc = chase_cc_list()[q];
            &&& (0 <= k < prefix.len() && prefix[k].channel == ch && prefix[k].message == (MidiMessage::ControlChange { cc, value })
                && forall|j: int| k < j < prefix.len() ==> !is_cc_change(#[trigger] prefix[j], ch, cc))
                ==> chase_channel(prefix, tick, ch).contains(MidiEvent { tick, channel: ch, message: MidiMessage::ControlChange { cc, value } })
            &&& (forall|j: int| 0 <= j < prefix.len() ==> !is_cc_change(#[trigger] prefix[j], ch, cc))
                ==> forall|i: int| 0 <= i < chase_channel(prefix, tick, ch).len() ==> !is_cc_change(#[trigger] chase_channel(prefix, tick, ch)[i], ch, cc)
            &&& forall|a: int, b: int| 0 <= a < b < chase_channel(prefix, tick, ch).len() ==>
                !(is_cc_change(chase_channel(prefix, tick, ch)[a], ch, cc) && is_cc_change(chase_channel(prefix, tick, ch)[b], ch, cc))
        }),
{
    let cc = chase_cc_list()[q];
    lemma_chase_channel_elems(prefix, tick, ch);
    law_chase_order(prefix, tick, ch);
    lemma_chase_ccs_elems(prefix, tick, ch, 0, 6);
    lemma_chase_ccs_elems(prefix, tick, ch, 6, 14);
    let s = chase_channel(prefix, tick, ch);
    let a = chase_ccs(prefix, tick, ch, 0, 6);
    let b = chase_pc(prefix, tick, ch);
    let c = chase_ccs(prefix, tick, ch, 6, 14);
    let d = chase_pb(prefix, tick, ch);
    assert(s == a + b + c + d);
    let l = chase_cc_list();
    assert(l[0] == 101u8 && l[1] == 100u8 && l[2] == 6u8 && l[3] == 38u8 && l[4] == 0u8 && l[5] == 32u8 && l[6] == 7u8);
    assert(l[7] == 10u8 && l[8] == 11u8 && l[9] == 64u8 && l[10] == 73u8 && l[11] == 72u8 && l[12] == 74u8 && l[13] == 71u8);
    if 0 <= k < prefix.len() && prefix[k].channel == ch && prefix[k].message == (MidiMessage::ControlChange { cc, value })
        && forall|j: int| k < j < prefix.len() ==> !is_cc_change(#[trigger] prefix[j], ch, cc) {
        lemma_last_cc_at(prefix, ch, cc, k, value);
        let e = MidiEvent { tick, channel: ch, message: MidiMessage::ControlChange { cc, value } };
        assert(last_cc(prefix, ch, chase_cc_list()[q]) is Some);
        if q < 6 {
            assert(a.contains(e));
            let w = choose|w: int| 0 <= w < a.len() && a[w] == e;
            assert(s[w] == e);
        } else {
            assert(c.contains(e));
            let w = choose|w: int| 0 <= w < c.len() && c[w] == e;
            assert(s[a.len() + b.len() + w] == e);
        }
    }
    if forall|j: int| 0 <= j < prefix.len() ==> !is_cc_change(#[trigger] prefix[j], ch, cc) {
        lemma_last_cc_none(prefix, ch, cc);
        assert forall|i: int| 0 <= i < s.len() implies !is_cc_change(#[trigger] s[i], ch, cc) by {
            if is_cc_change(s[i], ch, cc) {
                assert(s[i].message is ControlChange);
                let r = choose|r: int| 0 <= r < 14 && s[i] == (MidiEvent {
                    tick, channel: ch,
                    message: MidiMessage::ControlChange { cc: chase_cc_list()[r], value: last_cc(prefix, ch, chase_cc_list()[r]).unwrap() },
                }) && (#[trigger] last_cc(prefix, ch, chase_cc_list()[r])) is Some;
                assert(chase_cc_list()[r] == cc);
            }
        }
    }
    assert forall|x: int, y: int| 0 <= x < y < s.len() implies !(is_cc_change(s[x], ch, cc) && is_cc_change(s[y], ch, cc)) by {
        assert(chase_rank(s[x].message) < chase_rank(s[y].message));
        if is_cc_change(s[x], ch, cc) && is_cc_change(s[y], ch, cc) {
            assert(s[x].message matches MidiMessage::ControlChange { cc: c1, .. } && c1 == cc);
            assert(s[y].message matches MidiMessage::ControlChange { cc: c2, .. } && c2 == cc);
        }
    }
}

/// A full chase goes through the channels in ascending order.
pub proof fn law_chase_all_ascending(prefix: Seq<MidiEvent>, tick: u64, n: int)
    requires
        0 <= n <= 256,
    ensures
        forall|i: int| 0 <= i < chase_all(prefix, tick, n).len() ==> (#[trigger] chase_all(prefix, tick, n)[i]).channel < n,
        forall|i: int, j: int| 0 <= i < j < chase_all(prefix, tick, n).len() ==>
            chase_all(prefix, tick, n)[i].channel <= chase_all(prefix, tick, n)[j].channel,
    decreases n,
{
    if n > 0 {
        law_chase_all_ascending(prefix, tick, n - 1);
        law_chase_order(prefix, tick, (n - 1) as u8);
        let a = chase_all(prefix, tick, n - 1);
        let b = chase_channel(prefix, tick, (n - 1) as u8);
        let s = chase_all(prefix, tick, n);
        assert(s == a + b);
        assert forall|i: int| 0 <= i < s.len() implies (#[trigger] s[i]).channel < n by {
            if i < a.len() {
                assert(s[i] == a[i]);
            } else {
                assert(s[i] == b[i - a.len()]);
            }
        }
        assert forall|i: int, j: int| 0 <= i < j < s.len() implies s[i].channel <= s[j].channel by {
            if j < a.len() {
                assert(s[i] == a[i] && s[j] == a[j]);
            } else if i < a.len() {
                assert(s[i] == a[i] && s[j] == b[j - a.len()]);
            } else {
                assert(s[i] == b[i - a.len()] && s[j] == b[j - a.len()]);
            }
        }
    }
}

proof fn lemma_first_reaching_bounds(events: Seq<MidiEvent>, from: int, target: u64)
    requires
        0 <= from <= events.len(),
    ensures
        from <= first_reaching(events, from, target) <= events.len(),
        forall|k: int| from <= k < first_reaching(events, from, target) ==> events[k].tick < target,
        first_reaching(events, from, target) < events.len() ==> events[first_reaching(events, from, target)].tick >= target,
    decreases events.len() - from,
{
    if from < events.len() && events[from].tick < target {
        lemma_first_reaching_bounds(events, from + 1, target);
    }
}

proof fn lemma_dispatched_origin(events: Seq<MidiEvent>, from: int, to: int, start: u64, filter: FilterSettings, mutes: Seq<bool>)
    requires
        0 <= from,
        to <= events.len(),
    ensures
        forall|i: int| #![trigger dispatched(events, from, to, start, filter, mutes)[i]]
            0 <= i < dispatched(events, from, to, start, filter, mutes).len() ==>
            exists|k: int| from <= k < to && start <= events[k].tick
                && (#[trigger] filter_spec(events[k], filter, mutes)) is Some
                && dispatched(events, from, to, start, filter, mutes)[i] == command_of(filter_spec(events[k], filter, mutes).unwrap()),
    decreases to - from,
{
    if from < to {
        lemma_dispatched_origin(events, from, to - 1, start, filter, mutes);
        let a = dispatched(events, from, to - 1, start, filter, mutes);
        let b = dispatch_one(events, to - 1, start, filter, mutes);
        let s = dispatched(events, from, to, start, filter, mutes);
        assert(s == a + b);
        assert forall|i: int| #![trigger s[i]] 0 <= i < s.len() implies exists|k: int| from <= k < to && start <= events[k].tick
            && (#[trigger] filter_spec(events[k], filter, mutes)) is Some
            && s[i] == command_of(filter_spec(events[k], filter, mutes).unwrap()) by {
            if i < a.len() {
                assert(s[i] == a[i]);
            } else {
                assert(s[i] == b[i - a.len()]);
                let k = to - 1;
                assert(filter_spec(events[k], filter, mutes) is Some);
            }
        }
    }
}

/// A block sends only events of its own window: each dispatched command comes
/// from an event at or after the block start and before the block end, on a
/// channel that is not muted, as the filter lets it through.
pub proof fn law_block_dispatches_its_window(events: Seq<MidiEvent>, from: int, start: u64, end: u64, filter: FilterSettings, mutes: Seq<bool>, i: int)
    requires
        0 <= from <= events.len(),
        0 <= i < dispatched(events, from, first_reaching(events, from, end), start, filter, mutes).len(),
    ensures
        exists|k: int| from <= k < events.len() && start <= events[k].tick < end && mutes[events[k].channel as int]
            && (#[trigger] filter_spec(events[k], filter, mutes)) is Some
            && dispatched(events, from, first_reaching(events, from, end), start, filter, mutes)[i]
                == command_of(filter_spec(events[k], filter, mutes).unwrap()),
{
    lemma_first_reaching_bounds(events, from, end);
    let to = first_reaching(events, from, end);
    lemma_dispatched_origin(events, from, to, start, filter, mutes);
}

/// What event `k` sends when the window `lo..hi` is played: the filtered
/// event's command, if its tick lies in the window and the filter keeps it.
pub open spec fn keep_one(events: Seq<MidiEvent>, k: int, lo: u64, hi: u64, filter: FilterSettings, mutes: Seq<bool>) -> Seq<SynthCommand> {
    if lo <= events[k].tick < hi {
        match filter_spec(events[k], filter, mutes) {
            Some(f) => seq![command_of(f)],
            None => Seq::empty(),
        }
    } else {
        Seq::empty()
    }
}

/// What events `from..to` send when the window `lo..hi` is played.
pub open spec fn kept_in(events: Seq<MidiEvent>, from: int, to: int, lo: u64, hi: u64, filter: FilterSettings, mutes: Seq<bool>) -> Seq<SynthCommand>
    decreases to - from,
{
    if to <= from {
        Seq::empty()
    } else {
        kept_in(events, from, to - 1, lo, hi, filter, mutes) + keep_one(events, to - 1, lo, hi, filter, mutes)
    }
}

/// Playing the window `lo..hi` of `events`: the command of every event whose
/// tick lies in the window and that the filter keeps, each exactly once, in
/// the order of `events`.
pub open spec fn kept_window(events: Seq<MidiEvent>, lo: u64, hi: u64, filter: FilterSettings, mutes: Seq<bool>) -> Seq<SynthCommand> {
    kept_in(events, 0, events.len() as int, lo, hi, filter, mutes)
}

/// The player is in step with the timeline at `tick`: its next event is the
/// first one at or after `tick`.
pub open spec fn in_step(pre: PlayerView, tick: u64) -> bool {
    pre.event_index == first_reaching(pre.events, 0, tick)
}

proof fn lemma_kept_split(events: Seq<MidiEvent>, a: int, b: int, c: int, lo: u64, hi: u64, filter: FilterSettings, mutes: Seq<bool>)
    requires
        a <= b <= c,
    ensures
        kept_in(events, a, c, lo, hi, filter, mutes) == kept_in(events, a, b, lo, hi, filter, mutes) + kept_in(events, b, c, lo, hi, filter, mutes),
    decreases c - b,
{
    if c > b {
        lemma_kept_split(events, a, b, c - 1, lo, hi, filter, mutes);
        assert(kept_in(events, a, c, lo, hi, filter, mutes) =~= kept_in(events, a, b, lo, hi, filter, mutes) + kept_in(events, b, c, lo, hi, filter, mutes));
    } else {
        assert(kept_in(events, a, c, lo, hi, filter, mutes) =~= kept_in(events, a, b, lo, hi, filter, mutes) + kept_in(events, b, c, lo, hi, filter, mutes));
    }
}

proof fn lemma_kept_same_window(events: Seq<MidiEvent>, from: int, to: int, lo: u64, hi: u64, lo2: u64, hi2: u64, filter: FilterSettings, mutes: Seq<bool>)
    requires
        forall|k: int| from <= k < to ==> ((lo <= #[trigger] events[k].tick < hi) == (lo2 <= events[k].tick < hi2)),
    ensures
        kept_in(events, from, to, lo, hi, filter, mutes) == kept_in(events, from, to, lo2, hi2, filter, mutes),
    decreases to - from,
{
    if to > from {
        lemma_kept_same_window(events, from, to - 1, lo, hi, lo2, hi2, filter, mutes);
        assert(events[to - 1].tick == events[to - 1].tick);
    }
}

proof fn lemma_kept_none(events: Seq<MidiEvent>, from: int, to: int, lo: u64, hi: u64, filter: FilterSettings, mutes: Seq<bool>)
    requires
        forall|k: int| from <= k < to ==> !(lo <= #[trigger] events[k].tick < hi),
    ensures
        kept_in(events, from, to, lo, hi, filter, mutes) == Seq::<SynthCommand>::empty(),
    decreases to - from,
{
    if to > from {
        lemma_kept_none(events, from, to - 1, lo, hi, filter, mutes);
        assert(events[to - 1].tick == events[to - 1].tick);
        assert(kept_in(events, from, to, lo, hi, filter, mutes) =~= Seq::<SynthCommand>::empty());
    }
}

proof fn lemma_dispatched_is_kept(events: Seq<MidiEvent>, from: int, to: int, lo: u64, hi: u64, filter: FilterSettings, mutes: Seq<bool>)
    requires
        forall|k: int| from <= k < to ==> #[trigger] events[k].tick < hi,
    ensures
        dispatched(events, from, to, lo, filter, mutes) == kept_in(events, from, to, lo, hi, filter, mutes),
    decreases to - from,
{
    if to > from {
        lemma_dispatched_is_kept(events, from, to - 1, lo, hi, filter, mutes);
        assert(events[to - 1].tick < hi);
    }
}

/// On tick-ordered events, an index lies before the first event at or after
/// `target` exactly when its event comes before `target`.
proof fn lemma_first_reaching_sorted(events: Seq<MidiEvent>, target: u64)
    requires
        sorted_by_tick(events),
    ensures
        0 <= first_reaching(events, 0, target) <= events.len(),
        forall|k: int| 0 <= k < events.len() ==> (k < first_reaching(events, 0, target) <==> #[trigger] events[k].tick < target),
{
    lemma_first_reaching_bounds(events, 0, target);
    let f = first_reaching(events, 0, target);
    assert forall|k: int| 0 <= k < events.len() implies (k < f <==> #[trigger] events[k].tick < target) by {
        if k >= f {
            assert(events[f].tick <= events[k].tick);
        }
    }
}

/// On tick-ordered events, the window `lo..hi` is played by the events
/// between the first one at or after `lo` and the first one at or after `hi`.
proof fn lemma_window_range(events: Seq<MidiEvent>, lo: u64, hi: u64, lo2: u64, hi2: u64, filter: FilterSettings, mutes: Seq<bool>)
    requires
        sorted_by_tick(events),
        lo <= hi,
        lo2 <= lo,
        hi <= hi2,
    ensures
        first_reaching(events, 0, lo) <= first_reaching(events, 0, hi),
        kept_window(events, lo, hi, filter, mutes)
            == kept_in(events, first_reaching(events, 0, lo), first_reaching(events, 0, hi), lo2, hi2, filter, mutes),
{
    lemma_first_reaching_sorted(events, lo);
    lemma_first_reaching_sorted(events, hi);
    let i = first_reaching(events, 0, lo);
    let j = first_reaching(events, 0, hi);
    let n = events.len() as int;
    if i > j {
        assert(events[j].tick >= hi);
        assert(events[j].tick < lo);
    }
    lemma_kept_split(events, 0, i, n, lo, hi, filter, mutes);
    lemma_kept_split(events, i, j, n, lo, hi, filter, mutes);
    lemma_kept_none(events, 0, i, lo, hi, filter, mutes);
    lemma_kept_none(events, j, n, lo, hi, filter, mutes);
    lemma_kept_same_window(events, i, j, lo, hi, lo2, hi2, filter, mutes);
    assert(kept_window(events, lo, hi, filter, mutes) =~= kept_in(events, i, j, lo, hi, filter, mutes));
}

proof fn lemma_block_window(pre: PlayerView, timing: BlockTiming, filter: FilterSettings, mutes: Seq<bool>)
    requires
        sorted_by_tick(pre.events),
        timing.start_tick <= timing.end_tick,
        timing.jumped || in_step(pre, timing.start_tick),
    ensures
        block_dispatch(pre, timing, filter, mutes) == kept_window(pre.events, timing.start_tick, timing.end_tick, filter, mutes),
        first_reaching(pre.events, block_start_index(pre, timing), timing.end_tick) == first_reaching(pre.events, 0, timing.end_tick),
        0 <= first_reaching(pre.events, 0, timing.end_tick),
{
    let events = pre.events;
    let lo = timing.start_tick;
    let hi = timing.end_tick;
    lemma_window_range(events, lo, hi, lo, hi, filter, mutes);
    lemma_first_reaching_sorted(events, lo);
    lemma_first_reaching_sorted(events, hi);
    let i = first_reaching(events, 0, lo);
    let j = first_reaching(events, 0, hi);
    assert(block_start_index(pre, timing) == i);
    assert forall|k: int| 0 <= k < i implies events[k].tick < hi by {
        assert(events[k].tick < lo);
    }
    lemma_first_reaching_skip(events, hi, i);
    lemma_first_reaching_bounds(events, i, hi);
    assert forall|k: int| i <= k < j implies #[trigger] events[k].tick < hi by {
        assert(k < j);
    }
    lemma_dispatched_is_kept(events, i, j, lo, hi, filter, mutes);
}

/// A playing block that starts in step with the timeline, or after a jump,
/// sends its prelude and then exactly the events of its window `start..end`
/// that the filter keeps, each once and in order; afterwards the player is in
/// step at the block's end.
pub proof fn law_block_plays_its_window(pre: PlayerView, timing: BlockTiming, filter: FilterSettings, mutes: Seq<bool>, drums: Seq<bool>)
    requires
        timing.playing,
        sorted_by_tick(pre.events),
        timing.start_tick <= timing.end_tick,
        timing.jumped || in_step(pre, timing.start_tick),
    ensures
        process_commands(pre, timing, filter, mutes, drums)
            == block_prelude(pre, timing, mutes, drums) + kept_window(pre.events, timing.start_tick, timing.end_tick, filter, mutes),
        in_step(process_state(pre, timing, mutes, drums), timing.end_tick),
{
    lemma_block_window(pre, timing, filter, mutes);
}

/// Two consecutive playing blocks, the second starting where the first ended
/// and without a jump, play the whole span `first.start..second.end` exactly
/// once: what they dispatch, one after the other, is the command of every
/// kept event of the span, in order, none skipped at the boundary and none
/// sent twice.
pub proof fn law_consecutive_blocks_play_once(pre: PlayerView, first: BlockTiming, second: BlockTiming, filter: FilterSettings,
    mutes: Seq<bool>, drums1: Seq<bool>, drums2: Seq<bool>)
    requires
        first.playing,
        second.playing,
        !second.jumped,
        sorted_by_tick(pre.events),
        first.start_tick <= first.end_tick,
        first.end_tick == second.start_tick,
        second.start_tick <= second.end_tick,
        first.jumped || in_step(pre, first.start_tick),
    ensures
        ({
            let mid = process_state(pre, first, mutes, drums1);
            &&& process_commands(pre, first, filter, mutes, drums1)
                == block_prelude(pre, first, mutes, drums1) + kept_window(pre.events, first.start_tick, first.end_tick, filter, mutes)
            &&& process_commands(mid, second, filter, mutes, drums2)
                == block_prelude(mid, second, mutes, drums2) + kept_window(pre.events, second.start_tick, second.end_tick, filter, mutes)
            &&& kept_window(pre.events, first.start_tick, first.end_tick, filter, mutes)
                + kept_window(pre.events, second.start_tick, second.end_tick, filter, mutes)
                == kept_window(pre.events, first.start_tick, second.end_tick, filter, mutes)
        }),
{
    let events = pre.events;
    let mid = process_state(pre, first, mutes, drums1);
    law_block_plays_its_window(pre, first, filter, mutes, drums1);
    law_block_plays_its_window(mid, second, filter, mutes, drums2);
    lemma_window_concat(events, first.start_tick, first.end_tick, second.end_tick, filter, mutes);
}

proof fn lemma_window_concat(events: Seq<MidiEvent>, a: u64, b: u64, c: u64, filter: FilterSettings, mutes: Seq<bool>)
    requires
        sorted_by_tick(events),
        a <= b <= c,
    ensures
        kept_window(events, a, b, filter, mutes) + kept_window(events, b, c, filter, mutes) == kept_window(events, a, c, filter, mutes),
{
    lemma_window_range(events, a, b, a, c, filter, mutes);
    lemma_window_range(events, b, c, a, c, filter, mutes);
    lemma_window_range(events, a, c, a, c, filter, mutes);
    lemma_kept_split(events, first_reaching(events, 0, a), first_reaching(events, 0, b), first_reaching(events, 0, c), a, c, filter, mutes);
}

/// The player's state after a run of blocks, with the same mutes and drum
/// flags throughout.
pub open spec fn run_state(pre: PlayerView, ts: Seq<BlockTiming>, mutes: Seq<bool>, drums: Seq<bool>) -> PlayerView
    decreases ts.len(),
{
    if ts.len() == 0 {
        pre
    } else {
        process_state(run_state(pre, ts.drop_last(), mutes, drums), ts.last(), mutes, drums)
    }
}

/// What a run of blocks dispatches, block after block.
pub open spec fn run_dispatch(pre: PlayerView, ts: Seq<BlockTiming>, filter: FilterSettings, mutes: Seq<bool>, drums: Seq<bool>) -> Seq<SynthCommand>
    decreases ts.len(),
{
    if ts.len() == 0 {
        Seq::empty()
    } else {
        run_dispatch(pre, ts.drop_last(), filter, mutes, drums)
            + block_dispatch(run_state(pre, ts.drop_last(), mutes, drums), ts.last(), filter, mutes)
    }
}

/// The blocks play one after the other without gaps: each plays and runs
/// forward, and each after the first starts, without a jump, where the one
/// before it ended.
pub open spec fn gapless_run(ts: Seq<BlockTiming>) -> bool {
    &&& forall|k: int| 0 <= k < ts.len() ==> (#[trigger] ts[k]).playing && ts[k].start_tick <= ts[k].end_tick
    &&& forall|k: int| 0 < k < ts.len() ==> !(#[trigger] ts[k]).jumped && ts[k].start_tick == ts[k - 1].end_tick
}

proof fn lemma_run_keeps_events(pre: PlayerView, ts: Seq<BlockTiming>, mutes: Seq<bool>, drums: Seq<bool>)
    ensures
        run_state(pre, ts, mutes, drums).events == pre.events,
    decreases ts.len(),
{
    if ts.len() > 0 {
        lemma_run_keeps_events(pre, ts.drop_last(), mutes, drums);
    }
}

/// A gapless run of any number of blocks, on tick-ordered events, that starts
/// in step with the timeline or with a jump, plays the span from the first
/// block's start to the last block's end exactly once: what the blocks
/// dispatch, one after the other, is the command of every kept event of the
/// span, in order, none skipped and none sent twice. Each block sends its
/// prelude and then the kept events of its own window, and the player ends in
/// step at the end of the run.
pub proof fn law_gapless_run_plays_once(pre: PlayerView, ts: Seq<BlockTiming>, filter: FilterSettings, mutes: Seq<bool>, drums: Seq<bool>)
    requires
        ts.len() > 0,
        gapless_run(ts),
        sorted_by_tick(pre.events),
        ts[0].jumped || in_step(pre, ts[0].start_tick),
    ensures
        ts[0].start_tick <= ts.last().end_tick,
        run_dispatch(pre, ts, filter, mutes, drums) == kept_window(pre.events, ts[0].start_tick, ts.last().end_tick, filter, mutes),
        forall|k: int| 0 <= k < ts.len() ==> #[trigger] process_commands(run_state(pre, ts.take(k), mutes, drums), ts[k], filter, mutes, drums)
            == block_prelude(run_state(pre, ts.take(k), mutes, drums), ts[k], mutes, drums)
                + kept_window(pre.events, ts[k].start_tick, ts[k].end_tick, filter, mutes),
        in_step(run_state(pre, ts, mutes, drums), ts.last().end_tick),
    decreases ts.len(),
{
    let n = ts.len() as int;
    let init = ts.drop_last();
    let mid = run_state(pre, init, mutes, drums);
    let last = ts.last();
    assert(ts[n - 1] == last);
    lemma_run_keeps_events(pre, init, mutes, drums);
    if n == 1 {
        assert(init.len() == 0);
        assert(ts.take(0) =~= init);
        law_block_plays_its_window(pre, last, filter, mutes, drums);
        lemma_block_window(pre, last, filter, mutes);
        assert(mid == pre);
        assert(run_dispatch(pre, init, filter, mutes, drums) == Seq::<SynthCommand>::empty());
        assert(run_dispatch(pre, ts, filter, mutes, drums) =~= block_dispatch(pre, last, filter, mutes));
    } else {
        assert(gapless_run(init)) by {
            assert forall|k: int| 0 <= k < init.len() implies (#[trigger] init[k]).playing && init[k].start_tick <= init[k].end_tick by {
                assert(init[k] == ts[k]);
            }
            assert forall|k: int| 0 < k < init.len() implies !(#[trigger] init[k]).jumped && init[k].start_tick == init[k - 1].end_tick by {
                assert(init[k] == ts[k] && init[k - 1] == ts[k - 1]);
            }
        }
        assert(init[0] == ts[0]);
        law_gapless_run_plays_once(pre, init, filter, mutes, drums);
        assert(init.last() == ts[n - 2]);
        assert(ts[n - 1].start_tick == ts[n - 2].end_tick && !ts[n - 1].jumped && ts[n - 1].playing);
        law_block_plays_its_window(mid, last, filter, mutes, drums);
        lemma_block_window(mid, last, filter, mutes);
        lemma_window_concat(pre.events, ts[0].start_tick, last.start_tick, last.end_tick, filter, mutes);
        assert forall|k: int| 0 <= k < ts.len() implies #[trigger] process_commands(run_state(pre, ts.take(k), mutes, drums), ts[k], filter, mutes, drums)
            == block_prelude(run_state(pre, ts.take(k), mutes, drums), ts[k], mutes, drums)
                + kept_window(pre.events, ts[k].start_tick, ts[k].end_tick, filter, mutes) by {
            if k < n - 1 {
                assert(init.take(k) =~= ts.take(k));
                assert(init[k] == ts[k]);
                assert(process_commands(run_state(pre, init.take(k), mutes, drums), init[k], filter, mutes, drums)
                    == block_prelude(run_state(pre, init.take(k), mutes, drums), init[k], mutes, drums)
                        + kept_window(pre.events, init[k].start_tick, init[k].end_tick, filter, mutes));
            } else {
                assert(ts.take(k) =~= init);
            }
        }
    }
}

proof fn lemma_no_changes(events: Seq<MidiEvent>, mutes: Seq<bool>, drums: Seq<bool>, tick: u64, n: int)
    ensures
        mute_changes(events, mutes, mutes, tick, n) == Seq::<SynthCommand>::empty(),
        drum_changes(drums, drums, n) == Seq::<SynthCommand>::empty(),
    decreases n,
{
    if n > 0 {
        lemma_no_changes(events, mutes, drums, tick, n - 1);
        assert(mute_changes(events, mutes, mutes, tick, n) =~= Seq::<SynthCommand>::empty());
        assert(drum_changes(drums, drums, n) =~= Seq::<SynthCommand>::empty());
    }
}

/// A block that continues playback without a jump, with the mutes and drum
/// flags of the block before, sends nothing but its events: no reset, no
/// chase, no mute or percussion change.
pub proof fn law_steady_block_sends_only_its_events(pre: PlayerView, timing: BlockTiming, filter: FilterSettings)
    requires
        timing.playing,
        pre.was_playing,
        !timing.jumped,
    ensures
        process_commands(pre, timing, filter, pre.last_mutes, pre.last_drums) == block_dispatch(pre, timing, filter, pre.last_mutes),
{
    lemma_no_changes(pre.events, pre.last_mutes, pre.last_drums, timing.chase_tick, 256);
    assert(block_prelude(pre, timing, pre.last_mutes, pre.last_drums) =~= Seq::<SynthCommand>::empty());
    assert(process_commands(pre, timing, filter, pre.last_mutes, pre.last_drums) =~= block_dispatch(pre, timing, filter, pre.last_mutes));
}

/// The channel a command goes to (-1 for a command to all channels).
pub open spec fn channel_of(c: SynthCommand) -> int {
    match c {
        SynthCommand::Channel(ch, _) => ch as int,
        SynthCommand::AllChannels(_) => -1,
    }
}

/// Drum flag changes switch percussion mode exactly once per changed channel:
/// each command sets a changed channel to its new flag, the channels come in
/// ascending order (so none twice), and every changed channel gets one.
pub proof fn law_drum_changes_once(old: Seq<bool>, new: Seq<bool>, n: int)
    requires
        0 <= n <= 256,
        n <= old.len(),
        n <= new.len(),
    ensures
        forall|k: int| 0 <= k < drum_changes(old, new, n).len() ==> {
            let ch = #[trigger] channel_of(drum_changes(old, new, n)[k]);
            &&& 0 <= ch < n
            &&& old[ch] != new[ch]
            &&& drum_changes(old, new, n)[k] == SynthCommand::Channel(ch as u32, ChannelCommand::SetPercussionMode(new[ch]))
        },
        forall|a: int, b: int| 0 <= a < b < drum_changes(old, new, n).len() ==>
            channel_of(drum_changes(old, new, n)[a]) < channel_of(drum_changes(old, new, n)[b]),
        forall|ch: int| 0 <= ch < n && old[ch] != new[ch] ==>
            drum_changes(old, new, n).contains(SynthCommand::Channel(ch as u32, ChannelCommand::SetPercussionMode(new[ch]))),
    decreases n,
{
    if n > 0 {
        law_drum_changes_once(old, new, n - 1);
        let a = drum_changes(old, new, n - 1);
        let r = drum_changes(old, new, n);
        let piece = if old[n - 1] != new[n - 1] {
            seq![SynthCommand::Channel((n - 1) as u32, ChannelCommand::SetPercussionMode(new[n - 1]))]
        } else {
            Seq::<SynthCommand>::empty()
        };
        assert(r == a + piece);
        assert forall|k: int| 0 <= k < r.len() implies {
            let ch = #[trigger] channel_of(r[k]);
            &&& 0 <= ch < n
            &&& old[ch] != new[ch]
            &&& r[k] == SynthCommand::Channel(ch as u32, ChannelCommand::SetPercussionMode(new[ch]))
        } by {
            if k < a.len() {
                assert(r[k] == a[k]);
                assert(channel_of(a[k]) == channel_of(r[k]));
            } else {
                assert(r[k] == piece[k - a.len()]);
            }
        }
        assert forall|x: int, y: int| 0 <= x < y < r.len() implies channel_of(r[x]) < channel_of(r[y]) by {
            assert(channel_of(r[x]) == channel_of(r[x]) && channel_of(r[y]) == channel_of(r[y]));
            if y < a.len() {
                assert(r[x] == a[x] && r[y] == a[y]);
            } else {
                assert(r[x] == a[x] && r[y] == piece[y - a.len()]);
                assert(channel_of(a[x]) < n - 1);
            }
        }
        assert forall|ch: int| 0 <= ch < n && old[ch] != new[ch] implies
            r.contains(SynthCommand::Channel(ch as u32, ChannelCommand::SetPercussionMode(new[ch]))) by {
            let c = SynthCommand::Channel(ch as u32, ChannelCommand::SetPercussionMode(new[ch]));
            if ch < n - 1 {
                let k = choose|k: int| 0 <= k < a.len() && a[k] == c;
                assert(r[k] == c);
            } else {
                assert(r[a.len() as int] == c);
            }
        }
    }
}

/// Mute changes touch only the channels whose mute flag changed, channel
/// after channel: a muted channel gets its notes released and its sustain
/// pedal lifted, an unmuted one its chased state, any other nothing.
pub proof fn law_mute_changes_only_changed_channels(events: Seq<MidiEvent>, old: Seq<bool>, new: Seq<bool>, tick: u64, n: int)
    requires
        0 <= n <= 256,
    ensures
        forall|k: int| 0 <= k < mute_changes(events, old, new, tick, n).len() ==> {
            let ch = #[trigger] channel_of(mute_changes(events, old, new, tick, n)[k]);
            &&& 0 <= ch < n
            &&& old[ch] != new[ch]
        },
        forall|a: int, b: int| 0 <= a < b < mute_changes(events, old, new, tick, n).len() ==>
            channel_of(mute_changes(events, old, new, tick, n)[a]) <= channel_of(mute_changes(events, old, new, tick, n)[b]),
    decreases n,
{
    if n > 0 {
        law_mute_changes_only_changed_channels(events, old, new, tick, n - 1);
        let ch = n - 1;
        let a = mute_changes(events, old, new, tick, n - 1);
        let piece = mute_change(events, old, new, tick, ch);
        let r = mute_changes(events, old, new, tick, n);
        assert(r == a + piece);
        let chased = chase_channel(scanned(events, tick), tick, ch as u8);
        law_chase_order(scanned(events, tick), tick, ch as u8);
        assert forall|k: int| 0 <= k < piece.len() implies #[trigger] channel_of(piece[k]) == ch && old[ch] != new[ch] by {
            if old[ch] && !new[ch] {
                assert(piece.len() == 2);
            } else if !old[ch] && new[ch] {
                assert(piece =~= mapped(chased));
                assert(piece[k] == command_of(chased[k]));
                assert(chased[k].channel == ch as u8);
            }
        }
        assert forall|k: int| 0 <= k < r.len() implies {
            let c = #[trigger] channel_of(r[k]);
            &&& 0 <= c < n
            &&& old[c] != new[c]
        } by {
            if k < a.len() {
                assert(r[k] == a[k]);
                assert(channel_of(a[k]) == channel_of(r[k]));
            } else {
                assert(r[k] == piece[k - a.len()]);
                assert(channel_of(piece[k - a.len()]) == ch);
            }
        }
        assert forall|x: int, y: int| 0 <= x < y < r.len() implies channel_of(r[x]) <= channel_of(r[y]) by {
            if y < a.len() {
                assert(r[x] == a[x] && r[y] == a[y]);
            } else if x < a.len() {
                assert(r[x] == a[x] && r[y] == piece[y - a.len()]);
                assert(channel_of(a[x]) < n - 1);
                assert(channel_of(piece[y - a.len()]) == ch);
            } else {
                assert(r[x] == piece[x - a.len()] && r[y] == piece[y - a.len()]);
                assert(channel_of(piece[x - a.len()]) == ch);
                assert(channel_of(piece[y - a.len()]) == ch);
            }
        }
    }
}

proof fn lemma_mute_changes_hold(events: Seq<MidiEvent>, old: Seq<bool>, new: Seq<bool>, tick: u64, n: int, ch: int)
    requires
        0 <= ch < n,
    ensures
        forall|x: SynthCommand| #[trigger] mute_change(events, old, new, tick, ch).contains(x) ==> mute_changes(events, old, new, tick, n).contains(x),
    decreases n,
{
    let a = mute_changes(events, old, new, tick, n - 1);
    let p = mute_change(events, old, new, tick, n - 1);
    let r = mute_changes(events, old, new, tick, n);
    assert(r == a + p);
    if ch < n - 1 {
        lemma_mute_changes_hold(events, old, new, tick, n - 1, ch);
        assert forall|x: SynthCommand| #[trigger] mute_change(events, old, new, tick, ch).contains(x) implies r.contains(x) by {
            assert(a.contains(x));
            let w = choose|w: int| 0 <= w < a.len() && a[w] == x;
            assert(r[w] == a[w]);
        }
    } else {
        assert forall|x: SynthCommand| #[trigger] p.contains(x) implies r.contains(x) by {
            let w = choose|w: int| 0 <= w < p.len() && p[w] == x;
            assert(r[a.len() + w] == p[w]);
        }
    }
}

/// What a mute flag change of channel `ch` sends in a block: muting sends the
/// channel an all-notes-off and a sustain-pedal release (controller 64 at 0);
/// unmuting sends the channel's chased state as of the block's chase tick;
/// an unchanged flag sends nothing. What a change sends is among the block's
/// mute commands.
pub proof fn law_mute_change_effects(events: Seq<MidiEvent>, old: Seq<bool>, new: Seq<bool>, tick: u64, ch: int)
    requires
        0 <= ch < 256,
    ensures
        old[ch] && !new[ch] ==> mute_change(events, old, new, tick, ch) == seq![
            SynthCommand::Channel(ch as u32, ChannelCommand::AllNotesOff),
            SynthCommand::Channel(ch as u32, ChannelCommand::Control(64, 0)),
        ],
        !old[ch] && new[ch] ==> mute_change(events, old, new, tick, ch)
            == chase_channel(scanned(events, tick), tick, ch as u8).map_values(|e: MidiEvent| command_of(e)),
        old[ch] == new[ch] ==> mute_change(events, old, new, tick, ch) == Seq::<SynthCommand>::empty(),
        forall|x: SynthCommand| #[trigger] mute_change(events, old, new, tick, ch).contains(x) ==> mute_changes(events, old, new, tick, 256).contains(x),
{
    lemma_mute_changes_hold(events, old, new, tick, 256, ch);
    if old[ch] && !new[ch] {
        assert(mute_change(events, old, new, tick, ch) =~= seq![
            SynthCommand::Channel(ch as u32, ChannelCommand::AllNotesOff),
            SynthCommand::Channel(ch as u32, ChannelCommand::Control(64, 0)),
        ]);
    }
    if !old[ch] && new[ch] {
        assert(mute_change(events, old, new, tick, ch) =~= chase_channel(scanned(events, tick), tick, ch as u8).map_values(|e: MidiEvent| command_of(e)));
    }
    if old[ch] == new[ch] {
        assert(mute_change(events, old, new, tick, ch) =~= Seq::<SynthCommand>::empty());
    }
}

/// Stopping releases the notes once: a second stopped block sends nothing.
pub proof fn law_stop_sent_once(pre: PlayerView, first: BlockTiming, second: BlockTiming, filter: FilterSettings,
    mutes1: Seq<bool>, drums1: Seq<bool>, mutes2: Seq<bool>, drums2: Seq<bool>)
    requires
        !first.playing,
        !second.playing,
    ensures
        process_commands(process_state(pre, first, mutes1, drums1), second, filter, mutes2, drums2) == Seq::<SynthCommand>::empty(),
{
}

/// Starting the transport resets the synthesizer before anything else is sent.
pub proof fn law_start_resets_first(pre: PlayerView, timing: BlockTiming, filter: FilterSettings, mutes: Seq<bool>, drums: Seq<bool>)
    requires
        !pre.was_playing,
        timing.playing,
    ensures
        process_commands(pre, timing, filter, mutes, drums).subrange(0, system_reset_spec().len() as int) == system_reset_spec(),
{
    let out = process_commands(pre, timing, filter, mutes, drums);
    assert(out.subrange(0, system_reset_spec().len() as int) =~= system_reset_spec());
}

/// Events whose controller numbers are all below 128 (as the loader gives
/// them) can always be played: nothing a block chases is out of range.
pub proof fn law_valid_controllers_are_ready(pre: PlayerView, timing: BlockTiming, mutes: Seq<bool>)
    requires
        controllers_valid(pre.events),
    ensures
        process_ready(pre, timing, mutes),
{
    lemma_first_reaching_bounds(pre.events, 0, timing.chase_tick);
    let p = scanned(pre.events, timing.chase_tick);
    assert forall|k: int| 0 <= k < p.len() implies (#[trigger] p[k].message matches MidiMessage::ControlChange { cc, .. } ==> cc < 128) by {
        assert(p[k] == pre.events[k]);
    }
    assert forall|ch: int| 0 <= ch < 256 && !pre.last_mutes[ch] && #[trigger] mutes[ch] implies
        channel_controllers_valid(p, ch as u8) by {
        assert forall|k: int| 0 <= k < p.len() && #[trigger] p[k].channel == ch as u8 implies
            (p[k].message matches MidiMessage::ControlChange { cc, .. } ==> cc < 128) by {
            assert(p[k] == pre.events[k]);
        }
    }
}

/// Well-formed events are in particular events with valid controllers.
pub proof fn law_well_formed_events_are_ready(pre: PlayerView, timing: BlockTiming, mutes: Seq<bool>)
    requires
        events_well_formed(pre.events),
    ensures
        process_ready(pre, timing, mutes),
{
    assert forall|k: int| 0 <= k < pre.events.len() implies
        (#[trigger] pre.events[k].message matches MidiMessage::ControlChange { cc, .. } ==> cc < 128) by {
        assert(event_well_formed(pre.events[k]));
    }
    law_valid_controllers_are_ready(pre, timing, mutes);
}

proof fn lemma_not_ready(pre: PlayerView, timing: BlockTiming, mutes: Seq<bool>, c: int)
    requires
        timing.playing,
        0 <= c < 256,
        !pre.last_mutes[c],
        mutes[c],
        !channel_controllers_valid(scanned(pre.events, timing.chase_tick), c as u8),
    ensures
        !process_ready(pre, timing, mutes),
{
}

/// Plays a loaded event list in step with the host transport.
pub struct MidiPlayer {
    events: Vec<MidiEvent>,
    ppqn: u16,
    event_index: usize,
    was_playing: bool,
    last_mutes: [bool; 256],
    last_drums: [bool; 256],
}

impl View for MidiPlayer {
    type V = PlayerView;

    closed spec fn view(&self) -> PlayerView {
        PlayerView {
            events: self.events@,
            ppqn: self.ppqn,
            event_index: self.event_index as nat,
            was_playing: self.was_playing,
            last_mutes: self.last_mutes@,
            last_drums: self.last_drums@,
        }
    }
}

pub proof fn lemma_first_reaching(events: Seq<MidiEvent>, from: int, target: u64, i: int)
    requires
        0 <= from <= i <= events.len(),
        forall|k: int| from <= k < i ==> events[k].tick < target,
        i == events.len() || events[i].tick >= target,
    ensures
        first_reaching(events, from, target) == i,
    decreases i - from,
{
    if from < i {
        lemma_first_reaching(events, from + 1, target, i);
    }
}


pub proof fn lemma_first_reaching_skip(events: Seq<MidiEvent>, target: u64, i: int)
    requires
        0 <= i <= events.len(),
        forall|k: int| 0 <= k < i ==> events[k].tick < target,
    ensures
        first_reaching(events, 0, target) == first_reaching(events, i, target),
        first_reaching(events, i, target) >= i,
        first_reaching(events, i, target) <= events.len(),
    decreases events.len() - i,
{
    if i < events.len() && events[i].tick < target {
        lemma_first_reaching_skip(events, target, i + 1);
    } else {
        lemma_first_reaching_back(events, target, i);
    }
}

proof fn lemma_first_reaching_back(events: Seq<MidiEvent>, target: u64, i: int)
    requires
        0 <= i <= events.len(),
        forall|k: int| 0 <= k < i ==> events[k].tick < target,
        i == events.len() || events[i].tick >= target,
    ensures
        first_reaching(events, 0, target) == i,
        first_reaching(events, i, target) == i,
{
    lemma_first_reaching(events, 0, target, i);
    lemma_first_reaching(events, i, target, i);
}

/// The slot of controller `c` of channel `ch` in a flat table of 128 per channel.
pub open spec fn cc_slot(ch: int, c: int) -> int {
    ch * 128 + c
}

proof fn lemma_cc_slot(ch: int, c: int, ch2: int, c2: int)
    requires
        0 <= ch < 256,
        0 <= c < 128,
        0 <= ch2 < 256,
        0 <= c2 < 128,
    ensures
        0 <= cc_slot(ch, c) < 32768,
        cc_slot(ch, c) == cc_slot(ch2, c2) ==> ch == ch2 && c == c2,
{
    assert(0 <= ch * 128 + c < 32768) by (nonlinear_arith)
        requires
            0 <= ch < 256,
            0 <= c < 128,
    ;
    assert(ch * 128 + c == ch2 * 128 + c2 ==> ch == ch2 && c == c2) by (nonlinear_arith)
        requires
            0 <= c < 128,
            0 <= c2 < 128,
    ;
}

proof fn lemma_scan_step(s: Seq<MidiEvent>, i: int)
    requires
        0 <= i < s.len(),
    ensures
        s.take(i + 1).drop_last() == s.take(i),
        s.take(i + 1).last() == s[i],
{
    assert(s.take(i + 1).drop_last() =~= s.take(i));
}

/// Appends the commands of `events` to `out`.
fn append_mapped(out: &mut Vec<SynthCommand>, events: &Vec<MidiEvent>)
    ensures
        final(out)@ == old(out)@ + mapped(events@),
{
    let mut i: usize = 0;
    while i < events.len()
        invariant
            i <= events@.len(),
            out@ == old(out)@ + mapped(events@.take(i as int)),
        decreases events.len() - i,
    {
        match map_midi_event(&events[i]) {
            Some(cmd) => {
                out.push(cmd);
            },
            None => {},
        }
        i = i + 1;
        assert(mapped(events@.take(i as int)) =~= mapped(events@.take(i - 1)).push(command_of(events@[i - 1])));
    }
    assert(events@.take(i as int) =~= events@);
}

impl MidiPlayer {
    /// An empty player: no events, 480 ticks per beat, every channel sounding
    /// and none in percussion mode.
    pub fn new() -> (res: Self)
        ensures
            res@.events == Seq::<MidiEvent>::empty(),
            res@.ppqn == 480,
            res@.event_index == 0,
            !res@.was_playing,
            res@.last_mutes == Seq::new(256, |i: int| true),
            res@.last_drums == Seq::new(256, |i: int| false),
    {
        let res = MidiPlayer {
            events: Vec::new(),
            ppqn: 480,
            event_index: 0,
            was_playing: false,
            last_mutes: [true; 256],
            last_drums: [false; 256],
        };
        assert(res.last_mutes@ =~= Seq::new(256, |i: int| true));
        assert(res.last_drums@ =~= Seq::new(256, |i: int| false));
        res
    }

    /// Takes a parsed event list: playback restarts from its first event, with
    /// every channel taken as sounding.
    pub fn load(&mut self, events: Vec<MidiEvent>, ppqn: u16)
        ensures
            final(self)@ == (PlayerView {
                events: events@,
                ppqn,
                event_index: 0,
                last_mutes: Seq::new(256, |i: int| true),
                ..old(self)@
            }),
    {
        self.events = events;
        self.ppqn = ppqn;
        self.event_index = 0;
        self.last_mutes = [true; 256];
        assert(self.last_mutes@ =~= Seq::new(256, |i: int| true));
    }

    /// Rewinds to the first event and forgets that the transport was playing.
    pub fn reset(&mut self)
        ensures
            final(self)@ == (PlayerView { event_index: 0, was_playing: false, ..old(self)@ }),
    {
        self.event_index = 0;
        self.was_playing = false;
    }

    /// The player's stored mute and drum flags cover the 256 channels.
    pub proof fn lemma_flag_lengths(&self)
        ensures
            self@.last_mutes.len() == 256,
            self@.last_drums.len() == 256,
    {
    }

    /// Takes the drum flags the synthesizer was set to outside playback (when
    /// the plugin starts), so that blocks send percussion changes against them.
    pub fn set_drums(&mut self, drums: &[bool; 256])
        ensures
            final(self)@ == (PlayerView { last_drums: drums@, ..old(self)@ }),
    {
        self.last_drums = *drums;
    }

    /// The ticks per beat of the loaded events.
    pub fn ppqn(&self) -> (res: u16)
        ensures
            res == self@.ppqn,
    {
        self.ppqn
    }


    /// The chase events of one channel, each stamped `target_tick`: the latest
    /// value before `target_tick` of RPN, data entry and bank select, then the
    /// latest program change, then the other chased controllers (in chase-list
    /// order), then the latest pitch bend. Scanning
    /// stops at the first event at or after `target_tick`.
    pub fn chase_single_channel(&self, target_tick: u64, channel: u8) -> (res: Vec<MidiEvent>)
        requires
            channel_controllers_valid(scanned(self@.events, target_tick), channel),
        ensures
            res@ == chase_channel(scanned(self@.events, target_tick), target_tick, channel),
    {
        let ghost events = self@.events;
        let ghost prefix = scanned(events, target_tick);
        let mut cc_state: [Option<u8>; 128] = [None; 128];
        let mut pc_state: Option<u8> = None;
        let mut pb_state: Option<i16> = None;
        let mut i: usize = 0;
        while i < self.events.len() && self.events[i].tick < target_tick
            invariant
                events == self@.events,
                prefix == scanned(events, target_tick),
                channel_controllers_valid(prefix, channel),
                i <= events.len(),
                forall|k: int| 0 <= k < i ==> events[k].tick < target_tick,
                forall|c: int| 0 <= c < 128 ==> #[trigger] cc_state@[c] == last_cc(events.take(i as int), channel, c as u8),
                pc_state == last_pc(events.take(i as int), channel),
                pb_state == last_pb(events.take(i as int), channel),
            decreases self.events.len() - i,
        {
            let event = self.events[i];
            proof {
                lemma_first_reaching_skip(events, target_tick, i + 1);
                assert(prefix[i as int] == event);
                lemma_scan_step(events, i as int);
            }
            if event.channel == channel {
                match event.message {
                    MidiMessage::ControlChange { cc, value } => {
                        cc_state[cc as usize] = Some(value);
                    },
                    MidiMessage::ProgramChange { pc } => {
                        pc_state = Some(pc);
                    },
                    MidiMessage::PitchBend { value } => {
                        pb_state = Some(value);
                    },
                    _ => {},
                }
            }
            i = i + 1;
        }
        proof {
            lemma_first_reaching_back(events, target_tick, i as int);
        }
        let mut result: Vec<MidiEvent> = Vec::new();
        let mut k: usize = 0;
        while k < CHASE_CC_BEFORE_PROGRAM
            invariant
                k <= CHASE_CC_BEFORE_PROGRAM,
                prefix == events.take(i as int),
                forall|c: int| 0 <= c < 128 ==> #[trigger] cc_state@[c] == last_cc(prefix, channel, c as u8),
                result@ == chase_ccs(prefix, target_tick, channel, 0, k as int),
            decreases CHASE_CC_BEFORE_PROGRAM - k,
        {
            let cc = chase_cc(k);
            match cc_state[cc as usize] {
                Some(value) => {
                    result.push(MidiEvent { tick: target_tick, channel, message: MidiMessage::ControlChange { cc, value } });
                },
                None => {},
            }
            k = k + 1;
        }
        if let Some(pc) = pc_state {
            result.push(MidiEvent { tick: target_tick, channel, message: MidiMessage::ProgramChange { pc } });
        }
        let ghost head = result@;
        assert(head =~= chase_ccs(prefix, target_tick, channel, 0, 6) + chase_pc(prefix, target_tick, channel));
        while k < CHASE_CC_COUNT
            invariant
                CHASE_CC_BEFORE_PROGRAM <= k <= CHASE_CC_COUNT,
                prefix == events.take(i as int),
                forall|c: int| 0 <= c < 128 ==> #[trigger] cc_state@[c] == last_cc(prefix, channel, c as u8),
                result@ == head + chase_ccs(prefix, target_tick, channel, 6, k as int),
            decreases CHASE_CC_COUNT - k,
        {
            let cc = chase_cc(k);
            match cc_state[cc as usize] {
                Some(value) => {
                    result.push(MidiEvent { tick: target_tick, channel, message: MidiMessage::ControlChange { cc, value } });
                },
                None => {},
            }
            k = k + 1;
            assert(result@ =~= head + chase_ccs(prefix, target_tick, channel, 6, k as int));
        }
        if let Some(value) = pb_state {
            result.push(MidiEvent { tick: target_tick, channel, message: MidiMessage::PitchBend { value } });
        }
        assert(result@ =~= chase_channel(prefix, target_tick, channel));
        result
    }

    /// The chase events of all 256 channels, channel after channel, each as
    /// `chase_single_channel` gives it: one scan of the events before
    /// `target_tick` collects every channel's latest controller, program and
    /// pitch-bend values.
    pub fn chase_events(&self, target_tick: u64) -> (res: Vec<MidiEvent>)
        requires
            controllers_valid(scanned(self@.events, target_tick)),
        ensures
            res@ == chase_all(scanned(self@.events, target_tick), target_tick, 256),
    {
        let ghost events = self@.events;
        let ghost prefix = scanned(events, target_tick);
        let mut cc_state: Vec<Option<u8>> = Vec::new();
        while cc_state.len() < 32768
            invariant
                cc_state@.len() <= 32768,
                forall|j: int| 0 <= j < cc_state@.len() ==> #[trigger] cc_state@[j] == None::<u8>,
            decreases 32768 - cc_state.len(),
        {
            cc_state.push(None);
        }
        let mut pc_state: Vec<Option<u8>> = Vec::new();
        let mut pb_state: Vec<Option<i16>> = Vec::new();
        while pc_state.len() < 256
            invariant
                pc_state@.len() <= 256,
                pb_state@.len() == pc_state@.len(),
                forall|j: int| 0 <= j < pc_state@.len() ==> #[trigger] pc_state@[j] == None::<u8>,
                forall|j: int| 0 <= j < pb_state@.len() ==> #[trigger] pb_state@[j] == None::<i16>,
            decreases 256 - pc_state.len(),
        {
            pc_state.push(None);
            pb_state.push(None);
        }
        proof {
            assert forall|ch: int, c: int| 0 <= ch < 256 && 0 <= c < 128 implies
                #[trigger] cc_state@[cc_slot(ch, c)] == last_cc(events.take(0), ch as u8, c as u8) by {
                lemma_cc_slot(ch, c, ch, c);
            }
        }
        let mut i: usize = 0;
        while i < self.events.len() && self.events[i].tick < target_tick
            invariant
                events == self@.events,
                prefix == scanned(events, target_tick),
                controllers_valid(prefix),
                i <= events.len(),
                forall|k: int| 0 <= k < i ==> events[k].tick < target_tick,
                cc_state@.len() == 32768,
                pc_state@.len() == 256,
                pb_state@.len() == 256,
                forall|ch: int, c: int| 0 <= ch < 256 && 0 <= c < 128 ==>
                    #[trigger] cc_state@[cc_slot(ch, c)] == last_cc(events.take(i as int), ch as u8, c as u8),
                forall|ch: int| 0 <= ch < 256 ==> #[trigger] pc_state@[ch] == last_pc(events.take(i as int), ch as u8),
                forall|ch: int| 0 <= ch < 256 ==> #[trigger] pb_state@[ch] == last_pb(events.take(i as int), ch as u8),
            decreases self.events.len() - i,
        {
            let event = self.events[i];
            let ch = event.channel as usize;
            proof {
                lemma_first_reaching_skip(events, target_tick, i + 1);
                assert(prefix[i as int] == event);
                lemma_scan_step(events, i as int);
            }
            match event.message {
                MidiMessage::ControlChange { cc, value } => {
                    let slot = ch * 128 + cc as usize;
                    proof {
                        assert(cc < 128);
                        lemma_cc_slot(ch as int, cc as int, ch as int, cc as int);
                        assert forall|ch2: int, c2: int| 0 <= ch2 < 256 && 0 <= c2 < 128 && (ch2 != ch || c2 != cc) implies
                            cc_slot(ch2, c2) != slot by {
                            lemma_cc_slot(ch as int, cc as int, ch2, c2);
                        }
                    }
                    cc_state.set(slot, Some(value));
                    proof {
                        assert forall|ch2: int, c2: int| 0 <= ch2 < 256 && 0 <= c2 < 128 implies
                            #[trigger] cc_state@[cc_slot(ch2, c2)] == last_cc(events.take(i + 1), ch2 as u8, c2 as u8) by {
                            lemma_cc_slot(ch as int, cc as int, ch2, c2);
                        }
                    }
                },
                MidiMessage::ProgramChange { pc } => {
                    pc_state.set(ch, Some(pc));
                },
                MidiMessage::PitchBend { value } => {
                    pb_state.set(ch, Some(value));
                },
                _ => {},
            }
            i = i + 1;
        }
        proof {
            lemma_first_reaching_back(events, target_tick, i as int);
        }
        let mut result: Vec<MidiEvent> = Vec::new();
        let mut ch: usize = 0;
        while ch < 256
            invariant
                ch <= 256,
                prefix == events.take(i as int),
                cc_state@.len() == 32768,
                pc_state@.len() == 256,
                pb_state@.len() == 256,
                forall|ch: int, c: int| 0 <= ch < 256 && 0 <= c < 128 ==>
                    #[trigger] cc_state@[cc_slot(ch, c)] == last_cc(prefix, ch as u8, c as u8),
                forall|ch: int| 0 <= ch < 256 ==> #[trigger] pc_state@[ch] == last_pc(prefix, ch as u8),
                forall|ch: int| 0 <= ch < 256 ==> #[trigger] pb_state@[ch] == last_pb(prefix, ch as u8),
                result@ == chase_all(prefix, target_tick, ch as int),
            decreases 256 - ch,
        {
            let channel = ch as u8;
            let ghost base = result@;
            let mut k: usize = 0;
            while k < CHASE_CC_BEFORE_PROGRAM
                invariant
                    k <= CHASE_CC_BEFORE_PROGRAM,
                    ch < 256,
                    channel == ch,
                    cc_state@.len() == 32768,
                    forall|ch: int, c: int| 0 <= ch < 256 && 0 <= c < 128 ==>
                        #[trigger] cc_state@[cc_slot(ch, c)] == last_cc(prefix, ch as u8, c as u8),
                    result@ == base + chase_ccs(prefix, target_tick, channel, 0, k as int),
                decreases CHASE_CC_BEFORE_PROGRAM - k,
            {
                let cc = chase_cc(k);
                let slot = ch * 128 + cc as usize;
                proof {
                    lemma_cc_slot(ch as int, cc as int, ch as int, cc as int);
                }
                match cc_state[slot] {
                    Some(value) => {
                        result.push(MidiEvent { tick: target_tick, channel, message: MidiMessage::ControlChange { cc, value } });
                    },
                    None => {},
                }
                k = k + 1;
                proof {
                    assert(result@ =~= base + chase_ccs(prefix, target_tick, channel, 0, k as int));
                }
            }
            if let Some(pc) = pc_state[ch] {
                result.push(MidiEvent { tick: target_tick, channel, message: MidiMessage::ProgramChange { pc } });
            }
            let ghost head = result@;
            assert(head =~= base + chase_ccs(prefix, target_tick, channel, 0, 6) + chase_pc(prefix, target_tick, channel));
            while k < CHASE_CC_COUNT
                invariant
                    CHASE_CC_BEFORE_PROGRAM <= k <= CHASE_CC_COUNT,
                    ch < 256,
                    channel == ch,
                    cc_state@.len() == 32768,
                    forall|ch: int, c: int| 0 <= ch < 256 && 0 <= c < 128 ==>
                        #[trigger] cc_state@[cc_slot(ch, c)] == last_cc(prefix, ch as u8, c as u8),
                    result@ == head + chase_ccs(prefix, target_tick, channel, 6, k as int),
                decreases CHASE_CC_COUNT - k,
            {
                let cc = chase_cc(k);
                let slot = ch * 128 + cc as usize;
                proof {
                    lemma_cc_slot(ch as int, cc as int, ch as int, cc as int);
                }
                match cc_state[slot] {
                    Some(value) => {
                        result.push(MidiEvent { tick: target_tick, channel, message: MidiMessage::ControlChange { cc, value } });
                    },
                    None => {},
                }
                k = k + 1;
                proof {
                    assert(result@ =~= head + chase_ccs(prefix, target_tick, channel, 6, k as int));
                }
            }
            if let Some(value) = pb_state[ch] {
                result.push(MidiEvent { tick: target_tick, channel, message: MidiMessage::PitchBend { value } });
            }
            ch = ch + 1;
            proof {
                assert(result@ =~= chase_all(prefix, target_tick, ch as int));
            }
        }
        result
    }

    /// Sends what the mute changes of this block call for.
    fn mute_transitions(&self, mutes: &[bool; 256], chase_tick: u64, out: &mut Vec<SynthCommand>)
        requires
            forall|ch: int| 0 <= ch < 256 && !self@.last_mutes[ch] && #[trigger] mutes@[ch] ==>
                channel_controllers_valid(scanned(self@.events, chase_tick), ch as u8),
        ensures
            final(out)@ == old(out)@ + mute_changes(self@.events, self@.last_mutes, mutes@, chase_tick, 256),
    {
        let ghost base = out@;
        let mut ch: usize = 0;
        while ch < 256
            invariant
                ch <= 256,
                forall|c: int| 0 <= c < 256 && !self@.last_mutes[c] && #[trigger] mutes@[c] ==>
                    channel_controllers_valid(scanned(self@.events, chase_tick), c as u8),
                out@ == base + mute_changes(self@.events, self@.last_mutes, mutes@, chase_tick, ch as int),
            decreases 256 - ch,
        {
            let ghost before = out@;
            if self.last_mutes[ch] && !mutes[ch] {
                out.push(SynthCommand::Channel(ch as u32, ChannelCommand::AllNotesOff));
                out.push(SynthCommand::Channel(ch as u32, ChannelCommand::Control(CC_SUSTAIN, 0)));
            }
            let ghost middle = out@;
            if !self.last_mutes[ch] && mutes[ch] {
                let chased = self.chase_single_channel(chase_tick, ch as u8);
                append_mapped(out, &chased);
            }
            proof {
                let piece = mute_change(self@.events, self@.last_mutes, mutes@, chase_tick, ch as int);
                assert(out@ =~= before + piece);
            }
            ch = ch + 1;
        }
    }

    /// Sends a percussion-mode change for each channel whose drum flag changed.
    fn drum_transitions(&self, drums: &[bool; 256], out: &mut Vec<SynthCommand>)
        ensures
            final(out)@ == old(out)@ + drum_changes(self@.last_drums, drums@, 256),
    {
        let ghost base = out@;
        let mut ch: usize = 0;
        while ch < 256
            invariant
                ch <= 256,
                out@ == base + drum_changes(self@.last_drums, drums@, ch as int),
            decreases 256 - ch,
        {
            let ghost before = out@;
            if self.last_drums[ch] != drums[ch] {
                out.push(set_percussion_mode(ch as u32, drums[ch]));
            }
            ch = ch + 1;
            assert(out@ =~= base + drum_changes(self@.last_drums, drums@, ch as int));
        }
    }

    /// Dispatches the events of this block: from the current index up to the
    /// first event at or after `end_tick`, sending those at or after
    /// `start_tick` that the filter keeps.
    fn dispatch_block(&mut self, start_tick: u64, end_tick: u64, filter: &FilterSettings, mutes: &[bool; 256], out: &mut Vec<SynthCommand>)
        ensures
            final(self)@ == (PlayerView {
                event_index: first_reaching(old(self)@.events, old(self)@.event_index as int, end_tick) as nat,
                ..old(self)@
            }),
            final(out)@ == old(out)@ + dispatched(old(self)@.events, old(self)@.event_index as int,
                first_reaching(old(self)@.events, old(self)@.event_index as int, end_tick), start_tick, *filter, mutes@),
    {
        let ghost base = out@;
        let ghost from = self.event_index as int;
        let ghost events = self@.events;
        while self.event_index < self.events.len() && self.events[self.event_index].tick < end_tick
            invariant
                events == self@.events,
                self@ == (PlayerView { event_index: self.event_index as nat, ..old(self)@ }),
                from <= self.event_index,
                from < events.len() ==> self.event_index <= events.len(),
                from >= events.len() ==> self.event_index == from,
                forall|k: int| from <= k < self.event_index ==> events[k].tick < end_tick,
                out@ == base + dispatched(events, from, self.event_index as int, start_tick, *filter, mutes@),
            decreases self.events.len() - self.event_index,
        {
            let event = self.events[self.event_index];
            let ghost before = out@;
            if event.tick >= start_tick {
                match apply_filter(&event, filter, mutes) {
                    Some(filtered) => {
                        match map_midi_event(&filtered) {
                            Some(cmd) => {
                                out.push(cmd);
                            },
                            None => {},
                        }
                    },
                    None => {},
                }
            }
            self.event_index = self.event_index + 1;
            proof {
                assert(out@ =~= before + dispatch_one(events, self.event_index - 1, start_tick, *filter, mutes@));
            }
        }
        proof {
            if from < events.len() {
                lemma_first_reaching(events, from, end_tick, self.event_index as int);
            }
        }
    }

    /// Handles one audio block.
    ///
    /// While the transport is stopped nothing is dispatched; on the block where
    /// it stops, every note is released and every sustain pedal lifted. When
    /// it starts or resumes, the synthesizer is reset. After a jump the
    /// synthesizer is reset again and playback moves to the first event at or
    /// after the block start. On start, resume or jump all channels' state is
    /// chased. Muting a channel releases its
    /// notes and lifts its sustain pedal; unmuting chases its state. Changed
    /// drum flags switch percussion mode. Then the events of the block are
    /// filtered and sent.
    pub fn process(&mut self, timing: &BlockTiming, filter: &FilterSettings, mutes: &[bool; 256], drums: &[bool; 256]) -> (res: Vec<SynthCommand>)
        requires
            process_ready(old(self)@, *timing, mutes@),
        ensures
            res@ == process_commands(old(self)@, *timing, *filter, mutes@, drums@),
            final(self)@ == process_state(old(self)@, *timing, mutes@, drums@),
    {
        let ghost pre = self@;
        let mut out: Vec<SynthCommand> = Vec::new();
        if !timing.playing {
            if self.was_playing {
                let mut off = all_notes_off();
                out.append(&mut off);
                let mut pedal = sustain_pedal_off();
                out.append(&mut pedal);
            }
            self.was_playing = false;
            return out;
        }
        let starting = !self.was_playing;
        if starting {
            let mut reset = system_reset();
            out.append(&mut reset);
        }
        if timing.jumped {
            let mut reset = system_reset();
            out.append(&mut reset);
            self.event_index = self.find_event_index(timing.start_tick);
        }
        if starting || timing.jumped {
            let chased = self.chase_events(timing.chase_tick);
            append_mapped(&mut out, &chased);
        }
        let ghost after_jump = out@;
        assert(self@.events == pre.events && self@.last_mutes == pre.last_mutes && self@.last_drums == pre.last_drums);
        assert(self@.event_index == block_start_index(pre, *timing));
        self.mute_transitions(mutes, timing.chase_tick, &mut out);
        self.last_mutes = *mutes;
        self.drum_transitions(drums, &mut out);
        self.last_drums = *drums;
        self.dispatch_block(timing.start_tick, timing.end_tick, filter, mutes, &mut out);
        self.was_playing = true;
        proof {
            assert(out@ =~= process_commands(pre, *timing, *filter, mutes@, drums@));
        }
        out
    }

    /// Whether `process` can handle this block: whether every controller change
    /// that the block would chase names a controller below 128. Cheap unless
    /// the block jumps or unmutes a channel.
    pub fn is_ready(&self, timing: &BlockTiming, mutes: &[bool; 256]) -> (res: bool)
        ensures
            res == process_ready(self@, *timing, mutes@),
    {
        if !timing.playing {
            return true;
        }
        let mut any_unmute = false;
        let mut ch: usize = 0;
        while ch < 256
            invariant
                ch <= 256,
                any_unmute == exists|c: int| 0 <= c < ch && !self@.last_mutes[c] && #[trigger] mutes@[c],
            decreases 256 - ch,
        {
            if !self.last_mutes[ch] && mutes[ch] {
                any_unmute = true;
            }
            ch = ch + 1;
        }
        let chase_every_channel = timing.jumped || !self.was_playing;
        if !chase_every_channel && !any_unmute {
            return true;
        }
        let ghost events = self@.events;
        let ghost prefix = scanned(events, timing.chase_tick);
        let mut i: usize = 0;
        while i < self.events.len() && self.events[i].tick < timing.chase_tick
            invariant
                timing.playing,
                chase_every_channel == chases_all(self@, *timing),
                events == self@.events,
                prefix == scanned(events, timing.chase_tick),
                i <= events.len(),
                forall|k: int| 0 <= k < i ==> events[k].tick < timing.chase_tick,
                forall|k: int| 0 <= k < i ==> (#[trigger] events[k].message matches MidiMessage::ControlChange { cc, .. } ==> (cc < 128
                    || (!chase_every_channel && (self@.last_mutes[events[k].channel as int] || !mutes@[events[k].channel as int])))),
            decreases self.events.len() - i,
        {
            let event = self.events[i];
            proof {
                lemma_first_reaching_skip(events, timing.chase_tick, i + 1);
                assert(prefix[i as int] == event);
            }
            match event.message {
                MidiMessage::ControlChange { cc, .. } => {
                    if cc >= 128 {
                        let c = event.channel as usize;
                        if chase_every_channel || (!self.last_mutes[c] && mutes[c]) {
                            proof {
                                assert(prefix[i as int].message matches MidiMessage::ControlChange { cc: c2, .. } && c2 >= 128);
                                if !chase_every_channel {
                                    assert(!channel_controllers_valid(prefix, event.channel));
                                    lemma_not_ready(self@, *timing, mutes@, c as int);
                                }
                            }
                            return false;
                        }
                    }
                },
                _ => {},
            }
            i = i + 1;
        }
        proof {
            lemma_first_reaching_back(events, timing.chase_tick, i as int);
            assert(prefix =~= events.take(i as int));
        }
        true
    }

    /// The index of the first event at or after `target_tick` (the number of
    /// events where none is). On tick-ordered events this is the partition
    /// point of `tick < target_tick`.
    fn find_event_index(&self, target_tick: u64) -> (res: usize)
        ensures
            res == first_reaching(self@.events, 0, target_tick),
    {
        let mut i: usize = 0;
        while i < self.events.len() && self.events[i].tick < target_tick
            invariant
                i <= self.events@.len(),
                forall|k: int| 0 <= k < i ==> self.events@[k].tick < target_tick,
            decreases self.events.len() - i,
        {
            i = i + 1;
        }
        proof {
            lemma_first_reaching(self@.events, 0, target_tick, i as int);
        }
        i
    }
}

} // verus!
