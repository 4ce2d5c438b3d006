//! Turning a Standard MIDI File into the player's event list.
//!
//! Events of all tracks are merged into one list ordered by tick. Ports set by
//! `MidiPort` meta events widen the 16 MIDI channels to logical channels
//! `port * 16 + channel`; events beyond the 256 logical channels are dropped.
//! Tempo events are ignored: the host's tempo drives playback.
use vstd::prelude::*;
use crate::event::{MidiEvent, MidiMessage, event_well_formed, events_well_formed};
use crate::smf::{RawEvent, RawEventKind, RawMessage, RawSmf, RawTiming, is_parse_error, midly_parse, parse_raw_smf, raw_controller_ok, raw_controllers_valid};
use crate::tick_sort::{concat_runs, is_stable_tick_sort, law_sort_keeps_events, merge_runs, sorted_by_tick};

verus! {

/// The number of logical channels (16 ports of 16 channels).
pub const NUM_CHANNELS: u32 = 256;

/// A loaded MIDI file.
pub struct LoadedMidi {
    /// All channel events, ordered by tick.
    pub events: Vec<MidiEvent>,
    /// Ticks per quarter note.
    pub ppqn: u16,
    /// For each logical channel, whether it starts as a percussion channel.
    pub drum_channels: Vec<bool>,
}

/// The absolute tick reached after the first `n` events of a track.
pub open spec fn tick_after(track: Seq<RawEvent>, n: int) -> int
    decreases n,
{
    if n <= 0 || n > track.len() {
        0
    } else {
        tick_after(track, n - 1) + track[n - 1].delta
    }
}

/// The port in effect after the first `n` events of a track (0 until a
/// `MidiPort` event sets it).
pub open spec fn port_before(track: Seq<RawEvent>, n: int) -> u8
    decreases n,
{
    if n <= 0 || n > track.len() {
        0
    } else {
        match track[n - 1].kind {
            RawEventKind::MidiPort(p) => p,
            _ => port_before(track, n - 1),
        }
    }
}

/// The event a channel message becomes: a note-on of velocity 0 is a
/// note-off; aftertouch messages are dropped.
pub open spec fn convert_message(m: RawMessage) -> Option<MidiMessage> {
    match m {
        RawMessage::NoteOn(key, vel) => if vel == 0 {
            Some(MidiMessage::NoteOff { key })
        } else {
            Some(MidiMessage::NoteOn { key, velocity: vel })
        },
        RawMessage::NoteOff(key, _) => Some(MidiMessage::NoteOff { key }),
        RawMessage::ProgramChange(program) => Some(MidiMessage::ProgramChange { pc: program }),
        RawMessage::Controller(controller, value) => Some(MidiMessage::ControlChange { cc: controller, value }),
        RawMessage::PitchBend(bend) => Some(MidiMessage::PitchBend { value: bend }),
        _ => None,
    }
}

/// The logical channel of MIDI channel `channel` on port `port`.
pub open spec fn logical_channel(port: u8, channel: u8) -> int {
    port * 16 + channel
}

/// What event `k` of a track contributes to the event list (none or one event).
pub open spec fn event_from(track: Seq<RawEvent>, k: int) -> Seq<MidiEvent> {
    match track[k].kind {
        RawEventKind::Midi { channel, message } => {
            let lc = logical_channel(port_before(track, k), channel);
            if lc < 256 {
                match convert_message(message) {
                    Some(m) => seq![MidiEvent { tick: tick_after(track, k + 1) as u64, channel: lc as u8, message: m }],
                    None => Seq::empty(),
                }
            } else {
                Seq::empty()
            }
        },
        _ => Seq::empty(),
    }
}

/// The events that the first `n` events of a track contribute, in track order.
pub open spec fn track_events(track: Seq<RawEvent>, n: int) -> Seq<MidiEvent>
    decreases n,
{
    if n <= 0 || n > track.len() {
        Seq::empty()
    } else {
        track_events(track, n - 1) + event_from(track, n - 1)
    }
}

/// The events of the first `n` tracks, track after track.
pub open spec fn tracks_events(tracks: Seq<Seq<RawEvent>>, n: int) -> Seq<MidiEvent>
    decreases n,
{
    if n <= 0 || n > tracks.len() {
        Seq::empty()
    } else {
        tracks_events(tracks, n - 1) + track_events(tracks[n - 1], tracks[n - 1].len() as int)
    }
}

/// Every track's absolute ticks fit in a `u64`.
pub open spec fn ticks_fit(tracks: Seq<Seq<RawEvent>>) -> bool {
    forall|t: int| 0 <= t < tracks.len() ==> tick_after(#[trigger] tracks[t], tracks[t].len() as int) <= u64::MAX
}

/// The starting percussion channels: channel 10 (index 9) of every port.
pub open spec fn default_drum_channels() -> Seq<bool> {
    Seq::new(256, |i: int| i % 16 == 9)
}

/// The message given for files with timecode timing.
pub open spec fn timecode_error() -> Seq<char> {
    "Timecode-based MIDI timing is not supported"@
}

/// What loading a file with this timing and these tracks gives.
pub open spec fn load_result(res: Result<LoadedMidi, String>, timing: RawTiming, tracks: Seq<Seq<RawEvent>>) -> bool {
    match timing {
        RawTiming::Timecode => res matches Err(e) && e@ == timecode_error(),
        RawTiming::Metrical(ppqn) => res matches Ok(loaded) && {
            &&& loaded.ppqn == ppqn
            &&& is_stable_tick_sort(loaded.events@, tracks_events(tracks, tracks.len() as int))
            &&& loaded.drum_channels@ == default_drum_channels()
        },
    }
}

pub proof fn lemma_tick_monotone(track: Seq<RawEvent>, i: int, j: int)
    requires
        0 <= i <= j <= track.len(),
    ensures
        tick_after(track, i) <= tick_after(track, j),
    decreases j,
{
    if i < j {
        lemma_tick_monotone(track, i, j - 1);
    }
}

fn message_from_raw(m: RawMessage) -> (res: Option<MidiMessage>)
    ensures
        res == convert_message(m),
{
    match m {
        RawMessage::NoteOn(key, vel) => if vel == 0 {
            Some(MidiMessage::NoteOff { key })
        } else {
            Some(MidiMessage::NoteOn { key, velocity: vel })
        },
        RawMessage::NoteOff(key, _) => Some(MidiMessage::NoteOff { key }),
        RawMessage::ProgramChange(program) => Some(MidiMessage::ProgramChange { pc: program }),
        RawMessage::Controller(controller, value) => Some(MidiMessage::ControlChange { cc: controller, value }),
        RawMessage::PitchBend(bend) => Some(MidiMessage::PitchBend { value: bend }),
        _ => None,
    }
}

/// Converts one track into absolute-tick events on logical channels.
pub fn convert_track(track: &Vec<RawEvent>) -> (res: Vec<MidiEvent>)
    requires
        tick_after(track@, track@.len() as int) <= u64::MAX,
    ensures
        res@ == track_events(track@, track@.len() as int),
        sorted_by_tick(res@),
{
    let mut out: Vec<MidiEvent> = Vec::new();
    let mut tick: u64 = 0;
    let mut port: u8 = 0;
    let mut i: usize = 0;
    while i < track.len()
        invariant
            i <= track@.len(),
            tick_after(track@, track@.len() as int) <= u64::MAX,
            tick == tick_after(track@, i as int),
            port == port_before(track@, i as int),
            out@ == track_events(track@, i as int),
            sorted_by_tick(out@),
            forall|k: int| 0 <= k < out@.len() ==> out@[k].tick <= tick,
        decreases track.len() - i,
    {
        proof {
            lemma_tick_monotone(track@, i + 1, track@.len() as int);
        }
        let ev = track[i];
        tick = tick + ev.delta as u64;
        match ev.kind {
            RawEventKind::MidiPort(p) => {
                port = p;
            },
            RawEventKind::Midi { channel, message } => {
                let mapped: u16 = (port as u16) * 16 + (channel as u16);
                if mapped < 256 {
                    match message_from_raw(message) {
                        Some(m) => {
                            out.push(MidiEvent { tick, channel: mapped as u8, message: m });
                        },
                        None => {},
                    }
                }
            },
            RawEventKind::Other => {},
        }
        i = i + 1;
    }
    out
}

/// Whether every track's absolute ticks fit in a `u64`.
pub fn check_ticks_fit(tracks: &Vec<Vec<RawEvent>>) -> (res: bool)
    ensures
        res == ticks_fit(tracks@.map_values(|t: Vec<RawEvent>| t@)),
{
    let ghost view = tracks@.map_values(|t: Vec<RawEvent>| t@);
    let mut t: usize = 0;
    while t < tracks.len()
        invariant
            t <= tracks@.len(),
            view == tracks@.map_values(|t: Vec<RawEvent>| t@),
            forall|k: int| 0 <= k < t ==> tick_after(#[trigger] view[k], view[k].len() as int) <= u64::MAX,
        decreases tracks.len() - t,
    {
        let track = &tracks[t];
        let mut sum: u64 = 0;
        let mut i: usize = 0;
        while i < track.len()
            invariant
                i <= track@.len(),
                t < tracks@.len(),
                view == tracks@.map_values(|t: Vec<RawEvent>| t@),
                track@ == view[t as int],
                sum == tick_after(track@, i as int),
            decreases track.len() - i,
        {
            match sum.checked_add(track[i].delta as u64) {
                Some(s) => {
                    sum = s;
                },
                None => {
                    proof {
                        lemma_tick_monotone(track@, i + 1, track@.len() as int);
                        assert(tick_after(view[t as int], view[t as int].len() as int) > u64::MAX);
                    }
                    return false;
                },
            }
            i = i + 1;
        }
        t = t + 1;
    }
    true
}

/// The starting percussion channels: channel 10 of every port.
pub fn default_drums() -> (res: Vec<bool>)
    ensures
        res@ == default_drum_channels(),
{
    let mut res: Vec<bool> = Vec::new();
    let mut i: usize = 0;
    while i < 256
        invariant
            i <= 256,
            res@ == Seq::new(i as nat, |k: int| k % 16 == 9),
        decreases 256 - i,
    {
        res.push(i % 16 == 9);
        i = i + 1;
        assert(res@ =~= Seq::new(i as nat, |k: int| k % 16 == 9));
    }
    res
}


proof fn lemma_track_events_well_formed(track: Seq<RawEvent>, n: int)
    requires
        forall|i: int| 0 <= i < track.len() ==> raw_controller_ok(#[trigger] track[i]),
    ensures
        events_well_formed(track_events(track, n)),
    decreases n,
{
    if 0 < n <= track.len() {
        lemma_track_events_well_formed(track, n - 1);
        let a = track_events(track, n - 1);
        let b = event_from(track, n - 1);
        assert(raw_controller_ok(track[n - 1]));
        assert forall|k: int| 0 <= k < (a + b).len() implies event_well_formed(#[trigger] (a + b)[k]) by {
            if k >= a.len() {
                assert((a + b)[k] == b[k - a.len()]);
            }
        }
    }
}

proof fn lemma_tracks_events_well_formed(tracks: Seq<Seq<RawEvent>>, n: int)
    requires
        raw_controllers_valid(tracks),
    ensures
        events_well_formed(tracks_events(tracks, n)),
    decreases n,
{
    if 0 < n <= tracks.len() {
        lemma_tracks_events_well_formed(tracks, n - 1);
        let track = tracks[n - 1];
        assert forall|i: int| 0 <= i < track.len() implies raw_controller_ok(#[trigger] track[i]) by {
            assert(raw_controller_ok(tracks[n - 1][i]));
        }
        lemma_track_events_well_formed(track, track.len() as int);
        let a = tracks_events(tracks, n - 1);
        let b = track_events(track, track.len() as int);
        assert forall|k: int| 0 <= k < (a + b).len() implies event_well_formed(#[trigger] (a + b)[k]) by {
            if k >= a.len() {
                assert((a + b)[k] == b[k - a.len()]);
            }
        }
    }
}

/// How a channel message of the file becomes a player event: a note-on of
/// velocity 0 becomes a note-off of the same key, any other note-on keeps its
/// key and velocity, a note-off keeps its key, controller, program and pitch
/// bend keep their numbers and values, and aftertouch is dropped.
pub proof fn law_message_conversion(key: u8, velocity: u8, number: u8, value: u8, bend: i16)
    ensures
        velocity == 0 ==> convert_message(RawMessage::NoteOn(key, velocity)) == Some(MidiMessage::NoteOff { key }),
        velocity > 0 ==> convert_message(RawMessage::NoteOn(key, velocity)) == Some(MidiMessage::NoteOn { key, velocity }),
        convert_message(RawMessage::NoteOff(key, velocity)) == Some(MidiMessage::NoteOff { key }),
        convert_message(RawMessage::Controller(number, value)) == Some(MidiMessage::ControlChange { cc: number, value }),
        convert_message(RawMessage::ProgramChange(number)) == Some(MidiMessage::ProgramChange { pc: number }),
        convert_message(RawMessage::PitchBend(bend)) == Some(MidiMessage::PitchBend { value: bend }),
        convert_message(RawMessage::Aftertouch(key, value)) is None,
        convert_message(RawMessage::ChannelAftertouch(value)) is None,
{
}

/// Where a channel message of a track lands: on logical channel
/// `port * 16 + channel`, where the port is the one the last `MidiPort` event
/// before it set (port 0 when none did), at the sum of the deltas up to and
/// including its own; past the 256 logical channels it is dropped.
pub proof fn law_event_placement(track: Seq<RawEvent>, k: int, channel: u8, message: RawMessage, j: int)
    requires
        0 <= k < track.len(),
        track[k].kind == (RawEventKind::Midi { channel, message }),
        convert_message(message) is Some,
    ensures
        ({
            let placed = |port: u8| if port * 16 + channel < 256 {
                seq![MidiEvent { tick: tick_after(track, k + 1) as u64, channel: (port * 16 + channel) as u8, message: convert_message(message).unwrap() }]
            } else {
                Seq::<MidiEvent>::empty()
            };
            &&& (forall|i: int| 0 <= i < k ==> !((#[trigger] track[i]).kind is MidiPort)) ==> event_from(track, k) == placed(0u8)
            &&& (0 <= j < k && track[j].kind is MidiPort && forall|i: int| j < i < k ==> !((#[trigger] track[i]).kind is MidiPort))
                ==> event_from(track, k) == placed(track[j].kind->MidiPort_0)
            &&& tick_after(track, k + 1) == tick_after(track, k) + track[k].delta
            &&& tick_after(track, 0) == 0
        }),
{
    if forall|i: int| 0 <= i < k ==> !((#[trigger] track[i]).kind is MidiPort) {
        lemma_port_none(track, k);
    }
    if 0 <= j < k && track[j].kind is MidiPort && forall|i: int| j < i < k ==> !((#[trigger] track[i]).kind is MidiPort) {
        lemma_port_at(track, j, k);
    }
}

proof fn lemma_port_none(track: Seq<RawEvent>, n: int)
    requires
        0 <= n <= track.len(),
        forall|i: int| 0 <= i < n ==> !((#[trigger] track[i]).kind is MidiPort),
    ensures
        port_before(track, n) == 0,
    decreases n,
{
    if n > 0 {
        assert(!(track[n - 1].kind is MidiPort));
        lemma_port_none(track, n - 1);
    }
}

proof fn lemma_port_at(track: Seq<RawEvent>, j: int, n: int)
    requires
        0 <= j < n <= track.len(),
        track[j].kind is MidiPort,
        forall|i: int| j < i < n ==> !((#[trigger] track[i]).kind is MidiPort),
    ensures
        port_before(track, n) == track[j].kind->MidiPort_0,
    decreases n,
{
    if n - 1 > j {
        assert(!(track[n - 1].kind is MidiPort));
        lemma_port_at(track, j, n - 1);
    }
}

/// A loaded file's events are well formed (controller numbers below 128,
/// no note-on of velocity 0), as the player needs them to be, wherever the
/// file's controller numbers are below 128, as midly gives them.
pub proof fn law_loaded_events_well_formed(tracks: Seq<Seq<RawEvent>>, events: Seq<MidiEvent>)
    requires
        raw_controllers_valid(tracks),
        is_stable_tick_sort(events, tracks_events(tracks, tracks.len() as int)),
    ensures
        events_well_formed(events),
{
    let input = tracks_events(tracks, tracks.len() as int);
    lemma_tracks_events_well_formed(tracks, tracks.len() as int);
    assert forall|k: int| 0 <= k < events.len() implies event_well_formed(#[trigger] events[k]) by {
        law_sort_keeps_events(events, input, events[k]);
        assert(events.contains(events[k]));
        let j = choose|j: int| 0 <= j < input.len() && input[j] == events[k];
        assert(event_well_formed(input[j]));
    }
}

/// Builds the event list of a parsed file: converts each track, then merges
/// all of them stably by tick.
pub fn midi_from_raw(raw: &RawSmf) -> (res: Result<LoadedMidi, String>)
    requires
        ticks_fit(raw.tracks_view()),
    ensures
        load_result(res, raw.timing, raw.tracks_view()),
        raw_controllers_valid(raw.tracks_view()) ==> (res matches Ok(loaded) ==> events_well_formed(loaded.events@)),
{
    let ppqn = match raw.timing {
        RawTiming::Metrical(ppqn) => ppqn,
        RawTiming::Timecode => {
            let msg = "Timecode-based MIDI timing is not supported".to_owned();
            proof {
                reveal_strlit("Timecode-based MIDI timing is not supported");
            }
            return Err(msg);
        },
    };
    let ghost tv = raw.tracks_view();
    let mut runs: Vec<Vec<MidiEvent>> = Vec::new();
    let mut t: usize = 0;
    while t < raw.tracks.len()
        invariant
            t <= raw.tracks@.len(),
            tv == raw.tracks_view(),
            ticks_fit(tv),
            runs@.len() == t,
            concat_runs(runs@) == tracks_events(tv, t as int),
            forall|k: int| 0 <= k < runs@.len() ==> sorted_by_tick(#[trigger] runs@[k]@),
        decreases raw.tracks.len() - t,
    {
        assert(raw.tracks@[t as int]@ == tv[t as int]);
        let run = convert_track(&raw.tracks[t]);
        let ghost before = runs@;
        runs.push(run);
        proof {
            assert(runs@.drop_last() =~= before);
        }
        t = t + 1;
    }
    let events = merge_runs(runs);
    proof {
        if raw_controllers_valid(tv) {
            law_loaded_events_well_formed(tv, events@);
        }
    }
    let drum_channels = default_drums();
    Ok(LoadedMidi { events, ppqn, drum_channels })
}

/// Loads a Standard MIDI File from its bytes: parses it with midly, refuses
/// timecode timing and tracks whose ticks overflow a `u64`, and builds the
/// tick-ordered event list.
pub fn load_from_bytes(bytes: &[u8]) -> (res: Result<LoadedMidi, String>)
    ensures
        match midly_parse(bytes@) {
            None => res matches Err(msg) && is_parse_error(msg@),
            Some((timing, tracks)) => if ticks_fit(tracks) {
                load_result(res, timing, tracks)
            } else {
                res is Err
            },
        },
        res matches Ok(loaded) ==> events_well_formed(loaded.events@),
{
    let raw = match parse_raw_smf(bytes) {
        Ok(raw) => raw,
        Err(e) => return Err(e),
    };
    if !check_ticks_fit(&raw.tracks) {
        return Err("MIDI track too long: tick overflow".to_owned());
    }
    midi_from_raw(&raw)
}

} // verus!
