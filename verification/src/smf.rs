//! Reading a Standard MIDI File through `midly`, as plain library values.
//!
//! `midly` parses the bytes; this module turns its result into [`RawSmf`],
//! which the loader then interprets.
use vstd::prelude::*;
use midly::MidiMessage as M;
use vstd::string::StringExecFns;

verus! {

#[verifier::external_type_specification]
#[verifier::external_body]
pub struct ExSmf<'a>(midly::Smf<'a>);

/// The timing field of an SMF header.
#[derive(Clone, Copy, Debug, PartialEq, Eq, Structural)]
pub enum RawTiming {
    /// Ticks per quarter note (a 15-bit value).
    Metrical(u16),
    /// SMPTE timecode timing.
    Timecode,
}

/// A channel message of a track, with its data bytes.
#[derive(Clone, Copy, Debug, PartialEq, Eq, Structural)]
pub enum RawMessage {
    /// Key, velocity.
    NoteOff(u8, u8),
    /// Key, velocity.
    NoteOn(u8, u8),
    /// Key, velocity.
    Aftertouch(u8, u8),
    /// Controller, value.
    Controller(u8, u8),
    /// Program.
    ProgramChange(u8),
    /// Velocity.
    ChannelAftertouch(u8),
    /// Pitch bend centred on zero, in `-8192..=8191`.
    PitchBend(i16),
}

/// What a track event is, as far as the loader cares.
#[derive(Clone, Copy, Debug, PartialEq, Eq, Structural)]
pub enum RawEventKind {
    /// A channel message on MIDI channel `channel` (0..16).
    Midi { channel: u8, message: RawMessage },
    /// The `MidiPort` meta event (FF 21 01 pp).
    MidiPort(u8),
    /// Any other event (sysex, escape, other meta events).
    Other,
}

/// A track event: delta time in ticks and its kind.
#[derive(Clone, Copy, Debug, PartialEq, Eq, Structural)]
pub struct RawEvent {
    pub delta: u32,
    pub kind: RawEventKind,
}

/// A parsed SMF: the header timing and the events of each track.
pub struct RawSmf {
    pub timing: RawTiming,
    pub tracks: Vec<Vec<RawEvent>>,
}

impl RawSmf {
    /// The tracks as sequences of events.
    pub open spec fn tracks_view(&self) -> Seq<Seq<RawEvent>> {
        self.tracks@.map_values(|t: Vec<RawEvent>| t@)
    }
}

/// A controller change names a controller below 128.
pub open spec fn raw_controller_ok(e: RawEvent) -> bool {
    e.kind matches RawEventKind::Midi { message: RawMessage::Controller(c, _), .. } ==> c < 128
}

/// Every controller change of every track names a controller below 128.
pub open spec fn raw_controllers_valid(tracks: Seq<Seq<RawEvent>>) -> bool {
    forall|t: int, i: int| 0 <= t < tracks.len() && 0 <= i < tracks[t].len() ==>
        raw_controller_ok(#[trigger] tracks[t][i])
}

/// What `midly::Smf::parse` gives for `bytes`: `None` where it rejects them,
/// else the header timing and the events of each track.
pub uninterp spec fn midly_parse(bytes: Seq<u8>) -> Option<(RawTiming, Seq<Seq<RawEvent>>)>;

/// The tracks that a parsed `midly::Smf` holds.
pub uninterp spec fn smf_tracks(smf: midly::Smf) -> Seq<Seq<RawEvent>>;

/// The header timing that a parsed `midly::Smf` holds.
pub uninterp spec fn smf_timing(smf: midly::Smf) -> RawTiming;

/// Calls `midly::Smf::parse`. Claims that the call succeeds exactly where
/// `midly_parse` is `Some`, and that the file it returns holds the timing and
/// tracks that `midly_parse` names. On failure it gives midly's error as its
/// `Debug` text, which is left unsaid.
#[verifier::external_body]
fn parse_smf<'a>(bytes: &'a [u8]) -> (res: Result<midly::Smf<'a>, String>)
    ensures
        match res {
            Ok(smf) => midly_parse(bytes@) == Some((smf_timing(smf), smf_tracks(smf))),
            Err(_) => midly_parse(bytes@) is None,
        },
{
    match midly::Smf::parse(bytes) {
        Ok(smf) => Ok(smf),
        Err(e) => Err(format!("{:?}", e)),
    }
}

/// Reads `smf.header.timing`; claims it is `smf_timing(smf)`, with the
/// metrical ticks per beat taken by `u15::as_int`.
#[verifier::external_body]
fn header_timing(smf: &midly::Smf) -> (res: RawTiming)
    ensures
        res == smf_timing(*smf),
{
    match smf.header.timing {
        midly::Timing::Metrical(ppqn) => RawTiming::Metrical(ppqn.as_int()),
        midly::Timing::Timecode(_, _) => RawTiming::Timecode,
    }
}

/// Reads `smf.tracks.len()`.
#[verifier::external_body]
fn track_count(smf: &midly::Smf) -> (res: usize)
    ensures
        res == smf_tracks(*smf).len(),
{
    smf.tracks.len()
}

/// Reads `smf.tracks[t].len()`.
#[verifier::external_body]
fn track_len(smf: &midly::Smf, t: usize) -> (res: usize)
    requires
        t < smf_tracks(*smf).len(),
    ensures
        res == smf_tracks(*smf)[t as int].len(),
{
    smf.tracks[t].len()
}

/// Reads the delta time (`u28::as_int`) of event `i` of track `t`.
#[verifier::external_body]
fn event_delta(smf: &midly::Smf, t: usize, i: usize) -> (res: u32)
    requires
        t < smf_tracks(*smf).len(),
        i < smf_tracks(*smf)[t as int].len(),
    ensures
        res == smf_tracks(*smf)[t as int][i as int].delta,
{
    smf.tracks[t][i].delta.as_int()
}

/// Reads the port of event `i` of track `t` where it is a `MidiPort` meta event.
#[verifier::external_body]
fn event_port(smf: &midly::Smf, t: usize, i: usize) -> (res: Option<u8>)
    requires
        t < smf_tracks(*smf).len(),
        i < smf_tracks(*smf)[t as int].len(),
    ensures
        res == (match smf_tracks(*smf)[t as int][i as int].kind {
            RawEventKind::MidiPort(p) => Some(p),
            _ => None,
        }),
{
    match smf.tracks[t][i].kind {
        midly::TrackEventKind::Meta(midly::MetaMessage::MidiPort(p)) => Some(p.as_int()),
        _ => None,
    }
}

/// Reads the channel (`u4::as_int`) of event `i` of track `t` where it is a channel message.
#[verifier::external_body]
fn event_channel(smf: &midly::Smf, t: usize, i: usize) -> (res: Option<u8>)
    requires
        t < smf_tracks(*smf).len(),
        i < smf_tracks(*smf)[t as int].len(),
    ensures
        res == (match smf_tracks(*smf)[t as int][i as int].kind {
            RawEventKind::Midi { channel, .. } => Some(channel),
            _ => None,
        }),
{
    match smf.tracks[t][i].kind {
        midly::TrackEventKind::Midi { channel, .. } => Some(channel.as_int()),
        _ => None,
    }
}

/// Reads the message of event `i` of track `t` where it is a channel message,
/// each field by its `as_int`. Controller numbers are midly `u7` values,
/// hence below 128.
#[verifier::external_body]
fn event_message(smf: &midly::Smf, t: usize, i: usize) -> (res: Option<RawMessage>)
    requires
        t < smf_tracks(*smf).len(),
        i < smf_tracks(*smf)[t as int].len(),
    ensures
        res == (match smf_tracks(*smf)[t as int][i as int].kind {
            RawEventKind::Midi { message, .. } => Some(message),
            _ => None,
        }),
        res matches Some(RawMessage::Controller(c, _)) ==> c < 128,
{
    let m = match smf.tracks[t][i].kind { midly::TrackEventKind::Midi { message, .. } => message, _ => return None };
    Some(match m {
        M::NoteOff { key, vel } => RawMessage::NoteOff(key.as_int(), vel.as_int()),
        M::NoteOn { key, vel } => RawMessage::NoteOn(key.as_int(), vel.as_int()),
        M::Aftertouch { key, vel } => RawMessage::Aftertouch(key.as_int(), vel.as_int()),
        M::Controller { controller, value } => RawMessage::Controller(controller.as_int(), value.as_int()),
        M::ProgramChange { program } => RawMessage::ProgramChange(program.as_int()),
        M::ChannelAftertouch { vel } => RawMessage::ChannelAftertouch(vel.as_int()),
        M::PitchBend { bend } => RawMessage::PitchBend(bend.as_int()),
    })
}

/// Copies event `i` of track `t` out of the parsed file.
fn read_event(smf: &midly::Smf, t: usize, i: usize) -> (res: RawEvent)
    requires
        t < smf_tracks(*smf).len(),
        i < smf_tracks(*smf)[t as int].len(),
    ensures
        res == smf_tracks(*smf)[t as int][i as int],
        raw_controller_ok(res),
{
    let delta = event_delta(smf, t, i);
    let kind = match event_channel(smf, t, i) {
        Some(channel) => match event_message(smf, t, i) {
            Some(message) => RawEventKind::Midi { channel, message },
            None => RawEventKind::Other,
        },
        None => match event_port(smf, t, i) {
            Some(p) => RawEventKind::MidiPort(p),
            None => RawEventKind::Other,
        },
    };
    RawEvent { delta, kind }
}

/// Copies a parsed file into library values.
fn read_smf(smf: &midly::Smf) -> (res: RawSmf)
    ensures
        res.timing == smf_timing(*smf),
        res.tracks_view() == smf_tracks(*smf),
        raw_controllers_valid(res.tracks_view()),
{
    let timing = header_timing(smf);
    let n = track_count(smf);
    let mut tracks: Vec<Vec<RawEvent>> = Vec::new();
    let mut t: usize = 0;
    while t < n
        invariant
            n == smf_tracks(*smf).len(),
            t <= n,
            tracks@.len() == t,
            forall|k: int| 0 <= k < t ==> #[trigger] tracks@[k]@ == smf_tracks(*smf)[k],
            forall|k: int, j: int| 0 <= k < t && 0 <= j < tracks@[k]@.len() ==>
                raw_controller_ok(#[trigger] tracks@[k]@[j]),
        decreases n - t,
    {
        let len = track_len(smf, t);
        let mut track: Vec<RawEvent> = Vec::new();
        let mut i: usize = 0;
        while i < len
            invariant
                n == smf_tracks(*smf).len(),
                t < n,
                len == smf_tracks(*smf)[t as int].len(),
                i <= len,
                track@ == smf_tracks(*smf)[t as int].take(i as int),
                forall|j: int| 0 <= j < track@.len() ==>
                    raw_controller_ok(#[trigger] track@[j]),
            decreases len - i,
        {
            let e = read_event(smf, t, i);
            track.push(e);
            i = i + 1;
            assert(track@ =~= smf_tracks(*smf)[t as int].take(i as int));
        }
        assert(track@ =~= smf_tracks(*smf)[t as int]);
        tracks.push(track);
        t = t + 1;
    }
    let res = RawSmf { timing, tracks };
    assert(res.tracks_view() =~= smf_tracks(*smf));
    res
}

/// The message of a file that midly refuses: "Parse MIDI failed: " and
/// midly's description of the error.
pub open spec fn is_parse_error(msg: Seq<char>) -> bool {
    exists|detail: Seq<char>| msg == "Parse MIDI failed: "@ + detail
}

/// Parses `bytes` with midly and copies the result out; a file midly refuses
/// gives "Parse MIDI failed: " followed by midly's error.
pub fn parse_raw_smf(bytes: &[u8]) -> (res: Result<RawSmf, String>)
    ensures
        match res {
            Ok(raw) => midly_parse(bytes@) == Some((raw.timing, raw.tracks_view())) && raw_controllers_valid(raw.tracks_view()),
            Err(msg) => midly_parse(bytes@) is None && is_parse_error(msg@),
        },
{
    match parse_smf(bytes) {
        Ok(smf) => Ok(read_smf(&smf)),
        Err(e) => {
            let mut msg = "Parse MIDI failed: ".to_owned();
            msg.append(e.as_str());
            assert(msg@ == "Parse MIDI failed: "@ + e@);
            Err(msg)
        },
    }
}

} // verus!
