//! MIDI domain model shared by the loader, the player, the filter and the mapper.
use vstd::prelude::*;

verus! {

/// A message carried by a MIDI event; the channel lives on the event.
#[allow(inconsistent_fields)]
#[derive(Clone, Copy, Debug, PartialEq, Eq, Structural)]
pub enum MidiMessage {
    NoteOn { key: u8, velocity: u8 },
    NoteOff { key: u8 },
    ControlChange { cc: u8, value: u8 },
    ProgramChange { pc: u8 },
    PitchBend { value: i16 },
}

/// A MIDI event stamped with its tick (tempo independent musical time).
/// `channel` is the logical channel `port * 16 + channel`.
#[derive(Clone, Copy, Debug, PartialEq, Eq, Structural)]
pub struct MidiEvent {
    pub tick: u64,
    pub channel: u8,
    pub message: MidiMessage,
}

/// Every controller change in `s` names a controller below 128.
pub open spec fn controllers_valid(s: Seq<MidiEvent>) -> bool {
    forall|k: int| 0 <= k < s.len() ==> (#[trigger] s[k].message matches MidiMessage::ControlChange { cc, .. } ==> cc < 128)
}

/// An event as a MIDI file can give it: controller numbers below 128, and
/// note-ons with a velocity above 0 (a note-on of velocity 0 is a note-off).
pub open spec fn event_well_formed(e: MidiEvent) -> bool {
    &&& (e.message matches MidiMessage::ControlChange { cc, .. } ==> cc < 128)
    &&& (e.message matches MidiMessage::NoteOn { velocity, .. } ==> velocity > 0)
}

/// Every event of `s` is well formed.
pub open spec fn events_well_formed(s: Seq<MidiEvent>) -> bool {
    forall|k: int| 0 <= k < s.len() ==> event_well_formed(#[trigger] s[k])
}

} // verus!
