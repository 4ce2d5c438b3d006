//! Real-time pre-filter: channel mutes, velocity threshold and forced velocity.
use vstd::prelude::*;
use crate::event::{MidiEvent, MidiMessage};

verus! {

/// The plugin parameters that the filter reads.
#[derive(Clone, Copy, Debug, PartialEq, Eq, Structural)]
pub struct FilterSettings {
    /// The "Velocity Threshold" parameter (0..=127 in the plugin).
    pub velocity_threshold: i32,
    /// The "Force Max Velocity" parameter.
    pub force_max_velocity: bool,
}

/// What `apply_filter` gives for an event.
pub open spec fn filter_spec(event: MidiEvent, settings: FilterSettings, mutes: Seq<bool>) -> Option<MidiEvent> {
    if !mutes[event.channel as int] {
        None
    } else {
        match event.message {
            MidiMessage::NoteOn { key, velocity } => {
                let vel: u8 = if settings.force_max_velocity { 127u8 } else { velocity };
                if vel < (settings.velocity_threshold as u8) {
                    None
                } else {
                    Some(MidiEvent { tick: event.tick, channel: event.channel, message: MidiMessage::NoteOn { key, velocity: vel } })
                }
            },
            _ => Some(event),
        }
    }
}


/// A muted channel lets nothing through.
pub proof fn law_muted_channel_is_silent(event: MidiEvent, settings: FilterSettings, mutes: Seq<bool>)
    requires
        !mutes[event.channel as int],
    ensures
        filter_spec(event, settings, mutes) is None,
{
}

/// What the filter keeps is the same event at the same tick on the same
/// channel; a kept note-on is at or above the velocity threshold, and at 127
/// when the maximum velocity is forced; other messages pass unchanged.
pub proof fn law_kept_events(event: MidiEvent, settings: FilterSettings, mutes: Seq<bool>)
    requires
        filter_spec(event, settings, mutes) is Some,
    ensures
        ({
            let kept = filter_spec(event, settings, mutes).unwrap();
            &&& mutes[event.channel as int]
            &&& kept.tick == event.tick
            &&& kept.channel == event.channel
            &&& match event.message {
                MidiMessage::NoteOn { key, .. } => kept.message matches MidiMessage::NoteOn { key: k, velocity }
                    && k == key
                    && velocity >= (settings.velocity_threshold as u8)
                    && (settings.force_max_velocity ==> velocity == 127),
                _ => kept == event,
            }
        }),
{
}

/// On a channel that is not muted, every message other than a note-on passes
/// the filter unchanged, whatever the velocity settings.
pub proof fn law_other_messages_pass(event: MidiEvent, settings: FilterSettings, mutes: Seq<bool>)
    requires
        mutes[event.channel as int],
        !(event.message is NoteOn),
    ensures
        filter_spec(event, settings, mutes) == Some(event),
{
}

/// On a channel that is not muted, a note-on plays at its own velocity, or
/// at 127 when the maximum is forced; it passes exactly when that velocity
/// reaches the threshold, and then only its velocity may change.
pub proof fn law_note_on_threshold(tick: u64, channel: u8, key: u8, velocity: u8, settings: FilterSettings, mutes: Seq<bool>)
    requires
        mutes[channel as int],
    ensures
        ({
            let event = MidiEvent { tick, channel, message: MidiMessage::NoteOn { key, velocity } };
            let played: u8 = if settings.force_max_velocity { 127u8 } else { velocity };
            &&& played >= (settings.velocity_threshold as u8) ==> filter_spec(event, settings, mutes)
                == Some(MidiEvent { tick, channel, message: MidiMessage::NoteOn { key, velocity: played } })
            &&& played < (settings.velocity_threshold as u8) ==> filter_spec(event, settings, mutes) is None
        }),
{
}

/// Drops events of muted channels (`mutes[ch] == false`) and note-ons below the
/// velocity threshold; with "force max velocity" every note-on plays at 127.
pub fn apply_filter(event: &MidiEvent, settings: &FilterSettings, mutes: &[bool; 256]) -> (res: Option<MidiEvent>)
    ensures
        res == filter_spec(*event, *settings, mutes@),
{
    let ch = event.channel as usize;
    if !mutes[ch] {
        return None;
    }
    match &event.message {
        MidiMessage::NoteOn { key, velocity } => {
            let thresh = settings.velocity_threshold as u8;
            let vel = if settings.force_max_velocity { 127u8 } else { *velocity };
            if vel < thresh {
                return None;
            }
            Some(MidiEvent { tick: event.tick, channel: event.channel, message: MidiMessage::NoteOn { key: *key, velocity: vel } })
        },
        _ => Some(*event),
    }
}

} // verus!
