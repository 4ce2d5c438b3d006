//! Mapping the player's MIDI events to synthesizer commands.
use vstd::prelude::*;
use crate::event::{MidiEvent, MidiMessage};
use crate::synth_command::{ChannelCommand, SynthCommand};

verus! {

/// The channel event a MIDI message becomes.
pub open spec fn channel_command_of(message: MidiMessage) -> ChannelCommand {
    match message {
        MidiMessage::NoteOn { key, velocity } => ChannelCommand::NoteOn { key, vel: velocity },
        MidiMessage::NoteOff { key } => ChannelCommand::NoteOff { key },
        MidiMessage::ProgramChange { pc } => ChannelCommand::ProgramChange(pc),
        MidiMessage::ControlChange { cc, value } => ChannelCommand::Control(cc, value),
        MidiMessage::PitchBend { value } => ChannelCommand::PitchBend(value),
    }
}

/// The synthesizer command an event becomes: its message on its channel.
pub open spec fn command_of(event: MidiEvent) -> SynthCommand {
    SynthCommand::Channel(event.channel as u32, channel_command_of(event.message))
}

/// Maps an event to the synthesizer command for its channel. Every event maps.
pub fn map_midi_event(event: &MidiEvent) -> (res: Option<SynthCommand>)
    ensures
        res == Some(command_of(*event)),
{
    let channel_command = match &event.message {
        MidiMessage::NoteOn { key, velocity } => ChannelCommand::NoteOn { key: *key, vel: *velocity },
        MidiMessage::NoteOff { key } => ChannelCommand::NoteOff { key: *key },
        MidiMessage::ProgramChange { pc } => ChannelCommand::ProgramChange(*pc),
        MidiMessage::ControlChange { cc, value } => ChannelCommand::Control(*cc, *value),
        MidiMessage::PitchBend { value } => ChannelCommand::PitchBend(*value),
    };
    Some(SynthCommand::Channel(event.channel as u32, channel_command))
}

/// Every event becomes a command for its own channel carrying the same
/// message: a note-on with its key and velocity, a note-off with its key, a
/// controller change with its number and value, a program change with its
/// program, a pitch bend with its value.
pub proof fn law_event_to_command(tick: u64, channel: u8, key: u8, velocity: u8, number: u8, value: u8, bend: i16)
    ensures
        command_of(MidiEvent { tick, channel, message: MidiMessage::NoteOn { key, velocity } })
            == SynthCommand::Channel(channel as u32, ChannelCommand::NoteOn { key, vel: velocity }),
        command_of(MidiEvent { tick, channel, message: MidiMessage::NoteOff { key } })
            == SynthCommand::Channel(channel as u32, ChannelCommand::NoteOff { key }),
        command_of(MidiEvent { tick, channel, message: MidiMessage::ControlChange { cc: number, value } })
            == SynthCommand::Channel(channel as u32, ChannelCommand::Control(number, value)),
        command_of(MidiEvent { tick, channel, message: MidiMessage::ProgramChange { pc: number } })
            == SynthCommand::Channel(channel as u32, ChannelCommand::ProgramChange(number)),
        command_of(MidiEvent { tick, channel, message: MidiMessage::PitchBend { value: bend } })
            == SynthCommand::Channel(channel as u32, ChannelCommand::PitchBend(bend)),
{
}

} // verus!
