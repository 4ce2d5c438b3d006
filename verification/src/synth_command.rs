//! Commands for the synthesizer, as plain values.
//!
//! Each command stands for one synthesizer event: a channel event sent to one
//! logical channel, or to all of them at once.
use vstd::prelude::*;

verus! {

/// An event for one synthesizer channel.
#[derive(Clone, Copy, Debug, PartialEq, Eq, Structural)]
pub enum ChannelCommand {
    NoteOn { key: u8, vel: u8 },
    NoteOff { key: u8 },
    ProgramChange(u8),
    /// A raw controller change: controller number, value.
    Control(u8, u8),
    /// A pitch bend in `-8192..=8191`; the synthesizer takes it as
    /// `value / 8192` clamped to `[-1, 1]`.
    PitchBend(i16),
    /// Release every note of the channel.
    AllNotesOff,
    /// Cut every note of the channel at once.
    AllNotesKilled,
    /// Reset the channel's controllers.
    ResetControl,
    /// Switch the channel between melodic and percussion patches.
    SetPercussionMode(bool),
}

/// A command for the synthesizer.
#[derive(Clone, Copy, Debug, PartialEq, Eq, Structural)]
pub enum SynthCommand {
    /// A channel event for logical channel `0..256`.
    Channel(u32, ChannelCommand),
    /// A channel event for every channel at once.
    AllChannels(ChannelCommand),
}

/// The controller of the sustain pedal.
pub const CC_SUSTAIN: u8 = 64;

/// `cmd` sent to each of the 256 channels in turn.
pub open spec fn to_each_channel(cmd: ChannelCommand) -> Seq<SynthCommand> {
    Seq::new(256, |ch: int| SynthCommand::Channel(ch as u32, cmd))
}

/// The commands that release every note.
pub open spec fn all_notes_off_spec() -> Seq<SynthCommand> {
    to_each_channel(ChannelCommand::AllNotesOff)
}

/// The commands that cut every note.
pub open spec fn all_notes_killed_spec() -> Seq<SynthCommand> {
    to_each_channel(ChannelCommand::AllNotesKilled)
}

/// The commands that lift the sustain pedal everywhere.
pub open spec fn sustain_pedal_off_spec() -> Seq<SynthCommand> {
    to_each_channel(ChannelCommand::Control(CC_SUSTAIN, 0))
}

/// The commands of a system reset: controllers reset on all channels, then
/// every note cut.
pub open spec fn system_reset_spec() -> Seq<SynthCommand> {
    seq![SynthCommand::AllChannels(ChannelCommand::ResetControl)] + all_notes_killed_spec()
}

/// Sends `cmd` to each of the 256 channels in turn.
pub fn send_to_all_channels(cmd: ChannelCommand) -> (res: Vec<SynthCommand>)
    ensures
        res@ == to_each_channel(cmd),
{
    let mut res: Vec<SynthCommand> = Vec::new();
    let mut ch: u32 = 0;
    while ch < 256
        invariant
            ch <= 256,
            res@ == Seq::new(ch as nat, |c: int| SynthCommand::Channel(c as u32, cmd)),
        decreases 256 - ch,
    {
        res.push(SynthCommand::Channel(ch, cmd));
        ch = ch + 1;
        assert(res@ =~= Seq::new(ch as nat, |c: int| SynthCommand::Channel(c as u32, cmd)));
    }
    res
}

/// Releases every note (with its release phase).
pub fn all_notes_off() -> (res: Vec<SynthCommand>)
    ensures
        res@ == all_notes_off_spec(),
{
    send_to_all_channels(ChannelCommand::AllNotesOff)
}

/// Cuts every note at once.
pub fn all_notes_killed() -> (res: Vec<SynthCommand>)
    ensures
        res@ == all_notes_killed_spec(),
{
    send_to_all_channels(ChannelCommand::AllNotesKilled)
}

/// Resets the controllers of every channel, one channel at a time.
pub fn reset_all_controllers() -> (res: Vec<SynthCommand>)
    ensures
        res@ == to_each_channel(ChannelCommand::ResetControl),
{
    send_to_all_channels(ChannelCommand::ResetControl)
}

/// Lifts the sustain pedal (CC 64 = 0) on every channel.
pub fn sustain_pedal_off() -> (res: Vec<SynthCommand>)
    ensures
        res@ == sustain_pedal_off_spec(),
{
    send_to_all_channels(ChannelCommand::Control(CC_SUSTAIN, 0))
}

/// A clean state: controllers reset on all channels, then every note cut.
pub fn system_reset() -> (res: Vec<SynthCommand>)
    ensures
        res@ == system_reset_spec(),
{
    let mut res: Vec<SynthCommand> = Vec::new();
    res.push(SynthCommand::AllChannels(ChannelCommand::ResetControl));
    let mut killed = all_notes_killed();
    res.append(&mut killed);
    res
}

/// Switches one channel between melodic and percussion patches.
pub fn set_percussion_mode(channel: u32, percussion: bool) -> (res: SynthCommand)
    ensures
        res == SynthCommand::Channel(channel, ChannelCommand::SetPercussionMode(percussion)),
{
    SynthCommand::Channel(channel, ChannelCommand::SetPercussionMode(percussion))
}

/// The 16 logical channels of `port`, which share the port's soundfonts.
pub fn port_channels(port: usize) -> (res: Vec<u32>)
    requires
        port < 16,
    ensures
        res@ == Seq::new(16, |k: int| (port * 16 + k) as u32),
{
    let mut res: Vec<u32> = Vec::new();
    let start: u32 = (port as u32) * 16;
    let mut k: u32 = 0;
    while k < 16
        invariant
            k <= 16,
            port < 16,
            start == port * 16,
            res@ == Seq::new(k as nat, |j: int| (port * 16 + j) as u32),
        decreases 16 - k,
    {
        res.push(start + k);
        k = k + 1;
        assert(res@ =~= Seq::new(k as nat, |j: int| (port * 16 + j) as u32));
    }
    res
}

} // verus!
