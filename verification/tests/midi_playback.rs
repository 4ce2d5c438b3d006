use yueliang::event::{MidiEvent, MidiMessage};
use yueliang::midi_filter::FilterSettings;
use yueliang::midi_player::{chase_cc, BlockTiming, MidiPlayer, CHASE_CC_BEFORE_PROGRAM, CHASE_CC_COUNT};
use yueliang::synth_command::{
    all_notes_killed, all_notes_off, sustain_pedal_off, system_reset, ChannelCommand, SynthCommand,
};

fn ev(tick: u64, channel: u8, message: MidiMessage) -> MidiEvent {
    MidiEvent { tick, channel, message }
}

fn cc(tick: u64, channel: u8, cc: u8, value: u8) -> MidiEvent {
    ev(tick, channel, MidiMessage::ControlChange { cc, value })
}

fn filter() -> FilterSettings {
    FilterSettings { velocity_threshold: 1, force_max_velocity: false }
}

fn block(start: u64, end: u64) -> BlockTiming {
    BlockTiming { playing: true, jumped: false, start_tick: start, end_tick: end, chase_tick: start }
}

fn on(ch: u32, key: u8, vel: u8) -> SynthCommand {
    SynthCommand::Channel(ch, ChannelCommand::NoteOn { key, vel })
}

fn song() -> Vec<MidiEvent> {
    vec![
        cc(0, 0, 7, 90),
        ev(0, 0, MidiMessage::NoteOn { key: 60, velocity: 100 }),
        ev(100, 0, MidiMessage::NoteOff { key: 60 }),
        ev(100, 3, MidiMessage::ProgramChange { pc: 12 }),
        cc(150, 0, 0, 1),
        ev(200, 3, MidiMessage::PitchBend { value: -100 }),
        ev(200, 3, MidiMessage::NoteOn { key: 64, velocity: 50 }),
        cc(250, 0, 101, 0),
        cc(260, 0, 7, 120),
        ev(300, 3, MidiMessage::NoteOff { key: 64 }),
    ]
}

fn loaded_player() -> MidiPlayer {
    let mut p = MidiPlayer::new();
    p.load(song(), 96);
    p
}

#[test]
fn new_player_defaults() {
    let p = MidiPlayer::new();
    assert_eq!(p.ppqn(), 480);
    assert_eq!(loaded_player().ppqn(), 96);
}

#[test]
fn first_block_resets_then_dispatches_its_window() {
    let mut p = loaded_player();
    let out = p.process(&block(0, 100), &filter(), &[true; 256], &[false; 256]);
    let mut expected = system_reset();
    expected.push(SynthCommand::Channel(0, ChannelCommand::Control(7, 90)));
    expected.push(on(0, 60, 100));
    assert_eq!(out, expected);
    // The next block continues where this one ended.
    let out = p.process(&block(100, 201), &filter(), &[true; 256], &[false; 256]);
    assert_eq!(out, vec![
        SynthCommand::Channel(0, ChannelCommand::NoteOff { key: 60 }),
        SynthCommand::Channel(3, ChannelCommand::ProgramChange(12)),
        SynthCommand::Channel(0, ChannelCommand::Control(0, 1)),
        SynthCommand::Channel(3, ChannelCommand::PitchBend(-100)),
        on(3, 64, 50),
    ]);
}

#[test]
fn stopping_releases_notes_once() {
    let mut p = loaded_player();
    p.process(&block(0, 10), &filter(), &[true; 256], &[false; 256]);
    let stopped = BlockTiming { playing: false, ..block(10, 20) };
    let out = p.process(&stopped, &filter(), &[true; 256], &[false; 256]);
    let mut expected = all_notes_off();
    expected.extend(sustain_pedal_off());
    assert_eq!(out, expected);
    assert_eq!(out.len(), 512);
    assert!(p.process(&stopped, &filter(), &[true; 256], &[false; 256]).is_empty());
}

#[test]
fn jump_resets_moves_and_chases() {
    let mut p = loaded_player();
    p.process(&block(0, 10), &filter(), &[true; 256], &[false; 256]);
    let jump = BlockTiming { playing: true, jumped: true, start_tick: 255, end_tick: 261, chase_tick: 255 };
    let out = p.process(&jump, &filter(), &[true; 256], &[false; 256]);
    let mut expected = system_reset();
    // Channel 0: RPN MSB (101) comes first in the chase order, then bank select, then volume.
    expected.push(SynthCommand::Channel(0, ChannelCommand::Control(101, 0)));
    expected.push(SynthCommand::Channel(0, ChannelCommand::Control(0, 1)));
    expected.push(SynthCommand::Channel(0, ChannelCommand::Control(7, 90)));
    // Channel 3: program, then pitch bend.
    expected.push(SynthCommand::Channel(3, ChannelCommand::ProgramChange(12)));
    expected.push(SynthCommand::Channel(3, ChannelCommand::PitchBend(-100)));
    // The block itself: the volume change at 260.
    expected.push(SynthCommand::Channel(0, ChannelCommand::Control(7, 120)));
    assert_eq!(out, expected);
}

#[test]
fn chase_takes_latest_values_before_the_tick() {
    let p = loaded_player();
    assert_eq!(p.chase_single_channel(261, 0), vec![
        cc(261, 0, 101, 0),
        cc(261, 0, 0, 1),
        cc(261, 0, 7, 120),
    ]);
    assert_eq!(p.chase_single_channel(260, 0), vec![
        cc(260, 0, 101, 0),
        cc(260, 0, 0, 1),
        cc(260, 0, 7, 90),
    ]);
    assert!(p.chase_single_channel(0, 0).is_empty());
    assert!(MidiPlayer::new().chase_events(1000).is_empty());
    let all = p.chase_events(201);
    assert_eq!(all, vec![
        cc(201, 0, 0, 1),
        cc(201, 0, 7, 90),
        ev(201, 3, MidiMessage::ProgramChange { pc: 12 }),
        ev(201, 3, MidiMessage::PitchBend { value: -100 }),
    ]);
}

#[test]
fn chase_list_order() {
    let list: Vec<u8> = (0..CHASE_CC_COUNT).map(chase_cc).collect();
    assert_eq!(list, vec![101, 100, 6, 38, 0, 32, 7, 10, 11, 64, 73, 72, 74, 71]);
    // RPN, data entry and bank select go before the program change.
    assert_eq!(&list[..CHASE_CC_BEFORE_PROGRAM], &[101, 100, 6, 38, 0, 32]);
}

#[test]
fn program_change_follows_bank_select_and_precedes_volume() {
    let mut p = MidiPlayer::new();
    p.load(vec![
        cc(0, 0, 7, 100),
        ev(1, 0, MidiMessage::PitchBend { value: 300 }),
        ev(2, 0, MidiMessage::ProgramChange { pc: 5 }),
        cc(3, 0, 0, 8),
        cc(4, 0, 64, 127),
        cc(5, 0, 101, 0),
    ], 96);
    assert_eq!(p.chase_single_channel(10, 0), vec![
        cc(10, 0, 101, 0),
        cc(10, 0, 0, 8),
        ev(10, 0, MidiMessage::ProgramChange { pc: 5 }),
        cc(10, 0, 7, 100),
        cc(10, 0, 64, 127),
        ev(10, 0, MidiMessage::PitchBend { value: 300 }),
    ]);
}

#[test]
fn resuming_in_place_resets_and_chases_every_channel() {
    let mut p = loaded_player();
    p.process(&block(0, 160), &filter(), &[true; 256], &[false; 256]);
    let stopped = BlockTiming { playing: false, ..block(160, 160) };
    p.process(&stopped, &filter(), &[true; 256], &[false; 256]);
    // Resume where playback stopped: no jump, but the state is chased.
    let out = p.process(&block(160, 201), &filter(), &[true; 256], &[false; 256]);
    let mut expected = system_reset();
    expected.push(SynthCommand::Channel(0, ChannelCommand::Control(0, 1)));
    expected.push(SynthCommand::Channel(0, ChannelCommand::Control(7, 90)));
    expected.push(SynthCommand::Channel(3, ChannelCommand::ProgramChange(12)));
    // Then the block's own events.
    expected.push(SynthCommand::Channel(3, ChannelCommand::PitchBend(-100)));
    expected.push(on(3, 64, 50));
    assert_eq!(out, expected);
}

#[test]
fn consecutive_blocks_play_a_boundary_event_once() {
    let mut p = loaded_player();
    let first = p.process(&block(0, 150), &filter(), &[true; 256], &[false; 256]);
    let second = p.process(&block(150, 151), &filter(), &[true; 256], &[false; 256]);
    let third = p.process(&block(151, 300), &filter(), &[true; 256], &[false; 256]);
    // The controller change at tick 150 is sent by the second block only.
    assert!(!first.contains(&SynthCommand::Channel(0, ChannelCommand::Control(0, 1))));
    assert_eq!(second, vec![SynthCommand::Channel(0, ChannelCommand::Control(0, 1))]);
    assert_eq!(third.len(), 4);
}

#[test]
fn muting_and_unmuting_a_channel() {
    let mut p = loaded_player();
    p.process(&block(0, 10), &filter(), &[true; 256], &[false; 256]);
    let mut mutes = [true; 256];
    mutes[0] = false;
    let out = p.process(&block(10, 11), &filter(), &mutes, &[false; 256]);
    assert_eq!(out, vec![
        SynthCommand::Channel(0, ChannelCommand::AllNotesOff),
        SynthCommand::Channel(0, ChannelCommand::Control(64, 0)),
    ]);
    // While muted, channel 0's events are filtered out.
    let out = p.process(&block(11, 201), &filter(), &mutes, &[false; 256]);
    assert_eq!(out, vec![
        SynthCommand::Channel(3, ChannelCommand::ProgramChange(12)),
        SynthCommand::Channel(3, ChannelCommand::PitchBend(-100)),
        on(3, 64, 50),
    ]);
    // Unmuting chases channel 0's state at the block start.
    let out = p.process(&block(201, 202), &filter(), &[true; 256], &[false; 256]);
    assert_eq!(out, vec![
        SynthCommand::Channel(0, ChannelCommand::Control(0, 1)),
        SynthCommand::Channel(0, ChannelCommand::Control(7, 90)),
    ]);
}

#[test]
fn drum_flag_changes_switch_percussion_mode() {
    let mut p = loaded_player();
    p.process(&block(0, 0), &filter(), &[true; 256], &[false; 256]);
    let mut drums = [false; 256];
    drums[9] = true;
    drums[25] = true;
    let out = p.process(&block(0, 0), &filter(), &[true; 256], &drums);
    assert_eq!(out, vec![
        SynthCommand::Channel(9, ChannelCommand::SetPercussionMode(true)),
        SynthCommand::Channel(25, ChannelCommand::SetPercussionMode(true)),
    ]);
    assert!(p.process(&block(0, 0), &filter(), &[true; 256], &drums).is_empty());
    drums[9] = false;
    let out = p.process(&block(0, 0), &filter(), &[true; 256], &drums);
    assert_eq!(out, vec![SynthCommand::Channel(9, ChannelCommand::SetPercussionMode(false))]);
}

#[test]
fn reset_rewinds_and_restarts_with_a_reset() {
    let mut p = loaded_player();
    p.process(&block(0, 150), &filter(), &[true; 256], &[false; 256]);
    p.reset();
    let out = p.process(&block(0, 1), &filter(), &[true; 256], &[false; 256]);
    let mut expected = system_reset();
    expected.push(SynthCommand::Channel(0, ChannelCommand::Control(7, 90)));
    expected.push(on(0, 60, 100));
    assert_eq!(out, expected);
}

#[test]
fn velocity_filter_applies_to_dispatch() {
    let mut p = loaded_player();
    let strict = FilterSettings { velocity_threshold: 60, force_max_velocity: false };
    p.process(&block(0, 150), &strict, &[true; 256], &[false; 256]);
    let out = p.process(&block(150, 301), &strict, &[true; 256], &[false; 256]);
    assert!(!out.contains(&on(3, 64, 50)));
    let mut p = loaded_player();
    let forced = FilterSettings { velocity_threshold: 60, force_max_velocity: true };
    p.process(&block(0, 150), &forced, &[true; 256], &[false; 256]);
    let out = p.process(&block(150, 301), &forced, &[true; 256], &[false; 256]);
    assert!(out.contains(&on(3, 64, 127)));
}

#[test]
fn system_reset_is_control_reset_then_kill() {
    let r = system_reset();
    assert_eq!(r.len(), 257);
    assert_eq!(r[0], SynthCommand::AllChannels(ChannelCommand::ResetControl));
    assert_eq!(r[1..].to_vec(), all_notes_killed());
    assert_eq!(r[256], SynthCommand::Channel(255, ChannelCommand::AllNotesKilled));
}

#[test]
fn readiness_follows_the_controllers_a_block_would_chase() {
    let mut p = MidiPlayer::new();
    p.load(vec![cc(0, 2, 200, 5), ev(0, 2, MidiMessage::NoteOn { key: 60, velocity: 80 }), cc(40, 3, 7, 90)], 96);
    let mut sounding = [true; 256];
    let jumped = BlockTiming { playing: true, jumped: true, start_tick: 10, end_tick: 20, chase_tick: 10 };
    assert!(!p.is_ready(&jumped, &sounding));
    // Nothing is chased before tick 0, nor when the transport is stopped.
    let jumped_to_start = BlockTiming { playing: true, jumped: true, start_tick: 0, end_tick: 5, chase_tick: 0 };
    assert!(p.is_ready(&jumped_to_start, &sounding));
    let stopped = BlockTiming { playing: false, jumped: true, start_tick: 10, end_tick: 20, chase_tick: 10 };
    assert!(p.is_ready(&stopped, &sounding));
    // Starting playback at tick 10 chases every channel, controller 200 too.
    assert!(!p.is_ready(&block(10, 20), &sounding));
    // Starting at tick 0 chases nothing.
    assert!(p.is_ready(&block(0, 10), &sounding));
    // Mute channel 2, then unmute it: the unmute chases its controller 200.
    sounding[2] = false;
    let _ = p.process(&block(0, 10), &filter(), &sounding, &[false; 256]);
    // A block that continues without a jump or an unmute chases nothing.
    assert!(p.is_ready(&block(10, 20), &sounding));
    sounding[2] = true;
    assert!(!p.is_ready(&block(50, 60), &sounding));
    // Unmuting only channel 3 chases a valid controller.
    sounding[2] = false;
    let _ = p.process(&block(10, 20), &filter(), &sounding, &[false; 256]);
    sounding[3] = false;
    let _ = p.process(&block(20, 30), &filter(), &sounding, &[false; 256]);
    sounding[3] = true;
    assert!(p.is_ready(&block(50, 60), &sounding));
}

#[test]
fn seeded_drum_flags_are_not_resent() {
    let mut p = loaded_player();
    let mut drums = [false; 256];
    drums[9] = true;
    p.set_drums(&drums);
    let out = p.process(&block(0, 1), &filter(), &[true; 256], &drums);
    assert!(!out.iter().any(|c| matches!(c, SynthCommand::Channel(_, ChannelCommand::SetPercussionMode(_)))));
}

#[test]
fn a_run_of_gapless_blocks_plays_each_event_once() {
    let mut p = loaded_player();
    let mut all = Vec::new();
    let bounds = [0u64, 50, 100, 100, 150, 200, 201, 260, 301];
    for w in bounds.windows(2) {
        let out = p.process(&block(w[0], w[1]), &filter(), &[true; 256], &[false; 256]);
        all.extend(out);
    }
    let mut expected = system_reset();
    expected.extend(vec![
        SynthCommand::Channel(0, ChannelCommand::Control(7, 90)),
        on(0, 60, 100),
        SynthCommand::Channel(0, ChannelCommand::NoteOff { key: 60 }),
        SynthCommand::Channel(3, ChannelCommand::ProgramChange(12)),
        SynthCommand::Channel(0, ChannelCommand::Control(0, 1)),
        SynthCommand::Channel(3, ChannelCommand::PitchBend(-100)),
        on(3, 64, 50),
        SynthCommand::Channel(0, ChannelCommand::Control(101, 0)),
        SynthCommand::Channel(0, ChannelCommand::Control(7, 120)),
        SynthCommand::Channel(3, ChannelCommand::NoteOff { key: 64 }),
    ]);
    assert_eq!(all, expected);
}
