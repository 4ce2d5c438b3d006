use yueliang::event::{MidiEvent, MidiMessage};
use yueliang::midi_filter::{apply_filter, FilterSettings};
use yueliang::midi_mapper::map_midi_event;
use yueliang::channel_matrix::{MatrixButton, MatrixClick};
use yueliang::plugin_state::{
    apply_drum_channels, click_in_mode, matrix_mask, percussion_commands, ChannelMatrixMode, InterpolationMode,
};
use yueliang::sidecar::{IndexPreset, IndexSample, SidecarIndex};
use yueliang::synth_command::{
    port_channels, reset_all_controllers, send_to_all_channels, set_percussion_mode, sustain_pedal_off, ChannelCommand,
    SynthCommand,
};

fn note(channel: u8, velocity: u8) -> MidiEvent {
    MidiEvent { tick: 42, channel, message: MidiMessage::NoteOn { key: 61, velocity } }
}

#[test]
fn filter_mutes_and_thresholds() {
    let settings = FilterSettings { velocity_threshold: 20, force_max_velocity: false };
    let mut mutes = [true; 256];
    assert_eq!(apply_filter(&note(3, 30), &settings, &mutes), Some(note(3, 30)));
    assert_eq!(apply_filter(&note(3, 19), &settings, &mutes), None);
    assert_eq!(apply_filter(&note(3, 20), &settings, &mutes), Some(note(3, 20)));
    mutes[3] = false;
    assert_eq!(apply_filter(&note(3, 30), &settings, &mutes), None);
    let cc = MidiEvent { tick: 1, channel: 4, message: MidiMessage::ControlChange { cc: 7, value: 0 } };
    assert_eq!(apply_filter(&cc, &settings, &mutes), Some(cc));
    let forced = FilterSettings { velocity_threshold: 127, force_max_velocity: true };
    assert_eq!(apply_filter(&note(4, 1), &forced, &mutes), Some(note(4, 127)));
    let off = MidiEvent { tick: 2, channel: 4, message: MidiMessage::NoteOff { key: 1 } };
    assert_eq!(apply_filter(&off, &forced, &mutes), Some(off));
}

#[test]
fn mapper_maps_every_message() {
    let e = |m| MidiEvent { tick: 0, channel: 200, message: m };
    assert_eq!(map_midi_event(&e(MidiMessage::NoteOn { key: 1, velocity: 2 })), Some(SynthCommand::Channel(200, ChannelCommand::NoteOn { key: 1, vel: 2 })));
    assert_eq!(map_midi_event(&e(MidiMessage::NoteOff { key: 3 })), Some(SynthCommand::Channel(200, ChannelCommand::NoteOff { key: 3 })));
    assert_eq!(map_midi_event(&e(MidiMessage::ProgramChange { pc: 4 })), Some(SynthCommand::Channel(200, ChannelCommand::ProgramChange(4))));
    assert_eq!(map_midi_event(&e(MidiMessage::ControlChange { cc: 5, value: 6 })), Some(SynthCommand::Channel(200, ChannelCommand::Control(5, 6))));
    assert_eq!(map_midi_event(&e(MidiMessage::PitchBend { value: -8192 })), Some(SynthCommand::Channel(200, ChannelCommand::PitchBend(-8192))));
}

#[test]
fn engine_command_builders() {
    let all = send_to_all_channels(ChannelCommand::AllNotesOff);
    assert_eq!(all.len(), 256);
    assert_eq!(all[17], SynthCommand::Channel(17, ChannelCommand::AllNotesOff));
    assert_eq!(reset_all_controllers()[255], SynthCommand::Channel(255, ChannelCommand::ResetControl));
    assert_eq!(sustain_pedal_off()[0], SynthCommand::Channel(0, ChannelCommand::Control(64, 0)));
    assert_eq!(set_percussion_mode(9, true), SynthCommand::Channel(9, ChannelCommand::SetPercussionMode(true)));
    assert_eq!(port_channels(2), (32..48).collect::<Vec<u32>>());
    assert_eq!(port_channels(15), (240..256).collect::<Vec<u32>>());
}

#[test]
fn matrices_and_modes() {
    let mask = matrix_mask(&vec![false, true, false], true);
    assert!(!mask[0] && mask[1] && !mask[2] && mask[3] && mask[255]);
    let mask = matrix_mask(&Vec::new(), false);
    assert!(mask.iter().all(|&b| !b));
    let mut drums = vec![false; 256];
    apply_drum_channels(&mut drums, &vec![false, true]);
    assert!(drums[1] && !drums[0] && !drums[9]);
    let cmds = percussion_commands(&drums);
    assert_eq!(cmds.len(), 256);
    assert_eq!(cmds[1], SynthCommand::Channel(1, ChannelCommand::SetPercussionMode(true)));
    assert_eq!(cmds[2], SynthCommand::Channel(2, ChannelCommand::SetPercussionMode(false)));
    assert_eq!(InterpolationMode::default(), InterpolationMode::Linear);
    assert_eq!(ChannelMatrixMode::default(), ChannelMatrixMode::Mute);
}

#[test]
fn sidecar_index_holds_its_fields() {
    let idx = SidecarIndex {
        file_path: "/sf/a.sf2".to_string(),
        file_size: 10,
        file_mtime: 20,
        file_hash: None,
        presets: vec![IndexPreset { bank: 128, preset: 0, name: "Drums".to_string(), regions: vec![0] }],
        samples: vec![IndexSample { id: 0, offset: 44, byte_len: 8, sample_rate: 44100, bits: 16, channels: 1, loop_start: 0, loop_end: 4, root_key: 60 }],
    };
    assert_eq!(idx.presets[0].regions, vec![0]);
    assert_eq!(idx.samples[0].root_key, 60);
}

#[test]
fn matrix_mode_switches_back_and_forth() {
    assert_eq!(ChannelMatrixMode::Mute.toggled(), ChannelMatrixMode::Drum);
    assert_eq!(ChannelMatrixMode::Drum.toggled(), ChannelMatrixMode::Mute);
    assert_eq!(ChannelMatrixMode::default().toggled().toggled(), ChannelMatrixMode::Mute);
}

#[test]
fn a_click_edits_the_matrix_of_the_mode() {
    let mut mute = vec![true; 256];
    let mut drum = vec![false; 256];
    click_in_mode(ChannelMatrixMode::Drum, &mut mute, &mut drum, MatrixButton::Cell(9), MatrixClick::Primary);
    assert!(drum[9]);
    assert!(mute.iter().all(|&b| b));
    click_in_mode(ChannelMatrixMode::Mute, &mut mute, &mut drum, MatrixButton::Cell(9), MatrixClick::Primary);
    assert!(!mute[9]);
    assert_eq!(drum.iter().filter(|&&b| b).count(), 1);
}
