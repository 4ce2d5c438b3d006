use yueliang::event::{MidiEvent, MidiMessage};
use yueliang::midi_loader::{load_from_bytes, midi_from_raw, convert_track, check_ticks_fit, default_drums};
use yueliang::smf::{parse_raw_smf, RawEvent, RawEventKind, RawMessage, RawSmf, RawTiming};

fn chunk(tag: &[u8], body: &[u8]) -> Vec<u8> {
    let mut out = tag.to_vec();
    out.extend_from_slice(&(body.len() as u32).to_be_bytes());
    out.extend_from_slice(body);
    out
}

fn smf(division: [u8; 2], tracks: &[Vec<u8>]) -> Vec<u8> {
    let mut header = vec![0x00, 0x01];
    header.extend_from_slice(&(tracks.len() as u16).to_be_bytes());
    header.extend_from_slice(&division);
    let mut out = chunk(b"MThd", &header);
    for t in tracks {
        out.extend(chunk(b"MTrk", t));
    }
    out
}

fn ev(tick: u64, channel: u8, message: MidiMessage) -> MidiEvent {
    MidiEvent { tick, channel, message }
}

fn two_track_file() -> Vec<u8> {
    // Track 1: port 1, note on at 0, pan at 10, note off + volume at 96.
    let t1 = vec![
        0x00, 0xFF, 0x21, 0x01, 0x01,
        0x00, 0x90, 0x3C, 0x64,
        0x0A, 0xB0, 0x0A, 0x40,
        0x56, 0x80, 0x3C, 0x40,
        0x00, 0xB0, 0x07, 0x64,
        0x00, 0xFF, 0x2F, 0x00,
    ];
    // Track 2: port 0, note-on of velocity 0 at 10, pitch bend centre, aftertouch (dropped), program at 110.
    let t2 = vec![
        0x0A, 0x91, 0x40, 0x00,
        0x00, 0xE1, 0x00, 0x40,
        0x00, 0xA1, 0x40, 0x10,
        0x64, 0xC2, 0x05,
        0x00, 0xFF, 0x2F, 0x00,
    ];
    smf([0x01, 0xE0], &[t1, t2])
}

#[test]
fn loads_ppqn_and_merges_tracks_by_tick() {
    let loaded = load_from_bytes(&two_track_file()).unwrap();
    assert_eq!(loaded.ppqn, 480);
    let expected = vec![
        ev(0, 16, MidiMessage::NoteOn { key: 60, velocity: 100 }),
        ev(10, 16, MidiMessage::ControlChange { cc: 10, value: 64 }),
        ev(10, 1, MidiMessage::NoteOff { key: 64 }),
        ev(10, 1, MidiMessage::PitchBend { value: 0 }),
        ev(96, 16, MidiMessage::NoteOff { key: 60 }),
        ev(96, 16, MidiMessage::ControlChange { cc: 7, value: 100 }),
        ev(110, 2, MidiMessage::ProgramChange { pc: 5 }),
    ];
    assert_eq!(loaded.events, expected);
}

#[test]
fn loaded_drum_channels_are_channel_ten_of_each_port() {
    let loaded = load_from_bytes(&two_track_file()).unwrap();
    assert_eq!(loaded.drum_channels.len(), 256);
    for (i, &d) in loaded.drum_channels.iter().enumerate() {
        assert_eq!(d, i % 16 == 9);
    }
    assert_eq!(default_drums(), loaded.drum_channels);
}

#[test]
fn timecode_files_are_refused() {
    let t = vec![0x00, 0x90, 0x3C, 0x64, 0x00, 0xFF, 0x2F, 0x00];
    let bytes = smf([0xE7, 0x28], &[t]);
    match load_from_bytes(&bytes) {
        Err(e) => assert_eq!(e, "Timecode-based MIDI timing is not supported"),
        Ok(_) => panic!("timecode file accepted"),
    }
}

#[test]
fn garbage_is_refused() {
    match load_from_bytes(b"not a midi file") {
        Err(msg) => assert!(msg.starts_with("Parse MIDI failed: ") && msg.len() > "Parse MIDI failed: ".len()),
        Ok(_) => panic!("garbage was accepted"),
    }
    match parse_raw_smf(b"MThd") {
        Err(msg) => assert!(msg.starts_with("Parse MIDI failed: ")),
        Ok(_) => panic!("a bare header tag was accepted"),
    }
}

#[test]
fn channels_beyond_the_sixteenth_port_are_dropped() {
    let t = vec![
        0x00, 0xFF, 0x21, 0x01, 0x10,
        0x00, 0x90, 0x3C, 0x64,
        0x00, 0xFF, 0x21, 0x01, 0x0F,
        0x05, 0x9F, 0x3C, 0x64,
        0x00, 0xFF, 0x2F, 0x00,
    ];
    let loaded = load_from_bytes(&smf([0x00, 0x60], &[t])).unwrap();
    assert_eq!(loaded.ppqn, 96);
    assert_eq!(loaded.events, vec![ev(5, 255, MidiMessage::NoteOn { key: 60, velocity: 100 })]);
}

#[test]
fn parse_gives_raw_tracks() {
    let raw = parse_raw_smf(&two_track_file()).unwrap();
    assert_eq!(raw.timing, RawTiming::Metrical(480));
    assert_eq!(raw.tracks.len(), 2);
    assert_eq!(raw.tracks[0][0], RawEvent { delta: 0, kind: RawEventKind::MidiPort(1) });
    assert_eq!(raw.tracks[0][2], RawEvent { delta: 10, kind: RawEventKind::Midi { channel: 0, message: RawMessage::Controller(10, 64) } });
    assert_eq!(raw.tracks[1][1], RawEvent { delta: 0, kind: RawEventKind::Midi { channel: 1, message: RawMessage::PitchBend(0) } });
    assert_eq!(raw.tracks[1][2], RawEvent { delta: 0, kind: RawEventKind::Midi { channel: 1, message: RawMessage::Aftertouch(64, 16) } });
    assert_eq!(raw.tracks[1][4].kind, RawEventKind::Other);
}

#[test]
fn pitch_bend_extremes_keep_their_sign() {
    let t = vec![0x00, 0xE0, 0x00, 0x00, 0x00, 0xE0, 0x7F, 0x7F, 0x00, 0xFF, 0x2F, 0x00];
    let loaded = load_from_bytes(&smf([0x01, 0xE0], &[t])).unwrap();
    assert_eq!(loaded.events, vec![
        ev(0, 0, MidiMessage::PitchBend { value: -8192 }),
        ev(0, 0, MidiMessage::PitchBend { value: 8191 }),
    ]);
}

#[test]
fn convert_track_accumulates_ticks_and_ports() {
    let track = vec![
        RawEvent { delta: 5, kind: RawEventKind::Midi { channel: 3, message: RawMessage::NoteOn(1, 2) } },
        RawEvent { delta: 5, kind: RawEventKind::MidiPort(2) },
        RawEvent { delta: 5, kind: RawEventKind::Midi { channel: 3, message: RawMessage::NoteOff(1, 0) } },
        RawEvent { delta: 5, kind: RawEventKind::Midi { channel: 3, message: RawMessage::ChannelAftertouch(9) } },
        RawEvent { delta: 5, kind: RawEventKind::Other },
        RawEvent { delta: 5, kind: RawEventKind::Midi { channel: 0, message: RawMessage::Controller(64, 127) } },
    ];
    assert_eq!(convert_track(&track), vec![
        ev(5, 3, MidiMessage::NoteOn { key: 1, velocity: 2 }),
        ev(15, 35, MidiMessage::NoteOff { key: 1 }),
        ev(30, 32, MidiMessage::ControlChange { cc: 64, value: 127 }),
    ]);
}

#[test]
fn merge_is_stable_across_tracks() {
    let a = vec![
        RawEvent { delta: 10, kind: RawEventKind::Midi { channel: 0, message: RawMessage::ProgramChange(1) } },
        RawEvent { delta: 0, kind: RawEventKind::Midi { channel: 0, message: RawMessage::ProgramChange(2) } },
    ];
    let b = vec![
        RawEvent { delta: 5, kind: RawEventKind::Midi { channel: 1, message: RawMessage::ProgramChange(3) } },
        RawEvent { delta: 5, kind: RawEventKind::Midi { channel: 1, message: RawMessage::ProgramChange(4) } },
    ];
    let c = vec![
        RawEvent { delta: 10, kind: RawEventKind::Midi { channel: 2, message: RawMessage::ProgramChange(5) } },
    ];
    let raw = RawSmf { timing: RawTiming::Metrical(24), tracks: vec![a, b, c] };
    let loaded = midi_from_raw(&raw).unwrap();
    let pcs: Vec<(u64, u8)> = loaded.events.iter().map(|e| match e.message {
        MidiMessage::ProgramChange { pc } => (e.tick, pc),
        _ => panic!(),
    }).collect();
    assert_eq!(pcs, vec![(5, 3), (10, 1), (10, 2), (10, 4), (10, 5)]);
}

#[test]
fn large_deltas_still_fit() {
    let big = RawEvent { delta: u32::MAX, kind: RawEventKind::Other };
    assert!(check_ticks_fit(&vec![vec![big; 4], Vec::new()]));
    assert!(check_ticks_fit(&Vec::new()));
    let raw = RawSmf { timing: RawTiming::Metrical(1), tracks: vec![vec![big; 3], vec![
        RawEvent { delta: 7, kind: RawEventKind::Midi { channel: 0, message: RawMessage::NoteOn(1, 1) } }]] };
    let loaded = midi_from_raw(&raw).unwrap();
    assert_eq!(loaded.events, vec![ev(7, 0, MidiMessage::NoteOn { key: 1, velocity: 1 })]);
    assert_eq!(loaded.events[0].tick, 7);
}
