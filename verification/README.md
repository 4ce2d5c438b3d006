# yueliang

The sequencing logic of Yueliang, a MIDI file player plugin for black MIDI
built on the XSynth soundfont synthesizer, written in Verus with its
behaviour stated in contracts and proved.

## Layout

- `src/` — the verified library.
  - `event`: the MIDI event model (tick, logical channel `port * 16 + channel`, message).
  - `smf`: a standard MIDI file as plain values, read through `midly`.
  - `tick_sort`, `midi_loader`: tracks to one stable, tick-ordered event list;
    timecode files and tick overflow are refused.
  - `midi_filter`, `midi_mapper`, `synth_command`: the real-time filter and the
    commands sent to the synthesizer.
  - `midi_player`: block-by-block playback: start, resume and playhead jumps
    with controller chase, stop, mute and drum transitions, and dispatch of
    each block's window: over a gapless run of blocks, every kept event
    exactly once.
  - `soundfont_cache`: which soundfont files a port load reads from disk (each
    file once, then shared).
  - `channel_matrix`, `soundfont_list`, `left_bar`, `plugin_state`, `sidecar`:
    the editor's rules (solo, toggles, list selection, drag reordering) and the
    plugin's stored state.
- `tests/` — tests of the library on concrete values.
- `app/` — the unverified shell: file reading, the host's floating-point
  timeline, the XSynth engine, audio rendering and the persisted copies of the
  library's types.
