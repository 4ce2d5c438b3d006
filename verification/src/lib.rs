//! Yueliang: the MIDI sequencing logic of a black-MIDI player plugin.

pub mod event;
pub mod midi_filter;
pub mod smf;
pub mod tick_sort;
pub mod midi_loader;
pub mod synth_command;
pub mod midi_mapper;
pub mod midi_player;
pub mod channel_matrix;
pub mod left_bar;
pub mod soundfont_list;
pub mod soundfont_cache;
pub mod sidecar;
pub mod plugin_state;
