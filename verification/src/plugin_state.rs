//! Plugin-level settings and the persisted channel matrices.
use vstd::prelude::*;
use crate::channel_matrix::{MatrixButton, MatrixClick, button_on_page, matrix_click, matrix_click_spec};
use crate::synth_command::{ChannelCommand, SynthCommand};

verus! {

/// Sample interpolation of the synthesizer.
#[derive(Clone, Copy, Debug, PartialEq, Eq, Structural)]
pub enum InterpolationMode {
    Nearest,
    Linear,
}

impl Default for InterpolationMode {
    fn default() -> (res: Self)
        ensures
            res == InterpolationMode::Linear,
    {
        InterpolationMode::Linear
    }
}

/// Which matrix the channel-matrix page edits: the mute switches or the
/// percussion switches.
#[derive(Clone, Copy, Debug, PartialEq, Eq, Structural)]
pub enum ChannelMatrixMode {
    Mute,
    Drum,
}

impl ChannelMatrixMode {
    /// The mode the page switches to when its corner button is clicked: from
    /// the mute switches to the percussion switches and back.
    pub fn toggled(self) -> (res: Self)
        ensures
            res == (match self {
                ChannelMatrixMode::Mute => ChannelMatrixMode::Drum,
                ChannelMatrixMode::Drum => ChannelMatrixMode::Mute,
            }),
    {
        match self {
            ChannelMatrixMode::Mute => ChannelMatrixMode::Drum,
            ChannelMatrixMode::Drum => ChannelMatrixMode::Mute,
        }
    }
}

impl Default for ChannelMatrixMode {
    fn default() -> (res: Self)
        ensures
            res == ChannelMatrixMode::Mute,
    {
        ChannelMatrixMode::Mute
    }
}

/// A persisted matrix as a 256-switch mask: switch `i` of `matrix` where
/// there is one, else `fill`.
pub fn matrix_mask(matrix: &Vec<bool>, fill: bool) -> (res: [bool; 256])
    requires
        matrix@.len() <= 256,
    ensures
        forall|i: int| 0 <= i < 256 ==> #[trigger] res@[i] == if i < matrix@.len() { matrix@[i] } else { fill },
{
    let mut arr = [fill; 256];
    let mut i: usize = 0;
    while i < matrix.len()
        invariant
            i <= matrix@.len(),
            matrix@.len() <= 256,
            forall|k: int| 0 <= k < 256 ==> #[trigger] arr@[k] == if k < i { matrix@[k] } else { fill },
        decreases matrix.len() - i,
    {
        arr[i] = matrix[i];
        i = i + 1;
    }
    arr
}

/// Copies the starting percussion channels of a loaded file into the drum
/// matrix, switch by switch.
pub fn apply_drum_channels(drum_matrix: &mut Vec<bool>, drum_channels: &Vec<bool>)
    requires
        drum_channels@.len() <= old(drum_matrix)@.len(),
    ensures
        final(drum_matrix)@.len() == old(drum_matrix)@.len(),
        forall|i: int| 0 <= i < old(drum_matrix)@.len() ==> #[trigger] final(drum_matrix)@[i] ==
            if i < drum_channels@.len() { drum_channels@[i] } else { old(drum_matrix)@[i] },
{
    let mut i: usize = 0;
    while i < drum_channels.len()
        invariant
            i <= drum_channels@.len(),
            drum_channels@.len() <= drum_matrix@.len(),
            drum_matrix@.len() == old(drum_matrix)@.len(),
            forall|k: int| 0 <= k < drum_matrix@.len() ==> #[trigger] drum_matrix@[k] ==
                if k < i { drum_channels@[k] } else { old(drum_matrix)@[k] },
        decreases drum_channels.len() - i,
    {
        drum_matrix.set(i, drum_channels[i]);
        i = i + 1;
    }
}

/// The percussion mode of every channel, as the drum matrix sets it.
pub fn percussion_commands(drum_matrix: &Vec<bool>) -> (res: Vec<SynthCommand>)
    ensures
        res@ == Seq::new(drum_matrix@.len(), |i: int| SynthCommand::Channel(i as u32, ChannelCommand::SetPercussionMode(drum_matrix@[i]))),
{
    let mut res: Vec<SynthCommand> = Vec::new();
    let mut i: usize = 0;
    while i < drum_matrix.len()
        invariant
            i <= drum_matrix@.len(),
            res@ == Seq::new(i as nat, |k: int| SynthCommand::Channel(k as u32, ChannelCommand::SetPercussionMode(drum_matrix@[k]))),
        decreases drum_matrix.len() - i,
    {
        res.push(SynthCommand::Channel(i as u32, ChannelCommand::SetPercussionMode(drum_matrix[i])));
        i = i + 1;
        assert(res@ =~= Seq::new(i as nat, |k: int| SynthCommand::Channel(k as u32, ChannelCommand::SetPercussionMode(drum_matrix@[k]))));
    }
    res
}

/// A click on the matrix page edits the matrix the page shows: the mute
/// switches in Mute mode, the percussion switches in Drum mode. The other
/// matrix stays as it is.
pub fn click_in_mode(mode: ChannelMatrixMode, mute_matrix: &mut [bool], drum_matrix: &mut [bool], button: MatrixButton, click: MatrixClick)
    requires
        old(mute_matrix)@.len() >= 256,
        old(drum_matrix)@.len() >= 256,
        button_on_page(button),
    ensures
        mode == ChannelMatrixMode::Mute ==> final(mute_matrix)@ == matrix_click_spec(old(mute_matrix)@, button, click)
            && final(drum_matrix)@ == old(drum_matrix)@,
        mode == ChannelMatrixMode::Drum ==> final(drum_matrix)@ == matrix_click_spec(old(drum_matrix)@, button, click)
            && final(mute_matrix)@ == old(mute_matrix)@,
{
    match mode {
        ChannelMatrixMode::Mute => matrix_click(mute_matrix, button, click),
        ChannelMatrixMode::Drum => matrix_click(drum_matrix, button, click),
    }
}

} // verus!
