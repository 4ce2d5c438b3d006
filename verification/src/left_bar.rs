//! The tabs of the editor's left navigation bar.
use vstd::prelude::*;

verus! {

/// A page of the editor.
#[derive(Clone, Copy, Debug, PartialEq, Eq, Structural)]
pub enum LeftTab {
    /// Transport: MIDI file loading and playback controls.
    Transport,
    /// SoundFont manager: 16 ports with several soundfonts each.
    Soundfonts,
    /// Channel matrix: 256 channel switches and drum channels.
    Channels,
}

/// The tabs in bar order.
pub open spec fn tabs_in_order() -> Seq<LeftTab> {
    seq![LeftTab::Transport, LeftTab::Soundfonts, LeftTab::Channels]
}

impl LeftTab {
    /// The icon drawn on the tab's button.
    pub fn icon(&self) -> (res: &'static str)
        ensures
            res@ == match *self {
                LeftTab::Transport => "▶"@,
                LeftTab::Soundfonts => "🏦"@,
                LeftTab::Channels => "🔀"@,
            },
    {
        match self {
            LeftTab::Transport => "▶",
            LeftTab::Soundfonts => "🏦",
            LeftTab::Channels => "🔀",
        }
    }

    /// The tooltip shown when hovering the tab's button.
    pub fn tooltip(&self) -> (res: &'static str)
        ensures
            res@ == match *self {
                LeftTab::Transport => "Transport / Playback Control"@,
                LeftTab::Soundfonts => "SoundFont Manager"@,
                LeftTab::Channels => "Channel Matrix"@,
            },
    {
        match self {
            LeftTab::Transport => "Transport / Playback Control",
            LeftTab::Soundfonts => "SoundFont Manager",
            LeftTab::Channels => "Channel Matrix",
        }
    }

    /// All tabs, in the order the bar shows them.
    pub fn all() -> (res: [LeftTab; 3])
        ensures
            res@ == tabs_in_order(),
    {
        let res = [LeftTab::Transport, LeftTab::Soundfonts, LeftTab::Channels];
        assert(res@ =~= tabs_in_order());
        res
    }
}

/// The tab shown for a stored selection index; an index out of range shows
/// the first tab.
pub fn selected_tab(index: usize) -> (res: LeftTab)
    ensures
        res == if index < 3 { tabs_in_order()[index as int] } else { LeftTab::Transport },
{
    let tabs = LeftTab::all();
    let current = if index >= tabs.len() { 0 } else { index };
    tabs[current]
}

} // verus!
