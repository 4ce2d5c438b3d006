use yueliang::channel_matrix::{
    is_solo_cell, is_solo_column, is_solo_row, matrix_click, solo_cell, solo_column, solo_row, toggle_column, toggle_row,
    unsolo, MatrixButton, MatrixClick,
};
use yueliang::left_bar::{selected_tab, LeftTab};
use yueliang::soundfont_cache::{next_port_load_action, record_loaded, PortLoadAction, SoundfontCacheKeys};
use yueliang::soundfont_list::{
    apply_list_action, copy_to_all_ports, drop_position, enabled_count, enabled_paths, handle_selection,
    remove_selected, reorder_dragged, select_all, sorted_indices, start_drag, ListAction, ListResult, Modifiers,
    PortSoundfonts, SoundfontEntry,
};

fn entry(name: &str, enabled: bool) -> SoundfontEntry {
    SoundfontEntry { path: format!("/sf/{}", name), name: name.to_string(), enabled }
}

fn names(entries: &[SoundfontEntry]) -> Vec<String> {
    entries.iter().map(|e| e.name.clone()).collect()
}

const PLAIN: Modifiers = Modifiers { command: false, ctrl: false, shift: false };
const CTRL: Modifiers = Modifiers { command: false, ctrl: true, shift: false };
const SHIFT: Modifiers = Modifiers { command: false, ctrl: false, shift: true };

#[test]
fn solo_cell_then_unsolo() {
    let mut m = vec![true; 256];
    assert!(!is_solo_cell(&m, 5));
    solo_cell(&mut m, 37);
    assert!(is_solo_cell(&m, 37));
    assert!(!is_solo_cell(&m, 36));
    assert_eq!(m.iter().filter(|&&b| b).count(), 1);
    unsolo(&mut m);
    assert!(m.iter().all(|&b| b));
    assert!(!is_solo_cell(&m, 37));
}

#[test]
fn solo_row_and_column() {
    let mut m = vec![true; 256];
    solo_row(&mut m, 2);
    assert!(is_solo_row(&m, 2));
    assert!(!is_solo_row(&m, 3));
    assert!((32..48).all(|i| m[i]));
    assert_eq!(m.iter().filter(|&&b| b).count(), 16);
    solo_column(&mut m, 9);
    assert!(is_solo_column(&m, 9));
    assert!(!is_solo_row(&m, 2));
    assert!((0..16).all(|p| m[p * 16 + 9]));
    assert_eq!(m.iter().filter(|&&b| b).count(), 16);
}

#[test]
fn toggles() {
    let mut m = vec![true; 256];
    toggle_row(&mut m, 1);
    assert!((16..32).all(|i| !m[i]));
    assert_eq!(m.iter().filter(|&&b| b).count(), 240);
    toggle_row(&mut m, 1);
    assert!(m.iter().all(|&b| b));
    m[5] = false;
    toggle_row(&mut m, 0);
    assert!((0..16).all(|i| m[i]));
    toggle_column(&mut m, 3);
    assert!((0..16).all(|p| !m[p * 16 + 3]));
    toggle_column(&mut m, 3);
    assert!(m.iter().all(|&b| b));
}

#[test]
fn left_bar_tabs() {
    assert_eq!(LeftTab::all(), [LeftTab::Transport, LeftTab::Soundfonts, LeftTab::Channels]);
    assert_eq!(LeftTab::Transport.icon(), "▶");
    assert_eq!(LeftTab::Soundfonts.icon(), "🏦");
    assert_eq!(LeftTab::Channels.icon(), "🔀");
    assert_eq!(LeftTab::Transport.tooltip(), "Transport / Playback Control");
    assert_eq!(LeftTab::Soundfonts.tooltip(), "SoundFont Manager");
    assert_eq!(LeftTab::Channels.tooltip(), "Channel Matrix");
    assert_eq!(selected_tab(2), LeftTab::Channels);
    assert_eq!(selected_tab(7), LeftTab::Transport);
}

#[test]
fn enabled_paths_in_order() {
    let entries = vec![entry("a.sf2", true), entry("b.sf2", false), entry("c.sfz", true)];
    assert_eq!(enabled_paths(&entries), vec!["/sf/a.sf2".to_string(), "/sf/c.sfz".to_string()]);
    assert_eq!(enabled_count(&entries), 2);
}

#[test]
fn remove_selected_keeps_order() {
    let entries = vec![entry("a", true), entry("b", true), entry("c", true), entry("d", true)];
    let kept = remove_selected(&entries, &vec![2, 0, 9]);
    assert_eq!(names(&kept), vec!["b", "d"]);
}

#[test]
fn copy_port_to_all() {
    let mut ports: [PortSoundfonts; 16] = std::array::from_fn(|_| PortSoundfonts { entries: Vec::new() });
    ports[4].entries = vec![entry("x", true), entry("y", false)];
    ports[7].entries = vec![entry("z", true)];
    copy_to_all_ports(&mut ports, 4);
    for p in ports.iter() {
        assert_eq!(names(&p.entries), vec!["x", "y"]);
        assert!(!p.entries[1].enabled);
    }
}

#[test]
fn selection_clicks() {
    let mut sel = Vec::new();
    let mut edit = false;
    handle_selection(3, &mut sel, &mut edit, PLAIN);
    assert!(edit);
    assert_eq!(sel, vec![3]);
    handle_selection(3, &mut sel, &mut edit, PLAIN);
    assert!(!edit);
    assert!(sel.is_empty());
    handle_selection(1, &mut sel, &mut edit, PLAIN);
    handle_selection(5, &mut sel, &mut edit, CTRL);
    assert_eq!(sel, vec![1, 5]);
    handle_selection(1, &mut sel, &mut edit, CTRL);
    assert_eq!(sel, vec![5]);
    handle_selection(2, &mut sel, &mut edit, SHIFT);
    assert_eq!(sel, vec![5, 2, 3, 4]);
    handle_selection(7, &mut sel, &mut edit, SHIFT);
    assert_eq!(sel, vec![5, 2, 3, 4, 6, 7]);
    handle_selection(0, &mut sel, &mut edit, PLAIN);
    assert_eq!(sel, vec![0]);
    assert!(edit);
}

#[test]
fn ctrl_click_twice_restores() {
    let mut sel = vec![4, 1];
    let mut edit = true;
    handle_selection(2, &mut sel, &mut edit, CTRL);
    handle_selection(2, &mut sel, &mut edit, CTRL);
    assert_eq!(sel, vec![4, 1]);
    assert!(edit);
}

#[test]
fn list_actions() {
    let mut entries = vec![entry("a", true), entry("b", true), entry("c", true), entry("d", true)];
    let mut sel = vec![0, 2, 3];
    assert!(!apply_list_action(&mut entries, &mut sel, None));
    assert!(apply_list_action(&mut entries, &mut sel, Some(ListAction::ToggleEnabled(1, false))));
    assert!(!entries[1].enabled);
    assert!(apply_list_action(&mut entries, &mut sel, Some(ListAction::Swap(2, 1))));
    assert_eq!(names(&entries), vec!["a", "c", "b", "d"]);
    assert!(apply_list_action(&mut entries, &mut sel, Some(ListAction::Remove(2))));
    assert_eq!(names(&entries), vec!["a", "c", "d"]);
    assert_eq!(sel, vec![0, 2]);
}

#[test]
fn drag_reorder_uses_the_final_position() {
    let entries = vec![entry("a", true), entry("b", true), entry("c", true), entry("d", true), entry("e", true)];
    // Drag b and d so that they land before e (position 2 among a, c, e).
    assert_eq!(names(&reorder_dragged(&entries, &vec![1, 3], 2)), vec!["a", "c", "b", "d", "e"]);
    // Dropping past the end appends the block.
    assert_eq!(names(&reorder_dragged(&entries, &vec![0], 99)), vec!["b", "c", "d", "e", "a"]);
    // Dropping back at its own place leaves the list as it was.
    assert_eq!(names(&reorder_dragged(&entries, &vec![2], 2)), vec!["a", "b", "c", "d", "e"]);
}

#[test]
fn select_all_and_list_result() {
    assert_eq!(select_all(4), vec![0, 1, 2, 3]);
    assert!(select_all(0).is_empty());
    let r = ListResult::default();
    assert!(!r.need_reload && !r.edit_changed && !r.drag_released);
}

#[test]
fn solo_checks_out_of_range_are_false() {
    // A short matrix whose row 1 reaches past the end, with an off cell inside.
    let mut m = vec![true; 20];
    m[17] = false;
    assert!(!is_solo_row(&m, 1));
    // A column whose cells are not all inside the matrix.
    let mut m = vec![false; 100];
    m[3] = false;
    assert!(!is_solo_column(&m, 3));
}

#[test]
fn matrix_clicks_dispatch_to_toggle_and_solo() {
    let mut m = vec![true; 256];
    // Left click on a cell flips it.
    matrix_click(&mut m, MatrixButton::Cell(5), MatrixClick::Primary);
    assert!(!m[5]);
    matrix_click(&mut m, MatrixButton::Cell(5), MatrixClick::Primary);
    assert!(m[5]);
    // Left click on a column header toggles the column.
    matrix_click(&mut m, MatrixButton::Column(2), MatrixClick::Primary);
    assert!((0..16).all(|p| !m[p * 16 + 2]));
    assert_eq!(m.iter().filter(|&&b| b).count(), 240);
    // Left click on a row header toggles the row: row 4 was not all on
    // (cell 66 is off), so it turns all on; a second click turns it all off.
    matrix_click(&mut m, MatrixButton::Row(4), MatrixClick::Primary);
    assert!((0..16).all(|c| m[64 + c]));
    matrix_click(&mut m, MatrixButton::Row(4), MatrixClick::Primary);
    assert!((0..16).all(|c| !m[64 + c]));
    // Right click on a row solos it; again unsolos everything.
    matrix_click(&mut m, MatrixButton::Row(4), MatrixClick::Secondary);
    assert!((0..256).all(|i| m[i] == (64..80).contains(&i)));
    matrix_click(&mut m, MatrixButton::Row(4), MatrixClick::Secondary);
    assert!(m.iter().all(|&b| b));
    // Right click on a column solos it, then on a cell solos the cell.
    matrix_click(&mut m, MatrixButton::Column(9), MatrixClick::Secondary);
    assert!((0..256).all(|i| m[i] == (i % 16 == 9)));
    matrix_click(&mut m, MatrixButton::Cell(7), MatrixClick::Secondary);
    assert!((0..256).all(|i| m[i] == (i == 7)));
    matrix_click(&mut m, MatrixButton::Cell(7), MatrixClick::Secondary);
    assert!(m.iter().all(|&b| b));
}

#[test]
fn dragging_an_unselected_row_selects_it_alone() {
    let mut sel = vec![3, 1];
    let mut edit = false;
    let (dragged, at, changed) = start_drag(4, &mut sel, &mut edit);
    assert_eq!(sel, vec![4]);
    assert!(edit && changed);
    assert_eq!(dragged, vec![4]);
    assert_eq!(at, 4);
    // Dragging a selected row drags the whole selection, sorted.
    let mut sel = vec![3, 0, 2];
    let mut edit = true;
    let (dragged, at, changed) = start_drag(2, &mut sel, &mut edit);
    assert_eq!(sel, vec![3, 0, 2]);
    assert!(edit && !changed);
    assert_eq!(dragged, vec![0, 2, 3]);
    assert_eq!(at, 2);
    assert_eq!(sorted_indices(&vec![5, 1, 5, 0]), vec![0, 1, 5, 5]);
}

#[test]
fn drop_position_counts_undragged_rows_above_the_pointer() {
    // Rows 0..5, rows 1 and 3 dragged; the pointer is above the centre of rows 4 and on.
    let above = vec![false, false, false, false, true];
    assert_eq!(drop_position(&vec![1, 3], &above), 2);
    // The pointer below every row: after all three undragged rows.
    assert_eq!(drop_position(&vec![1, 3], &vec![false; 5]), 3);
    // The pointer above the first row: position 0.
    assert_eq!(drop_position(&vec![1, 3], &vec![true; 5]), 0);
    // A dragged row's own centre does not count.
    assert_eq!(drop_position(&vec![0], &vec![true, false, true]), 1);
}

#[test]
fn selection_clicks_never_repeat_a_row() {
    let mods = Modifiers { command: false, ctrl: false, shift: true };
    let mut sel = vec![2, 4];
    let mut edit = true;
    handle_selection(0, &mut sel, &mut edit, mods);
    let mut sorted = sel.clone();
    sorted.sort();
    sorted.dedup();
    assert_eq!(sorted.len(), sel.len());
    assert!(sel.contains(&0));
}

#[test]
fn matrix_clicks_leave_switches_past_the_page() {
    let mut m = vec![true; 300];
    m[270] = false;
    matrix_click(&mut m, MatrixButton::Column(3), MatrixClick::Primary);
    assert!((0..16).all(|p| !m[p * 16 + 3]));
    // Cell 259 is in column 3 by its index, but lies past the page.
    assert!(m[259]);
    matrix_click(&mut m, MatrixButton::Row(1), MatrixClick::Secondary);
    assert!((0..256).all(|i| m[i] == (16..32).contains(&i)));
    assert!(m[259] && !m[270]);
    // Soloing a cell turns every other switch off, past the page too.
    matrix_click(&mut m, MatrixButton::Cell(0), MatrixClick::Secondary);
    assert!((0..300).all(|i| m[i] == (i == 0)));
}

#[test]
fn soundfont_files_are_read_once_across_ports() {
    let mut cache = SoundfontCacheKeys::new();
    let list = vec!["a.sf2".to_string(), "b.sf2".to_string(), "a.sf2".to_string()];
    // Drive a load of port 2 the way the engine does.
    let mut read = Vec::new();
    let mut done = 0;
    let channels = loop {
        match next_port_load_action(&cache, &list, done, 2) {
            PortLoadAction::LoadFromDisk(i) => {
                read.push(list[i].clone());
                record_loaded(&mut cache, &list[i]);
                done += 1;
            }
            PortLoadAction::Reuse(_) => done += 1,
            PortLoadAction::SendToChannels(chs) => break chs,
        }
    };
    assert_eq!(read, vec!["a.sf2".to_string(), "b.sf2".to_string()]);
    assert_eq!(channels, (32u32..48).collect::<Vec<_>>());
    // Port 5 with an overlapping list reads only the new file.
    let list2 = vec!["b.sf2".to_string(), "c.sf2".to_string()];
    assert!(matches!(next_port_load_action(&cache, &list2, 0, 5), PortLoadAction::Reuse(0)));
    assert!(matches!(next_port_load_action(&cache, &list2, 1, 5), PortLoadAction::LoadFromDisk(1)));
    record_loaded(&mut cache, &list2[1]);
    record_loaded(&mut cache, &list2[1]);
    assert_eq!(cache.paths, vec!["a.sf2".to_string(), "b.sf2".to_string(), "c.sf2".to_string()]);
    assert!(cache.contains(&"c.sf2".to_string()));
    assert!(!cache.contains(&"d.sf2".to_string()));
}
