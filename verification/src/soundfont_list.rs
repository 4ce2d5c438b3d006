//! Per-port soundfont lists and the editing operations on them: enabling,
//! multi-selection, removal, reordering by drag, copying a port's list to all
//! ports.
use vstd::prelude::*;

verus! {

/// One soundfont in a port's list.
pub struct SoundfontEntry {
    /// The file's path.
    pub path: String,
    /// The name shown (the file name).
    pub name: String,
    /// Whether the soundfont is loaded into the port.
    pub enabled: bool,
}

/// The soundfonts of one port, bottom to top: later ones override earlier ones.
pub struct PortSoundfonts {
    pub entries: Vec<SoundfontEntry>,
}

/// The number of ports, each with 16 channels.
pub const NUM_PORTS: usize = 16;

/// A change made to a list from its rows.
#[derive(Clone, Copy, Debug, PartialEq, Eq, Structural)]
pub enum ListAction {
    /// Switch entry `0` on or off.
    ToggleEnabled(usize, bool),
    /// Exchange two entries (move up / move down).
    Swap(usize, usize),
    /// Remove an entry.
    Remove(usize),
}

/// What drawing the list reports to its owner.
#[derive(Clone, Copy, Debug, PartialEq, Eq, Structural, Default)]
pub struct ListResult {
    /// The enabled soundfonts of the port changed: reload it.
    pub need_reload: bool,
    /// The selection or edit mode changed.
    pub edit_changed: bool,
    /// A drag ended.
    pub drag_released: bool,
}

/// The keyboard modifiers held during a click.
#[derive(Clone, Copy, Debug, PartialEq, Eq, Structural)]
pub struct Modifiers {
    pub command: bool,
    pub ctrl: bool,
    pub shift: bool,
}

/// The paths of the enabled entries, in list order.
pub open spec fn enabled_paths_spec(entries: Seq<SoundfontEntry>) -> Seq<String>
    decreases entries.len(),
{
    if entries.len() == 0 {
        Seq::empty()
    } else {
        enabled_paths_spec(entries.drop_last()) + if entries.last().enabled {
            seq![entries.last().path]
        } else {
            Seq::empty()
        }
    }
}

/// The entries whose index is not in `selected`, in list order.
pub open spec fn unselected(entries: Seq<SoundfontEntry>, selected: Seq<usize>) -> Seq<SoundfontEntry>
    decreases entries.len(),
{
    if entries.len() == 0 {
        Seq::empty()
    } else {
        unselected(entries.drop_last(), selected) + if selected.contains((entries.len() - 1) as usize) {
            Seq::empty()
        } else {
            seq![entries.last()]
        }
    }
}

/// The entries whose index is in `selected`, in list order.
pub open spec fn selected_entries(entries: Seq<SoundfontEntry>, selected: Seq<usize>) -> Seq<SoundfontEntry>
    decreases entries.len(),
{
    if entries.len() == 0 {
        Seq::empty()
    } else {
        selected_entries(entries.drop_last(), selected) + if selected.contains((entries.len() - 1) as usize) {
            seq![entries.last()]
        } else {
            Seq::empty()
        }
    }
}

fn copy_entry(entry: &SoundfontEntry) -> (res: SoundfontEntry)
    ensures
        res == *entry,
{
    SoundfontEntry { path: entry.path.clone(), name: entry.name.clone(), enabled: entry.enabled }
}

/// A copy of a list.
pub fn copy_entries(entries: &Vec<SoundfontEntry>) -> (res: Vec<SoundfontEntry>)
    ensures
        res@ == entries@,
{
    let mut res: Vec<SoundfontEntry> = Vec::new();
    let mut i: usize = 0;
    while i < entries.len()
        invariant
            i <= entries@.len(),
            res@ == entries@.take(i as int),
        decreases entries.len() - i,
    {
        res.push(copy_entry(&entries[i]));
        i = i + 1;
        assert(res@ =~= entries@.take(i as int));
    }
    assert(entries@.take(i as int) =~= entries@);
    res
}

fn contains_index(selected: &Vec<usize>, i: usize) -> (res: bool)
    ensures
        res == selected@.contains(i),
{
    let mut k: usize = 0;
    while k < selected.len()
        invariant
            k <= selected@.len(),
            forall|j: int| 0 <= j < k ==> selected@[j] != i,
        decreases selected.len() - k,
    {
        if selected[k] == i {
            assert(selected@[k as int] == i);
            return true;
        }
        k = k + 1;
    }
    false
}

/// `path` is the path of an enabled entry.
pub open spec fn is_enabled_path(entries: Seq<SoundfontEntry>, path: String) -> bool {
    exists|k: int| 0 <= k < entries.len() && (#[trigger] entries[k]).enabled && entries[k].path == path
}

/// The enabled paths are the paths of the enabled entries, each once per
/// entry, in list order: their number is that of the enabled entries, each
/// comes from an enabled entry, and every enabled entry's path is among them.
pub proof fn law_enabled_paths(entries: Seq<SoundfontEntry>)
    ensures
        enabled_paths_spec(entries).len() == entries.filter(|e: SoundfontEntry| e.enabled).len(),
        forall|i: int| 0 <= i < enabled_paths_spec(entries).len() ==> is_enabled_path(entries, #[trigger] enabled_paths_spec(entries)[i]),
        forall|k: int| 0 <= k < entries.len() && (#[trigger] entries[k]).enabled ==> enabled_paths_spec(entries).contains(entries[k].path),
    decreases entries.len(),
{
    reveal(Seq::filter);
    if entries.len() > 0 {
        let d = entries.drop_last();
        law_enabled_paths(d);
        let a = enabled_paths_spec(d);
        let r = enabled_paths_spec(entries);
        let n = entries.len() - 1;
        assert(entries.last() == entries[n]);
        let piece = if entries[n].enabled { seq![entries[n].path] } else { Seq::<String>::empty() };
        assert(r == a + piece);
        assert forall|i: int| 0 <= i < r.len() implies is_enabled_path(entries, #[trigger] r[i]) by {
            if i < a.len() {
                assert(r[i] == a[i]);
                assert(is_enabled_path(d, a[i]));
                let k = choose|k: int| 0 <= k < d.len() && (#[trigger] d[k]).enabled && d[k].path == a[i];
                assert(entries[k] == d[k]);
            } else {
                assert(r[i] == piece[i - a.len()]);
                assert(entries[n].enabled);
            }
        }
        assert forall|k: int| 0 <= k < entries.len() && (#[trigger] entries[k]).enabled implies r.contains(entries[k].path) by {
            if k < n {
                assert(d[k] == entries[k]);
                assert(a.contains(d[k].path));
                let w = choose|w: int| 0 <= w < a.len() && a[w] == d[k].path;
                assert(r[w] == a[w]);
            } else {
                assert(r[a.len() as int] == entries[n].path);
            }
        }
    } else {
        assert(enabled_paths_spec(entries).len() == 0);
    }
}

/// `x` is an entry whose index is selected (`want`) or not selected (`!want`).
pub open spec fn entry_where(entries: Seq<SoundfontEntry>, selected: Seq<usize>, x: SoundfontEntry, want: bool) -> bool {
    exists|k: int| 0 <= k < entries.len() && (#[trigger] entries[k]) == x && selected.contains(k as usize) == want
}

/// Splitting a list by a selection keeps every entry exactly once: the
/// entries not selected and the selected ones together are as many as the
/// list; each kept entry is one whose index is not selected and each moved
/// entry one whose index is; and every entry lands on its side.
pub proof fn law_selection_split(entries: Seq<SoundfontEntry>, selected: Seq<usize>)
    requires
        entries.len() <= usize::MAX + 1,
    ensures
        unselected(entries, selected).len() + selected_entries(entries, selected).len() == entries.len(),
        forall|i: int| 0 <= i < unselected(entries, selected).len() ==> entry_where(entries, selected, #[trigger] unselected(entries, selected)[i], false),
        forall|i: int| 0 <= i < selected_entries(entries, selected).len() ==> entry_where(entries, selected, #[trigger] selected_entries(entries, selected)[i], true),
        forall|k: int| 0 <= k < entries.len() && !selected.contains(k as usize) ==> unselected(entries, selected).contains(#[trigger] entries[k]),
        forall|k: int| 0 <= k < entries.len() && selected.contains(k as usize) ==> selected_entries(entries, selected).contains(#[trigger] entries[k]),
    decreases entries.len(),
{
    if entries.len() > 0 {
        let d = entries.drop_last();
        let n = entries.len() - 1;
        law_selection_split(d, selected);
        assert(entries.last() == entries[n]);
        let u = unselected(entries, selected);
        let v = selected_entries(entries, selected);
        let ud = unselected(d, selected);
        let vd = selected_entries(d, selected);
        let up = if selected.contains(n as usize) { Seq::<SoundfontEntry>::empty() } else { seq![entries[n]] };
        let vp = if selected.contains(n as usize) { seq![entries[n]] } else { Seq::<SoundfontEntry>::empty() };
        assert(u == ud + up);
        assert(v == vd + vp);
        assert forall|i: int| 0 <= i < u.len() implies entry_where(entries, selected, #[trigger] u[i], false) by {
            if i < ud.len() {
                assert(u[i] == ud[i]);
                assert(entry_where(d, selected, ud[i], false));
                let k = choose|k: int| 0 <= k < d.len() && (#[trigger] d[k]) == ud[i] && selected.contains(k as usize) == false;
                assert(entries[k] == d[k]);
            } else {
                assert(u[i] == entries[n]);
            }
        }
        assert forall|i: int| 0 <= i < v.len() implies entry_where(entries, selected, #[trigger] v[i], true) by {
            if i < vd.len() {
                assert(v[i] == vd[i]);
                assert(entry_where(d, selected, vd[i], true));
                let k = choose|k: int| 0 <= k < d.len() && (#[trigger] d[k]) == vd[i] && selected.contains(k as usize) == true;
                assert(entries[k] == d[k]);
            } else {
                assert(v[i] == entries[n]);
            }
        }
        assert forall|k: int| 0 <= k < entries.len() && !selected.contains(k as usize) implies u.contains(#[trigger] entries[k]) by {
            if k < n {
                assert(d[k] == entries[k]);
                assert(ud.contains(d[k]));
                let w = choose|w: int| 0 <= w < ud.len() && ud[w] == d[k];
                assert(u[w] == ud[w]);
            } else {
                assert(u[ud.len() as int] == entries[n]);
            }
        }
        assert forall|k: int| 0 <= k < entries.len() && selected.contains(k as usize) implies v.contains(#[trigger] entries[k]) by {
            if k < n {
                assert(d[k] == entries[k]);
                assert(vd.contains(d[k]));
                let w = choose|w: int| 0 <= w < vd.len() && vd[w] == d[k];
                assert(v[w] == vd[w]);
            } else {
                assert(v[vd.len() as int] == entries[n]);
            }
        }
    }
}

/// The paths of the enabled soundfonts, bottom to top: what a port loads.
pub fn enabled_paths(entries: &Vec<SoundfontEntry>) -> (res: Vec<String>)
    ensures
        res@ == enabled_paths_spec(entries@),
{
    let mut res: Vec<String> = Vec::new();
    let mut i: usize = 0;
    while i < entries.len()
        invariant
            i <= entries@.len(),
            res@ == enabled_paths_spec(entries@.take(i as int)),
        decreases entries.len() - i,
    {
        assert(entries@.take(i + 1).drop_last() =~= entries@.take(i as int));
        if entries[i].enabled {
            res.push(entries[i].path.clone());
        }
        i = i + 1;
    }
    assert(entries@.take(i as int) =~= entries@);
    res
}

/// The number of enabled soundfonts.
pub fn enabled_count(entries: &Vec<SoundfontEntry>) -> (res: usize)
    ensures
        res == enabled_paths_spec(entries@).len(),
{
    let mut n: usize = 0;
    let mut i: usize = 0;
    while i < entries.len()
        invariant
            i <= entries@.len(),
            n == enabled_paths_spec(entries@.take(i as int)).len(),
            n <= i,
        decreases entries.len() - i,
    {
        assert(entries@.take(i + 1).drop_last() =~= entries@.take(i as int));
        if entries[i].enabled {
            n = n + 1;
        }
        i = i + 1;
    }
    assert(entries@.take(i as int) =~= entries@);
    n
}

/// The list without the selected entries.
pub fn remove_selected(entries: &Vec<SoundfontEntry>, selected: &Vec<usize>) -> (res: Vec<SoundfontEntry>)
    ensures
        res@ == unselected(entries@, selected@),
{
    let mut res: Vec<SoundfontEntry> = Vec::new();
    let mut i: usize = 0;
    while i < entries.len()
        invariant
            i <= entries@.len(),
            res@ == unselected(entries@.take(i as int), selected@),
        decreases entries.len() - i,
    {
        assert(entries@.take(i + 1).drop_last() =~= entries@.take(i as int));
        if !contains_index(selected, i) {
            res.push(copy_entry(&entries[i]));
        }
        i = i + 1;
    }
    assert(entries@.take(i as int) =~= entries@);
    res
}

/// Gives every port the list of port `port`.
pub fn copy_to_all_ports(ports: &mut [PortSoundfonts; 16], port: usize)
    requires
        port < NUM_PORTS,
    ensures
        forall|i: int| 0 <= i < 16 ==> (#[trigger] final(ports)@[i]).entries@ == old(ports)@[port as int].entries@,
{
    let entries = copy_entries(&ports[port].entries);
    let mut i: usize = 0;
    while i < NUM_PORTS
        invariant
            i <= 16,
            port < 16,
            entries@ == old(ports)@[port as int].entries@,
            forall|k: int| 0 <= k < i ==> (#[trigger] ports@[k]).entries@ == entries@,
            forall|k: int| i <= k < 16 ==> #[trigger] ports@[k] == old(ports)@[k],
        decreases NUM_PORTS - i,
    {
        if i != port {
            ports[i] = PortSoundfonts { entries: copy_entries(&entries) };
        }
        i = i + 1;
    }
}

/// Selects every entry of a list of `count` entries.
pub fn select_all(count: usize) -> (res: Vec<usize>)
    ensures
        res@ == Seq::new(count as nat, |k: int| k as usize),
{
    let mut res: Vec<usize> = Vec::new();
    let mut k: usize = 0;
    while k < count
        invariant
            k <= count,
            res@ == Seq::new(k as nat, |j: int| j as usize),
        decreases count - k,
    {
        res.push(k);
        k = k + 1;
        assert(res@ =~= Seq::new(k as nat, |j: int| j as usize));
    }
    res
}

/// The first position of `x` in `s` (`s.len()` where it does not occur).
pub open spec fn first_position(s: Seq<usize>, x: usize) -> int
    decreases s.len(),
{
    if s.len() == 0 {
        0
    } else if s[0] == x {
        0
    } else {
        1 + first_position(s.drop_first(), x)
    }
}

/// `sel` with each index of `lo..=hi` that it lacks appended, in ascending order.
pub open spec fn range_added(sel: Seq<usize>, lo: int, hi: int) -> Seq<usize>
    decreases hi - lo + 1,
{
    if hi < lo {
        sel
    } else {
        let s = range_added(sel, lo, hi - 1);
        if s.contains(hi as usize) {
            s
        } else {
            s.push(hi as usize)
        }
    }
}

/// The selection and edit mode after clicking row `i`.
///
/// Outside edit mode a click enters it and selects the row. A plain click on
/// the only selected row leaves edit mode. Ctrl (or Cmd) toggles the row in
/// the selection. Shift adds every row between the last selected one and `i`.
/// Any other click selects just the row.
pub open spec fn selection_after_click(i: usize, sel: Seq<usize>, is_edit: bool, m: Modifiers) -> (Seq<usize>, bool) {
    if !is_edit {
        (seq![i], true)
    } else if !m.command && !m.ctrl && !m.shift && sel.len() == 1 && sel[0] == i {
        (Seq::empty(), false)
    } else if m.command || m.ctrl {
        if sel.contains(i) {
            (sel.remove(first_position(sel, i)), true)
        } else {
            (sel.push(i), true)
        }
    } else if m.shift && sel.len() > 0 {
        let last = sel.last();
        if i > last {
            (range_added(sel, last as int, i as int), true)
        } else {
            (range_added(sel, i as int, last as int), true)
        }
    } else {
        (seq![i], true)
    }
}

/// The selection after removing entry `i`: `i` leaves it and later indices
/// move down by one.
pub open spec fn selection_after_remove(sel: Seq<usize>, i: usize) -> Seq<usize>
    decreases sel.len(),
{
    if sel.len() == 0 {
        Seq::empty()
    } else {
        selection_after_remove(sel.drop_last(), i) + if sel.last() == i {
            Seq::empty()
        } else {
            seq![if sel.last() > i { (sel.last() - 1) as usize } else { sel.last() }]
        }
    }
}

/// The list after dropping the dragged entries at `insert`: the other entries
/// keep their order, and the dragged ones, in list order, go in as one block
/// at position `insert` of the remaining list (at its end where `insert` is
/// past it).
pub open spec fn drag_result(entries: Seq<SoundfontEntry>, dragged: Seq<usize>, insert: usize) -> Seq<SoundfontEntry> {
    let rest = unselected(entries, dragged);
    let moved = selected_entries(entries, dragged);
    let at = if insert < rest.len() { insert as int } else { rest.len() as int };
    rest.take(at) + moved + rest.skip(at)
}

proof fn lemma_first_position(s: Seq<usize>, x: usize)
    ensures
        0 <= first_position(s, x) <= s.len(),
        forall|k: int| 0 <= k < first_position(s, x) ==> s[k] != x,
        first_position(s, x) < s.len() ==> s[first_position(s, x)] == x,
    decreases s.len(),
{
    if s.len() > 0 && s[0] != x {
        lemma_first_position(s.drop_first(), x);
        assert forall|k: int| 0 <= k < first_position(s, x) implies s[k] != x by {
            if k > 0 {
                assert(s[k] == s.drop_first()[k - 1]);
            }
        }
    }
}

proof fn lemma_first_position_is(s: Seq<usize>, x: usize, p: int)
    requires
        0 <= p < s.len(),
        s[p] == x,
        forall|k: int| 0 <= k < p ==> s[k] != x,
    ensures
        first_position(s, x) == p,
{
    lemma_first_position(s, x);
    if first_position(s, x) < p {
    } else if first_position(s, x) > p {
    }
}


/// Ctrl-clicking (or Cmd-clicking) an unselected row twice, in edit mode,
/// gives back the selection it started from.
pub proof fn law_ctrl_click_twice_restores(i: usize, sel: Seq<usize>, m: Modifiers)
    requires
        m.command || m.ctrl,
        !sel.contains(i),
    ensures
        selection_after_click(i, selection_after_click(i, sel, true, m).0, true, m) == (sel, true),
{
    let once = sel.push(i);
    assert(selection_after_click(i, sel, true, m) == (once, true));
    assert(once[sel.len() as int] == i);
    assert forall|k: int| 0 <= k < sel.len() implies once[k] != i by {
        assert(once[k] == sel[k]);
    }
    lemma_first_position_is(once, i, sel.len() as int);
    assert(once.contains(i));
    assert(once.remove(sel.len() as int) =~= sel);
}

proof fn lemma_drag_split_len(entries: Seq<SoundfontEntry>, dragged: Seq<usize>)
    ensures
        unselected(entries, dragged).len() + selected_entries(entries, dragged).len() == entries.len(),
    decreases entries.len(),
{
    if entries.len() > 0 {
        lemma_drag_split_len(entries.drop_last(), dragged);
    }
}

/// Dropping dragged entries keeps every entry: the list keeps its length, and
/// the dragged entries, in list order, sit together at the drop position.
pub proof fn law_drag_keeps_entries(entries: Seq<SoundfontEntry>, dragged: Seq<usize>, insert: usize)
    ensures
        drag_result(entries, dragged, insert).len() == entries.len(),
        ({
            let rest = unselected(entries, dragged);
            let at = if insert < rest.len() { insert as int } else { rest.len() as int };
            drag_result(entries, dragged, insert).subrange(at, at + selected_entries(entries, dragged).len())
                == selected_entries(entries, dragged)
        }),
{
    lemma_drag_split_len(entries, dragged);
    let rest = unselected(entries, dragged);
    let moved = selected_entries(entries, dragged);
    let at = if insert < rest.len() { insert as int } else { rest.len() as int };
    let r = drag_result(entries, dragged, insert);
    assert(r.subrange(at, at + moved.len()) =~= moved);
}

/// Removing an entry keeps the selection pointing into the list: indices that
/// were in range stay in range of the shorter list.
pub proof fn law_remove_keeps_selection_in_range(sel: Seq<usize>, i: usize, len: nat)
    requires
        i < len,
        forall|k: int| 0 <= k < sel.len() ==> sel[k] < len,
    ensures
        forall|k: int| 0 <= k < selection_after_remove(sel, i).len() ==> #[trigger] selection_after_remove(sel, i)[k] < len - 1,
    decreases sel.len(),
{
    if sel.len() > 0 {
        law_remove_keeps_selection_in_range(sel.drop_last(), i, len);
        let a = selection_after_remove(sel.drop_last(), i);
        let r = selection_after_remove(sel, i);
        assert forall|k: int| 0 <= k < r.len() implies #[trigger] r[k] < len - 1 by {
            if k < a.len() {
                assert(r[k] == a[k]);
            }
        }
    }
}

proof fn lemma_push_distinct(s: Seq<usize>, x: usize)
    requires
        !s.contains(x),
    ensures
        s.no_duplicates() ==> s.push(x).no_duplicates(),
        s.push(x).contains(x),
        forall|y: usize| s.contains(y) ==> #[trigger] s.push(x).contains(y),
{
    let r = s.push(x);
    assert forall|a: int, b: int| s.no_duplicates() && 0 <= a < r.len() && 0 <= b < r.len() && a != b implies r[a] != r[b] by {
        if a < s.len() && b < s.len() {
            assert(r[a] == s[a] && r[b] == s[b]);
        } else if a < s.len() {
            assert(r[a] == s[a]);
        } else {
            assert(r[b] == s[b]);
        }
    }
    assert(r[s.len() as int] == x);
    assert forall|y: usize| s.contains(y) implies #[trigger] r.contains(y) by {
        let k = choose|k: int| 0 <= k < s.len() && s[k] == y;
        assert(r[k] == y);
    }
}

proof fn lemma_range_added(sel: Seq<usize>, lo: int, hi: int)
    requires
        0 <= lo,
        hi <= usize::MAX,
    ensures
        sel.no_duplicates() ==> range_added(sel, lo, hi).no_duplicates(),
        forall|k: int| lo <= k <= hi ==> #[trigger] range_added(sel, lo, hi).contains(k as usize),
    decreases hi - lo + 1,
{
    if hi >= lo {
        lemma_range_added(sel, lo, hi - 1);
        let s = range_added(sel, lo, hi - 1);
        if !s.contains(hi as usize) {
            lemma_push_distinct(s, hi as usize);
        }
        assert forall|k: int| lo <= k <= hi implies #[trigger] range_added(sel, lo, hi).contains(k as usize) by {
            if k < hi {
                assert(s.contains(k as usize));
            }
        }
    }
}

proof fn lemma_remove_distinct(s: Seq<usize>, p: int)
    requires
        s.no_duplicates(),
        0 <= p < s.len(),
    ensures
        s.remove(p).no_duplicates(),
{
    let r = s.remove(p);
    assert forall|a: int, b: int| 0 <= a < r.len() && 0 <= b < r.len() && a != b implies r[a] != r[b] by {
        let sa = if a < p { a } else { a + 1 };
        let sb = if b < p { b } else { b + 1 };
        assert(r[a] == s[sa] && r[b] == s[sb]);
    }
}

/// A click never puts a row into the selection twice, and it leaves the
/// clicked row selected, unless the click deselected it: in edit mode, a
/// Ctrl (or Cmd) click on a selected row, or a plain click on the only
/// selected row.
pub proof fn law_click_keeps_selection_distinct(i: usize, sel: Seq<usize>, is_edit: bool, m: Modifiers)
    ensures
        sel.no_duplicates() ==> selection_after_click(i, sel, is_edit, m).0.no_duplicates(),
        selection_after_click(i, sel, is_edit, m).0.contains(i)
            || (is_edit && (m.command || m.ctrl) && sel.contains(i))
            || (is_edit && !m.command && !m.ctrl && !m.shift && sel.len() == 1 && sel[0] == i),
{
    let single = seq![i];
    assert(single[0] == i);
    if !is_edit {
    } else if !m.command && !m.ctrl && !m.shift && sel.len() == 1 && sel[0] == i {
    } else if m.command || m.ctrl {
        if sel.contains(i) {
            lemma_first_position(sel, i);
            if sel.no_duplicates() {
                lemma_remove_distinct(sel, first_position(sel, i));
            }
        } else {
            lemma_push_distinct(sel, i);
        }
    } else if m.shift && sel.len() > 0 {
        let last = sel.last();
        if i > last {
            lemma_range_added(sel, last as int, i as int);
            assert(range_added(sel, last as int, i as int).contains(i as int as usize));
        } else {
            lemma_range_added(sel, i as int, last as int);
            assert(range_added(sel, i as int, last as int).contains(i as int as usize));
        }
    }
}

/// The indices of `s` in ascending order.
pub open spec fn ascending(s: Seq<usize>) -> bool {
    forall|a: int, b: int| 0 <= a <= b < s.len() ==> s[a] <= s[b]
}

/// The indices of `selected` sorted in ascending order, each as often as it
/// occurs.
pub fn sorted_indices(selected: &Vec<usize>) -> (res: Vec<usize>)
    ensures
        ascending(res@),
        res@.to_multiset() == selected@.to_multiset(),
{
    let mut res: Vec<usize> = Vec::new();
    let mut k: usize = 0;
    assert(res@ =~= selected@.take(0));
    while k < selected.len()
        invariant
            k <= selected@.len(),
            ascending(res@),
            res@.to_multiset() == selected@.take(k as int).to_multiset(),
        decreases selected.len() - k,
    {
        let x = selected[k];
        let mut p: usize = 0;
        while p < res.len() && res[p] <= x
            invariant
                p <= res@.len(),
                forall|j: int| 0 <= j < p ==> res@[j] <= x,
            decreases res.len() - p,
        {
            p = p + 1;
        }
        let ghost before = res@;
        res.insert(p, x);
        proof {
            vstd::seq_lib::to_multiset_insert(before, p as int, x);
            vstd::seq_lib::to_multiset_build(selected@.take(k as int), x);
            assert(selected@.take(k + 1) =~= selected@.take(k as int).push(x));
            assert forall|a: int, b: int| 0 <= a <= b < res@.len() implies res@[a] <= res@[b] by {
                if a < p && b < p {
                    assert(res@[a] == before[a] && res@[b] == before[b]);
                } else if a < p && b == p {
                    assert(res@[a] == before[a]);
                } else if a < p {
                    assert(res@[a] == before[a] && res@[b] == before[b - 1]);
                } else if a == p && b > p {
                    assert(res@[b] == before[b - 1]);
                    assert(before[p as int] > x);
                } else if a > p {
                    assert(res@[a] == before[a - 1] && res@[b] == before[b - 1]);
                }
            }
        }
        k = k + 1;
    }
    assert(selected@.take(k as int) =~= selected@);
    res
}

/// Starts dragging row `i`. A row outside the selection becomes the only
/// selected row, in edit mode; a selected row drags the whole selection.
/// Gives the dragged rows in ascending order, the drop position (row `i`),
/// and whether the selection or edit mode changed.
pub fn start_drag(i: usize, selected: &mut Vec<usize>, is_edit: &mut bool) -> (res: (Vec<usize>, usize, bool))
    ensures
        old(selected)@.contains(i) ==> final(selected)@ == old(selected)@ && *final(is_edit) == *old(is_edit) && !res.2,
        !old(selected)@.contains(i) ==> final(selected)@ == seq![i] && *final(is_edit) && res.2,
        ascending(res.0@),
        res.0@.to_multiset() == final(selected)@.to_multiset(),
        res.1 == i,
{
    let mut edit_changed = false;
    if !contains_index(selected, i) {
        selected.clear();
        selected.push(i);
        *is_edit = true;
        edit_changed = true;
        assert(selected@ =~= seq![i]);
    }
    let dragged = sorted_indices(selected);
    (dragged, i, edit_changed)
}

/// Where dragged rows would drop, counted among the rows not being dragged:
/// before the first of those rows whose centre lies below the pointer
/// (`above[k]`: the pointer is above the centre of row `k`), after all of
/// them where there is none. Rows from `k` on are looked at.
pub open spec fn drop_from(dragged: Seq<usize>, above: Seq<bool>, k: int) -> int
    decreases above.len() - k,
{
    if k < 0 || k >= above.len() {
        0
    } else if dragged.contains(k as usize) {
        drop_from(dragged, above, k + 1)
    } else if above[k] {
        0
    } else {
        1 + drop_from(dragged, above, k + 1)
    }
}

/// The drop position of dragged rows, among the rows not being dragged, for
/// the pointer's place against each row's centre.
pub fn drop_position(dragged: &Vec<usize>, above: &Vec<bool>) -> (res: usize)
    ensures
        res == drop_from(dragged@, above@, 0),
{
    let mut visible: usize = 0;
    let mut k: usize = 0;
    while k < above.len()
        invariant
            k <= above@.len(),
            visible <= k,
            drop_from(dragged@, above@, 0) == visible + drop_from(dragged@, above@, k as int),
        decreases above.len() - k,
    {
        if !contains_index(dragged, k) {
            if above[k] {
                return visible;
            }
            visible = visible + 1;
        }
        k = k + 1;
    }
    visible
}

proof fn lemma_range_added_exact(sel: Seq<usize>, lo: int, hi: int)
    requires
        0 <= lo,
        hi <= usize::MAX,
    ensures
        forall|x: usize| #[trigger] range_added(sel, lo, hi).contains(x) <==> (sel.contains(x) || lo <= x <= hi),
        range_added(sel, lo, hi).len() >= sel.len(),
        range_added(sel, lo, hi).take(sel.len() as int) == sel,
    decreases hi - lo + 1,
{
    lemma_range_added(sel, lo, hi);
    if hi >= lo {
        lemma_range_added_exact(sel, lo, hi - 1);
        let s = range_added(sel, lo, hi - 1);
        if !s.contains(hi as usize) {
            lemma_push_distinct(s, hi as usize);
            let r = s.push(hi as usize);
            assert forall|x: usize| #[trigger] r.contains(x) implies (s.contains(x) || x == hi) by {
                let k = choose|k: int| 0 <= k < r.len() && r[k] == x;
                if k < s.len() {
                    assert(s[k] == x);
                }
            }
            assert(r.take(sel.len() as int) =~= s.take(sel.len() as int));
        }
        assert forall|x: usize| #[trigger] range_added(sel, lo, hi).contains(x) implies (sel.contains(x) || lo <= x <= hi) by {
            if !s.contains(hi as usize) {
                if s.contains(x) {
                }
            }
        }
        assert forall|x: usize| sel.contains(x) || lo <= x <= hi implies #[trigger] range_added(sel, lo, hi).contains(x) by {
            if sel.contains(x) {
                assert(s.contains(x));
                if !s.contains(hi as usize) {
                    lemma_push_distinct(s, hi as usize);
                }
            } else {
                assert(range_added(sel, lo, hi).contains(x as int as usize));
            }
        }
    } else {
        assert(sel.take(sel.len() as int) =~= sel);
    }
}

proof fn lemma_remove_first(sel: Seq<usize>, i: usize)
    requires
        sel.no_duplicates(),
        sel.contains(i),
    ensures
        forall|x: usize| #[trigger] sel.remove(first_position(sel, i)).contains(x) <==> (sel.contains(x) && x != i),
{
    lemma_first_position(sel, i);
    let p = first_position(sel, i);
    let r = sel.remove(p);
    assert forall|x: usize| #[trigger] r.contains(x) <==> (sel.contains(x) && x != i) by {
        if r.contains(x) {
            let k = choose|k: int| 0 <= k < r.len() && r[k] == x;
            let sk = if k < p { k } else { k + 1 };
            assert(r[k] == sel[sk]);
            assert(sk != p);
            assert(sel[sk] != sel[p]);
        }
        if sel.contains(x) && x != i {
            let k = choose|k: int| 0 <= k < sel.len() && sel[k] == x;
            assert(k != p);
            if k < p {
                assert(r[k] == x);
            } else {
                assert(r[k - 1] == x);
            }
        }
    }
}

/// Outside edit mode, any click enters edit mode with just the clicked row
/// selected.
pub proof fn law_click_outside_edit_selects_row(i: usize, sel: Seq<usize>, m: Modifiers)
    ensures
        selection_after_click(i, sel, false, m) == (seq![i], true),
{
}

/// In edit mode, a click without Cmd, Ctrl or Shift selects just the clicked
/// row; only when that row is already the whole selection does the click
/// clear the selection and leave edit mode.
pub proof fn law_plain_click(i: usize, sel: Seq<usize>)
    ensures
        ({
            let plain = Modifiers { command: false, ctrl: false, shift: false };
            &&& sel == seq![i] ==> selection_after_click(i, sel, true, plain) == (Seq::<usize>::empty(), false)
            &&& sel != seq![i] ==> selection_after_click(i, sel, true, plain) == (seq![i], true)
        }),
{
    if sel.len() == 1 && sel[0] == i {
        assert(sel =~= seq![i]);
    }
}

/// In edit mode, a Ctrl (or Cmd) click toggles the clicked row: it joins the
/// selection when it was not selected and leaves it when it was; every other
/// row keeps its state, and edit mode stays on.
pub proof fn law_ctrl_click_toggles(i: usize, sel: Seq<usize>, m: Modifiers)
    requires
        m.command || m.ctrl,
        sel.no_duplicates(),
    ensures
        selection_after_click(i, sel, true, m).1,
        forall|x: usize| x != i ==> (#[trigger] selection_after_click(i, sel, true, m).0.contains(x) <==> sel.contains(x)),
        selection_after_click(i, sel, true, m).0.contains(i) <==> !sel.contains(i),
{
    let r = selection_after_click(i, sel, true, m).0;
    if sel.contains(i) {
        lemma_remove_first(sel, i);
    } else {
        lemma_push_distinct(sel, i);
        assert forall|x: usize| x != i && #[trigger] r.contains(x) implies sel.contains(x) by {
            let k = choose|k: int| 0 <= k < r.len() && r[k] == x;
            if k < sel.len() {
                assert(r[k] == sel[k]);
            }
        }
    }
}

/// In edit mode, a Shift click with rows selected (and neither Cmd nor Ctrl)
/// keeps the selection as it was, in its order, and adds every row between
/// the last selected row and the clicked one, both included; nothing else is
/// selected.
pub proof fn law_shift_click_adds_range(i: usize, sel: Seq<usize>)
    requires
        sel.len() > 0,
    ensures
        ({
            let m = Modifiers { command: false, ctrl: false, shift: true };
            let r = selection_after_click(i, sel, true, m);
            let last = sel[sel.len() - 1];
            let lo = if i < last { i } else { last };
            let hi = if i < last { last } else { i };
            &&& r.1
            &&& r.0.len() >= sel.len()
            &&& r.0.take(sel.len() as int) == sel
            &&& forall|x: usize| #[trigger] r.0.contains(x) <==> (sel.contains(x) || lo <= x <= hi)
        }),
{
    let last = sel.last();
    if i > last {
        lemma_range_added_exact(sel, last as int, i as int);
    } else {
        lemma_range_added_exact(sel, i as int, last as int);
    }
}

/// In edit mode, a Shift click with nothing selected selects just the row.
pub proof fn law_shift_click_on_empty_selection(i: usize)
    ensures
        selection_after_click(i, Seq::empty(), true, Modifiers { command: false, ctrl: false, shift: true }) == (seq![i], true),
{
}

/// Updates the selection and edit mode for a click on row `i`.
pub fn handle_selection(i: usize, selected: &mut Vec<usize>, is_edit: &mut bool, modifiers: Modifiers)
    ensures
        (final(selected)@, *final(is_edit)) == selection_after_click(i, old(selected)@, *old(is_edit), modifiers),
        old(selected)@.no_duplicates() ==> final(selected)@.no_duplicates(),
        final(selected)@.contains(i)
            || (*old(is_edit) && (modifiers.command || modifiers.ctrl) && old(selected)@.contains(i))
            || (*old(is_edit) && !modifiers.command && !modifiers.ctrl && !modifiers.shift
                && old(selected)@.len() == 1 && old(selected)@[0] == i),
{
    proof {
        law_click_keeps_selection_distinct(i, old(selected)@, *old(is_edit), modifiers);
    }
    if !*is_edit {
        *is_edit = true;
        selected.clear();
        selected.push(i);
        assert(selected@ =~= seq![i]);
        return;
    }
    if !modifiers.command && !modifiers.ctrl && !modifiers.shift && selected.len() == 1 && selected[0] == i {
        *is_edit = false;
        selected.clear();
        return;
    }
    if modifiers.command || modifiers.ctrl {
        let mut pos: usize = 0;
        while pos < selected.len() && selected[pos] != i
            invariant
                pos <= selected@.len(),
                selected@ == old(selected)@,
                forall|k: int| 0 <= k < pos ==> selected@[k] != i,
            decreases selected.len() - pos,
        {
            pos = pos + 1;
        }
        if pos < selected.len() {
            proof {
                lemma_first_position_is(selected@, i, pos as int);
            }
            selected.remove(pos);
        } else {
            assert(!old(selected)@.contains(i));
            selected.push(i);
        }
    } else if modifiers.shift && selected.len() > 0 {
        let last = selected[selected.len() - 1];
        let (lo, hi) = if i > last { (last, i) } else { (i, last) };
        let ghost base = selected@;
        let mut idx = lo;
        loop
            invariant_except_break
                lo <= idx <= hi,
                selected@ == range_added(base, lo as int, idx - 1),
            ensures
                selected@ == range_added(base, lo as int, hi as int),
            decreases hi - idx,
        {
            let ghost before = selected@;
            if !contains_index(selected, idx) {
                selected.push(idx);
            }
            assert(selected@ == range_added(base, lo as int, idx as int));
            if idx == hi {
                break;
            }
            idx = idx + 1;
        }
    } else {
        selected.clear();
        selected.push(i);
        assert(selected@ =~= seq![i]);
    }
}

/// Applies a list action to a port's entries and the selection; returns
/// whether the port must be reloaded (whenever there was an action).
pub fn apply_list_action(entries: &mut Vec<SoundfontEntry>, selected: &mut Vec<usize>, action: Option<ListAction>) -> (need_reload: bool)
    requires
        match action {
            Some(ListAction::ToggleEnabled(i, _)) => i < old(entries)@.len(),
            Some(ListAction::Swap(a, b)) => a < old(entries)@.len() && b < old(entries)@.len(),
            Some(ListAction::Remove(i)) => i < old(entries)@.len(),
            None => true,
        },
    ensures
        need_reload == action is Some,
        match action {
            Some(ListAction::ToggleEnabled(i, enabled)) => {
                &&& final(entries)@ == old(entries)@.update(i as int, SoundfontEntry { enabled, ..old(entries)@[i as int] })
                &&& final(selected)@ == old(selected)@
            },
            Some(ListAction::Swap(a, b)) => {
                &&& final(entries)@ == old(entries)@.update(a as int, old(entries)@[b as int]).update(b as int, old(entries)@[a as int])
                &&& final(selected)@ == old(selected)@
            },
            Some(ListAction::Remove(i)) => {
                &&& final(entries)@ == old(entries)@.remove(i as int)
                &&& final(selected)@ == selection_after_remove(old(selected)@, i)
            },
            None => final(entries)@ == old(entries)@ && final(selected)@ == old(selected)@,
        },
{
    match action {
        Some(ListAction::ToggleEnabled(i, enabled)) => {
            let old_entry = entries.remove(i);
            let entry = SoundfontEntry { path: old_entry.path, name: old_entry.name, enabled };
            entries.insert(i, entry);
            assert(entries@ =~= old(entries)@.update(i as int, SoundfontEntry { enabled, ..old(entries)@[i as int] }));
            true
        },
        Some(ListAction::Swap(a, b)) => {
            if a != b {
                let (lo, hi) = if a < b { (a, b) } else { (b, a) };
                let high = entries.remove(hi);
                let low = entries.remove(lo);
                entries.insert(lo, high);
                entries.insert(hi, low);
                assert(entries@ =~= old(entries)@.update(a as int, old(entries)@[b as int]).update(b as int, old(entries)@[a as int]));
            } else {
                assert(entries@ =~= old(entries)@.update(a as int, old(entries)@[b as int]).update(b as int, old(entries)@[a as int]));
            }
            true
        },
        Some(ListAction::Remove(i)) => {
            entries.remove(i);
            let mut kept: Vec<usize> = Vec::new();
            let mut k: usize = 0;
            while k < selected.len()
                invariant
                    k <= selected@.len(),
                    selected@ == old(selected)@,
                    kept@ == selection_after_remove(selected@.take(k as int), i),
                decreases selected.len() - k,
            {
                assert(selected@.take(k + 1).drop_last() =~= selected@.take(k as int));
                let x = selected[k];
                if x != i {
                    kept.push(if x > i { x - 1 } else { x });
                }
                k = k + 1;
            }
            assert(selected@.take(k as int) =~= selected@);
            *selected = kept;
            true
        },
        None => false,
    }
}

/// Reorders a list after a drag: the dragged entries (those whose index is in
/// `drag_indices`) leave their places and go in as one block, in list order,
/// at position `insert_idx` of the remaining entries (at the end where
/// `insert_idx` is past them). `insert_idx` counts remaining entries only.
pub fn reorder_dragged(entries: &Vec<SoundfontEntry>, drag_indices: &Vec<usize>, insert_idx: usize) -> (res: Vec<SoundfontEntry>)
    ensures
        res@ == drag_result(entries@, drag_indices@, insert_idx),
{
    let rest = remove_selected(entries, drag_indices);
    let mut moved: Vec<SoundfontEntry> = Vec::new();
    let mut i: usize = 0;
    while i < entries.len()
        invariant
            i <= entries@.len(),
            moved@ == selected_entries(entries@.take(i as int), drag_indices@),
        decreases entries.len() - i,
    {
        assert(entries@.take(i + 1).drop_last() =~= entries@.take(i as int));
        if contains_index(drag_indices, i) {
            moved.push(copy_entry(&entries[i]));
        }
        i = i + 1;
    }
    assert(entries@.take(i as int) =~= entries@);
    let at = if insert_idx < rest.len() { insert_idx } else { rest.len() };
    let mut res: Vec<SoundfontEntry> = Vec::new();
    let mut k: usize = 0;
    while k < at
        invariant
            k <= at,
            at <= rest@.len(),
            res@ == rest@.take(k as int),
        decreases at - k,
    {
        res.push(copy_entry(&rest[k]));
        k = k + 1;
        assert(res@ =~= rest@.take(k as int));
    }
    let mut k: usize = 0;
    while k < moved.len()
        invariant
            k <= moved@.len(),
            res@ == rest@.take(at as int) + moved@.take(k as int),
        decreases moved.len() - k,
    {
        res.push(copy_entry(&moved[k]));
        k = k + 1;
        assert(res@ =~= rest@.take(at as int) + moved@.take(k as int));
    }
    assert(moved@.take(k as int) =~= moved@);
    let mut k: usize = at;
    while k < rest.len()
        invariant
            at <= k <= rest@.len(),
            res@ == rest@.take(at as int) + moved@ + rest@.subrange(at as int, k as int),
        decreases rest.len() - k,
    {
        res.push(copy_entry(&rest[k]));
        k = k + 1;
        assert(res@ =~= rest@.take(at as int) + moved@ + rest@.subrange(at as int, k as int));
    }
    assert(rest@.subrange(at as int, k as int) =~= rest@.skip(at as int));
    res
}

} // verus!
