//! The channel matrix: 16 ports (rows) by 16 channels (columns) of on/off
//! switches, cell `port * 16 + channel`. Off mutes a channel.
use vstd::prelude::*;

verus! {

/// The number of switches that are on.
pub open spec fn count_on(m: Seq<bool>) -> nat
    decreases m.len(),
{
    if m.len() == 0 {
        0
    } else {
        count_on(m.drop_last()) + if m.last() { 1nat } else { 0nat }
    }
}

/// Row `port` after toggling it: all off if it was all on, else all on.
pub open spec fn toggle_row_spec(m: Seq<bool>, port: int) -> Seq<bool> {
    Seq::new(m.len(), |i: int| if port * 16 <= i < port * 16 + 16 { !row_on(m, port) } else { m[i] })
}

/// Cell `(port, ch)` of the matrix.
pub open spec fn cell(port: int, ch: int) -> int {
    port * 16 + ch
}

/// Every switch of row `port` is on.
pub open spec fn row_on(m: Seq<bool>, port: int) -> bool {
    forall|c: int| 0 <= c < 16 ==> #[trigger] m[cell(port, c)]
}

/// Every switch of column `ch` is on.
pub open spec fn column_on(m: Seq<bool>, ch: int) -> bool {
    forall|p: int| 0 <= p < 16 ==> #[trigger] m[cell(p, ch)]
}

/// The cell is the only switch on.
pub open spec fn solo_cell_spec(m: Seq<bool>, idx: int) -> bool {
    m[idx] && count_on(m) == 1
}

/// The row's switches are the only ones on.
pub open spec fn solo_row_spec(m: Seq<bool>, port: int) -> bool {
    row_on(m, port) && count_on(m) == 16
}

/// The column's switches are the only ones on.
pub open spec fn solo_column_spec(m: Seq<bool>, ch: int) -> bool {
    column_on(m, ch) && count_on(m) == 16
}

proof fn lemma_cell_bounds(port: int, ch: int)
    requires
        0 <= port < 16,
        0 <= ch < 16,
    ensures
        0 <= cell(port, ch) < 256,
        cell(port, ch) % 16 == ch,
        cell(port, ch) / 16 == port,
{
    assert(0 <= port * 16 + ch < 256) by (nonlinear_arith)
        requires
            0 <= port < 16,
            0 <= ch < 16,
    ;
    assert((port * 16 + ch) % 16 == ch && (port * 16 + ch) / 16 == port) by (nonlinear_arith)
        requires
            0 <= port < 16,
            0 <= ch < 16,
    ;
}


proof fn lemma_count_window(n: nat, a: int, b: int)
    requires
        0 <= a <= b <= n,
    ensures
        count_on(Seq::new(n, |i: int| a <= i < b)) == b - a,
    decreases n,
{
    let s = Seq::new(n, |i: int| a <= i < b);
    if n > 0 {
        if b == n {
            if a == n {
                lemma_count_window((n - 1) as nat, a - 1, a - 1);
                assert(s.drop_last() =~= Seq::new((n - 1) as nat, |i: int| a - 1 <= i < a - 1));
            } else {
                lemma_count_window((n - 1) as nat, a, b - 1);
                assert(s.drop_last() =~= Seq::new((n - 1) as nat, |i: int| a <= i < b - 1));
            }
        } else {
            lemma_count_window((n - 1) as nat, a, b);
            assert(s.drop_last() =~= Seq::new((n - 1) as nat, |i: int| a <= i < b));
        }
    } else {
        assert(s.len() == 0);
    }
}

proof fn lemma_count_column(n: nat, ch: int)
    requires
        0 <= ch < 16,
    ensures
        count_on(Seq::new(n, |i: int| i % 16 == ch)) == n / 16 + if n % 16 > ch { 1int } else { 0int },
    decreases n,
{
    let s = Seq::new(n, |i: int| i % 16 == ch);
    if n > 0 {
        lemma_count_column((n - 1) as nat, ch);
        assert(s.drop_last() =~= Seq::new((n - 1) as nat, |i: int| i % 16 == ch));
    }
}

/// Soloing a cell leaves it the only switch on: the cell reads as soloed.
pub proof fn law_solo_cell_solos(len: nat, idx: int)
    requires
        0 <= idx < len,
    ensures
        solo_cell_spec(Seq::new(len, |i: int| i == idx), idx),
{
    lemma_count_window(len, idx, idx + 1);
    assert(Seq::new(len, |i: int| i == idx) =~= Seq::new(len, |i: int| idx <= i < idx + 1));
}

/// Soloing a row leaves its 16 switches the only ones on: the row reads as
/// soloed.
pub proof fn law_solo_row_solos(m: Seq<bool>, port: int)
    requires
        m.len() == 256,
        0 <= port < 16,
        forall|i: int| 0 <= i < 256 ==> #[trigger] m[i] == (port * 16 <= i < port * 16 + 16),
    ensures
        solo_row_spec(m, port),
{
    lemma_count_window(256, port * 16, port * 16 + 16);
    assert(m =~= Seq::new(256, |i: int| port * 16 <= i < port * 16 + 16));
    assert forall|c: int| 0 <= c < 16 implies #[trigger] m[cell(port, c)] by {
        lemma_cell_bounds(port, c);
    }
}

/// Soloing a column leaves its 16 switches the only ones on: the column reads
/// as soloed.
pub proof fn law_solo_column_solos(m: Seq<bool>, ch: int)
    requires
        m.len() == 256,
        0 <= ch < 16,
        forall|i: int| 0 <= i < 256 ==> #[trigger] m[i] == (i % 16 == ch),
    ensures
        solo_column_spec(m, ch),
{
    lemma_count_column(256, ch);
    assert(m =~= Seq::new(256, |i: int| i % 16 == ch));
    assert forall|p: int| 0 <= p < 16 implies #[trigger] m[cell(p, ch)] by {
        lemma_cell_bounds(p, ch);
    }
}

/// After unsoloing all 256 switches are on, so nothing reads as soloed.
pub proof fn law_unsolo_ends_solo(idx: int, port: int, ch: int)
    ensures
        count_on(Seq::new(256, |i: int| true)) == 256,
        !solo_cell_spec(Seq::new(256, |i: int| true), idx),
        !solo_row_spec(Seq::new(256, |i: int| true), port),
        !solo_column_spec(Seq::new(256, |i: int| true), ch),
{
    lemma_count_window(256, 0, 256);
    assert(Seq::new(256, |i: int| true) =~= Seq::new(256, |i: int| 0 <= i < 256));
}

/// Toggling a row that is all on or all off twice restores the matrix.
pub proof fn law_toggle_row_twice(m: Seq<bool>, port: int)
    requires
        0 <= port < 16,
        m.len() == 256,
        row_on(m, port) || forall|c: int| 0 <= c < 16 ==> !#[trigger] m[cell(port, c)],
    ensures
        toggle_row_spec(toggle_row_spec(m, port), port) == m,
{
    let once = toggle_row_spec(m, port);
    assert forall|c: int| 0 <= c < 16 implies #[trigger] once[cell(port, c)] == !row_on(m, port) by {
        lemma_cell_bounds(port, c);
    }
    if !row_on(m, port) {
        assert(row_on(once, port));
    } else {
        assert(!once[cell(port, 0)]);
    }
    assert forall|i: int| 0 <= i < 256 implies #[trigger] toggle_row_spec(once, port)[i] == m[i] by {
        if port * 16 <= i < port * 16 + 16 {
            let c = i - port * 16;
            assert(i == cell(port, c));
        }
    }
    assert(toggle_row_spec(once, port) =~= m);
}

/// Counts the switches that are on.
fn count_switches_on(matrix: &[bool]) -> (res: usize)
    ensures
        res == count_on(matrix@),
{
    let mut n: usize = 0;
    let mut i: usize = 0;
    while i < matrix.len()
        invariant
            i <= matrix@.len(),
            n == count_on(matrix@.take(i as int)),
            n <= i,
        decreases matrix.len() - i,
    {
        assert(matrix@.take(i + 1).drop_last() =~= matrix@.take(i as int));
        if matrix[i] {
            n = n + 1;
        }
        i = i + 1;
    }
    assert(matrix@.take(i as int) =~= matrix@);
    n
}

/// Whether cell `idx` is soloed: on, and the only switch on.
pub fn is_solo_cell(matrix: &[bool], idx: usize) -> (res: bool)
    requires
        idx < matrix@.len(),
    ensures
        res == solo_cell_spec(matrix@, idx as int),
{
    matrix[idx] && count_switches_on(matrix) == 1
}

/// Whether scanning row `port` stops inside the matrix: the row lies in the
/// matrix, or one of its cells inside the matrix is off.
pub open spec fn row_scan_in_range(m: Seq<bool>, port: int) -> bool {
    ||| cell(port, 16) <= m.len()
    ||| exists|c: int| 0 <= c < 16 && cell(port, c) < m.len() && !#[trigger] m[cell(port, c)]
}

/// Whether scanning column `ch` stops inside the matrix: the column lies in
/// the matrix, or one of its cells inside the matrix is off.
pub open spec fn column_scan_in_range(m: Seq<bool>, ch: int) -> bool {
    ||| cell(15, ch) < m.len()
    ||| exists|p: int| 0 <= p < 16 && cell(p, ch) < m.len() && !#[trigger] m[cell(p, ch)]
}

/// Whether row `port` is soloed: its 16 switches on and no other. A row that
/// does not lie in the matrix is not soloed.
pub fn is_solo_row(matrix: &[bool], port: usize) -> (res: bool)
    requires
        row_scan_in_range(matrix@, port as int),
    ensures
        res == (cell(port as int, 16) <= matrix@.len() && solo_row_spec(matrix@, port as int)),
{
    let n = matrix.len();
    if port >= n / 16 {
        proof {
            assert(port * 16 + 16 > n) by (nonlinear_arith)
                requires
                    port >= n / 16,
            ;
        }
        return false;
    }
    proof {
        assert(port * 16 + 16 <= n) by (nonlinear_arith)
            requires
                port < n / 16,
        ;
    }
    let start = port * 16;
    let mut row_all_on = true;
    let mut c: usize = 0;
    while c < 16
        invariant
            c <= 16,
            start == port * 16,
            start + 16 <= matrix@.len(),
            row_all_on == forall|k: int| 0 <= k < c ==> #[trigger] matrix@[cell(port as int, k)],
        decreases 16 - c,
    {
        assert(start + c == cell(port as int, c as int));
        row_all_on = row_all_on && matrix[start + c];
        c = c + 1;
    }
    let total_on = count_switches_on(matrix);
    row_all_on && total_on == 16
}

/// Whether column `ch` is soloed: its 16 switches on and no other. A column
/// that does not lie in the matrix is not soloed.
pub fn is_solo_column(matrix: &[bool], ch: usize) -> (res: bool)
    requires
        column_scan_in_range(matrix@, ch as int),
    ensures
        res == (cell(15, ch as int) < matrix@.len() && solo_column_spec(matrix@, ch as int)),
{
    let n = matrix.len();
    if ch >= n || n - ch <= 240 {
        return false;
    }
    let mut col_all_on = true;
    let mut p: usize = 0;
    while p < 16
        invariant
            p <= 16,
            240 + ch < matrix@.len(),
            n == matrix@.len(),
            col_all_on == forall|k: int| 0 <= k < p ==> #[trigger] matrix@[cell(k, ch as int)],
        decreases 16 - p,
    {
        assert(p * 16 <= 240) by (nonlinear_arith)
            requires
                p < 16,
        ;
        assert(p * 16 + ch == cell(p as int, ch as int));
        col_all_on = col_all_on && matrix[p * 16 + ch];
        p = p + 1;
    }
    let total_on = count_switches_on(matrix);
    col_all_on && total_on == 16
}

/// Turns every switch on.
pub fn unsolo(matrix: &mut [bool])
    ensures
        final(matrix)@ == Seq::new(old(matrix)@.len(), |i: int| true),
{
    let mut i: usize = 0;
    while i < matrix.len()
        invariant
            i <= matrix@.len(),
            matrix@.len() == old(matrix)@.len(),
            forall|k: int| 0 <= k < i ==> matrix@[k],
        decreases matrix.len() - i,
    {
        matrix[i] = true;
        i = i + 1;
    }
    assert(matrix@ =~= Seq::new(old(matrix)@.len(), |i: int| true));
}

/// Turns cell `idx` on and every other switch off.
pub fn solo_cell(matrix: &mut [bool], idx: usize)
    ensures
        final(matrix)@ == Seq::new(old(matrix)@.len(), |i: int| i == idx),
{
    let mut i: usize = 0;
    while i < matrix.len()
        invariant
            i <= matrix@.len(),
            matrix@.len() == old(matrix)@.len(),
            forall|k: int| 0 <= k < i ==> matrix@[k] == (k == idx),
        decreases matrix.len() - i,
    {
        matrix[i] = i == idx;
        i = i + 1;
    }
    assert(matrix@ =~= Seq::new(old(matrix)@.len(), |i: int| i == idx));
}

/// Turns row `port` on and every other of the 256 switches off.
pub fn solo_row(matrix: &mut [bool], port: usize)
    requires
        256 <= old(matrix)@.len(),
        port * 16 + 16 <= usize::MAX,
    ensures
        final(matrix)@.len() == old(matrix)@.len(),
        forall|i: int| 0 <= i < 256 ==> #[trigger] final(matrix)@[i] == (port * 16 <= i < port * 16 + 16),
        forall|i: int| 256 <= i < old(matrix)@.len() ==> #[trigger] final(matrix)@[i] == old(matrix)@[i],
{
    let start = port * 16;
    let mut i: usize = 0;
    while i < 256
        invariant
            i <= 256,
            start == port * 16,
            start + 16 <= usize::MAX,
            256 <= old(matrix)@.len(),
            matrix@.len() == old(matrix)@.len(),
            forall|k: int| 0 <= k < i ==> #[trigger] matrix@[k] == (start <= k < start + 16),
            forall|k: int| i <= k < matrix@.len() ==> #[trigger] matrix@[k] == old(matrix)@[k],
        decreases 256 - i,
    {
        matrix[i] = start <= i && i < start + 16;
        i = i + 1;
    }
}

/// Turns column `ch` on and every other of the 256 switches off.
pub fn solo_column(matrix: &mut [bool], ch: usize)
    requires
        256 <= old(matrix)@.len(),
    ensures
        final(matrix)@.len() == old(matrix)@.len(),
        forall|i: int| 0 <= i < 256 ==> #[trigger] final(matrix)@[i] == (i % 16 == ch),
        forall|i: int| 256 <= i < old(matrix)@.len() ==> #[trigger] final(matrix)@[i] == old(matrix)@[i],
{
    let mut p: usize = 0;
    while p < 16
        invariant
            p <= 16,
            matrix@.len() == old(matrix)@.len(),
            256 <= matrix@.len(),
            forall|k: int| 0 <= k < p * 16 ==> #[trigger] matrix@[k] == (k % 16 == ch),
            forall|k: int| p * 16 <= k < matrix@.len() ==> #[trigger] matrix@[k] == old(matrix)@[k],
        decreases 16 - p,
    {
        let mut c: usize = 0;
        while c < 16
            invariant
                p < 16,
                c <= 16,
                matrix@.len() == old(matrix)@.len(),
                256 <= matrix@.len(),
                forall|k: int| 0 <= k < p * 16 + c ==> #[trigger] matrix@[k] == (k % 16 == ch),
                forall|k: int| p * 16 + c <= k < matrix@.len() ==> #[trigger] matrix@[k] == old(matrix)@[k],
            decreases 16 - c,
        {
            proof {
                lemma_cell_bounds(p as int, c as int);
            }
            matrix[p * 16 + c] = c == ch;
            c = c + 1;
        }
        p = p + 1;
    }
}

/// Toggles row `port`: all its switches off if all were on, else all on.
pub fn toggle_row(matrix: &mut [bool], port: usize)
    requires
        port * 16 + 16 <= old(matrix)@.len(),
    ensures
        final(matrix)@ == toggle_row_spec(old(matrix)@, port as int),
{
    let n = matrix.len();
    let start = port * 16;
    let mut all_on = true;
    let mut c: usize = 0;
    while c < 16
        invariant
            c <= 16,
            start == port * 16,
            start + 16 <= matrix@.len(),
            matrix@ == old(matrix)@,
            all_on == forall|k: int| 0 <= k < c ==> #[trigger] matrix@[cell(port as int, k)],
        decreases 16 - c,
    {
        assert(start + c == cell(port as int, c as int));
        all_on = all_on && matrix[start + c];
        c = c + 1;
    }
    let mut c: usize = 0;
    while c < 16
        invariant
            c <= 16,
            start == port * 16,
            start + 16 <= matrix@.len(),
            matrix@.len() == old(matrix)@.len(),
            all_on == row_on(old(matrix)@, port as int),
            forall|k: int| 0 <= k < matrix@.len() ==> #[trigger] matrix@[k] ==
                if start <= k < start + c { !all_on } else { old(matrix)@[k] },
        decreases 16 - c,
    {
        matrix[start + c] = !all_on;
        c = c + 1;
    }
    assert(matrix@ =~= Seq::new(old(matrix)@.len(), |i: int|
        if port * 16 <= i < port * 16 + 16 { !row_on(old(matrix)@, port as int) } else { old(matrix)@[i] }));
}

/// Toggles column `ch`: all its switches off if all were on, else all on.
pub fn toggle_column(matrix: &mut [bool], ch: usize)
    requires
        240 + ch < old(matrix)@.len(),
    ensures
        final(matrix)@.len() == old(matrix)@.len(),
        forall|i: int| 0 <= i < old(matrix)@.len() ==> #[trigger] final(matrix)@[i] ==
            if exists|p: int| 0 <= p < 16 && i == cell(p, ch as int) { !column_on(old(matrix)@, ch as int) } else { old(matrix)@[i] },
{
    let n = matrix.len();
    let mut all_on = true;
    let mut p: usize = 0;
    while p < 16
        invariant
            p <= 16,
            240 + ch < matrix@.len(),
            n == matrix@.len(),
            matrix@ == old(matrix)@,
            all_on == forall|k: int| 0 <= k < p ==> #[trigger] matrix@[cell(k, ch as int)],
        decreases 16 - p,
    {
        assert(p * 16 <= 240) by (nonlinear_arith)
            requires
                p < 16,
        ;
        assert(p * 16 + ch == cell(p as int, ch as int));
        all_on = all_on && matrix[p * 16 + ch];
        p = p + 1;
    }
    let mut p: usize = 0;
    while p < 16
        invariant
            p <= 16,
            240 + ch < matrix@.len(),
            n == matrix@.len(),
            matrix@.len() == old(matrix)@.len(),
            all_on == column_on(old(matrix)@, ch as int),
            forall|k: int| 0 <= k < matrix@.len() ==> #[trigger] matrix@[k] ==
                if exists|q: int| 0 <= q < p && k == cell(q, ch as int) { !all_on } else { old(matrix)@[k] },
        decreases 16 - p,
    {
        assert(p * 16 <= 240) by (nonlinear_arith)
            requires
                p < 16,
        ;
        let ghost before = matrix@;
        matrix[p * 16 + ch] = !all_on;
        proof {
            assert forall|k: int| 0 <= k < matrix@.len() implies #[trigger] matrix@[k] ==
                if exists|q: int| 0 <= q < p + 1 && k == cell(q, ch as int) { !all_on } else { old(matrix)@[k] } by {
                if k == cell(p as int, ch as int) {
                } else {
                    if exists|q: int| 0 <= q < p + 1 && k == cell(q, ch as int) {
                        let q = choose|q: int| 0 <= q < p + 1 && k == cell(q, ch as int);
                        assert(q != p);
                    }
                }
            }
        }
        p = p + 1;
    }
}

/// A button of the matrix page: a column header, a row header or a cell.
#[derive(Clone, Copy, Debug, PartialEq, Eq, Structural)]
pub enum MatrixButton {
    /// The header of column (channel) `ch`, `0..16`.
    Column(usize),
    /// The header of row (port) `port`, `0..16`.
    Row(usize),
    /// Cell `port * 16 + channel`, `0..256`.
    Cell(usize),
}

/// How a button was clicked.
#[derive(Clone, Copy, Debug, PartialEq, Eq, Structural)]
pub enum MatrixClick {
    /// A left click: toggles.
    Primary,
    /// A right click: solos, or unsolos what is soloed.
    Secondary,
}

/// The button names a column, row or cell of the 16 by 16 page.
pub open spec fn button_on_page(button: MatrixButton) -> bool {
    match button {
        MatrixButton::Column(ch) => ch < 16,
        MatrixButton::Row(port) => port < 16,
        MatrixButton::Cell(idx) => idx < 256,
    }
}

/// Column `ch` after toggling it: all off if it was all on, else all on.
/// Switches past the 256 of the page stay as they are.
pub open spec fn toggle_column_spec(m: Seq<bool>, ch: int) -> Seq<bool> {
    Seq::new(m.len(), |i: int| if i < 256 && i % 16 == ch { !column_on(m, ch) } else { m[i] })
}

/// The matrix after a click on a button of the page. A left click toggles
/// the column, the row or the cell; a right click unsolos a soloed column,
/// row or cell (turning every switch on), and solos any other. Soloing a row
/// or column leaves switches past the 256 of the page as they are; soloing a
/// cell turns every other switch off.
pub open spec fn matrix_click_spec(m: Seq<bool>, button: MatrixButton, click: MatrixClick) -> Seq<bool> {
    match button {
        MatrixButton::Column(ch) => match click {
            MatrixClick::Primary => toggle_column_spec(m, ch as int),
            MatrixClick::Secondary => if solo_column_spec(m, ch as int) {
                Seq::new(m.len(), |i: int| true)
            } else {
                Seq::new(m.len(), |i: int| if i < 256 { i % 16 == ch } else { m[i] })
            },
        },
        MatrixButton::Row(port) => match click {
            MatrixClick::Primary => toggle_row_spec(m, port as int),
            MatrixClick::Secondary => if solo_row_spec(m, port as int) {
                Seq::new(m.len(), |i: int| true)
            } else {
                Seq::new(m.len(), |i: int| if i < 256 { port * 16 <= i < port * 16 + 16 } else { m[i] })
            },
        },
        MatrixButton::Cell(idx) => match click {
            MatrixClick::Primary => m.update(idx as int, !m[idx as int]),
            MatrixClick::Secondary => if solo_cell_spec(m, idx as int) {
                Seq::new(m.len(), |i: int| true)
            } else {
                Seq::new(m.len(), |i: int| i == idx)
            },
        },
    }
}

proof fn lemma_column_cell(ch: int, i: int)
    requires
        0 <= ch < 16,
        0 <= i < 256,
    ensures
        (exists|p: int| 0 <= p < 16 && i == #[trigger] cell(p, ch)) <==> i % 16 == ch,
{
    if exists|p: int| 0 <= p < 16 && i == #[trigger] cell(p, ch) {
        let p = choose|p: int| 0 <= p < 16 && i == #[trigger] cell(p, ch);
        lemma_cell_bounds(p, ch);
    }
    if i % 16 == ch {
        assert(0 <= i / 16 < 16 && i == (i / 16) * 16 + i % 16) by (nonlinear_arith)
            requires
                0 <= i < 256,
        ;
        assert(i == cell(i / 16, ch));
    }
}

/// Applies a click on a button of the matrix page.
pub fn matrix_click(matrix: &mut [bool], button: MatrixButton, click: MatrixClick)
    requires
        old(matrix)@.len() >= 256,
        button_on_page(button),
    ensures
        final(matrix)@ == matrix_click_spec(old(matrix)@, button, click),
{
    match button {
        MatrixButton::Column(ch) => match click {
            MatrixClick::Primary => {
                toggle_column(matrix, ch);
                proof {
                    assert forall|i: int| 0 <= i < matrix@.len() implies #[trigger] matrix@[i] == toggle_column_spec(old(matrix)@, ch as int)[i] by {
                        if i < 256 {
                            lemma_column_cell(ch as int, i);
                        } else if exists|p: int| 0 <= p < 16 && i == #[trigger] cell(p, ch as int) {
                            let p = choose|p: int| 0 <= p < 16 && i == #[trigger] cell(p, ch as int);
                            lemma_cell_bounds(p, ch as int);
                        }
                    }
                    assert(matrix@ =~= toggle_column_spec(old(matrix)@, ch as int));
                }
            },
            MatrixClick::Secondary => {
                if is_solo_column(matrix, ch) {
                    unsolo(matrix);
                } else {
                    solo_column(matrix, ch);
                    assert(matrix@ =~= Seq::new(old(matrix)@.len(), |i: int| if i < 256 { i % 16 == ch } else { old(matrix)@[i] }));
                }
            },
        },
        MatrixButton::Row(port) => match click {
            MatrixClick::Primary => {
                toggle_row(matrix, port);
            },
            MatrixClick::Secondary => {
                if is_solo_row(matrix, port) {
                    unsolo(matrix);
                } else {
                    solo_row(matrix, port);
                    assert(matrix@ =~= Seq::new(old(matrix)@.len(), |i: int| if i < 256 { port * 16 <= i < port * 16 + 16 } else { old(matrix)@[i] }));
                }
            },
        },
        MatrixButton::Cell(idx) => match click {
            MatrixClick::Primary => {
                let active = matrix[idx];
                matrix[idx] = !active;
                assert(matrix@ =~= old(matrix)@.update(idx as int, !old(matrix)@[idx as int]));
            },
            MatrixClick::Secondary => {
                if is_solo_cell(matrix, idx) {
                    unsolo(matrix);
                } else {
                    solo_cell(matrix, idx);
                }
            },
        },
    }
}

proof fn lemma_count_mono(a: Seq<bool>, b: Seq<bool>)
    requires
        a.len() == b.len(),
        forall|i: int| 0 <= i < a.len() && #[trigger] a[i] ==> b[i],
    ensures
        count_on(a) <= count_on(b),
        (exists|j: int| 0 <= j < a.len() && !a[j] && #[trigger] b[j]) ==> count_on(a) < count_on(b),
    decreases a.len(),
{
    if a.len() > 0 {
        let n = a.len() - 1;
        assert forall|i: int| 0 <= i < n && #[trigger] a.drop_last()[i] implies b.drop_last()[i] by {
            assert(a[i]);
        }
        lemma_count_mono(a.drop_last(), b.drop_last());
        if exists|j: int| 0 <= j < a.len() && !a[j] && #[trigger] b[j] {
            let j = choose|j: int| 0 <= j < a.len() && !a[j] && #[trigger] b[j];
            if j < n {
                assert(!a.drop_last()[j] && b.drop_last()[j]);
            }
        }
    }
}

proof fn lemma_count_capped(len: nat, f: spec_fn(int) -> bool)
    requires
        len >= 256,
    ensures
        count_on(Seq::new(len, |j: int| j < 256 && f(j))) == count_on(Seq::new(256, |j: int| f(j))),
    decreases len,
{
    if len == 256 {
        assert(Seq::new(len, |j: int| j < 256 && f(j)) =~= Seq::new(256, |j: int| f(j)));
    } else {
        lemma_count_capped((len - 1) as nat, f);
        assert(Seq::new(len, |j: int| j < 256 && f(j)).drop_last() =~= Seq::new((len - 1) as nat, |j: int| j < 256 && f(j)));
    }
}

/// A matrix with exactly the switches of `pattern` on holds as many as the
/// pattern; one that holds at least the pattern's switches and no more of
/// them is the pattern.
proof fn lemma_exactly(m: Seq<bool>, pattern: Seq<bool>)
    requires
        m.len() == pattern.len(),
        forall|i: int| 0 <= i < m.len() && #[trigger] pattern[i] ==> m[i],
        count_on(m) == count_on(pattern),
    ensures
        m == pattern,
{
    lemma_count_mono(pattern, m);
    assert forall|i: int| 0 <= i < m.len() implies m[i] == pattern[i] by {
        if m[i] && !pattern[i] {
            assert(!pattern[i] && m[i]);
        }
    }
    assert(m =~= pattern);
}

/// A cell reads as soloed exactly when it is on and every other switch of the
/// matrix is off.
pub proof fn law_solo_cell_exact(m: Seq<bool>, idx: int)
    requires
        0 <= idx < m.len(),
    ensures
        solo_cell_spec(m, idx) <==> forall|j: int| 0 <= j < m.len() ==> #[trigger] m[j] == (j == idx),
{
    let pattern = Seq::new(m.len(), |j: int| j == idx);
    lemma_count_window(m.len(), idx, idx + 1);
    assert(pattern =~= Seq::new(m.len(), |j: int| idx <= j < idx + 1));
    if solo_cell_spec(m, idx) {
        lemma_exactly(m, pattern);
    }
    if forall|j: int| 0 <= j < m.len() ==> #[trigger] m[j] == (j == idx) {
        assert(m =~= pattern);
    }
}

/// Column `ch` of a matrix of at least 256 switches reads as soloed exactly
/// when its 16 switches are on and every other switch is off.
pub proof fn law_solo_column_exact(m: Seq<bool>, ch: int)
    requires
        m.len() >= 256,
        0 <= ch < 16,
    ensures
        solo_column_spec(m, ch) <==> forall|j: int| 0 <= j < m.len() ==> #[trigger] m[j] == (j < 256 && j % 16 == ch),
{
    let pattern = Seq::new(m.len(), |j: int| j < 256 && j % 16 == ch);
    lemma_count_capped(m.len(), |j: int| j % 16 == ch);
    lemma_count_column(256, ch);
    assert(Seq::new(256, |j: int| (|j: int| j % 16 == ch)(j)) =~= Seq::new(256, |j: int| j % 16 == ch));
    assert(pattern =~= Seq::new(m.len(), |j: int| j < 256 && (|j: int| j % 16 == ch)(j)));
    assert(count_on(pattern) == 16);
    if solo_column_spec(m, ch) {
        assert forall|i: int| 0 <= i < m.len() && #[trigger] pattern[i] implies m[i] by {
            lemma_column_cell(ch, i);
            let p = choose|p: int| 0 <= p < 16 && i == #[trigger] cell(p, ch);
        }
        lemma_exactly(m, pattern);
    }
    if forall|j: int| 0 <= j < m.len() ==> #[trigger] m[j] == (j < 256 && j % 16 == ch) {
        assert(m =~= pattern);
        assert forall|p: int| 0 <= p < 16 implies #[trigger] m[cell(p, ch)] by {
            lemma_cell_bounds(p, ch);
        }
    }
}

/// Row `port` of a matrix of at least 256 switches reads as soloed exactly
/// when its 16 switches are on and every other switch is off.
pub proof fn law_solo_row_exact(m: Seq<bool>, port: int)
    requires
        m.len() >= 256,
        0 <= port < 16,
    ensures
        solo_row_spec(m, port) <==> forall|j: int| 0 <= j < m.len() ==> #[trigger] m[j] == (port * 16 <= j < port * 16 + 16),
{
    let pattern = Seq::new(m.len(), |j: int| port * 16 <= j < port * 16 + 16);
    lemma_count_window(m.len(), port * 16, port * 16 + 16);
    if solo_row_spec(m, port) {
        assert forall|i: int| 0 <= i < m.len() && #[trigger] pattern[i] implies m[i] by {
            assert(i == cell(port, i - port * 16));
        }
        lemma_exactly(m, pattern);
    }
    if forall|j: int| 0 <= j < m.len() ==> #[trigger] m[j] == (port * 16 <= j < port * 16 + 16) {
        assert(m =~= pattern);
        assert forall|c: int| 0 <= c < 16 implies #[trigger] m[cell(port, c)] by {
            lemma_cell_bounds(port, c);
        }
    }
}

/// A right click on a cell unsolos it (every switch on) when it is the only
/// switch on, and otherwise solos it (it alone on).
pub proof fn law_right_click_cell(m: Seq<bool>, idx: usize)
    requires
        idx < m.len(),
    ensures
        (forall|j: int| 0 <= j < m.len() ==> #[trigger] m[j] == (j == idx))
            ==> matrix_click_spec(m, MatrixButton::Cell(idx), MatrixClick::Secondary) == Seq::new(m.len(), |j: int| true),
        !(forall|j: int| 0 <= j < m.len() ==> #[trigger] m[j] == (j == idx))
            ==> matrix_click_spec(m, MatrixButton::Cell(idx), MatrixClick::Secondary) == Seq::new(m.len(), |j: int| j == idx),
{
    law_solo_cell_exact(m, idx as int);
}

/// A right click on a column header unsolos the column (every switch on)
/// when its 16 switches are the only ones on, and otherwise solos it: its
/// switches on, the page's others off, switches past the page unchanged.
pub proof fn law_right_click_column(m: Seq<bool>, ch: usize)
    requires
        m.len() >= 256,
        ch < 16,
    ensures
        (forall|j: int| 0 <= j < m.len() ==> #[trigger] m[j] == (j < 256 && j % 16 == ch))
            ==> matrix_click_spec(m, MatrixButton::Column(ch), MatrixClick::Secondary) == Seq::new(m.len(), |j: int| true),
        !(forall|j: int| 0 <= j < m.len() ==> #[trigger] m[j] == (j < 256 && j % 16 == ch))
            ==> matrix_click_spec(m, MatrixButton::Column(ch), MatrixClick::Secondary)
                == Seq::new(m.len(), |j: int| if j < 256 { j % 16 == ch } else { m[j] }),
{
    law_solo_column_exact(m, ch as int);
}

/// A right click on a row header unsolos the row (every switch on) when its
/// 16 switches are the only ones on, and otherwise solos it: its switches
/// on, the page's others off, switches past the page unchanged.
pub proof fn law_right_click_row(m: Seq<bool>, port: usize)
    requires
        m.len() >= 256,
        port < 16,
    ensures
        (forall|j: int| 0 <= j < m.len() ==> #[trigger] m[j] == (port * 16 <= j < port * 16 + 16))
            ==> matrix_click_spec(m, MatrixButton::Row(port), MatrixClick::Secondary) == Seq::new(m.len(), |j: int| true),
        !(forall|j: int| 0 <= j < m.len() ==> #[trigger] m[j] == (port * 16 <= j < port * 16 + 16))
            ==> matrix_click_spec(m, MatrixButton::Row(port), MatrixClick::Secondary)
                == Seq::new(m.len(), |j: int| if j < 256 { port * 16 <= j < port * 16 + 16 } else { m[j] }),
{
    law_solo_row_exact(m, port as int);
}

/// A left click flips the clicked cell and nothing else.
pub proof fn law_left_click_cell(m: Seq<bool>, idx: usize)
    requires
        idx < m.len(),
    ensures
        matrix_click_spec(m, MatrixButton::Cell(idx), MatrixClick::Primary).len() == m.len(),
        forall|j: int| 0 <= j < m.len() ==> #[trigger] matrix_click_spec(m, MatrixButton::Cell(idx), MatrixClick::Primary)[j]
            == if j == idx { !m[j] } else { m[j] },
{
}

/// A left click on a column header turns the column's 16 switches off when
/// they were all on, and on otherwise; every other switch stays.
pub proof fn law_left_click_column(m: Seq<bool>, ch: usize)
    requires
        m.len() >= 256,
        ch < 16,
    ensures
        ({
            let r = matrix_click_spec(m, MatrixButton::Column(ch), MatrixClick::Primary);
            let all_on = forall|p: int| 0 <= p < 16 ==> #[trigger] m[p * 16 + ch];
            &&& r.len() == m.len()
            &&& forall|p: int| 0 <= p < 16 ==> #[trigger] r[p * 16 + ch] == !all_on
            &&& forall|j: int| 0 <= j < m.len() && !(j < 256 && j % 16 == ch) ==> #[trigger] r[j] == m[j]
        }),
{
    let r = matrix_click_spec(m, MatrixButton::Column(ch), MatrixClick::Primary);
    assert forall|p: int| 0 <= p < 16 implies #[trigger] r[p * 16 + ch] == !(forall|q: int| 0 <= q < 16 ==> #[trigger] m[q * 16 + ch]) by {
        lemma_cell_bounds(p, ch as int);
        assert((forall|q: int| 0 <= q < 16 ==> #[trigger] m[q * 16 + ch]) == column_on(m, ch as int)) by {
            if column_on(m, ch as int) {
                assert forall|q: int| 0 <= q < 16 implies #[trigger] m[q * 16 + ch] by {
                    assert(m[cell(q, ch as int)]);
                }
            }
            if forall|q: int| 0 <= q < 16 ==> #[trigger] m[q * 16 + ch] {
                assert forall|q: int| 0 <= q < 16 implies #[trigger] m[cell(q, ch as int)] by {
                    assert(m[q * 16 + ch]);
                }
            }
        }
    }
}

/// A left click on a row header turns the row's 16 switches off when they
/// were all on, and on otherwise; every other switch stays.
pub proof fn law_left_click_row(m: Seq<bool>, port: usize)
    requires
        m.len() >= 256,
        port < 16,
    ensures
        ({
            let r = matrix_click_spec(m, MatrixButton::Row(port), MatrixClick::Primary);
            let all_on = forall|c: int| 0 <= c < 16 ==> #[trigger] m[port * 16 + c];
            &&& r.len() == m.len()
            &&& forall|c: int| 0 <= c < 16 ==> #[trigger] r[port * 16 + c] == !all_on
            &&& forall|j: int| 0 <= j < m.len() && !(port * 16 <= j < port * 16 + 16) ==> #[trigger] r[j] == m[j]
        }),
{
    let r = matrix_click_spec(m, MatrixButton::Row(port), MatrixClick::Primary);
    assert((forall|c: int| 0 <= c < 16 ==> #[trigger] m[port * 16 + c]) == row_on(m, port as int)) by {
        if row_on(m, port as int) {
            assert forall|c: int| 0 <= c < 16 implies #[trigger] m[port * 16 + c] by {
                assert(m[cell(port as int, c)]);
            }
        }
        if forall|c: int| 0 <= c < 16 ==> #[trigger] m[port * 16 + c] {
            assert forall|c: int| 0 <= c < 16 implies #[trigger] m[cell(port as int, c)] by {
                assert(m[port * 16 + c]);
            }
        }
    }
    assert forall|c: int| 0 <= c < 16 implies #[trigger] r[port * 16 + c] == !row_on(m, port as int) by {
        lemma_cell_bounds(port as int, c);
    }
}

} // verus!
