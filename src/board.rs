use vstd::prelude::*;
use crate::mine_sweeper_cell::{Cell, CellKind, CellState, is_lone, glyph, debug_glyph};

verus! {

broadcast use vstd::seq_lib::group_seq_properties;

/// Whether the cell at an index of `g` holds a mine.
pub open spec fn mine_at(g: Seq<Cell>) -> spec_fn(usize) -> bool {
    |m: usize| m < g.len() && g[m as int].kind == CellKind::Mine
}

/// The mathematical picture of a board: its cells in row-major order and its dimensions.
pub struct BoardView {
    pub cells: Seq<Cell>,
    pub rows: nat,
    pub cols: nat,
}

impl BoardView {
    /// The cells fill the rows and columns exactly, and no count exceeds the eight
    /// neighbours a cell can have.
    pub open spec fn wf(self) -> bool {
        &&& self.cells.len() == self.rows * self.cols
        &&& self.rows * self.cols <= isize::MAX
        &&& forall|x: int| 0 <= x < self.cells.len() ==> #[trigger] self.cells[x].adj_mine_count <= 8
    }
}

/// The lower end of the clipped 3-wide window around a row or column.
pub open spec fn lower_edge(x: int) -> int {
    if x <= 1 { 0 } else { x - 1 }
}

/// The upper end of the clipped 3-wide window around a row or column, for a dimension of `n`.
pub open spec fn upper_edge(x: int, n: int) -> int {
    if x + 1 >= n { n - 1 } else { x + 1 }
}

/// Indices of row `nr` with columns in `lo..upto`, leaving out the centre `(r, c)`.
pub open spec fn window_row(cols: int, r: int, c: int, nr: int, lo: int, upto: int) -> Seq<usize>
    decreases upto - lo,
{
    if upto <= lo {
        Seq::empty()
    } else {
        let prev = window_row(cols, r, c, nr, lo, upto - 1);
        if nr == r && upto - 1 == c {
            prev
        } else {
            prev.push((nr * cols + upto - 1) as usize)
        }
    }
}

/// Indices of rows `rlo..rupto` and columns `clo..=chi`, row by row, leaving out `(r, c)`.
pub open spec fn window(cols: int, r: int, c: int, rlo: int, rupto: int, clo: int, chi: int) -> Seq<usize>
    decreases rupto - rlo,
{
    if rupto <= rlo {
        Seq::empty()
    } else {
        window(cols, r, c, rlo, rupto - 1, clo, chi) + window_row(cols, r, c, rupto - 1, clo, chi + 1)
    }
}

/// The cells around `index` in its clipped 3x3 neighbourhood, in row-major order,
/// without `index` itself.
pub open spec fn neighbors(rows: nat, cols: nat, index: int) -> Seq<usize> {
    let r = index / (cols as int);
    let c = index % (cols as int);
    window(
        cols as int,
        r,
        c,
        lower_edge(r),
        upper_edge(r, rows as int) + 1,
        lower_edge(c),
        upper_edge(c, cols as int),
    )
}

/// The number of mines on a board of `n` cells: 15% of `n`, rounded half away from zero.
pub open spec fn mine_total(n: int) -> int {
    (3 * n + 10) / 20
}

/// The position that position `i` swaps with in a shuffle of `n` items: the draw for
/// that step taken modulo `i + 1`, or `i` itself (no swap) where the draws ran out.
pub open spec fn swap_partner(swaps: Seq<usize>, n: int, i: int) -> int {
    let k = n - 1 - i;
    if 0 <= k < swaps.len() {
        swaps[k] as int % (i + 1)
    } else {
        i
    }
}

/// The sequence after the first `steps` steps of a Fisher-Yates shuffle that walks
/// from the last position down.
pub open spec fn shuffle_steps(s: Seq<usize>, swaps: Seq<usize>, steps: nat) -> Seq<usize>
    decreases steps,
{
    if steps == 0 {
        s
    } else {
        let prev = shuffle_steps(s, swaps, (steps - 1) as nat);
        let i = s.len() - steps;
        let j = swap_partner(swaps, s.len() as int, i);
        prev.update(i, prev[j]).update(j, prev[i])
    }
}

/// The number of steps of a full shuffle of `n` items.
pub open spec fn full_steps(n: nat) -> nat {
    if n >= 1 { (n - 1) as nat } else { 0 }
}

/// The indices `0..n` in order.
pub open spec fn index_range(n: nat) -> Seq<usize> {
    Seq::new(n, |x: int| x as usize)
}

/// The indices `0..n` after a full shuffle driven by `swaps`.
pub open spec fn shuffled_indices(n: nat, swaps: Seq<usize>) -> Seq<usize> {
    shuffle_steps(index_range(n), swaps, full_steps(n))
}

/// Where the mines of a board of `n` cells go: the first `mine_total(n)` shuffled indices.
pub open spec fn mine_order(n: nat, swaps: Seq<usize>) -> Seq<usize> {
    shuffled_indices(n, swaps).take(mine_total(n as int))
}

/// The number of mines among the neighbours of `index`.
pub open spec fn mined_neighbor_count(v: BoardView, index: int) -> nat {
    neighbors(v.rows, v.cols, index).filter(mine_at(v.cells)).len()
}

/// The cells are hidden, mined exactly at `mines`, and carry their neighbour counts.
pub open spec fn fresh_board(v: BoardView, rows: nat, cols: nat, mines: Seq<usize>) -> bool {
    &&& v.wf()
    &&& v.rows == rows
    &&& v.cols == cols
    &&& forall|x: int| 0 <= x < v.cells.len() ==> {
        &&& (#[trigger] v.cells[x]).state == CellState::Hidden
        &&& (v.cells[x].kind == CellKind::Mine <==> mines.contains(x as usize))
        &&& v.cells[x].adj_mine_count == mined_neighbor_count(v, x)
    }
}

/// A full shuffle keeps `0..n` free of repeats and below `n`.
proof fn lemma_shuffle_distinct(n: nat, swaps: Seq<usize>, steps: nat)
    requires
        steps <= full_steps(n),
        n <= usize::MAX,
    ensures
        shuffle_steps(index_range(n), swaps, steps).len() == n,
        shuffle_steps(index_range(n), swaps, steps).no_duplicates(),
        forall|k: int| 0 <= k < n ==> #[trigger] shuffle_steps(index_range(n), swaps, steps)[k] < n,
    decreases steps,
{
    let s = shuffle_steps(index_range(n), swaps, steps);
    if steps == 0 {
        assert(forall|a: int| 0 <= a < n ==> #[trigger] s[a] == a);
    } else {
        lemma_shuffle_distinct(n, swaps, (steps - 1) as nat);
        let prev = shuffle_steps(index_range(n), swaps, (steps - 1) as nat);
        let i = n - steps;
        let j = swap_partner(swaps, n as int, i);
        assert(0 <= j <= i < n);
        assert(forall|a: int| 0 <= a < n ==> #[trigger] s[a] == if a == j {
            prev[i]
        } else if a == i {
            prev[j]
        } else {
            prev[a]
        });
    }
}

/// The board with the state of cell `i` replaced by `st`.
pub open spec fn set_state_at(v: BoardView, i: int, st: CellState) -> BoardView {
    BoardView {
        cells: v.cells.update(i, Cell { state: st, kind: v.cells[i].kind, adj_mine_count: v.cells[i].adj_mine_count }),
        rows: v.rows,
        cols: v.cols,
    }
}

/// Marks cell `i` with `st`, unless it is revealed.
pub open spec fn mark(v: BoardView, i: int, st: CellState) -> BoardView {
    if v.cells[i].state == CellState::Revealed {
        v
    } else {
        set_state_at(v, i, st)
    }
}

/// Flips cell `i` between flagged and hidden; a questioned cell becomes flagged; a
/// revealed cell stays as it is.
pub open spec fn toggled_flag(v: BoardView, i: int) -> BoardView {
    if v.cells[i].state == CellState::Flagged {
        mark(v, i, CellState::Hidden)
    } else {
        mark(v, i, CellState::Flagged)
    }
}

/// Flips cell `i` between questioned and hidden; a flagged cell becomes questioned; a
/// revealed cell stays as it is.
pub open spec fn toggled_question(v: BoardView, i: int) -> BoardView {
    if v.cells[i].state == CellState::Questioned {
        mark(v, i, CellState::Hidden)
    } else {
        mark(v, i, CellState::Questioned)
    }
}

/// The number of flagged cells.
pub open spec fn flagged_count(v: BoardView) -> nat {
    v.cells.filter(|c: Cell| c.state == CellState::Flagged).len()
}

/// The flags that the player may still place; negative when more cells are flagged
/// than the board has mines.
pub open spec fn flags_left(v: BoardView) -> int {
    mine_total((v.rows * v.cols) as int) - flagged_count(v)
}

/// Every mine is flagged.
pub open spec fn game_won(v: BoardView) -> bool {
    forall|x: int| 0 <= x < v.cells.len() && #[trigger] v.cells[x].kind == CellKind::Mine
        ==> v.cells[x].state == CellState::Flagged
}

/// Some mine is revealed.
pub open spec fn mine_revealed(v: BoardView) -> bool {
    exists|x: int| 0 <= x < v.cells.len() && #[trigger] v.cells[x].kind == CellKind::Mine
        && v.cells[x].state == CellState::Revealed
}

/// Some empty cell is flagged.
pub open spec fn empty_flagged(v: BoardView) -> bool {
    exists|x: int| 0 <= x < v.cells.len() && #[trigger] v.cells[x].kind == CellKind::Empty
        && v.cells[x].state == CellState::Flagged
}

/// A mine is revealed, or the flags ran out with an empty cell among the flagged.
pub open spec fn game_lost(v: BoardView) -> bool {
    mine_revealed(v) || (flags_left(v) == 0 && empty_flagged(v))
}

/// The indices of the mined cells, in increasing order.
pub open spec fn mine_positions(v: BoardView) -> Seq<usize> {
    index_range(v.cells.len()).filter(mine_at(v.cells))
}

/// `p` is a walk over the board in which every step goes to a lone neighbour.
pub open spec fn lone_walk(v: BoardView, p: Seq<usize>) -> bool {
    &&& p.len() >= 1
    &&& forall|k: int| 0 <= k < p.len() ==> #[trigger] p[k] < v.cells.len()
    &&& forall|k: int|
        0 < k < p.len() ==> neighbors(v.rows, v.cols, p[k - 1] as int).contains(#[trigger] p[k])
            && is_lone(v.cells[p[k] as int])
}

/// Some lone walk leads from `i` to `x`.
pub open spec fn reaches(v: BoardView, i: int, x: int) -> bool {
    exists|p: Seq<usize>| #[trigger] lone_walk(v, p) && p[0] as int == i && p.last() as int == x
}

/// The lone cells that lone walks from `i` reach: the open area around `i`.
pub open spec fn lone_region(v: BoardView, i: int) -> Set<int> {
    Set::new(|x: int| 0 <= x < v.cells.len() && is_lone(v.cells[x]) && reaches(v, i, x))
}

/// `x` lies in the open area around `i` or on its border.
pub open spec fn in_cascade(v: BoardView, i: int, x: int) -> bool {
    lone_region(v, i).contains(x) || exists|c: int|
        #[trigger] lone_region(v, i).contains(c) && neighbors(v.rows, v.cols, c).contains(x as usize)
}

/// The cell as it is once revealed.
pub open spec fn shown(c: Cell) -> Cell {
    Cell { state: CellState::Revealed, kind: c.kind, adj_mine_count: c.adj_mine_count }
}

/// The board after the player reveals cell `i`: nothing changes if it is revealed already;
/// else it is revealed, and if it is lone, so is its open area with the area's border.
pub open spec fn revealed(v: BoardView, i: int) -> BoardView {
    if v.cells[i].state == CellState::Revealed {
        v
    } else {
        BoardView {
            cells: Seq::new(
                v.cells.len(),
                |x: int|
                    if x == i || (is_lone(v.cells[i]) && in_cascade(v, i, x)) {
                        shown(v.cells[x])
                    } else {
                        v.cells[x]
                    },
            ),
            rows: v.rows,
            cols: v.cols,
        }
    }
}

/// Every lone neighbour of a marked cell is marked.
pub open spec fn closed_under_steps(v: BoardView, seen: Seq<bool>) -> bool {
    forall|x: int, k: int|
        #![trigger seen[x], neighbors(v.rows, v.cols, x)[k]]
        0 <= x < seen.len() && seen[x] && 0 <= k < neighbors(v.rows, v.cols, x).len()
            && neighbors(v.rows, v.cols, x)[k] < seen.len() && is_lone(
            v.cells[neighbors(v.rows, v.cols, x)[k] as int],
        ) ==> seen[neighbors(v.rows, v.cols, x)[k] as int]
}

proof fn lemma_walk_stays(v: BoardView, seen: Seq<bool>, i: int, p: Seq<usize>)
    requires
        lone_walk(v, p),
        p[0] as int == i,
        seen.len() == v.cells.len(),
        0 <= i < seen.len(),
        seen[i],
        closed_under_steps(v, seen),
    ensures
        seen[p.last() as int],
    decreases p.len(),
{
    if p.len() > 1 {
        let q = p.drop_last();
        assert(forall|k: int| 0 <= k < q.len() ==> q[k] == p[k]);
        assert(lone_walk(v, q));
        lemma_walk_stays(v, seen, i, q);
        let y = p.last();
        let x = q.last() as int;
        assert(p[p.len() - 1] == y);
        assert(neighbors(v.rows, v.cols, x).contains(y));
        let k = choose|k: int| 0 <= k < neighbors(v.rows, v.cols, x).len() && neighbors(v.rows, v.cols, x)[k] == y;
        assert(seen[neighbors(v.rows, v.cols, x)[k] as int]);
    }
}

proof fn lemma_walk_extend(v: BoardView, p: Seq<usize>, y: usize)
    requires
        lone_walk(v, p),
        y < v.cells.len(),
        neighbors(v.rows, v.cols, p.last() as int).contains(y),
        is_lone(v.cells[y as int]),
    ensures
        lone_walk(v, p.push(y)),
{
    let q = p.push(y);
    assert(forall|k: int| 0 <= k < p.len() ==> q[k] == p[k]);
    assert(q[q.len() - 1] == y);
    assert forall|k: int| 0 < k < q.len() implies neighbors(v.rows, v.cols, q[k - 1] as int).contains(#[trigger] q[k])
        && is_lone(v.cells[q[k] as int]) by {
        if k < p.len() {
            assert(q[k - 1] == p[k - 1]);
        }
    }
}

/// Boards that agree on the dimensions and on which cells are lone have the same open areas.
proof fn lemma_same_regions(v: BoardView, w: BoardView, i: int)
    requires
        v.rows == w.rows,
        v.cols == w.cols,
        v.cells.len() == w.cells.len(),
        forall|x: int| 0 <= x < v.cells.len() ==> is_lone(#[trigger] v.cells[x]) == is_lone(w.cells[x]),
    ensures
        lone_region(v, i) == lone_region(w, i),
        forall|x: int| in_cascade(v, i, x) == #[trigger] in_cascade(w, i, x),
{
    assert forall|p: Seq<usize>| #[trigger] lone_walk(v, p) == lone_walk(w, p) by {
        if lone_walk(v, p) {
            assert forall|k: int| 0 < k < p.len() implies neighbors(w.rows, w.cols, p[k - 1] as int).contains(#[trigger] p[k])
                && is_lone(w.cells[p[k] as int]) by {
                assert(p[k] < v.cells.len());
            }
        }
        if lone_walk(w, p) {
            assert forall|k: int| 0 < k < p.len() implies neighbors(v.rows, v.cols, p[k - 1] as int).contains(#[trigger] p[k])
                && is_lone(v.cells[p[k] as int]) by {
                assert(p[k] < v.cells.len());
            }
        }
    }
    assert forall|x: int| #[trigger] reaches(v, i, x) == reaches(w, i, x) by {
        if reaches(v, i, x) {
            let p = choose|p: Seq<usize>| #[trigger] lone_walk(v, p) && p[0] as int == i && p.last() as int == x;
            assert(lone_walk(w, p));
        }
        if reaches(w, i, x) {
            let p = choose|p: Seq<usize>| #[trigger] lone_walk(w, p) && p[0] as int == i && p.last() as int == x;
            assert(lone_walk(v, p));
        }
    }
    assert(lone_region(v, i) =~= lone_region(w, i));
}

/// `x` is one of the first `k` cells of `conn` or a neighbour of one of them.
pub open spec fn covered(v: BoardView, conn: Seq<usize>, k: int, x: int) -> bool {
    exists|j: int|
        0 <= j < k && (conn[j] as int == x || neighbors(v.rows, v.cols, #[trigger] conn[j] as int).contains(
            x as usize,
        ))
}

/// The character that stands for a cell: what the player sees, or, in the debug view,
/// its kind and count.
pub open spec fn cell_char(c: Cell, debug: bool) -> char {
    if debug {
        debug_glyph(c)
    } else {
        glyph(c)
    }
}

/// The first `c` cells of the row starting at `base`, each after a space.
pub open spec fn row_text(cells: Seq<Cell>, base: int, c: int, debug: bool) -> Seq<char>
    decreases c,
{
    if c <= 0 {
        Seq::empty()
    } else {
        row_text(cells, base, c - 1, debug) + seq![' ', cell_char(cells[base + c - 1], debug)]
    }
}

/// The first `r` rows of the board, each ended by a newline.
pub open spec fn grid_text(cells: Seq<Cell>, cols: int, r: int, debug: bool) -> Seq<char>
    decreases r,
{
    if r <= 0 {
        Seq::empty()
    } else {
        grid_text(cells, cols, r - 1, debug) + row_text(cells, (r - 1) * cols, cols, debug) + seq!['\n']
    }
}

/// Relies on `String::push`: the character is appended at the end.
#[verifier::external_body]
fn push_char(s: &mut String, c: char)
    ensures
        final(s)@ == old(s)@.push(c),
{
    s.push(c);
}

/// The indices of the mined cells.
pub open spec fn mine_set(v: BoardView) -> Set<usize> {
    Set::new(|x: usize| (x as int) < v.cells.len() && v.cells[x as int].kind == CellKind::Mine)
}

/// The indices of the flagged cells.
pub open spec fn flag_set(v: BoardView) -> Set<usize> {
    Set::new(|x: usize| (x as int) < v.cells.len() && v.cells[x as int].state == CellState::Flagged)
}

/// A fresh board of `rows * cols` cells holds exactly `mine_total(rows * cols)` mines.
pub proof fn lemma_fresh_mine_count(v: BoardView, rows: nat, cols: nat, swaps: Seq<usize>)
    requires
        fresh_board(v, rows, cols, mine_order(rows * cols, swaps)),
    ensures
        mine_set(v).finite(),
        mine_set(v).len() == mine_total((rows * cols) as int),
{
    let n = rows * cols;
    let order = mine_order(n, swaps);
    lemma_mine_order_distinct(n, swaps);
    assert forall|x: usize| #[trigger] mine_set(v).contains(x) <==> order.to_set().contains(x) by {
        if order.contains(x) {
            let k = choose|k: int| 0 <= k < order.len() && order[k] == x;
            assert(order[k] < n);
            assert(v.cells[x as int].kind == CellKind::Mine);
        }
        if mine_set(v).contains(x) {
            assert(((x as int) as usize) == x);
        }
    }
    assert(mine_set(v) =~= order.to_set());
}

/// Revealing a cell a second time changes nothing.
pub proof fn lemma_reveal_idempotent(v: BoardView, i: int)
    requires
        0 <= i < v.cells.len(),
    ensures
        revealed(revealed(v, i), i) == revealed(v, i),
{
}

/// When every flagged cell is a mine, the game is won exactly when the flagged cells are
/// the mined cells.
pub proof fn lemma_won_iff_flags_match(v: BoardView)
    requires
        v.cells.len() <= usize::MAX,
        forall|x: int| 0 <= x < v.cells.len() && #[trigger] v.cells[x].state == CellState::Flagged
            ==> v.cells[x].kind == CellKind::Mine,
    ensures
        game_won(v) <==> mine_set(v) == flag_set(v),
{
    if game_won(v) {
        assert(mine_set(v) =~= flag_set(v));
    }
    if mine_set(v) == flag_set(v) {
        assert forall|x: int| 0 <= x < v.cells.len() && #[trigger] v.cells[x].kind == CellKind::Mine
            implies v.cells[x].state == CellState::Flagged by {
            assert(mine_set(v).contains(x as usize));
            assert(flag_set(v).contains(x as usize));
        }
    }
}

/// Revealing a mine loses the game, whatever the flags.
pub proof fn lemma_revealed_mine_loses(v: BoardView, i: int)
    requires
        0 <= i < v.cells.len(),
        v.cells[i].kind == CellKind::Mine,
    ensures
        game_lost(revealed(v, i)),
{
    let w = revealed(v, i);
    assert(w.cells[i].kind == CellKind::Mine && w.cells[i].state == CellState::Revealed);
}

/// Toggling the flag twice on a hidden or a revealed cell gives back the board; on a
/// revealed cell each toggle is a no-op.
pub proof fn lemma_toggle_flag_twice(v: BoardView, i: int)
    requires
        0 <= i < v.cells.len(),
        v.cells[i].state == CellState::Hidden || v.cells[i].state == CellState::Revealed,
    ensures
        toggled_flag(toggled_flag(v, i), i) == v,
        v.cells[i].state == CellState::Revealed ==> toggled_flag(v, i) == v,
{
    if v.cells[i].state == CellState::Hidden {
        let w = toggled_flag(v, i);
        assert(w.cells[i].state == CellState::Flagged);
        assert(toggled_flag(w, i).cells =~= v.cells);
    }
}

/// No marking operation changes a revealed cell.
pub proof fn lemma_marks_keep_revealed(v: BoardView, i: int, st: CellState)
    requires
        0 <= i < v.cells.len(),
        v.cells[i].state == CellState::Revealed,
    ensures
        toggled_flag(v, i) == v,
        toggled_question(v, i) == v,
        mark(v, i, st) == v,
{
}

proof fn lemma_mine_total_bound(n: int)
    requires
        n >= 0,
    ensures
        0 <= mine_total(n) <= n,
{
}

/// The mines that a board gets are `mine_total(n)` distinct cells of the board.
pub proof fn lemma_mine_order_distinct(n: nat, swaps: Seq<usize>)
    requires
        n <= usize::MAX,
    ensures
        mine_order(n, swaps).len() == mine_total(n as int),
        mine_order(n, swaps).no_duplicates(),
        mine_order(n, swaps).to_set().len() == mine_total(n as int),
        forall|k: int| 0 <= k < mine_order(n, swaps).len() ==> #[trigger] mine_order(n, swaps)[k] < n,
{
    lemma_shuffle_distinct(n, swaps, full_steps(n));
    lemma_mine_total_bound(n as int);
    let s = shuffled_indices(n, swaps);
    let t = mine_order(n, swaps);
    assert(forall|k: int| 0 <= k < t.len() ==> t[k] == s[k]);
    assert(t.no_duplicates());
    t.unique_seq_to_set();
}

proof fn lemma_cell_index(nr: int, nc: int, rows: int, cols: int)
    requires
        0 <= nr < rows,
        0 <= nc < cols,
    ensures
        0 <= nr * cols + nc < rows * cols,
{
    assert(0 <= nr * cols + nc < rows * cols) by (nonlinear_arith)
        requires
            0 <= nr < rows,
            0 <= nc < cols,
    ;
}

proof fn lemma_row_col(index: int, rows: int, cols: int)
    requires
        0 <= index < rows * cols,
        0 <= rows,
        0 <= cols,
    ensures
        cols > 0,
        0 <= index / cols < rows,
        0 <= index % cols < cols,
{
    assert(cols > 0) by (nonlinear_arith)
        requires
            0 <= index < rows * cols,
            0 <= rows,
            0 <= cols,
    ;
    vstd::arithmetic::div_mod::lemma_fundamental_div_mod(index, cols);
    vstd::arithmetic::div_mod::lemma_div_pos_is_pos(index, cols);
    let q = index / cols;
    let m = index % cols;
    assert(q < rows) by (nonlinear_arith)
        requires
            index == cols * q + m,
            0 <= m,
            index < rows * cols,
            cols > 0,
    ;
}

/// A Minesweeper board: a row-major grid of cells and its dimensions.
pub struct Minesweeper {
    grid: Vec<Cell>,
    num_rows: usize,
    num_cols: usize,
}

impl View for Minesweeper {
    type V = BoardView;

    closed spec fn view(&self) -> BoardView {
        BoardView { cells: self.grid@, rows: self.num_rows as nat, cols: self.num_cols as nat }
    }
}

impl Minesweeper {
    #[verifier::type_invariant]
    spec fn inv(&self) -> bool {
        self@.wf()
    }


    /// A grid of `rows * cols` hidden, empty cells with no adjacent mines.
    fn empty_grid(rows: usize, cols: usize) -> (r: Vec<Cell>)
        requires
            rows * cols <= usize::MAX,
        ensures
            r@.len() == rows * cols,
            forall|x: int| 0 <= x < r@.len() ==> #[trigger] r@[x] == Cell::new_spec(CellKind::Empty),
    {
        let n = rows * cols;
        let mut grid: Vec<Cell> = Vec::with_capacity(n);
        let mut i: usize = 0;
        while i < n
            invariant
                i <= n,
                grid@.len() == i,
                forall|x: int| 0 <= x < i ==> #[trigger] grid@[x] == Cell::new_spec(CellKind::Empty),
            decreases n - i,
        {
            grid.push(Cell::new(CellKind::Empty));
            i += 1;
        }
        grid
    }

    /// Shuffles `v` in place by Fisher-Yates from the last position down; the draw
    /// for each step picks the partner position (see `swap_partner`).
    fn shuffle(v: &mut Vec<usize>, swaps: &Vec<usize>)
        ensures
            final(v)@ == shuffle_steps(old(v)@, swaps@, full_steps(old(v)@.len())),
    {
        let ghost s0 = v@;
        let n = v.len();
        if n == 0 {
            return;
        }
        let mut i: usize = n - 1;
        while i > 0
            invariant
                n == s0.len(),
                v@.len() == n,
                i <= n - 1,
                v@ == shuffle_steps(s0, swaps@, (n - 1 - i) as nat),
            decreases i,
        {
            let k: usize = n - 1 - i;
            let j: usize = if k < swaps.len() {
                swaps[k] % (i + 1)
            } else {
                i
            };
            let a = v[i];
            let b = v[j];
            v[i] = b;
            v[j] = a;
            i -= 1;
        }
    }

    /// `count` distinct indices below `len`, the first ones of a shuffle of `0..len`.
    fn gen_rand_grid_indices(len: usize, count: usize, swaps: &Vec<usize>) -> (r: Vec<usize>)
        requires
            count <= len,
        ensures
            r@ == shuffled_indices(len as nat, swaps@).take(count as int),
    {
        let mut grid_indices: Vec<usize> = Vec::with_capacity(len);
        let mut i: usize = 0;
        while i < len
            invariant
                i <= len,
                grid_indices@ =~= index_range(i as nat),
            decreases len - i,
        {
            grid_indices.push(i);
            i += 1;
        }
        Minesweeper::shuffle(&mut grid_indices, swaps);
        proof {
            lemma_shuffle_distinct(len as nat, swaps@, full_steps(len as nat));
        }
        let mut out: Vec<usize> = Vec::with_capacity(count);
        let mut k: usize = 0;
        while k < count
            invariant
                k <= count,
                count <= len,
                grid_indices@.len() == len,
                out@ =~= grid_indices@.take(k as int),
            decreases count - k,
        {
            out.push(grid_indices[k]);
            k += 1;
        }
        out
    }

    /// The number of mines among the cells at `adj`, read from `grid`.
    fn count_mines_at(grid: &Vec<Cell>, adj: &Vec<usize>) -> (r: u8)
        requires
            adj@.len() <= 8,
            forall|k: int| 0 <= k < adj@.len() ==> #[trigger] adj@[k] < grid@.len(),
        ensures
            r == adj@.filter(mine_at(grid@)).len(),
            r <= 8,
    {
        let mut count: u8 = 0;
        let mut t: usize = 0;
        while t < adj.len()
            invariant
                t <= adj@.len(),
                adj@.len() <= 8,
                forall|k: int| 0 <= k < adj@.len() ==> #[trigger] adj@[k] < grid@.len(),
                count <= t,
                count == adj@.take(t as int).filter(mine_at(grid@)).len(),
            decreases adj@.len() - t,
        {
            proof {
                reveal(Seq::filter);
                assert(adj@.take(t + 1).drop_last() =~= adj@.take(t as int));
            }
            if grid[adj[t]].is_mined() {
                count += 1;
            }
            t += 1;
        }
        proof {
            assert(adj@.take(t as int) =~= adj@);
        }
        count
    }

    /// A board with mines exactly at `mine_ndxs`, every cell hidden and carrying the
    /// number of mines among its neighbours.
    pub fn with_mines(num_rows: usize, num_cols: usize, mine_ndxs: &Vec<usize>) -> (r: Minesweeper)
        requires
            num_rows * num_cols <= isize::MAX,
            forall|k: int| 0 <= k < mine_ndxs@.len() ==> #[trigger] mine_ndxs@[k] < num_rows * num_cols,
        ensures
            fresh_board(r@, num_rows as nat, num_cols as nat, mine_ndxs@),
    {
        let n = num_rows * num_cols;
        let mut grid = Minesweeper::empty_grid(num_rows, num_cols);
        let mut i: usize = 0;
        while i < mine_ndxs.len()
            invariant
                i <= mine_ndxs@.len(),
                grid@.len() == n,
                n == num_rows * num_cols,
                forall|k: int| 0 <= k < mine_ndxs@.len() ==> #[trigger] mine_ndxs@[k] < n,
                forall|x: int| 0 <= x < n ==> {
                    &&& (#[trigger] grid@[x]).state == CellState::Hidden
                    &&& grid@[x].adj_mine_count == 0
                    &&& (grid@[x].kind == CellKind::Mine <==> mine_ndxs@.take(i as int).contains(x as usize))
                },
            decreases mine_ndxs@.len() - i,
        {
            proof {
                assert(mine_ndxs@.take(i + 1) =~= mine_ndxs@.take(i as int).push(mine_ndxs@[i as int]));
            }
            grid[mine_ndxs[i]] = Cell::new(CellKind::Mine);
            i += 1;
        }
        proof {
            assert(mine_ndxs@.take(i as int) =~= mine_ndxs@);
        }
        let ghost kinds = grid@;
        let mut j: usize = 0;
        while j < n
            invariant
                j <= n,
                n == num_rows * num_cols,
                n <= isize::MAX,
                grid@.len() == n,
                kinds.len() == n,
                forall|x: int| 0 <= x < n ==> {
                    &&& (#[trigger] grid@[x]).state == CellState::Hidden
                    &&& grid@[x].kind == kinds[x].kind
                    &&& (grid@[x].kind == CellKind::Mine <==> mine_ndxs@.contains(x as usize))
                    &&& x < j ==> grid@[x].adj_mine_count as nat == neighbors(
                        num_rows as nat,
                        num_cols as nat,
                        x,
                    ).filter(mine_at(kinds)).len()
                    &&& grid@[x].adj_mine_count <= 8
                },
            decreases n - j,
        {
            let adj = Minesweeper::adjacent_indices(num_rows, num_cols, j);
            let ghost g = grid@;
            assert(mine_at(g) =~= mine_at(kinds));
            let count = Minesweeper::count_mines_at(&grid, &adj);
            grid[j].set_adj_mine_count(count);
            j += 1;
        }
        let board = Minesweeper { grid, num_rows, num_cols };
        assert(mine_at(board@.cells) =~= mine_at(kinds));
        board
    }
    /// A board of `num_rows` by `num_cols` cells with `mine_total` mines, placed at the
    /// first indices of a shuffle of all indices that `swaps` drives.
    pub fn init(num_rows: usize, num_cols: usize, swaps: &Vec<usize>) -> (r: Minesweeper)
        requires
            num_rows * num_cols <= isize::MAX,
        ensures
            fresh_board(r@, num_rows as nat, num_cols as nat, mine_order((num_rows * num_cols) as nat, swaps@)),
    {
        let n = num_rows * num_cols;
        let total = Minesweeper::mine_total_of(n);
        proof {
            lemma_mine_total_bound(n as int);
            lemma_mine_order_distinct(n as nat, swaps@);
        }
        let mine_ndxs = Minesweeper::gen_rand_grid_indices(n, total, swaps);
        Minesweeper::with_mines(num_rows, num_cols, &mine_ndxs)
    }

    fn mine_total_of(n: usize) -> (r: usize)
        ensures
            r == mine_total(n as int),
    {
        ((3 * (n as u128) + 10) / 20) as usize
    }

    /// The number of mines that a board of this size holds.
    pub fn total_mines(&self) -> (r: usize)
        ensures
            r == mine_total((self@.rows * self@.cols) as int),
    {
        proof {
            use_type_invariant(self);
        }
        Minesweeper::mine_total_of(self.num_rows * self.num_cols)
    }

    /// The index of the cell at `row`, `column`.
    pub fn to_1d(&self, row: usize, column: usize) -> (r: usize)
        requires
            row * self@.cols + column <= usize::MAX,
        ensures
            r == row * self@.cols + column,
    {
        row * self.num_cols + column
    }

    /// A copy of the cells, row by row.
    pub fn cells(&self) -> (r: Vec<Cell>)
        ensures
            r@ == self@.cells,
    {
        self.grid.clone()
    }

    /// The number of rows.
    pub fn num_rows(&self) -> (r: usize)
        ensures
            r == self@.rows,
    {
        self.num_rows
    }

    /// The number of columns.
    pub fn num_cols(&self) -> (r: usize)
        ensures
            r == self@.cols,
    {
        self.num_cols
    }

    /// Sets the state of the cell at `index`, which keeps its kind and count.
    fn set_cell_state(&mut self, index: usize, state: CellState)
        requires
            index < old(self)@.cells.len(),
        ensures
            final(self)@ == set_state_at(old(self)@, index as int, state),
    {
        proof {
            use_type_invariant(&*self);
        }
        let ghost v = self@;
        Minesweeper::set_state_in(&mut self.grid, index, state);
        assert(self@.cells =~= set_state_at(v, index as int, state).cells);
    }

    fn set_state_in(grid: &mut Vec<Cell>, index: usize, state: CellState)
        requires
            index < old(grid)@.len(),
        ensures
            final(grid)@ == old(grid)@.update(
                index as int,
                Cell { state, ..old(grid)@[index as int] },
            ),
        no_unwind
    {
        grid[index].set_state(state);
    }

    /// Flags a hidden or questioned cell, or hides a flagged one; a revealed cell is left as
    /// it is.
    pub fn toggle_flag(&mut self, index: usize)
        requires
            index < old(self)@.cells.len(),
        ensures
            final(self)@ == toggled_flag(old(self)@, index as int),
    {
        if !self.grid[index].is_revealed() {
            if self.grid[index].is_flagged() {
                self.set_cell_state(index, CellState::Hidden);
            } else {
                self.set_cell_state(index, CellState::Flagged);
            }
        }
    }

    /// Questions a hidden or flagged cell, or hides a questioned one; a revealed cell is
    /// left as it is.
    pub fn toggle_question(&mut self, index: usize)
        requires
            index < old(self)@.cells.len(),
        ensures
            final(self)@ == toggled_question(old(self)@, index as int),
    {
        if !self.grid[index].is_revealed() {
            if self.grid[index].is_questioned() {
                self.set_cell_state(index, CellState::Hidden);
            } else {
                self.set_cell_state(index, CellState::Questioned);
            }
        }
    }

    /// Flags the cell at `index` unless it is revealed.
    pub fn flag_cell(&mut self, index: usize)
        requires
            index < old(self)@.cells.len(),
        ensures
            final(self)@ == mark(old(self)@, index as int, CellState::Flagged),
    {
        if !self.grid[index].is_revealed() {
            self.set_cell_state(index, CellState::Flagged);
        }
    }

    /// Questions the cell at `index` unless it is revealed.
    pub fn question_cell(&mut self, index: usize)
        requires
            index < old(self)@.cells.len(),
        ensures
            final(self)@ == mark(old(self)@, index as int, CellState::Questioned),
    {
        if !self.grid[index].is_revealed() {
            self.set_cell_state(index, CellState::Questioned);
        }
    }

    /// Hides the cell at `index` again unless it is revealed.
    pub fn unmark_cell(&mut self, index: usize)
        requires
            index < old(self)@.cells.len(),
        ensures
            final(self)@ == mark(old(self)@, index as int, CellState::Hidden),
    {
        if !self.grid[index].is_revealed() {
            self.set_cell_state(index, CellState::Hidden);
        }
    }

    /// Is the cell at `index` a flagged mine?
    pub fn flagged_mine_cell(&self, index: usize) -> (r: bool)
        requires
            index < self@.cells.len(),
        ensures
            r == (self@.cells[index as int].state == CellState::Flagged
                && self@.cells[index as int].kind == CellKind::Mine),
    {
        self.grid[index].is_flagged() && self.grid[index].is_mined()
    }

    /// Is the cell at `index` a mine without a flag?
    pub fn unflagged_mine_cell(&self, index: usize) -> (r: bool)
        requires
            index < self@.cells.len(),
        ensures
            r == (self@.cells[index as int].state != CellState::Flagged
                && self@.cells[index as int].kind == CellKind::Mine),
    {
        !self.grid[index].is_flagged() && self.grid[index].is_mined()
    }

    /// The indices of the mined cells, in increasing order.
    fn mine_indices(&self) -> (r: Vec<usize>)
        ensures
            r@ == mine_positions(self@),
            forall|k: int| 0 <= k < r@.len() ==> #[trigger] r@[k] < self@.cells.len()
                && self@.cells[r@[k] as int].kind == CellKind::Mine,
            forall|x: int| 0 <= x < self@.cells.len() && #[trigger] self@.cells[x].kind == CellKind::Mine
                ==> r@.contains(x as usize),
    {
        let mut out: Vec<usize> = Vec::new();
        let mut x: usize = 0;
        while x < self.grid.len()
            invariant
                x <= self@.cells.len(),
                self@.cells == self.grid@,
                out@ == index_range(x as nat).filter(mine_at(self@.cells)),
                forall|k: int| 0 <= k < out@.len() ==> #[trigger] out@[k] < x
                    && self@.cells[out@[k] as int].kind == CellKind::Mine,
                forall|y: int| 0 <= y < x && #[trigger] self@.cells[y].kind == CellKind::Mine
                    ==> out@.contains(y as usize),
            decreases self@.cells.len() - x,
        {
            proof {
                reveal(Seq::filter);
                assert(index_range((x + 1) as nat).drop_last() =~= index_range(x as nat));
            }
            if self.grid[x].is_mined() {
                out.push(x);
                assert(out@[out@.len() - 1] == x);
            }
            x += 1;
        }
        out
    }

    /// The number of flags still to place: the mine total less the flagged cells. It is
    /// negative when more cells are flagged than the board has mines.
    pub fn remaining_flags(&self) -> (r: isize)
        ensures
            r == flags_left(self@),
    {
        proof {
            use_type_invariant(self);
        }
        let mut flagged: usize = 0;
        let mut x: usize = 0;
        while x < self.grid.len()
            invariant
                x <= self@.cells.len(),
                self@.cells == self.grid@,
                flagged <= x,
                flagged == self@.cells.take(x as int).filter(|c: Cell| c.state == CellState::Flagged).len(),
            decreases self@.cells.len() - x,
        {
            proof {
                reveal(Seq::filter);
                assert(self@.cells.take(x + 1).drop_last() =~= self@.cells.take(x as int));
            }
            if self.grid[x].is_flagged() {
                flagged += 1;
            }
            x += 1;
        }
        proof {
            assert(self@.cells.take(x as int) =~= self@.cells);
            lemma_mine_total_bound((self@.rows * self@.cols) as int);
        }
        self.total_mines() as isize - flagged as isize
    }

    /// Is every mine flagged?
    pub fn is_game_won(&self) -> (r: bool)
        ensures
            r == game_won(self@),
    {
        proof {
            use_type_invariant(self);
        }
        let mines = self.mine_indices();
        let mut k: usize = 0;
        while k < mines.len()
            invariant
                k <= mines@.len(),
                self@.cells == self.grid@,
                forall|j: int| 0 <= j < mines@.len() ==> #[trigger] mines@[j] < self@.cells.len()
                    && self@.cells[mines@[j] as int].kind == CellKind::Mine,
                forall|j: int| 0 <= j < k ==> self@.cells[#[trigger] mines@[j] as int].state == CellState::Flagged,
            decreases mines@.len() - k,
        {
            if !self.grid[mines[k]].is_flagged() {
                return false;
            }
            k += 1;
        }
        assert forall|x: int| 0 <= x < self@.cells.len() && #[trigger] self@.cells[x].kind == CellKind::Mine
            implies self@.cells[x].state == CellState::Flagged by {
            let j = choose|j: int| 0 <= j < mines@.len() && mines@[j] == x as usize;
            assert(mines@[j] as int == x);
        }
        true
    }

    /// Is a mine revealed, or have the flags run out with an empty cell flagged?
    pub fn is_game_lost(&self) -> (r: bool)
        ensures
            r == game_lost(self@),
    {
        proof {
            use_type_invariant(self);
        }
        let mines = self.mine_indices();
        let mut revealed_mine = false;
        let mut k: usize = 0;
        while k < mines.len()
            invariant
                k <= mines@.len(),
                self@.cells == self.grid@,
                forall|j: int| 0 <= j < mines@.len() ==> #[trigger] mines@[j] < self@.cells.len()
                    && self@.cells[mines@[j] as int].kind == CellKind::Mine,
                forall|x: int| 0 <= x < self@.cells.len() && #[trigger] self@.cells[x].kind == CellKind::Mine
                    ==> mines@.contains(x as usize),
                revealed_mine == exists|j: int| 0 <= j < k
                    && self@.cells[#[trigger] mines@[j] as int].state == CellState::Revealed,
            decreases mines@.len() - k,
        {
            if self.grid[mines[k]].is_revealed() {
                revealed_mine = true;
            }
            k += 1;
        }
        assert(revealed_mine == mine_revealed(self@)) by {
            if mine_revealed(self@) {
                let x = choose|x: int| 0 <= x < self@.cells.len() && #[trigger] self@.cells[x].kind == CellKind::Mine
                    && self@.cells[x].state == CellState::Revealed;
                let j = choose|j: int| 0 <= j < mines@.len() && mines@[j] == x as usize;
                assert(self@.cells[mines@[j] as int].state == CellState::Revealed);
            }
        }
        let mut mis_flagged = false;
        let mut x: usize = 0;
        while x < self.grid.len()
            invariant
                x <= self@.cells.len(),
                self@.cells == self.grid@,
                mis_flagged == exists|y: int| 0 <= y < x && #[trigger] self@.cells[y].kind == CellKind::Empty
                    && self@.cells[y].state == CellState::Flagged,
            decreases self@.cells.len() - x,
        {
            if self.grid[x].is_flagged() && !self.grid[x].is_mined() {
                mis_flagged = true;
            }
            x += 1;
        }
        revealed_mine || (self.remaining_flags() == 0 && mis_flagged)
    }

    /// The lone cells that lone walks from `index` reach, found by a depth-first search
    /// with an explicit stack.
    fn connected_lone_cell_indices(&self, index: usize) -> (r: Vec<usize>)
        requires
            index < self@.cells.len(),
        ensures
            forall|k: int| 0 <= k < r@.len() ==> #[trigger] r@[k] < self@.cells.len(),
            forall|x: int|
                0 <= x < self@.cells.len() ==> (#[trigger] r@.contains(x as usize) <==> lone_region(
                    self@,
                    index as int,
                ).contains(x)),
    {
        proof {
            use_type_invariant(self);
        }
        let ghost v = self@;
        let n = self.grid.len();
        let mut seen: Vec<bool> = Vec::with_capacity(n);
        let mut i: usize = 0;
        while i < n
            invariant
                i <= n,
                seen@.len() == i,
                forall|x: int| 0 <= x < i ==> !(#[trigger] seen@[x]),
            decreases n - i,
        {
            seen.push(false);
            i += 1;
        }
        let mut to_visit: Vec<usize> = Vec::new();
        to_visit.push(index);
        let mut connected: Vec<usize> = Vec::new();
        let ghost mut vset: Set<int> = Set::empty();
        proof {
            let p0 = seq![index];
            assert(lone_walk(v, p0));
            assert(to_visit@[0] == index);
        }
        while to_visit.len() > 0
            invariant
                v == self@,
                self.grid@ == v.cells,
                n == v.cells.len(),
                v.wf(),
                seen@.len() == n,
                index < n,
                forall|k: int| 0 <= k < to_visit@.len() ==> #[trigger] to_visit@[k] < n,
                forall|k: int| 0 <= k < connected@.len() ==> #[trigger] connected@[k] < n,
                forall|x: int| 0 <= x < n ==> (#[trigger] seen@[x] <==> vset.contains(x)),
                forall|x: int| #[trigger] vset.contains(x) ==> 0 <= x < n,
                vset.finite(),
                forall|k: int| 0 <= k < to_visit@.len() ==> reaches(v, index as int, #[trigger] to_visit@[k] as int),
                forall|x: int| 0 <= x < n && #[trigger] seen@[x] ==> reaches(v, index as int, x),
                seen@[index as int] || to_visit@.contains(index),
                forall|x: int, k: int|
                    #![trigger seen@[x], neighbors(v.rows, v.cols, x)[k]]
                    0 <= x < n && seen@[x] && 0 <= k < neighbors(v.rows, v.cols, x).len()
                        && neighbors(v.rows, v.cols, x)[k] < n && is_lone(
                        v.cells[neighbors(v.rows, v.cols, x)[k] as int],
                    ) ==> seen@[neighbors(v.rows, v.cols, x)[k] as int] || to_visit@.contains(
                        neighbors(v.rows, v.cols, x)[k],
                    ),
                forall|x: int|
                    0 <= x < n ==> (#[trigger] connected@.contains(x as usize) <==> seen@[x] && is_lone(
                        v.cells[x],
                    )),
            decreases n - vset.len(), to_visit@.len(),
        {
            let ghost before = to_visit@;
            let cur = to_visit.pop().unwrap();
            proof {
                assert(before == to_visit@.push(cur));
                assert forall|y: usize| #[trigger] before.contains(y) && y != cur implies to_visit@.contains(y) by {
                    let k = choose|k: int| 0 <= k < before.len() && before[k] == y;
                    assert(k < to_visit@.len());
                    assert(to_visit@[k] == y);
                }
                assert(before[before.len() - 1] == cur);
            }
            if seen[cur] {
                continue;
            }
            let ghost old_seen = seen@;
            let ghost old_connected = connected@;
            if self.grid[cur].is_lone_cell() {
                connected.push(cur);
            }
            seen[cur] = true;
            proof {
                vset = vset.insert(cur as int);
                vstd::set_lib::lemma_int_range(0, n as int);
                vstd::set_lib::lemma_len_subset(vset, vstd::set_lib::set_int_range(0, n as int));
                assert forall|x: int| 0 <= x < n implies (#[trigger] connected@.contains(x as usize) <==> seen@[x]
                    && is_lone(v.cells[x])) by {
                    if x == cur as int {
                        if is_lone(v.cells[x]) {
                            assert(connected@[connected@.len() - 1] == cur);
                        }
                    } else if connected@.contains(x as usize) && connected@ != old_connected {
                        let k = choose|k: int| 0 <= k < connected@.len() && connected@[k] == x as usize;
                        assert(k < old_connected.len());
                        assert(old_connected[k] == x as usize);
                    } else if old_connected.contains(x as usize) {
                        let k = choose|k: int| 0 <= k < old_connected.len() && old_connected[k] == x as usize;
                        assert(connected@[k] == x as usize);
                    }
                }
            }
            proof {
                assert forall|x: int, k: int|
                    #![trigger seen@[x], neighbors(v.rows, v.cols, x)[k]]
                    0 <= x < n && seen@[x] && x != cur && 0 <= k < neighbors(v.rows, v.cols, x).len()
                        && neighbors(v.rows, v.cols, x)[k] < n
                        && is_lone(v.cells[neighbors(v.rows, v.cols, x)[k] as int])
                        implies seen@[neighbors(v.rows, v.cols, x)[k] as int] || to_visit@.contains(
                        neighbors(v.rows, v.cols, x)[k],
                    ) by {
                    assert(old_seen[x]);
                    let y = neighbors(v.rows, v.cols, x)[k];
                    if old_seen[y as int] {
                        assert(seen@[y as int]);
                    } else if y != cur {
                        assert(before.contains(y));
                    }
                }
            }
            let adj = Minesweeper::adjacent_indices(self.num_rows, self.num_cols, cur);
            let mut t: usize = 0;
            while t < adj.len()
                invariant
                    v == self@,
                    self.grid@ == v.cells,
                    n == v.cells.len(),
                    v.wf(),
                    seen@.len() == n,
                    index < n,
                    cur < n,
                    seen@[cur as int],
                    t <= adj@.len(),
                    adj@ == neighbors(v.rows, v.cols, cur as int),
                    forall|k: int| 0 <= k < adj@.len() ==> #[trigger] adj@[k] < n,
                    forall|k: int| 0 <= k < to_visit@.len() ==> #[trigger] to_visit@[k] < n,
                    forall|k: int| 0 <= k < to_visit@.len() ==> reaches(v, index as int, #[trigger] to_visit@[k] as int),
                    forall|x: int| 0 <= x < n && #[trigger] seen@[x] ==> reaches(v, index as int, x),
                    seen@[index as int] || to_visit@.contains(index),
                    forall|x: int, k: int|
                        #![trigger seen@[x], neighbors(v.rows, v.cols, x)[k]]
                        0 <= x < n && seen@[x] && x != cur && 0 <= k < neighbors(v.rows, v.cols, x).len()
                        && neighbors(v.rows, v.cols, x)[k] < n
                            && is_lone(v.cells[neighbors(v.rows, v.cols, x)[k] as int])
                            ==> seen@[neighbors(v.rows, v.cols, x)[k] as int] || to_visit@.contains(
                            neighbors(v.rows, v.cols, x)[k],
                        ),
                    forall|k: int|
                        0 <= k < t && is_lone(v.cells[#[trigger] adj@[k] as int]) ==> seen@[adj@[k] as int]
                            || to_visit@.contains(adj@[k]),
                decreases adj@.len() - t,
            {
                let y = adj[t];
                if self.grid[y].is_lone_cell() {
                    let ghost prev = to_visit@;
                    proof {
                        let p = choose|p: Seq<usize>| #[trigger] lone_walk(v, p) && p[0] as int == index as int
                            && p.last() as int == cur as int;
                        assert(adj@.contains(y));
                        lemma_walk_extend(v, p, y);
                        assert(p.push(y)[0] == p[0]);
                        assert(p.push(y).last() == y);
                    }
                    to_visit.push(y);
                    proof {
                        assert(to_visit@[to_visit@.len() - 1] == y);
                        assert forall|z: usize| prev.contains(z) implies #[trigger] to_visit@.contains(z) by {
                            let k = choose|k: int| 0 <= k < prev.len() && prev[k] == z;
                            assert(to_visit@[k] == z);
                        }
                    }
                }
                t += 1;
            }
        }
        proof {
            assert forall|x: int| 0 <= x < n implies (#[trigger] connected@.contains(x as usize)
                <==> lone_region(v, index as int).contains(x)) by {
                if lone_region(v, index as int).contains(x) {
                    let p = choose|p: Seq<usize>| #[trigger] lone_walk(v, p) && p[0] as int == index as int
                        && p.last() as int == x;
                    lemma_walk_stays(v, seen@, index as int, p);
                }
            }
        }
        connected
    }

    /// Reveals the cell at `index`. A lone cell brings its whole open area with it, and
    /// the border of that area; a revealed cell is left as it is.
    pub fn reveal_cell(&mut self, index: usize)
        requires
            index < old(self)@.cells.len(),
        ensures
            final(self)@ == revealed(old(self)@, index as int),
    {
        let ghost v0 = self@;
        if !self.grid[index].is_revealed() {
            self.set_cell_state(index, CellState::Revealed);
            if self.grid[index].is_lone_cell() {
                let ghost v1 = self@;
                proof {
                    lemma_same_regions(v0, v1, index as int);
                }
                self.reveal_lone_cells(index);
                assert(self@.cells =~= revealed(v0, index as int).cells);
            } else {
                assert(self@.cells =~= revealed(v0, index as int).cells);
            }
        }
    }

    /// Reveals the open area around the lone cell at `index` and the area's border.
    fn reveal_lone_cells(&mut self, index: usize)
        requires
            index < old(self)@.cells.len(),
        ensures
            final(self)@.rows == old(self)@.rows,
            final(self)@.cols == old(self)@.cols,
            final(self)@.cells.len() == old(self)@.cells.len(),
            forall|x: int|
                0 <= x < old(self)@.cells.len() ==> #[trigger] final(self)@.cells[x] == if in_cascade(
                    old(self)@,
                    index as int,
                    x,
                ) {
                    shown(old(self)@.cells[x])
                } else {
                    old(self)@.cells[x]
                },
    {
        proof {
            use_type_invariant(&*self);
        }
        let ghost v0 = self@;
        let conn = self.connected_lone_cell_indices(index);
        let mut k: usize = 0;
        while k < conn.len()
            invariant
                k <= conn@.len(),
                self@.rows == v0.rows,
                self@.cols == v0.cols,
                self@.cells.len() == v0.cells.len(),
                v0.cells.len() == v0.rows * v0.cols,
                v0.rows * v0.cols <= isize::MAX,
                self.num_rows == v0.rows,
                self.num_cols == v0.cols,
                forall|j: int| 0 <= j < conn@.len() ==> #[trigger] conn@[j] < v0.cells.len(),
                forall|x: int|
                    0 <= x < v0.cells.len() ==> #[trigger] self@.cells[x] == if covered(v0, conn@, k as int, x) {
                        shown(v0.cells[x])
                    } else {
                        v0.cells[x]
                    },
            decreases conn@.len() - k,
        {
            let c = conn[k];
            self.set_cell_state(c, CellState::Revealed);
            let adj = Minesweeper::adjacent_indices(self.num_rows, self.num_cols, c);
            let mut t: usize = 0;
            while t < adj.len()
                invariant
                    t <= adj@.len(),
                    k < conn@.len(),
                    c == conn@[k as int],
                    adj@ == neighbors(v0.rows, v0.cols, c as int),
                    forall|j: int| 0 <= j < adj@.len() ==> #[trigger] adj@[j] < v0.cells.len(),
                    v0.cells.len() <= isize::MAX,
                    self@.rows == v0.rows,
                    self@.cols == v0.cols,
                    self@.cells.len() == v0.cells.len(),
                    self.num_rows == v0.rows,
                    self.num_cols == v0.cols,
                    forall|x: int|
                        0 <= x < v0.cells.len() ==> #[trigger] self@.cells[x] == if covered(v0, conn@, k as int, x)
                            || x == c || adj@.take(t as int).contains(x as usize) {
                            shown(v0.cells[x])
                        } else {
                            v0.cells[x]
                        },
                decreases adj@.len() - t,
            {
                let y = adj[t];
                self.set_cell_state(y, CellState::Revealed);
                proof {
                    let before = adj@.take(t as int);
                    let after = adj@.take(t + 1);
                    assert(after =~= before.push(y));
                    assert forall|x: int| 0 <= x < v0.cells.len() implies #[trigger] after.contains(x as usize) == (
                    before.contains(x as usize) || x == y as int) by {
                        if x == y as int {
                            assert(after[t as int] == y);
                        }
                        if before.contains(x as usize) {
                            let i = choose|i: int| 0 <= i < before.len() && before[i] == x as usize;
                            assert(after[i] == x as usize);
                        }
                        if after.contains(x as usize) && x != y as int {
                            let i = choose|i: int| 0 <= i < after.len() && after[i] == x as usize;
                            assert(after[t as int] == y);
                            assert((x as usize) as int == x);
                            assert(after.len() == t + 1);
                            assert(i < t);
                            assert(before[i] == x as usize);
                        }
                    }
                }
                t += 1;
            }
            proof {
                assert(adj@.take(t as int) =~= adj@);
                assert forall|x: int| 0 <= x < v0.cells.len() implies covered(v0, conn@, k + 1, x) == (covered(
                    v0,
                    conn@,
                    k as int,
                    x,
                ) || x == c || adj@.contains(x as usize)) by {
                    if covered(v0, conn@, k + 1, x) && !covered(v0, conn@, k as int, x) {
                        let j = choose|j: int|
                            0 <= j < k + 1 && (conn@[j] as int == x || neighbors(v0.rows, v0.cols, #[trigger] conn@[j] as int).contains(
                                x as usize,
                            ));
                        assert(j == k);
                    }
                    if x == c {
                        assert(conn@[k as int] as int == x);
                    }
                    if adj@.contains(x as usize) {
                        assert(neighbors(v0.rows, v0.cols, conn@[k as int] as int).contains(x as usize));
                    }
                }
            }
            k += 1;
        }
        proof {
            assert forall|x: int| 0 <= x < v0.cells.len() implies covered(v0, conn@, k as int, x) == in_cascade(
                v0,
                index as int,
                x,
            ) by {
                if covered(v0, conn@, k as int, x) {
                    let j = choose|j: int|
                        0 <= j < k && (conn@[j] as int == x || neighbors(v0.rows, v0.cols, #[trigger] conn@[j] as int).contains(
                            x as usize,
                        ));
                    let y = conn@[j] as int;
                    assert(conn@.contains(y as usize));
                }
                if in_cascade(v0, index as int, x) {
                    if lone_region(v0, index as int).contains(x) {
                        assert(conn@.contains(x as usize));
                        let j = choose|j: int| 0 <= j < conn@.len() && conn@[j] == x as usize;
                        assert(covered(v0, conn@, k as int, x));
                    } else {
                        let c = choose|c: int|
                            #[trigger] lone_region(v0, index as int).contains(c) && neighbors(v0.rows, v0.cols, c).contains(
                                x as usize,
                            );
                        assert(conn@.contains(c as usize));
                        let j = choose|j: int| 0 <= j < conn@.len() && conn@[j] == c as usize;
                        assert(covered(v0, conn@, k as int, x));
                    }
                }
            }
        }
    }

    /// The board as text: a line per row, each cell a space and its glyph.
    pub fn render(&self) -> (r: String)
        ensures
            r@ == grid_text(self@.cells, self@.cols as int, self@.rows as int, false),
    {
        self.text(false)
    }

    /// The board as text with every cell's kind and count shown, revealed or not.
    pub fn debug(&self) -> (r: String)
        ensures
            r@ == grid_text(self@.cells, self@.cols as int, self@.rows as int, true),
    {
        self.text(true)
    }

    /// The size in bytes of a cell.
    pub fn cell_size() -> (r: usize)
        ensures
            r as nat == vstd::layout::size_of::<Cell>(),
    {
        core::mem::size_of::<Cell>()
    }

    fn text(&self, debug: bool) -> (r: String)
        ensures
            r@ == grid_text(self@.cells, self@.cols as int, self@.rows as int, debug),
    {
        proof {
            use_type_invariant(self);
        }
        let ghost cells = self@.cells;
        let ghost cols = self.num_cols as int;
        let mut buf = String::new();
        let mut ri: usize = 0;
        while ri < self.num_rows
            invariant
                ri <= self.num_rows,
                cells == self.grid@,
                cols == self.num_cols as int,
                self@.wf(),
                cells == self@.cells,
                self@.rows == self.num_rows,
                self@.cols == self.num_cols,
                buf@ == grid_text(cells, cols, ri as int, debug),
            decreases self.num_rows - ri,
        {
            let mut ci: usize = 0;
            while ci < self.num_cols
                invariant
                    ri < self.num_rows,
                    ci <= self.num_cols,
                    cells == self.grid@,
                    cols == self.num_cols as int,
                    self@.wf(),
                    cells == self@.cells,
                    self@.rows == self.num_rows,
                    self@.cols == self.num_cols,
                    buf@ == grid_text(cells, cols, ri as int, debug) + row_text(cells, ri * cols, ci as int, debug),
                decreases self.num_cols - ci,
            {
                proof {
                    lemma_cell_index(ri as int, ci as int, self.num_rows as int, self.num_cols as int);
                }
                let index = ri * self.num_cols + ci;
                let ch = if debug {
                    self.grid[index].debug_glyph()
                } else {
                    self.grid[index].glyph()
                };
                push_char(&mut buf, ' ');
                push_char(&mut buf, ch);
                assert(buf@ =~= grid_text(cells, cols, ri as int, debug) + row_text(cells, ri * cols, ci + 1, debug));
                ci += 1;
            }
            push_char(&mut buf, '\n');
            assert(buf@ =~= grid_text(cells, cols, ri + 1, debug));
            ri += 1;
        }
        buf
    }

    /// The indices of the cells around `index`, clipped to the board, without `index` itself.
    pub fn adjacent_indices(num_rows: usize, num_cols: usize, index: usize) -> (r: Vec<usize>)
        requires
            index < num_rows * num_cols,
            num_rows * num_cols <= usize::MAX,
        ensures
            r@ == neighbors(num_rows as nat, num_cols as nat, index as int),
            r@.len() <= 8,
            forall|k: int| 0 <= k < r@.len() ==> #[trigger] r@[k] < num_rows * num_cols,
    {
        proof {
            lemma_row_col(index as int, num_rows as int, num_cols as int);
        }
        let mut adj_ndxs: Vec<usize> = Vec::new();
        let r = index / num_cols;
        let c = index % num_cols;
        let rstart: usize = if r <= 1 { 0 } else { r - 1 };
        let cstart: usize = if c <= 1 { 0 } else { c - 1 };
        let rend: usize = if r + 1 >= num_rows { num_rows - 1 } else { r + 1 };
        let cend: usize = if c + 1 >= num_cols { num_cols - 1 } else { c + 1 };
        let ghost cols = num_cols as int;
        let mut nr: usize = rstart;
        while nr <= rend
            invariant
                rstart <= nr <= rend + 1,
                rend < num_rows,
                cend < num_cols,
                cstart <= cend,
                rend - rstart <= 2,
                cend - cstart <= 2,
                r == index / num_cols,
                c == index % num_cols,
                rstart == lower_edge(r as int),
                cstart == lower_edge(c as int),
                rend == upper_edge(r as int, num_rows as int),
                cend == upper_edge(c as int, num_cols as int),
                num_rows * num_cols <= usize::MAX,
                cols == num_cols as int,
                adj_ndxs@ == window(cols, r as int, c as int, rstart as int, nr as int, cstart as int, cend as int),
                rstart <= r <= rend,
                cstart <= c <= cend,
                adj_ndxs@.len() + (if nr > r { 1int } else { 0 }) <= 3 * (nr - rstart),
                forall|k: int| 0 <= k < adj_ndxs@.len() ==> #[trigger] adj_ndxs@[k] < num_rows * num_cols,
            decreases rend + 1 - nr,
        {
            let ghost before = adj_ndxs@;
            let mut nc: usize = cstart;
            while nc <= cend
                invariant
                    rstart <= nr <= rend,
                    cstart <= nc <= cend + 1,
                    rend < num_rows,
                    cend < num_cols,
                    cend - cstart <= 2,
                    num_rows * num_cols <= usize::MAX,
                    cols == num_cols as int,
                    before == window(cols, r as int, c as int, rstart as int, nr as int, cstart as int, cend as int),
                    adj_ndxs@ == before + window_row(cols, r as int, c as int, nr as int, cstart as int, nc as int),
                    rstart <= r <= rend,
                    cstart <= c <= cend,
                    before.len() + (if nr > r { 1int } else { 0 }) <= 3 * (nr - rstart),
                    adj_ndxs@.len() + (if nr > r || (nr == r && nc > c) { 1int } else { 0 }) <= before.len()
                        + (if nr > r { 1int } else { 0 }) + (nc - cstart),
                    forall|k: int| 0 <= k < adj_ndxs@.len() ==> #[trigger] adj_ndxs@[k] < num_rows * num_cols,
                decreases cend + 1 - nc,
            {
                if !(nr == r && nc == c) {
                    proof {
                        lemma_cell_index(nr as int, nc as int, num_rows as int, num_cols as int);
                    }
                    let v: usize = nr * num_cols + nc;
                    adj_ndxs.push(v);
                    assert(adj_ndxs@ =~= before + window_row(
                        cols,
                        r as int,
                        c as int,
                        nr as int,
                        cstart as int,
                        nc as int,
                    ).push(v));
                }
                assert(adj_ndxs@ =~= before + window_row(
                    cols,
                    r as int,
                    c as int,
                    nr as int,
                    cstart as int,
                    nc + 1,
                ));
                nc += 1;
            }
            nr += 1;
        }
        adj_ndxs
    }
}

} // verus!
