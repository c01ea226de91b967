use vstd::prelude::*;

verus! {

broadcast use vstd::array::group_array_axioms;

/// Number of columns of the board.
pub const COLUMNS: usize = 7;

/// Number of rows of the board.
pub const ROWS: usize = 6;

/// Number of cells, and so the largest number of moves of one game.
pub const CELLS: usize = 42;

/// The content of one cell: empty, or a piece of one of the two players.
#[derive(Clone, Copy, PartialEq, Eq, Debug, Structural)]
pub enum Spot {
    EMPTY,
    RED,
    YELLOW,
}

/// The number that stands for a cell in a network's input.
pub open spec fn rep_of(s: Spot) -> int {
    match s {
        Spot::RED => 1,
        Spot::YELLOW => -1,
        Spot::EMPTY => 0,
    }
}

impl Spot {
    /// The name of the color, in bold and in its own color, for a terminal.
    pub fn display(&self) -> (r: &'static str)
        ensures
            *self == Spot::RED ==> r@ == "\x1b[1m\x1b[31mRED\x1b[0m"@,
            *self == Spot::YELLOW ==> r@ == "\x1b[1m\x1b[33mYELLOW\x1b[0m"@,
            *self == Spot::EMPTY ==> r@ == ""@,
    {
        match self {
            Spot::RED => "\x1b[1m\x1b[31mRED\x1b[0m",
            Spot::YELLOW => "\x1b[1m\x1b[33mYELLOW\x1b[0m",
            Spot::EMPTY => "",
        }
    }

    /// The cell as a network input: +1 for RED, -1 for YELLOW, 0 when empty.
    pub fn into_rep(&self) -> (r: i8)
        ensures
            r == rep_of(*self),
    {
        match self {
            Spot::RED => 1,
            Spot::YELLOW => -1,
            Spot::EMPTY => 0,
        }
    }

    /// The other player's color; EMPTY stays EMPTY.
    pub fn opponent(&self) -> (r: Spot)
        ensures
            *self == Spot::RED ==> r == Spot::YELLOW,
            *self == Spot::YELLOW ==> r == Spot::RED,
            *self == Spot::EMPTY ==> r == Spot::EMPTY,
    {
        match self {
            Spot::RED => Spot::YELLOW,
            Spot::YELLOW => Spot::RED,
            Spot::EMPTY => Spot::EMPTY,
        }
    }
}

/// Whether `order` names each of the seven columns.
pub open spec fn names_every_column(order: Seq<usize>) -> bool {
    forall|c: int| 0 <= c < 7 ==> #[trigger] order.contains(c as usize)
}

/// The first place in `order` whose column is still open on `b`.
pub open spec fn first_open_from(b: BoardModel, order: Seq<usize>, i: int) -> Option<int>
    decreases order.len() - i,
{
    if i < 0 || i >= order.len() {
        None
    } else if !b.column_full(order[i] as int) {
        Some(i)
    } else {
        first_open_from(b, order, i + 1)
    }
}

/// The mathematical model of a board.
///
/// `grid[c][r]` is the cell in column `c` and row `r`, row 0 being the top.
/// `tops[c]` is the row where the next piece dropped in column `c` lands,
/// and -1 when the column is full.
pub struct BoardModel {
    pub grid: Seq<Seq<Spot>>,
    pub tops: Seq<int>,
    pub moves: int,
}

/// A 7 by 6 board, indexed by column then row (row 0 at the top).
pub struct Board {
    pub positions: [[Spot; 6]; 7],
    highest_pieces: [isize; 7],
    moves: usize,
}

/// Number of pieces that the columns `0..n` hold, given their free tops.
pub open spec fn filled(tops: Seq<int>, n: int) -> int
    decreases n,
{
    if n <= 0 {
        0
    } else {
        filled(tops, n - 1) + (5 - tops[n - 1])
    }
}

/// Whether the window of four cells of `s` that starts at `i` holds four
/// pieces of one color.
pub open spec fn four_at(s: Seq<Spot>, i: int) -> bool {
    &&& s[i] != Spot::EMPTY
    &&& s[i + 1] == s[i]
    &&& s[i + 2] == s[i]
    &&& s[i + 3] == s[i]
}

/// The color of the first window of four equal pieces of `s` that starts at
/// `i` or later, if there is one.
pub open spec fn first_four_from(s: Seq<Spot>, i: int) -> Option<Spot>
    decreases s.len() - i,
{
    if i < 0 || i + 4 > s.len() {
        None
    } else if four_at(s, i) {
        Some(s[i])
    } else {
        first_four_from(s, i + 1)
    }
}

/// The color of the first window of four equal pieces along `s`.
pub open spec fn first_four(s: Seq<Spot>) -> Option<Spot> {
    first_four_from(s, 0)
}

/// The row through the cell in row `r`, from left to right.
pub open spec fn row_line(g: Seq<Seq<Spot>>, r: int) -> Seq<Spot> {
    Seq::new(7, |c: int| g[c][r])
}

/// Steps from the cell `(c, r)` down-left to the edge of the board.
pub open spec fn rising_back(c: int, r: int) -> int {
    if c < 5 - r { c } else { 5 - r }
}

/// Number of cells of the rising (`/`) diagonal through `(c, r)`.
pub open spec fn rising_len(c: int, r: int) -> int {
    let c0 = c - rising_back(c, r);
    let r0 = r + rising_back(c, r);
    if 7 - c0 < r0 + 1 { 7 - c0 } else { r0 + 1 }
}

/// The rising (`/`) diagonal through `(c, r)`, from its lower-left end.
pub open spec fn rising_line(g: Seq<Seq<Spot>>, c: int, r: int) -> Seq<Spot> {
    let c0 = c - rising_back(c, r);
    let r0 = r + rising_back(c, r);
    Seq::new(rising_len(c, r) as nat, |i: int| g[c0 + i][r0 - i])
}

/// Steps from the cell `(c, r)` up-left to the edge of the board.
pub open spec fn falling_back(c: int, r: int) -> int {
    if c < r { c } else { r }
}

/// Number of cells of the falling (`\`) diagonal through `(c, r)`.
pub open spec fn falling_len(c: int, r: int) -> int {
    let c0 = c - falling_back(c, r);
    let r0 = r - falling_back(c, r);
    if 7 - c0 < 6 - r0 { 7 - c0 } else { 6 - r0 }
}

/// The falling (`\`) diagonal through `(c, r)`, from its upper-left end.
pub open spec fn falling_line(g: Seq<Seq<Spot>>, c: int, r: int) -> Seq<Spot> {
    let c0 = c - falling_back(c, r);
    let r0 = r - falling_back(c, r);
    Seq::new(falling_len(c, r) as nat, |i: int| g[c0 + i][r0 + i])
}

/// The winner along the four lines through `(c, r)`: the row, the column,
/// the rising and the falling diagonal, looked at in that order.
pub open spec fn winner_through(g: Seq<Seq<Spot>>, c: int, r: int) -> Option<Spot> {
    let h = first_four(row_line(g, r));
    let v = first_four(g[c]);
    let d = first_four(rising_line(g, c, r));
    if h is Some {
        h
    } else if v is Some {
        v
    } else if d is Some {
        d
    } else {
        first_four(falling_line(g, c, r))
    }
}

impl BoardModel {
    /// The board's invariant: each top lies in -1..=5, the cells at or above
    /// a column's top are empty, and the move counter counts the pieces.
    pub open spec fn wf(self) -> bool {
        &&& self.grid.len() == 7
        &&& self.tops.len() == 7
        &&& forall|c: int| 0 <= c < 7 ==> (#[trigger] self.grid[c]).len() == 6
        &&& forall|c: int| 0 <= c < 7 ==> -1 <= #[trigger] self.tops[c] <= 5
        &&& forall|c: int, r: int|
            0 <= c < 7 && 0 <= r <= self.tops[c] ==> #[trigger] self.grid[c][r] == Spot::EMPTY
        &&& self.moves == filled(self.tops, 7)
    }

    /// The board after a piece of color `s` lands on top of column `c`.
    pub open spec fn drop_piece(self, c: int, s: Spot) -> BoardModel {
        let h = self.tops[c];
        BoardModel {
            grid: self.grid.update(c, self.grid[c].update(h, s)),
            tops: self.tops.update(c, h - 1),
            moves: self.moves + 1,
        }
    }

    /// What a placement at `(c, r)` reports: the winner along its lines;
    /// else a draw (`Some(EMPTY)`) once all 42 cells are filled; else `None`.
    pub open spec fn outcome(self, c: int, r: int) -> Option<Spot> {
        match winner_through(self.grid, c, r) {
            Some(w) => Some(w),
            None => if self.moves >= 42 {
                Some(Spot::EMPTY)
            } else {
                None
            },
        }
    }

    /// Whether column `c` holds six pieces.
    pub open spec fn column_full(self, c: int) -> bool {
        self.tops[c] < 0
    }

    /// The board after an attempt to insert `s` in column `c`.
    pub open spec fn after_insert(self, c: int, s: Spot) -> BoardModel {
        if self.column_full(c) {
            self
        } else {
            self.drop_piece(c, s)
        }
    }

    /// What an attempt to insert `s` in column `c` returns: whether it was
    /// applied, and the outcome of the placement.
    pub open spec fn insert_result(self, c: int, s: Spot) -> (bool, Option<Spot>) {
        if self.column_full(c) {
            (false, None)
        } else {
            (true, self.drop_piece(c, s).outcome(c, self.tops[c]))
        }
    }

    /// The empty board.
    pub open spec fn empty() -> BoardModel {
        BoardModel {
            grid: Seq::new(7, |c: int| Seq::new(6, |r: int| Spot::EMPTY)),
            tops: Seq::new(7, |c: int| 5),
            moves: 0,
        }
    }
}

/// Each column holds between 0 and 6 pieces, so `n` columns at most `6 * n`,
/// and fewer as soon as one of them is open.
proof fn lemma_filled_bounds(tops: Seq<int>, n: int)
    requires
        0 <= n <= tops.len(),
        forall|c: int| 0 <= c < n ==> -1 <= #[trigger] tops[c] <= 5,
    ensures
        0 <= filled(tops, n) <= 6 * n,
        (exists|c: int| 0 <= c < n && tops[c] >= 0) ==> filled(tops, n) < 6 * n,
    decreases n,
{
    if n > 0 {
        lemma_filled_bounds(tops, n - 1);
        if exists|c: int| 0 <= c < n && tops[c] >= 0 {
            let c = choose|c: int| 0 <= c < n && tops[c] >= 0;
            if c < n - 1 {
                assert(exists|c: int| 0 <= c < n - 1 && tops[c] >= 0);
            }
        }
    }
}

/// Lowering the top of one column adds one to the count of pieces.
proof fn lemma_filled_update(tops: Seq<int>, n: int, c: int, v: int)
    requires
        0 <= c < tops.len(),
        0 <= n <= tops.len(),
    ensures
        filled(tops.update(c, v), n) == if c < n {
            filled(tops, n) + tops[c] - v
        } else {
            filled(tops, n)
        },
    decreases n,
{
    if n > 0 {
        lemma_filled_update(tops, n - 1, c, v);
    }
}

/// When every column is full, the board holds 42 pieces.
proof fn lemma_filled_all_full(tops: Seq<int>, n: int)
    requires
        0 <= n <= tops.len(),
        forall|c: int| 0 <= c < n ==> #[trigger] tops[c] == -1,
    ensures
        filled(tops, n) == 6 * n,
    decreases n,
{
    if n > 0 {
        lemma_filled_all_full(tops, n - 1);
    }
}

/// Skipping full columns in `order` from place `i` on finds no open one.
proof fn lemma_first_open_none(b: BoardModel, order: Seq<usize>, i: int)
    requires
        0 <= i <= order.len(),
        first_open_from(b, order, i) is None,
    ensures
        forall|j: int| i <= j < order.len() ==> b.column_full(#[trigger] order[j] as int),
    decreases order.len() - i,
{
    if i < order.len() {
        lemma_first_open_none(b, order, i + 1);
    }
}

/// Whether `(c, r)` is a cell of the board.
pub open spec fn on_board(c: int, r: int) -> bool {
    0 <= c < 7 && 0 <= r < 6
}

/// Whether four consecutive cells along the direction `(dc, dr)`, one of
/// them `(c, r)`, are on the board and all hold `s`.
pub open spec fn four_through(g: Seq<Seq<Spot>>, c: int, r: int, dc: int, dr: int, s: Spot) -> bool {
    exists|o: int| 0 <= o < 4 && #[trigger] run_of_four(g, c, r, dc, dr, o, s)
}

/// Whether `(c, r)` is a cell of the board that holds `s`.
pub open spec fn holds(g: Seq<Seq<Spot>>, c: int, r: int, s: Spot) -> bool {
    on_board(c, r) && g[c][r] == s
}

/// Whether the four cells along `(dc, dr)` that start `o` steps before
/// `(c, r)` are on the board and all hold `s`.
pub open spec fn run_of_four(g: Seq<Seq<Spot>>, c: int, r: int, dc: int, dr: int, o: int, s: Spot) -> bool {
    &&& holds(g, c - o * dc, r - o * dr, s)
    &&& holds(g, c + (1 - o) * dc, r + (1 - o) * dr, s)
    &&& holds(g, c + (2 - o) * dc, r + (2 - o) * dr, s)
    &&& holds(g, c + (3 - o) * dc, r + (3 - o) * dr, s)
}

/// Whether the cell `(c, r)` is part of four in a row of color `s`: along
/// its row, its column, or one of its two diagonals.
pub open spec fn completes_four(g: Seq<Seq<Spot>>, c: int, r: int, s: Spot) -> bool {
    ||| four_through(g, c, r, 1, 0, s)
    ||| four_through(g, c, r, 0, 1, s)
    ||| four_through(g, c, r, 1, -1, s)
    ||| four_through(g, c, r, 1, 1, s)
}

/// Whether a window of four cells of the line `l`, one of them at place
/// `k`, all hold `s`.
pub open spec fn window_through(l: Seq<Spot>, k: int, s: Spot) -> bool {
    exists|i: int| 0 <= i && i + 4 <= l.len() && i <= k < i + 4 && #[trigger] window_of(l, i, s)
}

/// Whether the four places of `l` from `i` on all hold `s`.
pub open spec fn window_of(l: Seq<Spot>, i: int, s: Spot) -> bool {
    l[i] == s && l[i + 1] == s && l[i + 2] == s && l[i + 3] == s
}

/// No window of four equal pieces from `i` on.
proof fn lemma_first_four_none(l: Seq<Spot>, i: int)
    requires
        0 <= i,
        first_four_from(l, i) is None,
    ensures
        forall|j: int| i <= j && j + 4 <= l.len() ==> !four_at(l, j),
    decreases l.len() - i,
{
    if i + 4 <= l.len() {
        lemma_first_four_none(l, i + 1);
    }
}

/// A window found from `i` on holds four pieces of the reported color.
proof fn lemma_first_four_some(l: Seq<Spot>, i: int)
    requires
        0 <= i,
        first_four_from(l, i) is Some,
    ensures
        exists|j: int| i <= j && j + 4 <= l.len() && four_at(l, j) && first_four_from(l, i) == Some(l[j]),
    decreases l.len() - i,
{
    if !four_at(l, i) {
        lemma_first_four_some(l, i + 1);
        let j = choose|j: int| i + 1 <= j && j + 4 <= l.len() && four_at(l, j) && first_four_from(l, i + 1) == Some(l[j]);
        assert(i <= j && j + 4 <= l.len() && four_at(l, j) && first_four_from(l, i) == Some(l[j]));
    }
}

/// With no window of four anywhere, nothing is found.
proof fn lemma_first_four_absent(l: Seq<Spot>, i: int)
    requires
        0 <= i,
        forall|j: int| i <= j && j + 4 <= l.len() ==> !four_at(l, j),
    ensures
        first_four_from(l, i) is None,
    decreases l.len() - i,
{
    if i + 4 <= l.len() {
        lemma_first_four_absent(l, i + 1);
    }
}

/// A line without four in a row gains one only through the piece `s` put
/// at place `k`, and then the color found is `s`.
proof fn lemma_line_update(l: Seq<Spot>, k: int, s: Spot)
    requires
        0 <= k < l.len(),
        s != Spot::EMPTY,
        first_four(l) is None,
    ensures
        first_four(l.update(k, s)) == if window_through(l.update(k, s), k, s) {
            Some(s)
        } else {
            None::<Spot>
        },
{
    let m = l.update(k, s);
    lemma_first_four_none(l, 0);
    if window_through(m, k, s) {
        let i = choose|i: int|
            0 <= i && i + 4 <= m.len() && i <= k < i + 4 && #[trigger] window_of(m, i, s);
        assert(four_at(m, i));
        if first_four_from(m, 0) is None {
            lemma_first_four_none(m, 0);
        }
        lemma_first_four_some(m, 0);
        let j = choose|j: int| 0 <= j && j + 4 <= m.len() && four_at(m, j) && first_four_from(m, 0) == Some(m[j]);
        if !(j <= k < j + 4) {
            assert(four_at(l, j));
        }
        assert(m[j] == m[k]);
    } else {
        assert forall|j: int| 0 <= j && j + 4 <= m.len() implies !four_at(m, j) by {
            if four_at(m, j) {
                if j <= k < j + 4 {
                    assert(m[j] == m[k]);
                    assert(window_of(m, j, s));
                } else {
                    assert(four_at(l, j));
                }
            }
        }
        lemma_first_four_absent(m, 0);
    }
}

/// Rows: a window of the row through `(c, r)` that holds `(c, r)` is four
/// in a row through it.
proof fn lemma_row_window(g: Seq<Seq<Spot>>, c: int, r: int, s: Spot)
    requires
        on_board(c, r),
    ensures
        window_through(row_line(g, r), c, s) <==> four_through(g, c, r, 1, 0, s),
{
    let l = row_line(g, r);
    if window_through(l, c, s) {
        let i = choose|i: int| 0 <= i && i + 4 <= l.len() && i <= c < i + 4 && #[trigger] window_of(l, i, s);
        assert(run_of_four(g, c, r, 1, 0, c - i, s));
    }
    if four_through(g, c, r, 1, 0, s) {
        let o = choose|o: int| 0 <= o < 4 && #[trigger] run_of_four(g, c, r, 1, 0, o, s);
        assert(window_of(l, c - o, s));
    }
}

/// Columns: the same for the column through `(c, r)`.
proof fn lemma_column_window(g: Seq<Seq<Spot>>, c: int, r: int, s: Spot)
    requires
        on_board(c, r),
        g[c].len() == 6,
    ensures
        window_through(g[c], r, s) <==> four_through(g, c, r, 0, 1, s),
{
    let l = g[c];
    if window_through(l, r, s) {
        let i = choose|i: int| 0 <= i && i + 4 <= l.len() && i <= r < i + 4 && #[trigger] window_of(l, i, s);
        assert(run_of_four(g, c, r, 0, 1, r - i, s));
    }
    if four_through(g, c, r, 0, 1, s) {
        let o = choose|o: int| 0 <= o < 4 && #[trigger] run_of_four(g, c, r, 0, 1, o, s);
        assert(window_of(l, r - o, s));
    }
}

/// Rising diagonals: the same for the `/` diagonal through `(c, r)`.
proof fn lemma_rising_window(g: Seq<Seq<Spot>>, c: int, r: int, s: Spot)
    requires
        on_board(c, r),
    ensures
        window_through(rising_line(g, c, r), rising_back(c, r), s) <==> four_through(g, c, r, 1, -1, s),
{
    let l = rising_line(g, c, r);
    let k = rising_back(c, r);
    if window_through(l, k, s) {
        let i = choose|i: int| 0 <= i && i + 4 <= l.len() && i <= k < i + 4 && #[trigger] window_of(l, i, s);
        assert(run_of_four(g, c, r, 1, -1, k - i, s));
    }
    if four_through(g, c, r, 1, -1, s) {
        let o = choose|o: int| 0 <= o < 4 && #[trigger] run_of_four(g, c, r, 1, -1, o, s);
        assert(window_of(l, k - o, s));
    }
}

/// Falling diagonals: the same for the `\\` diagonal through `(c, r)`.
proof fn lemma_falling_window(g: Seq<Seq<Spot>>, c: int, r: int, s: Spot)
    requires
        on_board(c, r),
    ensures
        window_through(falling_line(g, c, r), falling_back(c, r), s) <==> four_through(g, c, r, 1, 1, s),
{
    let l = falling_line(g, c, r);
    let k = falling_back(c, r);
    if window_through(l, k, s) {
        let i = choose|i: int| 0 <= i && i + 4 <= l.len() && i <= k < i + 4 && #[trigger] window_of(l, i, s);
        assert(run_of_four(g, c, r, 1, 1, k - i, s));
    }
    if four_through(g, c, r, 1, 1, s) {
        let o = choose|o: int| 0 <= o < 4 && #[trigger] run_of_four(g, c, r, 1, 1, o, s);
        assert(window_of(l, k - o, s));
    }
}

/// A found winner is never EMPTY.
proof fn lemma_first_four_not_empty(l: Seq<Spot>)
    ensures
        first_four(l) != Some(Spot::EMPTY),
{
    if first_four(l) is Some {
        lemma_first_four_some(l, 0);
    }
}

/// A full column refuses a piece: nothing changes and the attempt reports
/// that it was not applied.
pub proof fn lemma_full_column_rejected(b: BoardModel, c: int, s: Spot)
    requires
        b.wf(),
        0 <= c < 7,
        b.tops[c] == -1,
    ensures
        b.insert_result(c, s) == (false, None::<Spot>),
        b.after_insert(c, s) == b,
{
}

/// A placement reports a draw exactly when it fills the last of the 42
/// cells without making four in a row; never on an earlier move.
pub proof fn lemma_draw_on_last_cell(b: BoardModel, c: int, s: Spot)
    requires
        b.wf(),
        0 <= c < 7,
        !b.column_full(c),
    ensures
        b.insert_result(c, s) == (true, Some(Spot::EMPTY)) <==> b.moves == 41 && winner_through(
            b.drop_piece(c, s).grid,
            c,
            b.tops[c],
        ) is None,
        b.moves < 41 ==> b.insert_result(c, s).1 != Some(Spot::EMPTY),
{
    lemma_filled_bounds(b.tops, 7);
    let g = b.drop_piece(c, s).grid;
    let r = b.tops[c];
    lemma_first_four_not_empty(row_line(g, r));
    lemma_first_four_not_empty(g[c]);
    lemma_first_four_not_empty(rising_line(g, c, r));
    lemma_first_four_not_empty(falling_line(g, c, r));
}

/// Four in a row is found exactly when the new piece completes one. On a
/// board where no line through the cell held four in a row, dropping `s`
/// into column `c` reports `s` as the winner if and only if the new piece
/// is one of four cells in a row of color `s` (along its row, its column or
/// one of its diagonals), and no winner otherwise: fewer than four, or a
/// run broken by the other color or an empty cell, is not a win.
pub proof fn lemma_win_detection(b: BoardModel, c: int, s: Spot)
    requires
        b.wf(),
        0 <= c < 7,
        !b.column_full(c),
        s != Spot::EMPTY,
        winner_through(b.grid, c, b.tops[c]) is None,
    ensures
        ({
            let r = b.tops[c];
            let g = b.drop_piece(c, s).grid;
            &&& winner_through(g, c, r) == if completes_four(g, c, r, s) {
                Some(s)
            } else {
                None::<Spot>
            }
            &&& (b.insert_result(c, s).1 == Some(s) <==> completes_four(g, c, r, s))
        }),
{
    let r = b.tops[c];
    let g0 = b.grid;
    let g = b.drop_piece(c, s).grid;
    assert(row_line(g, r) =~= row_line(g0, r).update(c, s));
    assert(g[c] =~= g0[c].update(r, s));
    assert(rising_line(g, c, r) =~= rising_line(g0, c, r).update(rising_back(c, r), s));
    assert(falling_line(g, c, r) =~= falling_line(g0, c, r).update(falling_back(c, r), s));
    lemma_line_update(row_line(g0, r), c, s);
    lemma_line_update(g0[c], r, s);
    lemma_line_update(rising_line(g0, c, r), rising_back(c, r), s);
    lemma_line_update(falling_line(g0, c, r), falling_back(c, r), s);
    lemma_row_window(g, c, r, s);
    lemma_column_window(g, c, r, s);
    lemma_rising_window(g, c, r, s);
    lemma_falling_window(g, c, r, s);
}

impl View for Board {
    type V = BoardModel;

    closed spec fn view(&self) -> BoardModel {
        BoardModel {
            grid: Seq::new(7, |c: int| self.positions[c]@),
            tops: Seq::new(7, |c: int| self.highest_pieces[c] as int),
            moves: self.moves as int,
        }
    }
}

impl Board {
    /// The board's invariant, over its model.
    pub open spec fn wf(&self) -> bool {
        self@.wf()
    }

    /// An empty board: every cell empty, every column open down to the
    /// bottom row, no move made.
    pub fn new() -> (r: Board)
        ensures
            r@ == BoardModel::empty(),
            r.wf(),
    {
        let rows = [Spot::EMPTY;6];
        let positions = [rows;7];
        let highest_pieces = [5isize;7];
        let r = Board { positions, highest_pieces, moves: 0 };
        assert forall|c: int| 0 <= c < 7 implies r@.grid[c] =~= BoardModel::empty().grid[c] by {
            assert(positions@[c] == rows);
        }
        assert(r@.grid =~= BoardModel::empty().grid);
        assert(r@.tops =~= BoardModel::empty().tops);
        assert(filled(r@.tops, 7) == 0) by {
            reveal_with_fuel(filled, 8);
        }
        r
    }

    /// Number of moves made so far.
    pub fn moves(&self) -> (r: usize)
        ensures
            r == self@.moves,
    {
        self.moves
    }

    /// Puts `spot` in the cell `(x, y)`.
    fn change_position(&mut self, x: usize, y: usize, spot: Spot)
        requires
            x < 7,
            y < 6,
        ensures
            final(self)@.grid == old(self)@.grid.update(x as int, old(self)@.grid[x as int].update(y as int, spot)),
            final(self)@.tops == old(self)@.tops,
            final(self)@.moves == old(self)@.moves,
    {
        self.positions[x][y] = spot;
        assert(final(self)@.grid =~= old(self)@.grid.update(x as int, old(self)@.grid[x as int].update(y as int, spot)));
        assert(final(self)@.tops =~= old(self)@.tops);
    }

    /// The color of the first window of four equal pieces along `pieces`.
    fn check_four_consecutive(&self, pieces: Vec<Spot>) -> (r: Option<Spot>)
        ensures
            r == first_four(pieces@),
    {
        let n = pieces.len();
        let mut i: usize = 0;
        while n >= 4 && i <= n - 4
            invariant
                n == pieces@.len(),
                i <= n,
                first_four(pieces@) == first_four_from(pieces@, i as int),
            decreases n - i,
        {
            let a = pieces[i];
            if a != Spot::EMPTY && pieces[i + 1] == a && pieces[i + 2] == a && pieces[i + 3] == a {
                return Some(a);
            }
            i = i + 1;
        }
        None
    }

    /// The winner along the four lines through the cell `(column, row)`.
    fn check_win(&self, column: usize, row: usize) -> (r: Option<Spot>)
        requires
            column < 7,
            row < 6,
        ensures
            r == winner_through(self@.grid, column as int, row as int),
    {
        let ghost g = self@.grid;
        let mut horizontal: Vec<Spot> = Vec::new();
        let mut c: usize = 0;
        while c < COLUMNS
            invariant
                c <= 7,
                row < 6,
                g == self@.grid,
                horizontal@.len() == c,
                forall|j: int| 0 <= j < c ==> horizontal@[j] == g[j][row as int],
            decreases 7 - c,
        {
            horizontal.push(self.positions[c][row]);
            c = c + 1;
        }
        assert(horizontal@ =~= row_line(g, row as int));
        let h = self.check_four_consecutive(horizontal);
        if h.is_some() {
            return h;
        }
        let mut vertical: Vec<Spot> = Vec::new();
        let mut r: usize = 0;
        while r < ROWS
            invariant
                r <= 6,
                column < 7,
                g == self@.grid,
                vertical@.len() == r,
                forall|j: int| 0 <= j < r ==> vertical@[j] == g[column as int][j],
            decreases 6 - r,
        {
            vertical.push(self.positions[column][r]);
            r = r + 1;
        }
        assert(vertical@ =~= g[column as int]);
        let v = self.check_four_consecutive(vertical);
        if v.is_some() {
            return v;
        }
        let back: usize = if column < 5 - row { column } else { 5 - row };
        let c0 = column - back;
        let r0 = row + back;
        let len: usize = if 7 - c0 < r0 + 1 { 7 - c0 } else { r0 + 1 };
        let mut rising: Vec<Spot> = Vec::new();
        let mut i: usize = 0;
        while i < len
            invariant
                i <= len,
                c0 + len <= 7,
                len <= r0 + 1,
                r0 < 6,
                g == self@.grid,
                rising@.len() == i,
                forall|j: int| 0 <= j < i ==> rising@[j] == g[c0 + j][r0 - j],
            decreases len - i,
        {
            rising.push(self.positions[c0 + i][r0 - i]);
            i = i + 1;
        }
        assert(rising@ =~= rising_line(g, column as int, row as int));
        let d = self.check_four_consecutive(rising);
        if d.is_some() {
            return d;
        }
        let back: usize = if column < row { column } else { row };
        let c0 = column - back;
        let r0 = row - back;
        let len: usize = if 7 - c0 < 6 - r0 { 7 - c0 } else { 6 - r0 };
        let mut falling: Vec<Spot> = Vec::new();
        let mut i: usize = 0;
        while i < len
            invariant
                i <= len,
                c0 + len <= 7,
                r0 + len <= 6,
                g == self@.grid,
                falling@.len() == i,
                forall|j: int| 0 <= j < i ==> falling@[j] == g[c0 + j][r0 + j],
            decreases len - i,
        {
            falling.push(self.positions[c0 + i][r0 + i]);
            i = i + 1;
        }
        assert(falling@ =~= falling_line(g, column as int, row as int));
        self.check_four_consecutive(falling)
    }

    /// Drops a piece of color `spot` into `column`.
    ///
    /// When the column already holds six pieces nothing changes and the
    /// result is `(false, None)`. Otherwise the piece lands on the highest
    /// empty cell of the column, the move counter goes up by one, and the
    /// result is `(true, w)`: `w` is the winner found along the four lines
    /// through the new piece, else `Some(EMPTY)` (a draw) when this was the
    /// 42nd move, else `None`.
    pub fn insert_top(&mut self, column: usize, spot: Spot) -> (r: (bool, Option<Spot>))
        requires
            old(self).wf(),
            column < 7,
        ensures
            final(self).wf(),
            final(self)@ == old(self)@.after_insert(column as int, spot),
            r == old(self)@.insert_result(column as int, spot),
    {
        let ghost m = self@;
        let highest = self.highest_pieces[column];
        if highest != -1 {
            proof {
                lemma_filled_bounds(m.tops, 7);
                lemma_filled_update(m.tops, 7, column as int, highest - 1);
            }
            self.change_position(column, highest as usize, spot);
            self.highest_pieces[column] = highest - 1;
            self.moves = self.moves + 1;
            assert(self@.tops =~= m.tops.update(column as int, highest - 1));
            assert(self@ == m.drop_piece(column as int, spot));
            let w = self.check_win(column, highest as usize);
            match w {
                Some(x) => (true, Some(x)),
                None => if self.moves >= CELLS {
                    (true, Some(Spot::EMPTY))
                } else {
                    (true, None)
                },
            }
        } else {
            (false, None)
        }
    }

    /// The board as a network input, column after column, each column from
    /// the top row down: entry `6 * c + r` encodes the cell `(c, r)`.
    pub fn encode(&self) -> (r: Vec<i8>)
        ensures
            r@.len() == 42,
            forall|c: int, k: int| 0 <= c < 7 && 0 <= k < 6 ==> #[trigger] r@[6 * c + k] == rep_of(self@.grid[c][k]),
    {
        let mut out: Vec<i8> = Vec::new();
        let mut c: usize = 0;
        while c < COLUMNS
            invariant
                c <= 7,
                out@.len() == 6 * c,
                forall|a: int, k: int| 0 <= a < c && 0 <= k < 6 ==> #[trigger] out@[6 * a + k] == rep_of(self@.grid[a][k]),
            decreases 7 - c,
        {
            let mut k: usize = 0;
            while k < ROWS
                invariant
                    c < 7,
                    k <= 6,
                    out@.len() == 6 * c + k,
                    forall|a: int, b: int| 0 <= a < c && 0 <= b < 6 ==> #[trigger] out@[6 * a + b] == rep_of(self@.grid[a][b]),
                    forall|b: int| 0 <= b < k ==> #[trigger] out@[6 * c + b] == rep_of(self@.grid[c as int][b]),
                decreases 6 - k,
            {
                out.push(self.positions[c][k].into_rep());
                k = k + 1;
            }
            c = c + 1;
        }
        out
    }

    /// Plays `spot` in the first column of `order` that is not full.
    ///
    /// `order` lists columns from the most to the least preferred. The result
    /// is the column played and the outcome that `insert_top` reported for it,
    /// or `None`, with the board unchanged, when every listed column is full.
    /// An order that names all seven columns always finds a place on a board
    /// that is not full.
    pub fn insert_preferred(&mut self, order: &Vec<usize>, spot: Spot) -> (r: Option<(usize, Option<Spot>)>)
        requires
            old(self).wf(),
            forall|i: int| 0 <= i < order@.len() ==> #[trigger] order@[i] < 7,
        ensures
            final(self).wf(),
            match first_open_from(old(self)@, order@, 0) {
                Some(i) => {
                    &&& r == Some((order@[i], old(self)@.insert_result(order@[i] as int, spot).1))
                    &&& final(self)@ == old(self)@.after_insert(order@[i] as int, spot)
                },
                None => r is None && final(self)@ == old(self)@,
            },
            names_every_column(order@) && old(self)@.moves < 42 ==> r is Some,
    {
        let ghost m = self@;
        let mut i: usize = 0;
        while i < order.len()
            invariant
                self.wf(),
                self@ == m,
                m == old(self)@,
                i <= order@.len(),
                forall|j: int| 0 <= j < order@.len() ==> #[trigger] order@[j] < 7,
                first_open_from(m, order@, 0) == first_open_from(m, order@, i as int),
            decreases order@.len() - i,
        {
            let column = order[i];
            let (applied, outcome) = self.insert_top(column, spot);
            if applied {
                assert(!m.column_full(column as int));
                assert(first_open_from(m, order@, i as int) == Some(i as int));
                return Some((column, outcome));
            }
            assert(m.column_full(column as int));
            assert(first_open_from(m, order@, i as int) == first_open_from(m, order@, i + 1));
            i = i + 1;
        }
        assert(first_open_from(m, order@, i as int) is None);
        proof {
            lemma_first_open_none(m, order@, 0);
            if names_every_column(order@) {
                assert forall|c: int| 0 <= c < 7 implies #[trigger] m.tops[c] == -1 by {
                    assert(order@.contains(c as usize));
                    let j = choose|j: int| 0 <= j < order@.len() && order@[j] == c as usize;
                    assert(m.column_full(order@[j] as int));
                }
                lemma_filled_all_full(m.tops, 7);
            }
        }
        None
    }
}

} // verus!
