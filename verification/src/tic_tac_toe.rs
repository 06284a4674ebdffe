use vstd::prelude::*;

verus! {

/// A cell of the board.
#[derive(Debug, Clone, Copy, PartialEq, Eq, Structural)]
pub enum Cell {
    X,
    O,
    Empty,
    Wall,
}

/// The player to move: `X` maximises the score, `O` minimises it.
#[derive(Debug, Clone, Copy, PartialEq, Eq, Structural)]
pub enum Player {
    X,
    O,
}

impl Player {
    /// The other player.
    pub fn flip(self) -> (p: Player)
        ensures
            p != self,
    {
        match self {
            Player::X => Player::O,
            Player::O => Player::X,
        }
    }
}

// ---------------------------------------------------------------------------------------------
// Windows of three cells
// ---------------------------------------------------------------------------------------------

/// The reward for three cells in a line: a full line is worth 500, two in a row with the third
/// cell open 100, two with a gap between them 80, two against a wall 30, positive for `X` and
/// negative for `O`; anything else is worth nothing.
pub open spec fn window_score(a: Cell, b: Cell, c: Cell) -> int {
    match (a, b, c) {
        (Cell::X, Cell::X, Cell::X) => 500,
        (Cell::O, Cell::O, Cell::O) => -500,
        (Cell::X, Cell::X, Cell::Empty) => 100,
        (Cell::Empty, Cell::X, Cell::X) => 100,
        (Cell::O, Cell::O, Cell::Empty) => -100,
        (Cell::Empty, Cell::O, Cell::O) => -100,
        (Cell::X, Cell::Empty, Cell::X) => 80,
        (Cell::O, Cell::Empty, Cell::O) => -80,
        (Cell::X, Cell::X, Cell::Wall) => 30,
        (Cell::Wall, Cell::X, Cell::X) => 30,
        (Cell::O, Cell::O, Cell::Wall) => -30,
        (Cell::Wall, Cell::O, Cell::O) => -30,
        _ => 0,
    }
}

/// The reward for the three cells `a`, `b`, `c` of a line.
pub fn score_window(a: &Cell, b: &Cell, c: &Cell) -> (score: i32)
    ensures
        score == window_score(*a, *b, *c),
{
    match (a, b, c) {
        // complete 3 in a row
        (Cell::X, Cell::X, Cell::X) => 500,
        (Cell::O, Cell::O, Cell::O) => -500,
        // open ended 2 in a row
        (Cell::X, Cell::X, Cell::Empty) => 100,
        (Cell::Empty, Cell::X, Cell::X) => 100,
        (Cell::O, Cell::O, Cell::Empty) => -100,
        (Cell::Empty, Cell::O, Cell::O) => -100,
        // gap pattern
        (Cell::X, Cell::Empty, Cell::X) => 80,
        (Cell::O, Cell::Empty, Cell::O) => -80,
        // blocked on one side
        (Cell::X, Cell::X, Cell::Wall) => 30,
        (Cell::Wall, Cell::X, Cell::X) => 30,
        (Cell::O, Cell::O, Cell::Wall) => -30,
        (Cell::Wall, Cell::O, Cell::O) => -30,
        // dead sequences and everything else
        _ => 0,
    }
}

/// The cell with `X` and `O` exchanged.
pub open spec fn swap_cell(c: Cell) -> Cell {
    match c {
        Cell::X => Cell::O,
        Cell::O => Cell::X,
        other => other,
    }
}

/// A line read backwards is worth what it is worth forwards.
pub proof fn law_window_score_reversible(a: Cell, b: Cell, c: Cell)
    ensures
        window_score(c, b, a) == window_score(a, b, c),
{
}

/// Exchanging `X` and `O` negates what a line is worth: the reward favours neither player.
pub proof fn law_window_score_antisymmetric(a: Cell, b: Cell, c: Cell)
    ensures
        window_score(swap_cell(a), swap_cell(b), swap_cell(c)) == -window_score(a, b, c),
{
}


// ---------------------------------------------------------------------------------------------
// Evaluating a board
// ---------------------------------------------------------------------------------------------

/// What the evaluation reads of a board: its cells, row by row, and the score that the game
/// itself gives it.
pub struct BoardState {
    pub cells: Vec<Vec<Cell>>,
    pub score: i32,
}

/// The cells of a board as a grid.
pub open spec fn grid_view(cells: Seq<Vec<Cell>>) -> Seq<Seq<Cell>> {
    cells.map_values(|r: Vec<Cell>| r@)
}

pub open spec fn abs_int(x: int) -> int {
    if x < 0 {
        -x
    } else {
        x
    }
}

/// The bonus for the piece at `(i, j)`: 10 less twice its distance (in steps along rows and
/// columns) from the centre cell, for `X`, and the opposite for `O`.
pub open spec fn center_bonus(g: Seq<Seq<Cell>>, i: int, j: int) -> int {
    let c = (g.len() / 2) as int;
    let dist = abs_int(i - c) + abs_int(j - c);
    match g[i][j] {
        Cell::X => 10 - 2 * dist,
        Cell::O => -(10 - 2 * dist),
        _ => 0,
    }
}

/// The sum of the centre bonuses of the cells before `(i, j)`, row by row.
pub open spec fn center_prefix(g: Seq<Seq<Cell>>, i: int, j: int) -> int
    decreases i, j,
{
    if j > 0 {
        center_prefix(g, i, j - 1) + center_bonus(g, i, j - 1)
    } else if i > 0 {
        center_prefix(g, i - 1, g.len() as int)
    } else {
        0
    }
}

/// The `w`-th line that starts at `(i, j)`: the row to the right (0), the column downwards (1),
/// the diagonal down and right (2), the diagonal down and left (3); worth nothing where it
/// leaves the board.
pub open spec fn line_term(g: Seq<Seq<Cell>>, i: int, j: int, w: int) -> int {
    let n = g.len();
    if w == 0 {
        if j + 2 < n {
            window_score(g[i][j], g[i][j + 1], g[i][j + 2])
        } else {
            0
        }
    } else if w == 1 {
        if i + 2 < n {
            window_score(g[i][j], g[i + 1][j], g[i + 2][j])
        } else {
            0
        }
    } else if w == 2 {
        if i + 2 < n && j + 2 < n {
            window_score(g[i][j], g[i + 1][j + 1], g[i + 2][j + 2])
        } else {
            0
        }
    } else {
        if i + 2 < n && j >= 2 {
            window_score(g[i][j], g[i + 1][j - 1], g[i + 2][j - 2])
        } else {
            0
        }
    }
}

/// The sum of the lines before line `w` of cell `(i, j)`, cell by cell, row by row.
pub open spec fn line_prefix(g: Seq<Seq<Cell>>, i: int, j: int, w: int) -> int
    decreases i, j, w,
{
    if w > 0 {
        line_prefix(g, i, j, w - 1) + line_term(g, i, j, w - 1)
    } else if j > 0 {
        line_prefix(g, i, j - 1, 4)
    } else if i > 0 {
        line_prefix(g, i - 1, g.len() as int, 0)
    } else {
        0
    }
}

/// The evaluation of a board: a thousand times the game's score, plus the centre bonuses of
/// all pieces, plus the rewards of all lines of three cells.
pub open spec fn heuristic_value(g: Seq<Seq<Cell>>, score: int) -> int {
    let n = g.len() as int;
    1000 * score + center_prefix(g, n, 0) + line_prefix(g, n, 0, 0)
}

pub open spec fn fits_i32(x: int) -> bool {
    i32::MIN <= x <= i32::MAX
}

/// Whether the evaluation can run: each of the first `n` rows has at least `n` cells (`n` the
/// number of rows), the distances to the centre stay within `i32`, and so does the score after
/// each bonus and reward is added.
pub open spec fn heuristic_defined(g: Seq<Seq<Cell>>, score: int) -> bool {
    let n = g.len() as int;
    &&& n <= 1073741823
    &&& forall|i: int| 0 <= i < n ==> (#[trigger] g[i]).len() >= n
    &&& fits_i32(1000 * score)
    &&& forall|i: int, j: int|
        0 <= i < n && 0 <= j <= n ==> fits_i32(1000 * score + #[trigger] center_prefix(g, i, j))
    &&& forall|i: int, j: int, w: int|
        0 <= i < n && 0 <= j < n && 0 <= w <= 4 ==> fits_i32(
            1000 * score + center_prefix(g, n, 0) + #[trigger] line_prefix(g, i, j, w),
        )
}

/// Adds the reward of one line to the running score.
fn add_line(score: &mut i32, a: &Cell, b: &Cell, c: &Cell)
    requires
        fits_i32(*old(score) + window_score(*a, *b, *c)),
    ensures
        *final(score) == *old(score) + window_score(*a, *b, *c),
{
    *score = *score + score_window(a, b, c);
}

/// Evaluates a board for `X`: a thousand times the game's score, plus a bonus for each piece
/// near the centre, plus a reward for each line of three cells that favours a player.
pub fn heuristic(board: &BoardState) -> (value: i32)
    requires
        heuristic_defined(grid_view(board.cells@), board.score as int),
    ensures
        value == heuristic_value(grid_view(board.cells@), board.score as int),
{
    let ghost g = grid_view(board.cells@);
    let ghost base = 1000 * board.score as int;
    let cells = &board.cells;
    let n = cells.len();
    let mut score: i32 = board.score * 1000;
    let center = n / 2;
    assert(g.len() == n);
    let mut i: usize = 0;
    while i < n
        invariant
            g == grid_view(cells@),
            n == g.len(),
            center == n / 2,
            heuristic_defined(g, board.score as int),
            base == 1000 * board.score as int,
            i <= n,
            score == base + center_prefix(g, i as int, 0),
        decreases n - i,
    {
        let mut j: usize = 0;
        assert(g[i as int].len() >= n);
        assert(cells@[i as int]@ == g[i as int]);
        while j < n
            invariant
                g == grid_view(cells@),
                n == g.len(),
                center == n / 2,
                heuristic_defined(g, board.score as int),
                base == 1000 * board.score as int,
                i < n,
                j <= n,
                cells@[i as int]@ == g[i as int],
                g[i as int].len() >= n,
                score == base + center_prefix(g, i as int, j as int),
            decreases n - j,
        {
            let cell = &cells[i][j];
            let di = i as i32 - center as i32;
            let dj = j as i32 - center as i32;
            let dist = (if di < 0 {
                -di
            } else {
                di
            }) + (if dj < 0 {
                -dj
            } else {
                dj
            });
            let bonus = match cell {
                Cell::X => 10 - (dist * 2),
                Cell::O => -(10 - (dist * 2)),
                _ => 0,
            };
            assert(bonus == center_bonus(g, i as int, j as int));
            assert(fits_i32(base + center_prefix(g, i as int, j + 1)));
            score = score + bonus;
            j = j + 1;
        }
        assert(center_prefix(g, i + 1, 0) == center_prefix(g, i as int, n as int));
        i = i + 1;
    }
    let ghost centers = center_prefix(g, n as int, 0);
    let mut i: usize = 0;
    while i < n
        invariant
            g == grid_view(cells@),
            n == g.len(),
            heuristic_defined(g, board.score as int),
            base == 1000 * board.score as int,
            centers == center_prefix(g, n as int, 0),
            i <= n,
            score == base + centers + line_prefix(g, i as int, 0, 0),
        decreases n - i,
    {
        let mut j: usize = 0;
        while j < n
            invariant
                g == grid_view(cells@),
                n == g.len(),
                heuristic_defined(g, board.score as int),
                base == 1000 * board.score as int,
                centers == center_prefix(g, n as int, 0),
                i < n,
                j <= n,
                score == base + centers + line_prefix(g, i as int, j as int, 0),
            decreases n - j,
        {
            assert(forall|k: int| 0 <= k < n ==> (#[trigger] cells@[k])@ == g[k]);
            assert(forall|k: int| 0 <= k < n ==> (#[trigger] g[k]).len() >= n);
            assert(fits_i32(base + centers + line_prefix(g, i as int, j as int, 1)));
            // Count row.
            if j + 2 < n {
                add_line(&mut score, &cells[i][j], &cells[i][j + 1], &cells[i][j + 2]);
            }
            assert(score == base + centers + line_prefix(g, i as int, j as int, 1));
            assert(fits_i32(base + centers + line_prefix(g, i as int, j as int, 2)));
            // Count column.
            if i + 2 < n {
                add_line(&mut score, &cells[i][j], &cells[i + 1][j], &cells[i + 2][j]);
            }
            assert(score == base + centers + line_prefix(g, i as int, j as int, 2));
            assert(fits_i32(base + centers + line_prefix(g, i as int, j as int, 3)));
            // First diagonal.
            if i + 2 < n && j + 2 < n {
                add_line(&mut score, &cells[i][j], &cells[i + 1][j + 1], &cells[i + 2][j + 2]);
            }
            assert(score == base + centers + line_prefix(g, i as int, j as int, 3));
            assert(fits_i32(base + centers + line_prefix(g, i as int, j as int, 4)));
            // Second diagonal.
            if i + 2 < n && j >= 2 {
                add_line(&mut score, &cells[i][j], &cells[i + 1][j - 1], &cells[i + 2][j - 2]);
            }
            assert(score == base + centers + line_prefix(g, i as int, j as int, 4));
            assert(line_prefix(g, i as int, j + 1, 0) == line_prefix(g, i as int, j as int, 4));
            j = j + 1;
        }
        assert(line_prefix(g, i + 1, 0, 0) == line_prefix(g, i as int, n as int, 0));
        i = i + 1;
    }
    score
}


/// The grid with `X` and `O` exchanged in every cell.
pub open spec fn swap_grid(g: Seq<Seq<Cell>>) -> Seq<Seq<Cell>> {
    g.map_values(|r: Seq<Cell>| r.map_values(|c: Cell| swap_cell(c)))
}

/// Each of the first `n` rows has at least `n` cells, `n` being the number of rows.
pub open spec fn square_enough(g: Seq<Seq<Cell>>) -> bool {
    forall|i: int| 0 <= i < g.len() ==> (#[trigger] g[i]).len() >= g.len()
}

proof fn lemma_swap_cell_at(g: Seq<Seq<Cell>>, i: int, j: int)
    requires
        0 <= i < g.len(),
        0 <= j < g[i].len(),
    ensures
        swap_grid(g)[i][j] == swap_cell(g[i][j]),
        swap_grid(g).len() == g.len(),
{
}

proof fn lemma_center_prefix_swap(g: Seq<Seq<Cell>>, i: int, j: int)
    requires
        square_enough(g),
        0 <= i <= g.len(),
        0 <= j <= g.len(),
        i == g.len() ==> j == 0,
    ensures
        center_prefix(swap_grid(g), i, j) == -center_prefix(g, i, j),
    decreases i, j,
{
    let s = swap_grid(g);
    assert(s.len() == g.len());
    if j > 0 {
        lemma_center_prefix_swap(g, i, j - 1);
        assert(g[i].len() >= g.len());
        lemma_swap_cell_at(g, i, j - 1);
    } else if i > 0 {
        lemma_center_prefix_swap(g, i - 1, g.len() as int);
    }
}

proof fn lemma_line_term_swap(g: Seq<Seq<Cell>>, i: int, j: int, w: int)
    requires
        square_enough(g),
        0 <= i < g.len(),
        0 <= j < g.len(),
    ensures
        line_term(swap_grid(g), i, j, w) == -line_term(g, i, j, w),
{
    let n = g.len() as int;
    let s = swap_grid(g);
    assert(g[i].len() >= n);
    if i + 2 < n {
        assert(g[i + 1].len() >= n);
        assert(g[i + 2].len() >= n);
    }
    if w == 0 {
        if j + 2 < n {
            law_window_score_antisymmetric(g[i][j], g[i][j + 1], g[i][j + 2]);
        }
    } else if w == 1 {
        if i + 2 < n {
            law_window_score_antisymmetric(g[i][j], g[i + 1][j], g[i + 2][j]);
        }
    } else if w == 2 {
        if i + 2 < n && j + 2 < n {
            law_window_score_antisymmetric(g[i][j], g[i + 1][j + 1], g[i + 2][j + 2]);
        }
    } else {
        if i + 2 < n && j >= 2 {
            law_window_score_antisymmetric(g[i][j], g[i + 1][j - 1], g[i + 2][j - 2]);
        }
    }
}

proof fn lemma_line_prefix_swap(g: Seq<Seq<Cell>>, i: int, j: int, w: int)
    requires
        square_enough(g),
        0 <= i <= g.len(),
        0 <= j <= g.len(),
        0 <= w <= 4,
        i == g.len() ==> j == 0 && w == 0,
        j == g.len() ==> w == 0,
    ensures
        line_prefix(swap_grid(g), i, j, w) == -line_prefix(g, i, j, w),
    decreases i, j, w,
{
    let s = swap_grid(g);
    assert(s.len() == g.len());
    if w > 0 {
        lemma_line_prefix_swap(g, i, j, w - 1);
        lemma_line_term_swap(g, i, j, w - 1);
    } else if j > 0 {
        lemma_line_prefix_swap(g, i, j - 1, 4);
    } else if i > 0 {
        lemma_line_prefix_swap(g, i - 1, g.len() as int, 0);
    }
}

/// The evaluation favours neither player: exchanging `X` and `O` on the board, and negating
/// the game's score, negates the evaluation.
pub proof fn law_heuristic_antisymmetric(g: Seq<Seq<Cell>>, score: int)
    requires
        square_enough(g),
    ensures
        heuristic_value(swap_grid(g), -score) == -heuristic_value(g, score),
{
    let n = g.len() as int;
    assert(swap_grid(g).len() == n);
    lemma_center_prefix_swap(g, n, 0);
    lemma_line_prefix_swap(g, n, 0, 0);
}


/// The sum of `f(k)` for `0 <= k < n`.
pub open spec fn sum_below(f: spec_fn(int) -> int, n: int) -> int
    decreases n,
{
    if n <= 0 {
        0
    } else {
        sum_below(f, n - 1) + f(n - 1)
    }
}

proof fn lemma_sum_ext(f: spec_fn(int) -> int, h: spec_fn(int) -> int, n: int)
    requires
        forall|k: int| 0 <= k < n ==> #[trigger] f(k) == h(k),
    ensures
        sum_below(f, n) == sum_below(h, n),
    decreases n,
{
    if n > 0 {
        lemma_sum_ext(f, h, n - 1);
    }
}

proof fn lemma_sum_add4(
    f0: spec_fn(int) -> int,
    f1: spec_fn(int) -> int,
    f2: spec_fn(int) -> int,
    f3: spec_fn(int) -> int,
    h: spec_fn(int) -> int,
    n: int,
)
    requires
        forall|k: int| 0 <= k < n ==> #[trigger] h(k) == f0(k) + f1(k) + f2(k) + f3(k),
    ensures
        sum_below(h, n) == sum_below(f0, n) + sum_below(f1, n) + sum_below(f2, n) + sum_below(f3, n),
    decreases n,
{
    if n > 0 {
        lemma_sum_add4(f0, f1, f2, f3, h, n - 1);
    }
}

proof fn lemma_sum_zero_tail(f: spec_fn(int) -> int, k: int, n: int)
    requires
        0 <= k <= n,
        forall|j: int| k <= j < n ==> #[trigger] f(j) == 0,
    ensures
        sum_below(f, n) == sum_below(f, k),
    decreases n,
{
    if n > k {
        lemma_sum_zero_tail(f, k, n - 1);
    }
}

proof fn lemma_sum_first(f: spec_fn(int) -> int, n: int)
    requires
        n >= 1,
    ensures
        sum_below(f, n) == f(0) + sum_below(|k: int| f(k + 1), n - 1),
    decreases n,
{
    let f1 = |k: int| f(k + 1);
    if n > 1 {
        lemma_sum_first(f, n - 1);
        assert(sum_below(f1, n - 1) == sum_below(f1, n - 2) + f1(n - 2));
        assert(f1(n - 2) == f(n - 1));
    } else {
        assert(sum_below(f, 0) == 0);
        assert(sum_below(f1, 0) == 0);
    }
}

/// Summing a function read backwards gives the same sum.
proof fn lemma_sum_reflect(f: spec_fn(int) -> int, h: spec_fn(int) -> int, n: int)
    requires
        forall|k: int| 0 <= k < n ==> #[trigger] h(k) == f(n - 1 - k),
    ensures
        sum_below(h, n) == sum_below(f, n),
    decreases n,
{
    if n > 0 {
        let f1 = |k: int| f(k + 1);
        lemma_sum_first(f, n);
        assert forall|k: int| 0 <= k < n - 1 implies #[trigger] h(k) == f1((n - 1) - 1 - k) by {
            assert(h(k) == f(n - 1 - k));
        }
        lemma_sum_reflect(f1, h, n - 1);
        assert(h(n - 1) == f(0));
    }
}

/// The centre bonuses of row `i`, by column.
pub open spec fn bonus_row(g: Seq<Seq<Cell>>, i: int) -> spec_fn(int) -> int {
    |j: int| center_bonus(g, i, j)
}

/// The centre bonuses of each row, summed over its first `n` cells.
pub open spec fn bonus_rows(g: Seq<Seq<Cell>>) -> spec_fn(int) -> int {
    |i: int| sum_below(bonus_row(g, i), g.len() as int)
}

/// The rewards of the four lines that start at `(i, j)`.
pub open spec fn line_cell(g: Seq<Seq<Cell>>, i: int, j: int) -> int {
    line_term(g, i, j, 0) + line_term(g, i, j, 1) + line_term(g, i, j, 2) + line_term(g, i, j, 3)
}

/// The rewards of the `w`-th lines that start in row `i`, by column.
pub open spec fn line_col(g: Seq<Seq<Cell>>, i: int, w: int) -> spec_fn(int) -> int {
    |j: int| line_term(g, i, j, w)
}

/// The rewards of the lines that start in row `i`, by column.
pub open spec fn lines_row(g: Seq<Seq<Cell>>, i: int) -> spec_fn(int) -> int {
    |j: int| line_cell(g, i, j)
}

/// The rewards of the lines that start in each row, summed over its first `n` cells.
pub open spec fn lines_rows(g: Seq<Seq<Cell>>) -> spec_fn(int) -> int {
    |i: int| sum_below(lines_row(g, i), g.len() as int)
}

proof fn lemma_center_prefix_sum(g: Seq<Seq<Cell>>, i: int, j: int)
    requires
        0 <= i,
        0 <= j <= g.len(),
    ensures
        center_prefix(g, i, j) == sum_below(bonus_rows(g), i) + sum_below(bonus_row(g, i), j),
    decreases i, j,
{
    if j > 0 {
        lemma_center_prefix_sum(g, i, j - 1);
    } else if i > 0 {
        lemma_center_prefix_sum(g, i - 1, g.len() as int);
    }
}

proof fn lemma_line_prefix_sum(g: Seq<Seq<Cell>>, i: int, j: int)
    requires
        0 <= i,
        0 <= j <= g.len(),
    ensures
        line_prefix(g, i, j, 0) == sum_below(lines_rows(g), i) + sum_below(lines_row(g, i), j),
    decreases i, j,
{
    if j > 0 {
        lemma_line_prefix_sum(g, i, j - 1);
        let k = j - 1;
        assert(line_prefix(g, i, k, 1) == line_prefix(g, i, k, 0) + line_term(g, i, k, 0));
        assert(line_prefix(g, i, k, 2) == line_prefix(g, i, k, 1) + line_term(g, i, k, 1));
        assert(line_prefix(g, i, k, 3) == line_prefix(g, i, k, 2) + line_term(g, i, k, 2));
        assert(line_prefix(g, i, k, 4) == line_prefix(g, i, k, 3) + line_term(g, i, k, 3));
    } else if i > 0 {
        lemma_line_prefix_sum(g, i - 1, g.len() as int);
    }
}

/// The evaluation as sums over the rows of the centre bonuses and of the line rewards.
proof fn lemma_heuristic_sums(g: Seq<Seq<Cell>>, score: int)
    ensures
        heuristic_value(g, score) == 1000 * score + sum_below(bonus_rows(g), g.len() as int)
            + sum_below(lines_rows(g), g.len() as int),
{
    lemma_center_prefix_sum(g, g.len() as int, 0);
    lemma_line_prefix_sum(g, g.len() as int, 0);
}

/// The board seen in a mirror: every row read from right to left.
pub open spec fn mirror_grid(g: Seq<Seq<Cell>>) -> Seq<Seq<Cell>> {
    g.map_values(|r: Seq<Cell>| r.reverse())
}

/// A square board: every row has as many cells as there are rows.
pub open spec fn is_square(g: Seq<Seq<Cell>>) -> bool {
    forall|i: int| 0 <= i < g.len() ==> (#[trigger] g[i]).len() == g.len()
}

proof fn lemma_mirror_cells(g: Seq<Seq<Cell>>)
    requires
        is_square(g),
    ensures
        mirror_grid(g).len() == g.len(),
        is_square(mirror_grid(g)),
        forall|i: int, j: int|
            0 <= i < g.len() && 0 <= j < g.len() ==> #[trigger] mirror_grid(g)[i][j] == g[i][g.len()
                - 1 - j],
{
    let m = mirror_grid(g);
    assert forall|i: int| 0 <= i < m.len() implies (#[trigger] m[i]).len() == m.len() by {
        assert(m[i] == g[i].reverse());
        assert(g[i].len() == g.len());
    }
    assert forall|i: int, j: int| 0 <= i < g.len() && 0 <= j < g.len() implies #[trigger] m[i][j]
        == g[i][g.len() - 1 - j] by {
        assert(m[i] == g[i].reverse());
        assert(g[i].len() == g.len());
    }
}

proof fn lemma_mirror_row_lines(g: Seq<Seq<Cell>>, i: int)
    requires
        is_square(g),
        0 <= i < g.len(),
    ensures
        sum_below(lines_row(mirror_grid(g), i), g.len() as int) == sum_below(
            lines_row(g, i),
            g.len() as int,
        ),
{
    let m = mirror_grid(g);
    let n = g.len() as int;
    lemma_mirror_cells(g);
    assert forall|j: int| 0 <= j < n implies #[trigger] lines_row(m, i)(j) == line_col(m, i, 0)(j)
        + line_col(m, i, 1)(j) + line_col(m, i, 2)(j) + line_col(m, i, 3)(j) by {}
    lemma_sum_add4(line_col(m, i, 0), line_col(m, i, 1), line_col(m, i, 2), line_col(m, i, 3), lines_row(m, i), n);
    assert forall|j: int| 0 <= j < n implies #[trigger] lines_row(g, i)(j) == line_col(g, i, 0)(j)
        + line_col(g, i, 1)(j) + line_col(g, i, 2)(j) + line_col(g, i, 3)(j) by {}
    lemma_sum_add4(line_col(g, i, 0), line_col(g, i, 1), line_col(g, i, 2), line_col(g, i, 3), lines_row(g, i), n);
    // Columns map to columns.
    assert forall|j: int| 0 <= j < n implies #[trigger] line_col(m, i, 1)(j) == line_col(g, i, 1)(
        n - 1 - j,
    ) by {
        if i + 2 < n {
            assert(m[i][j] == g[i][n - 1 - j]);
            assert(m[i + 1][j] == g[i + 1][n - 1 - j]);
            assert(m[i + 2][j] == g[i + 2][n - 1 - j]);
        }
    }
    lemma_sum_reflect(line_col(g, i, 1), line_col(m, i, 1), n);
    // Diagonals down and right map to diagonals down and left.
    assert forall|j: int| 0 <= j < n implies #[trigger] line_col(m, i, 2)(j) == line_col(g, i, 3)(
        n - 1 - j,
    ) by {
        if i + 2 < n && j + 2 < n {
            assert(m[i][j] == g[i][n - 1 - j]);
            assert(m[i + 1][j + 1] == g[i + 1][n - 1 - (j + 1)]);
            assert(m[i + 2][j + 2] == g[i + 2][n - 1 - (j + 2)]);
        }
    }
    lemma_sum_reflect(line_col(g, i, 3), line_col(m, i, 2), n);
    // Diagonals down and left map to diagonals down and right.
    assert forall|j: int| 0 <= j < n implies #[trigger] line_col(m, i, 3)(j) == line_col(g, i, 2)(
        n - 1 - j,
    ) by {
        if i + 2 < n && j >= 2 {
            assert(m[i][j] == g[i][n - 1 - j]);
            assert(m[i + 1][j - 1] == g[i + 1][n - 1 - (j - 1)]);
            assert(m[i + 2][j - 2] == g[i + 2][n - 1 - (j - 2)]);
        }
    }
    lemma_sum_reflect(line_col(g, i, 2), line_col(m, i, 3), n);
    // Rows map to rows, read backwards; the last two cells of a row start no line.
    let k = if n >= 2 {
        n - 2
    } else {
        0
    };
    assert forall|j: int| k <= j < n implies #[trigger] line_col(m, i, 0)(j) == 0 by {}
    assert forall|j: int| k <= j < n implies #[trigger] line_col(g, i, 0)(j) == 0 by {}
    lemma_sum_zero_tail(line_col(m, i, 0), k, n);
    lemma_sum_zero_tail(line_col(g, i, 0), k, n);
    assert forall|j: int| 0 <= j < k implies #[trigger] line_col(m, i, 0)(j) == line_col(g, i, 0)(
        k - 1 - j,
    ) by {
        assert(m[i][j] == g[i][n - 1 - j]);
        assert(m[i][j + 1] == g[i][n - 1 - (j + 1)]);
        assert(m[i][j + 2] == g[i][n - 1 - (j + 2)]);
        law_window_score_reversible(g[i][n - 3 - j], g[i][n - 2 - j], g[i][n - 1 - j]);
    }
    lemma_sum_reflect(line_col(g, i, 0), line_col(m, i, 0), k);
}

proof fn lemma_mirror_row_bonus(g: Seq<Seq<Cell>>, i: int)
    requires
        is_square(g),
        g.len() % 2 == 1,
        0 <= i < g.len(),
    ensures
        sum_below(bonus_row(mirror_grid(g), i), g.len() as int) == sum_below(
            bonus_row(g, i),
            g.len() as int,
        ),
{
    let m = mirror_grid(g);
    let n = g.len() as int;
    let c = n / 2;
    lemma_mirror_cells(g);
    assert(n == 2 * c + 1);
    assert forall|j: int| 0 <= j < n implies #[trigger] bonus_row(m, i)(j) == bonus_row(g, i)(
        n - 1 - j,
    ) by {
        assert(m[i][j] == g[i][n - 1 - j]);
        assert(abs_int(j - c) == abs_int((n - 1 - j) - c));
    }
    lemma_sum_reflect(bonus_row(g, i), bonus_row(m, i), n);
}

/// The evaluation does not change when a square board with an odd number of rows is seen in a
/// mirror (every row read from right to left): each line of three cells, the diagonals down
/// and to the left among them, counts as its mirror image does, and the centre stays in place.
pub proof fn law_heuristic_mirror(g: Seq<Seq<Cell>>, score: int)
    requires
        is_square(g),
        g.len() % 2 == 1,
    ensures
        heuristic_value(mirror_grid(g), score) == heuristic_value(g, score),
{
    let m = mirror_grid(g);
    let n = g.len() as int;
    lemma_mirror_cells(g);
    lemma_heuristic_sums(g, score);
    lemma_heuristic_sums(m, score);
    assert forall|i: int| 0 <= i < n implies #[trigger] bonus_rows(m)(i) == bonus_rows(g)(i) by {
        lemma_mirror_row_bonus(g, i);
    }
    lemma_sum_ext(bonus_rows(m), bonus_rows(g), n);
    assert forall|i: int| 0 <= i < n implies #[trigger] lines_rows(m)(i) == lines_rows(g)(i) by {
        lemma_mirror_row_lines(g, i);
    }
    lemma_sum_ext(lines_rows(m), lines_rows(g), n);
}

proof fn lemma_sum_add2(f0: spec_fn(int) -> int, f1: spec_fn(int) -> int, h: spec_fn(int) -> int, n: int)
    requires
        forall|k: int| 0 <= k < n ==> #[trigger] h(k) == f0(k) + f1(k),
    ensures
        sum_below(h, n) == sum_below(f0, n) + sum_below(f1, n),
    decreases n,
{
    if n > 0 {
        lemma_sum_add2(f0, f1, h, n - 1);
    }
}

/// Where the first two terms are zero, a sum is the sum of the terms from the third on.
proof fn lemma_sum_skip2(h: spec_fn(int) -> int, n: int)
    requires
        n >= 2,
        h(0) == 0,
        h(1) == 0,
    ensures
        sum_below(h, n) == sum_below(|k: int| h(k + 2), n - 2),
{
    let h1 = |k: int| h(k + 1);
    let h2 = |k: int| h1(k + 1);
    lemma_sum_first(h, n);
    lemma_sum_first(h1, n - 1);
    assert(h1(0) == h(1));
    lemma_sum_ext(h2, |k: int| h(k + 2), n - 2);
}

/// Row `i` of a function of two indices.
pub open spec fn row_of(f: spec_fn(int, int) -> int, i: int) -> spec_fn(int) -> int {
    |j: int| f(i, j)
}

/// The sums of the first `b` terms of each row of a function of two indices.
pub open spec fn rows_of(f: spec_fn(int, int) -> int, b: int) -> spec_fn(int) -> int {
    |i: int| sum_below(row_of(f, i), b)
}

/// The sum of `f(i, j)` for `0 <= i < a` and `0 <= j < b`, row by row.
pub open spec fn sum_grid(f: spec_fn(int, int) -> int, a: int, b: int) -> int {
    sum_below(rows_of(f, b), a)
}

/// A function of two indices with its indices exchanged.
pub open spec fn flip(f: spec_fn(int, int) -> int) -> spec_fn(int, int) -> int {
    |i: int, j: int| f(j, i)
}

proof fn lemma_grid_ext(f: spec_fn(int, int) -> int, h: spec_fn(int, int) -> int, a: int, b: int)
    requires
        forall|i: int, j: int| 0 <= i < a && 0 <= j < b ==> #[trigger] f(i, j) == h(i, j),
    ensures
        sum_grid(f, a, b) == sum_grid(h, a, b),
{
    assert forall|i: int| 0 <= i < a implies #[trigger] rows_of(f, b)(i) == rows_of(h, b)(i) by {
        assert forall|j: int| 0 <= j < b implies #[trigger] row_of(f, i)(j) == row_of(h, i)(j) by {
            assert(f(i, j) == h(i, j));
        }
        lemma_sum_ext(row_of(f, i), row_of(h, i), b);
    }
    lemma_sum_ext(rows_of(f, b), rows_of(h, b), a);
}

proof fn lemma_grid_add4(
    f0: spec_fn(int, int) -> int,
    f1: spec_fn(int, int) -> int,
    f2: spec_fn(int, int) -> int,
    f3: spec_fn(int, int) -> int,
    h: spec_fn(int, int) -> int,
    a: int,
    b: int,
)
    requires
        forall|i: int, j: int|
            0 <= i < a && 0 <= j < b ==> #[trigger] h(i, j) == f0(i, j) + f1(i, j) + f2(i, j) + f3(i, j),
    ensures
        sum_grid(h, a, b) == sum_grid(f0, a, b) + sum_grid(f1, a, b) + sum_grid(f2, a, b)
            + sum_grid(f3, a, b),
{
    assert forall|i: int| 0 <= i < a implies #[trigger] rows_of(h, b)(i) == rows_of(f0, b)(i)
        + rows_of(f1, b)(i) + rows_of(f2, b)(i) + rows_of(f3, b)(i) by {
        assert forall|j: int| 0 <= j < b implies #[trigger] row_of(h, i)(j) == row_of(f0, i)(j)
            + row_of(f1, i)(j) + row_of(f2, i)(j) + row_of(f3, i)(j) by {
            assert(h(i, j) == f0(i, j) + f1(i, j) + f2(i, j) + f3(i, j));
        }
        lemma_sum_add4(row_of(f0, i), row_of(f1, i), row_of(f2, i), row_of(f3, i), row_of(h, i), b);
    }
    lemma_sum_add4(rows_of(f0, b), rows_of(f1, b), rows_of(f2, b), rows_of(f3, b), rows_of(h, b), a);
}

/// Summing over a rectangle row by row or column by column gives the same sum.
proof fn lemma_grid_swap(f: spec_fn(int, int) -> int, a: int, b: int)
    requires
        0 <= a,
        0 <= b,
    ensures
        sum_grid(f, a, b) == sum_grid(flip(f), b, a),
    decreases a,
{
    let g = flip(f);
    if a == 0 {
        assert forall|j: int| 0 <= j < b implies #[trigger] rows_of(g, 0)(j) == 0 by {}
        lemma_sum_zero_tail(rows_of(g, 0), 0, b);
    } else {
        lemma_grid_swap(f, a - 1, b);
        assert forall|j: int| 0 <= j < b implies #[trigger] rows_of(g, a)(j) == rows_of(g, a - 1)(j)
            + row_of(f, a - 1)(j) by {
            assert(row_of(g, j)(a - 1) == f(a - 1, j));
        }
        lemma_sum_add2(rows_of(g, a - 1), row_of(f, a - 1), rows_of(g, a), b);
    }
}

/// The centre bonus of each cell, as a function of its row and column.
pub open spec fn bonus_grid(g: Seq<Seq<Cell>>) -> spec_fn(int, int) -> int {
    |i: int, j: int| center_bonus(g, i, j)
}

/// The reward of the `w`-th line that starts at each cell.
pub open spec fn line_grid(g: Seq<Seq<Cell>>, w: int) -> spec_fn(int, int) -> int {
    |i: int, j: int| line_term(g, i, j, w)
}

/// The evaluation as sums over the grid of the centre bonuses and of the four kinds of line.
proof fn lemma_heuristic_grid_sums(g: Seq<Seq<Cell>>, score: int)
    ensures
        ({
            let n = g.len() as int;
            heuristic_value(g, score) == 1000 * score + sum_grid(bonus_grid(g), n, n) + sum_grid(
                line_grid(g, 0),
                n,
                n,
            ) + sum_grid(line_grid(g, 1), n, n) + sum_grid(line_grid(g, 2), n, n) + sum_grid(
                line_grid(g, 3),
                n,
                n,
            )
        }),
{
    let n = g.len() as int;
    lemma_heuristic_sums(g, score);
    assert forall|i: int| 0 <= i < n implies #[trigger] bonus_rows(g)(i) == rows_of(bonus_grid(g), n)(i) by {
        lemma_sum_ext(bonus_row(g, i), row_of(bonus_grid(g), i), n);
    }
    lemma_sum_ext(bonus_rows(g), rows_of(bonus_grid(g), n), n);
    let cells = |i: int, j: int| line_cell(g, i, j);
    assert forall|i: int| 0 <= i < n implies #[trigger] lines_rows(g)(i) == rows_of(cells, n)(i) by {
        lemma_sum_ext(lines_row(g, i), row_of(cells, i), n);
    }
    lemma_sum_ext(lines_rows(g), rows_of(cells, n), n);
    lemma_grid_add4(line_grid(g, 0), line_grid(g, 1), line_grid(g, 2), line_grid(g, 3), cells, n, n);
}

/// The board reflected in its main diagonal: row `i` is column `i` of `g`.
pub open spec fn transpose_grid(g: Seq<Seq<Cell>>) -> Seq<Seq<Cell>> {
    Seq::new(g.len(), |i: int| Seq::new(g.len(), |j: int| g[j][i]))
}

proof fn lemma_transpose_cells(g: Seq<Seq<Cell>>)
    requires
        is_square(g),
    ensures
        transpose_grid(g).len() == g.len(),
        is_square(transpose_grid(g)),
        forall|i: int, j: int|
            0 <= i < g.len() && 0 <= j < g.len() ==> #[trigger] transpose_grid(g)[i][j] == g[j][i],
{
}

/// The diagonals down and to the left of the reflected board are those of `g`, read backwards.
proof fn lemma_transpose_anti_diagonals(g: Seq<Seq<Cell>>)
    requires
        is_square(g),
    ensures
        sum_grid(line_grid(transpose_grid(g), 3), g.len() as int, g.len() as int) == sum_grid(
            line_grid(g, 3),
            g.len() as int,
            g.len() as int,
        ),
{
    let t = transpose_grid(g);
    let n = g.len() as int;
    let d = line_grid(g, 3);
    let e = flip(line_grid(t, 3));
    lemma_transpose_cells(g);
    lemma_grid_swap(line_grid(t, 3), n, n);
    // Row `j` of `e` holds the line terms of `t` that start in column `j`.
    let q = rows_of(d, n);
    let r = rows_of(e, n);
    assert forall|j: int| 0 <= j < n implies #[trigger] r(j) == (if j >= 2 {
        q(j - 2)
    } else {
        0
    }) by {
        if j < 2 {
            assert forall|i: int| 0 <= i < n implies #[trigger] row_of(e, j)(i) == 0 by {}
            lemma_sum_zero_tail(row_of(e, j), 0, n);
        } else {
            assert forall|i: int| n - 2 <= i < n implies #[trigger] row_of(e, j)(i) == 0 by {}
            lemma_sum_zero_tail(row_of(e, j), n - 2, n);
            lemma_sum_skip2(row_of(d, j - 2), n);
            assert forall|i: int| 0 <= i < n - 2 implies #[trigger] row_of(e, j)(i) == row_of(
                d,
                j - 2,
            )(i + 2) by {
                assert(t[i][j] == g[j][i]);
                assert(t[i + 1][j - 1] == g[j - 1][i + 1]);
                assert(t[i + 2][j - 2] == g[j - 2][i + 2]);
                law_window_score_reversible(g[j - 2][i + 2], g[j - 1][i + 1], g[j][i]);
            }
            lemma_sum_ext(row_of(e, j), |i: int| row_of(d, j - 2)(i + 2), n - 2);
        }
    }
    if n >= 2 {
        lemma_sum_skip2(r, n);
        assert forall|k: int| n - 2 <= k < n implies #[trigger] q(k) == 0 by {
            assert forall|b: int| 0 <= b < n implies #[trigger] row_of(d, k)(b) == 0 by {}
            lemma_sum_zero_tail(row_of(d, k), 0, n);
        }
        lemma_sum_zero_tail(q, n - 2, n);
        lemma_sum_ext(|k: int| r(k + 2), q, n - 2);
    } else {
        assert forall|k: int| 0 <= k < n implies #[trigger] q(k) == 0 by {
            assert forall|b: int| 0 <= b < n implies #[trigger] row_of(d, k)(b) == 0 by {}
            lemma_sum_zero_tail(row_of(d, k), 0, n);
        }
        lemma_sum_zero_tail(q, 0, n);
        lemma_sum_zero_tail(r, 0, n);
    }
}

/// The evaluation does not change when a square board is reflected in its main diagonal: rows
/// become columns and count as columns did, each diagonal counts as its reflection does, and the
/// distance to the centre is kept.
pub proof fn law_heuristic_transpose(g: Seq<Seq<Cell>>, score: int)
    requires
        is_square(g),
    ensures
        heuristic_value(transpose_grid(g), score) == heuristic_value(g, score),
{
    let t = transpose_grid(g);
    let n = g.len() as int;
    lemma_transpose_cells(g);
    lemma_heuristic_grid_sums(g, score);
    lemma_heuristic_grid_sums(t, score);
    assert forall|i: int, j: int| 0 <= i < n && 0 <= j < n implies #[trigger] bonus_grid(t)(i, j)
        == flip(bonus_grid(g))(i, j) by {
        assert(t[i][j] == g[j][i]);
    }
    lemma_grid_ext(bonus_grid(t), flip(bonus_grid(g)), n, n);
    lemma_grid_swap(bonus_grid(g), n, n);
    assert forall|i: int, j: int| 0 <= i < n && 0 <= j < n implies #[trigger] line_grid(t, 0)(i, j)
        == flip(line_grid(g, 1))(i, j) by {
        if j + 2 < n {
            assert(t[i][j + 1] == g[j + 1][i]);
            assert(t[i][j + 2] == g[j + 2][i]);
        }
    }
    lemma_grid_ext(line_grid(t, 0), flip(line_grid(g, 1)), n, n);
    lemma_grid_swap(line_grid(g, 1), n, n);
    assert forall|i: int, j: int| 0 <= i < n && 0 <= j < n implies #[trigger] line_grid(t, 1)(i, j)
        == flip(line_grid(g, 0))(i, j) by {
        if i + 2 < n {
            assert(t[i + 1][j] == g[j][i + 1]);
            assert(t[i + 2][j] == g[j][i + 2]);
        }
    }
    lemma_grid_ext(line_grid(t, 1), flip(line_grid(g, 0)), n, n);
    lemma_grid_swap(line_grid(g, 0), n, n);
    assert forall|i: int, j: int| 0 <= i < n && 0 <= j < n implies #[trigger] line_grid(t, 2)(i, j)
        == flip(line_grid(g, 2))(i, j) by {
        if i + 2 < n && j + 2 < n {
            assert(t[i + 1][j + 1] == g[j + 1][i + 1]);
            assert(t[i + 2][j + 2] == g[j + 2][i + 2]);
        }
    }
    lemma_grid_ext(line_grid(t, 2), flip(line_grid(g, 2)), n, n);
    lemma_grid_swap(line_grid(g, 2), n, n);
    lemma_transpose_anti_diagonals(g);
}

proof fn lemma_sum_single(h: spec_fn(int) -> int, k: int, n: int)
    requires
        0 <= k < n,
        forall|j: int| 0 <= j < n && j != k ==> #[trigger] h(j) == 0,
    ensures
        sum_below(h, n) == h(k),
    decreases n,
{
    if n - 1 == k {
        lemma_sum_zero_tail(h, 0, n - 1);
    } else {
        lemma_sum_single(h, k, n - 1);
    }
}

proof fn lemma_grid_single(f: spec_fn(int, int) -> int, a: int, b: int, n: int)
    requires
        0 <= a < n,
        0 <= b < n,
        forall|i: int, j: int| 0 <= i < n && 0 <= j < n && (i != a || j != b) ==> #[trigger] f(i, j) == 0,
    ensures
        sum_grid(f, n, n) == f(a, b),
{
    assert forall|i: int| 0 <= i < n && i != a implies #[trigger] rows_of(f, n)(i) == 0 by {
        assert forall|j: int| 0 <= j < n implies #[trigger] row_of(f, i)(j) == 0 by {
            assert(f(i, j) == 0);
        }
        lemma_sum_zero_tail(row_of(f, i), 0, n);
    }
    assert forall|j: int| 0 <= j < n && j != b implies #[trigger] row_of(f, a)(j) == 0 by {
        assert(f(a, j) == 0);
    }
    lemma_sum_single(row_of(f, a), b, n);
    lemma_sum_single(rows_of(f, n), a, n);
}

/// A lone `X` on an otherwise empty square board earns its centre bonus and nothing else: 10
/// less twice its distance from the centre cell (in steps along rows and columns), on top of a
/// thousand times the game's score, since no line of three holds two pieces.
pub proof fn law_heuristic_lone_piece(g: Seq<Seq<Cell>>, score: int, a: int, b: int)
    requires
        is_square(g),
        0 <= a < g.len(),
        0 <= b < g.len(),
        g[a][b] == Cell::X,
        forall|i: int, j: int|
            0 <= i < g.len() && 0 <= j < g.len() && (i != a || j != b) ==> #[trigger] g[i][j]
                == Cell::Empty,
    ensures
        heuristic_value(g, score) == 1000 * score + 10 - 2 * (abs_int(a - g.len() / 2) + abs_int(
            b - g.len() / 2,
        )),
{
    let n = g.len() as int;
    lemma_heuristic_grid_sums(g, score);
    assert forall|i: int, j: int| 0 <= i < n && 0 <= j < n && (i != a || j != b) implies #[trigger] bonus_grid(g)(i, j) == 0 by {
        assert(g[i][j] == Cell::Empty);
    }
    lemma_grid_single(bonus_grid(g), a, b, n);
    assert forall|w: int, i: int, j: int| 0 <= w < 4 && 0 <= i < n && 0 <= j < n implies #[trigger] line_grid(g, w)(i, j) == 0 by {
        assert(g[i].len() == n);
        if i + 2 < n {
            assert(g[i + 1].len() == n);
            assert(g[i + 2].len() == n);
        }
    }
    assert forall|w: int| 0 <= w < 4 implies #[trigger] sum_grid(line_grid(g, w), n, n) == 0 by {
        assert forall|i: int, j: int| 0 <= i < n && 0 <= j < n && (i != a || j != b) implies #[trigger] line_grid(g, w)(i, j) == 0 by {
            assert(line_grid(g, w)(i, j) == 0);
        }
        assert(line_grid(g, w)(a, b) == 0);
        lemma_grid_single(line_grid(g, w), a, b, n);
    }
    assert(sum_grid(line_grid(g, 0), n, n) == 0);
    assert(sum_grid(line_grid(g, 1), n, n) == 0);
    assert(sum_grid(line_grid(g, 2), n, n) == 0);
    assert(sum_grid(line_grid(g, 3), n, n) == 0);
}

// ---------------------------------------------------------------------------------------------
// Ordering the moves
// ---------------------------------------------------------------------------------------------

/// How the mover rates the board reached by a move: the game's score after the move, negated
/// for `X`, so that the better moves for the mover come first in increasing order.
pub open spec fn move_rating(score_after_move: int, player: Player) -> int {
    match player {
        Player::X => -score_after_move,
        Player::O => score_after_move,
    }
}

/// Rates a move from the game's score after it (see `move_rating`).
pub fn score_move(score_after_move: i32, player: Player) -> (rating: i32)
    requires
        player == Player::X ==> score_after_move != i32::MIN,
    ensures
        rating == move_rating(score_after_move as int, player),
{
    match player {
        Player::X => -score_after_move,
        Player::O => score_after_move,
    }
}

/// Position `a` comes before position `b`: by key, and by position where keys are equal.
pub open spec fn key_before(keys: Seq<i32>, a: int, b: int) -> bool {
    keys[a] < keys[b] || (keys[a] == keys[b] && a < b)
}

/// `order` lists every position of `keys` once, by increasing key, and positions with equal
/// keys in their original order (a stable sort).
pub open spec fn is_stable_order(keys: Seq<i32>, order: Seq<usize>) -> bool {
    &&& order.len() == keys.len()
    &&& forall|k: int| 0 <= k < order.len() ==> #[trigger] order[k] < keys.len()
    &&& forall|k1: int, k2: int|
        0 <= k1 < k2 < order.len() ==> key_before(keys, #[trigger] order[k1] as int, #[trigger] order[k2] as int)
}

/// The positions of `keys` sorted stably by key.
pub fn stable_order(keys: &Vec<i32>) -> (order: Vec<usize>)
    ensures
        is_stable_order(keys@, order@),
{
    let n = keys.len();
    let mut order: Vec<usize> = Vec::new();
    for i in 0..n
        invariant
            n == keys@.len(),
            order@.len() == i,
            forall|k: int| 0 <= k < order@.len() ==> #[trigger] order@[k] < i,
            forall|k1: int, k2: int|
                0 <= k1 < k2 < order@.len() ==> key_before(keys@, #[trigger] order@[k1] as int, #[trigger] order@[k2] as int),
    {
        let mut pos: usize = 0;
        while pos < order.len() && keys[order[pos]] <= keys[i]
            invariant
                n == keys@.len(),
                i < n,
                pos <= order@.len(),
                forall|k: int| 0 <= k < order@.len() ==> #[trigger] order@[k] < i,
                forall|k: int| 0 <= k < pos ==> keys@[#[trigger] order@[k] as int] <= keys@[i as int],
            decreases order@.len() - pos,
        {
            pos = pos + 1;
        }
        let ghost before = order@;
        order.insert(pos, i);
        proof {
            assert forall|k1: int, k2: int| 0 <= k1 < k2 < order@.len() implies key_before(
                keys@,
                #[trigger] order@[k1] as int,
                #[trigger] order@[k2] as int,
            ) by {
                if k2 < pos {
                    assert(order@[k1] == before[k1] && order@[k2] == before[k2]);
                } else if k2 == pos {
                    assert(order@[k1] == before[k1]);
                    assert(keys@[before[k1] as int] <= keys@[i as int]);
                } else if k1 == pos {
                    assert(order@[k2] == before[k2 - 1]);
                    if k2 - 1 >= pos {
                        assert(keys@[i as int] < keys@[before[pos as int] as int]);
                        if k2 - 1 > pos {
                            assert(key_before(keys@, before[pos as int] as int, before[k2 - 1] as int));
                        }
                    }
                } else if k1 < pos {
                    assert(order@[k1] == before[k1] && order@[k2] == before[k2 - 1]);
                } else {
                    assert(order@[k1] == before[k1 - 1] && order@[k2] == before[k2 - 1]);
                }
            }
        }
    }
    order
}

/// The moves in the order that `is_stable_order` gives their keys.
pub open spec fn ordered_by(moves: Seq<(usize, usize)>, order: Seq<usize>) -> Seq<(usize, usize)> {
    order.map_values(|k: usize| moves[k as int])
}

/// The moves sorted stably by their keys (`keys[k]` is the key of `moves[k]`).
pub fn order_moves(moves: &Vec<(usize, usize)>, keys: &Vec<i32>) -> (ordered: Vec<(usize, usize)>)
    requires
        keys@.len() == moves@.len(),
    ensures
        exists|order: Seq<usize>|
            is_stable_order(keys@, order) && ordered@ == ordered_by(moves@, order),
{
    let order = stable_order(keys);
    let mut ordered: Vec<(usize, usize)> = Vec::new();
    let n = order.len();
    for k in 0..n
        invariant
            n == order@.len(),
            is_stable_order(keys@, order@),
            keys@.len() == moves@.len(),
            ordered@ == ordered_by(moves@, order@).take(k as int),
    {
        ordered.push(moves[order[k]]);
        assert(ordered_by(moves@, order@).take(k + 1) =~= ordered_by(moves@, order@).take(k as int).push(
            moves@[order@[k as int] as int],
        ));
    }
    assert(ordered_by(moves@, order@).take(n as int) =~= ordered_by(moves@, order@));
    ordered
}


// ---------------------------------------------------------------------------------------------
// One level of the alpha-beta search
// ---------------------------------------------------------------------------------------------

/// The state of one level of the search: the mover, the moves in the order they are tried, how
/// many have been scored, the window `(alpha, beta)`, the best score and move so far, and
/// whether the window has closed (a cut-off).
pub struct SearchView {
    pub player: Player,
    pub moves: Seq<(usize, usize)>,
    pub explored: nat,
    pub alpha: i32,
    pub beta: i32,
    pub best_score: i32,
    pub best_move: (usize, usize),
    pub cut: bool,
}

/// The state before any move is scored: the best score is the worst one for the mover, and the
/// best move is the first.
pub open spec fn search_start(player: Player, moves: Seq<(usize, usize)>, alpha: i32, beta: i32) -> SearchView {
    SearchView {
        player,
        moves,
        explored: 0,
        alpha,
        beta,
        best_score: match player {
            Player::X => i32::MIN,
            Player::O => i32::MAX,
        },
        best_move: moves[0],
        cut: false,
    }
}

/// The state after the next move has been scored `score`: `X` keeps a strictly higher score
/// (and its move) and sets `alpha` to the best score; `O` keeps a strictly lower one and sets
/// `beta`; the search stops once `alpha >= beta`.
pub open spec fn search_step(s: SearchView, score: i32) -> SearchView {
    let mv = s.moves[s.explored as int];
    match s.player {
        Player::X => {
            let better = score > s.best_score;
            let best_score = if better {
                score
            } else {
                s.best_score
            };
            SearchView {
                explored: s.explored + 1,
                alpha: best_score,
                best_score,
                best_move: if better {
                    mv
                } else {
                    s.best_move
                },
                cut: best_score >= s.beta,
                ..s
            }
        },
        Player::O => {
            let better = score < s.best_score;
            let best_score = if better {
                score
            } else {
                s.best_score
            };
            SearchView {
                explored: s.explored + 1,
                beta: best_score,
                best_score,
                best_move: if better {
                    mv
                } else {
                    s.best_move
                },
                cut: s.alpha >= best_score,
                ..s
            }
        },
    }
}

/// The state after the moves have been scored `scores`, in order.
pub open spec fn search_run(start: SearchView, scores: Seq<i32>) -> SearchView
    decreases scores.len(),
{
    if scores.len() == 0 {
        start
    } else {
        search_step(search_run(start, scores.drop_last()), scores.last())
    }
}

/// One level of the alpha-beta search: it proposes the moves in order and takes the score of
/// each, until the moves run out or the window closes.
pub struct AlphaBeta {
    player: Player,
    moves: Vec<(usize, usize)>,
    explored: usize,
    alpha: i32,
    beta: i32,
    best_score: i32,
    best_move: (usize, usize),
    cut: bool,
}

impl View for AlphaBeta {
    type V = SearchView;

    closed spec fn view(&self) -> SearchView {
        SearchView {
            player: self.player,
            moves: self.moves@,
            explored: self.explored as nat,
            alpha: self.alpha,
            beta: self.beta,
            best_score: self.best_score,
            best_move: self.best_move,
            cut: self.cut,
        }
    }
}

impl AlphaBeta {
    /// Starts a level of the search over `moves` (at least one), in the window `(alpha, beta)`.
    pub fn new(player: Player, moves: Vec<(usize, usize)>, alpha: i32, beta: i32) -> (s: AlphaBeta)
        requires
            moves@.len() > 0,
        ensures
            s@ == search_start(player, moves@, alpha, beta),
    {
        let best_move = moves[0];
        AlphaBeta {
            player,
            moves,
            explored: 0,
            alpha,
            beta,
            best_score: match player {
                Player::X => i32::MIN,
                Player::O => i32::MAX,
            },
            best_move,
            cut: false,
        }
    }

    /// The next move to score, or `None` once the moves have run out or the window has closed.
    pub fn next_move(&self) -> (m: Option<(usize, usize)>)
        ensures
            m == if self@.cut || self@.explored >= self@.moves.len() {
                None
            } else {
                Some(self@.moves[self@.explored as int])
            },
    {
        if self.cut || self.explored >= self.moves.len() {
            None
        } else {
            Some(self.moves[self.explored])
        }
    }

    /// The lower end of the window, for the search below this level.
    pub fn alpha(&self) -> (a: i32)
        ensures
            a == self@.alpha,
    {
        self.alpha
    }

    /// The upper end of the window, for the search below this level.
    pub fn beta(&self) -> (b: i32)
        ensures
            b == self@.beta,
    {
        self.beta
    }

    /// Takes the score of the move that `next_move` proposed.
    pub fn record(&mut self, score: i32)
        requires
            !old(self)@.cut,
            old(self)@.explored < old(self)@.moves.len(),
        ensures
            final(self)@ == search_step(old(self)@, score),
    {
        let explored = self.explored;
        let n = self.moves.len();
        assert(explored < n);
        let mv = self.moves[explored];
        match self.player {
            Player::X => {
                if score > self.best_score {
                    self.best_move = mv;
                    self.best_score = score;
                }
                self.alpha = self.best_score;
                self.cut = self.alpha >= self.beta;
            },
            Player::O => {
                if score < self.best_score {
                    self.best_move = mv;
                    self.best_score = score;
                }
                self.beta = self.best_score;
                self.cut = self.alpha >= self.beta;
            },
        }
        self.explored = explored + 1;
    }

    /// The result of this level: the best score, and the row and column of the best move.
    pub fn result(&self) -> (r: (i32, usize, usize))
        ensures
            r == (self@.best_score, self@.best_move.0, self@.best_move.1),
    {
        (self.best_score, self.best_move.0, self.best_move.1)
    }
}


/// Whether `a` is strictly better than `b` for the player.
pub open spec fn better_for(player: Player, a: int, b: int) -> bool {
    match player {
        Player::X => a > b,
        Player::O => a < b,
    }
}

/// A level of the search keeps the best of the scores it has taken: no score taken is better
/// for the mover than the best score, and the best score and move are either the starting ones
/// or those of the first move that reached the best score.
pub proof fn law_search_keeps_best(
    player: Player,
    moves: Seq<(usize, usize)>,
    alpha: i32,
    beta: i32,
    scores: Seq<i32>,
)
    requires
        moves.len() > 0,
        scores.len() <= moves.len(),
    ensures
        ({
            let start = search_start(player, moves, alpha, beta);
            let s = search_run(start, scores);
            &&& s.explored == scores.len()
            &&& s.moves == moves
            &&& s.player == player
            &&& forall|k: int|
                0 <= k < scores.len() ==> !better_for(player, #[trigger] scores[k] as int, s.best_score as int)
            &&& ((s.best_score == start.best_score && s.best_move == moves[0]) || exists|k: int|
                0 <= k < scores.len() && scores[k] == s.best_score && s.best_move == moves[k]
                    && forall|j: int| 0 <= j < k ==> better_for(player, s.best_score as int, #[trigger] scores[j] as int))
        }),
    decreases scores.len(),
{
    let start = search_start(player, moves, alpha, beta);
    if scores.len() > 0 {
        let t = scores.drop_last();
        law_search_keeps_best(player, moves, alpha, beta, t);
        let p = search_run(start, t);
        let s = search_run(start, scores);
        let x = scores.last();
        assert(s == search_step(p, x));
        assert forall|k: int| 0 <= k < scores.len() implies !better_for(
            player,
            #[trigger] scores[k] as int,
            s.best_score as int,
        ) by {
            if k < t.len() {
                assert(scores[k] == t[k]);
                assert(!better_for(player, t[k] as int, p.best_score as int));
            }
            if player == Player::X {
                assert(s.best_score >= p.best_score);
            } else {
                assert(s.best_score <= p.best_score);
            }
        }
        if better_for(player, x as int, p.best_score as int) {
            let k = t.len() as int;
            assert(scores[k] == s.best_score && s.best_move == moves[k]);
            assert forall|j: int| 0 <= j < k implies better_for(player, s.best_score as int, #[trigger] scores[j] as int) by {
                assert(scores[j] == t[j]);
                assert(!better_for(player, t[j] as int, p.best_score as int));
            }
        } else {
            if !(p.best_score == start.best_score && p.best_move == moves[0]) {
                let k = choose|k: int|
                    0 <= k < t.len() && t[k] == p.best_score && p.best_move == moves[k]
                        && forall|j: int| 0 <= j < k ==> better_for(player, p.best_score as int, #[trigger] t[j] as int);
                assert(scores[k] == t[k]);
                assert forall|j: int| 0 <= j < k implies better_for(player, s.best_score as int, #[trigger] scores[j] as int) by {
                    assert(scores[j] == t[j]);
                }
            }
        }
    }
}


/// Once a level of the search has scored at least one move, its best score is one of the scores
/// taken and its best move is the move that took it, and no score taken is better for the
/// mover: the starting value is worse for the mover than any score.
pub proof fn law_search_best_is_reached(
    player: Player,
    moves: Seq<(usize, usize)>,
    alpha: i32,
    beta: i32,
    scores: Seq<i32>,
)
    requires
        0 < scores.len() <= moves.len(),
    ensures
        ({
            let s = search_run(search_start(player, moves, alpha, beta), scores);
            &&& exists|k: int|
                0 <= k < scores.len() && #[trigger] scores[k] == s.best_score && s.best_move
                    == moves[k]
            &&& forall|k: int|
                0 <= k < scores.len() ==> !better_for(player, #[trigger] scores[k] as int, s.best_score as int)
        }),
{
    law_search_keeps_best(player, moves, alpha, beta, scores);
    let start = search_start(player, moves, alpha, beta);
    let s = search_run(start, scores);
    if s.best_score == start.best_score && s.best_move == moves[0] {
        assert(!better_for(player, scores[0] as int, s.best_score as int));
        assert(scores[0] == s.best_score);
    }
}

/// After each score the window moves only on the mover's side: `X` raises `alpha` to its best
/// score and leaves `beta`, `O` lowers `beta` to its best score and leaves `alpha`; and the level
/// is cut off exactly when the window has closed (`alpha >= beta`).
pub proof fn law_search_window(
    player: Player,
    moves: Seq<(usize, usize)>,
    alpha: i32,
    beta: i32,
    scores: Seq<i32>,
)
    requires
        0 < scores.len() <= moves.len(),
    ensures
        ({
            let s = search_run(search_start(player, moves, alpha, beta), scores);
            &&& player == Player::X ==> s.alpha == s.best_score && s.beta == beta
            &&& player == Player::O ==> s.beta == s.best_score && s.alpha == alpha
            &&& s.cut == (s.alpha >= s.beta)
        }),
    decreases scores.len(),
{
    let start = search_start(player, moves, alpha, beta);
    let t = scores.drop_last();
    law_search_keeps_best(player, moves, alpha, beta, t);
    if t.len() > 0 {
        law_search_window(player, moves, alpha, beta, t);
    }
}

/// The reward of line `w` starting at `(i, j)` (see `line_term`).
fn line_reward(cells: &Vec<Vec<Cell>>, i: usize, j: usize, w: usize) -> (r: i32)
    requires
        square_enough(grid_view(cells@)),
        cells@.len() <= 1073741823,
        i < cells@.len(),
        j < cells@.len(),
        w < 4,
    ensures
        r == line_term(grid_view(cells@), i as int, j as int, w as int),
{
    let ghost g = grid_view(cells@);
    let n = cells.len();
    assert(forall|k: int| 0 <= k < n ==> (#[trigger] cells@[k])@ == g[k]);
    assert(forall|k: int| 0 <= k < n ==> (#[trigger] g[k]).len() >= n);
    if w == 0 {
        if j + 2 < n {
            return score_window(&cells[i][j], &cells[i][j + 1], &cells[i][j + 2]);
        }
    } else if w == 1 {
        if i + 2 < n {
            return score_window(&cells[i][j], &cells[i + 1][j], &cells[i + 2][j]);
        }
    } else if w == 2 {
        if i + 2 < n && j + 2 < n {
            return score_window(&cells[i][j], &cells[i + 1][j + 1], &cells[i + 2][j + 2]);
        }
    } else {
        if i + 2 < n && j >= 2 {
            return score_window(&cells[i][j], &cells[i + 1][j - 1], &cells[i + 2][j - 2]);
        }
    }
    0
}

/// Whether the evaluation can run on the board (see `heuristic_defined`).
pub fn check_heuristic(board: &BoardState) -> (ok: bool)
    ensures
        ok == heuristic_defined(grid_view(board.cells@), board.score as int),
{
    let ghost g = grid_view(board.cells@);
    let ghost s = board.score as int;
    let cells = &board.cells;
    let n = cells.len();
    assert(g.len() == n);
    if n > 1073741823 {
        return false;
    }
    for i in 0..n
        invariant
            n == cells@.len(),
            g == grid_view(cells@),
            cells@ == board.cells@,
            forall|k: int| 0 <= k < i ==> (#[trigger] g[k]).len() >= n,
    {
        if cells[i].len() < n {
            assert(g[i as int].len() < n);
            return false;
        }
    }
    assert(square_enough(g));
    let base: i64 = board.score as i64 * 1000;
    if base < i32::MIN as i64 || base > i32::MAX as i64 {
        return false;
    }
    let center = n / 2;
    let mut acc: i64 = base;
    let mut i: usize = 0;
    while i < n
        invariant
            n == cells@.len(),
            n == g.len(),
            n <= 1073741823,
            g == grid_view(cells@),
            cells@ == board.cells@,
            square_enough(g),
            s == board.score as int,
            base == 1000 * s,
            fits_i32(base as int),
            center == n / 2,
            i <= n,
            acc == base + center_prefix(g, i as int, 0),
            forall|a: int, b: int|
                0 <= a < i && 0 <= b <= n ==> fits_i32(base + #[trigger] center_prefix(g, a, b)),
        decreases n - i,
    {
        let mut j: usize = 0;
        assert(cells@[i as int]@ == g[i as int]);
        assert(g[i as int].len() >= n);
        assert(center_prefix(g, i as int, 0) == if i > 0 {
            center_prefix(g, i - 1, n as int)
        } else {
            0
        });
        while j < n
            invariant
                n == cells@.len(),
                n == g.len(),
                n <= 1073741823,
                g == grid_view(cells@),
                cells@ == board.cells@,
                s == board.score as int,
                base == 1000 * s,
                fits_i32(base as int),
                center == n / 2,
                i < n,
                j <= n,
                cells@[i as int]@ == g[i as int],
                g[i as int].len() >= n,
                acc == base + center_prefix(g, i as int, j as int),
                fits_i32(acc as int),
                forall|a: int, b: int|
                    0 <= a < i && 0 <= b <= n ==> fits_i32(base + #[trigger] center_prefix(g, a, b)),
                forall|b: int| 0 <= b <= j ==> fits_i32(base + #[trigger] center_prefix(g, i as int, b)),
            decreases n - j,
        {
            let di: i64 = i as i64 - center as i64;
            let dj: i64 = j as i64 - center as i64;
            let dist: i64 = (if di < 0 {
                -di
            } else {
                di
            }) + (if dj < 0 {
                -dj
            } else {
                dj
            });
            let bonus: i64 = match &cells[i][j] {
                Cell::X => 10 - (dist * 2),
                Cell::O => -(10 - (dist * 2)),
                _ => 0,
            };
            assert(bonus == center_bonus(g, i as int, j as int));
            acc = acc + bonus;
            if acc < i32::MIN as i64 || acc > i32::MAX as i64 {
                assert(!heuristic_defined(g, s)) by {
                    assert(!fits_i32(base + center_prefix(g, i as int, j + 1)));
                    assert(0 <= i < n && 0 <= j + 1 <= n);
                }
                return false;
            }
            j = j + 1;
        }
        assert(center_prefix(g, i + 1, 0) == center_prefix(g, i as int, n as int));
        i = i + 1;
    }
    let ghost centers = center_prefix(g, n as int, 0);
    assert(centers == if n > 0 {
        center_prefix(g, n - 1, n as int)
    } else {
        0
    });
    assert(line_prefix(g, 0, 0, 0) == 0);
    let mut i: usize = 0;
    while i < n
        invariant
            n == cells@.len(),
            n == g.len(),
            n <= 1073741823,
            g == grid_view(cells@),
            cells@ == board.cells@,
            square_enough(g),
            s == board.score as int,
            base == 1000 * s,
            fits_i32(base as int),
            centers == center_prefix(g, n as int, 0),
            forall|a: int, b: int|
                0 <= a < n && 0 <= b <= n ==> fits_i32(base + #[trigger] center_prefix(g, a, b)),
            i <= n,
            acc == base + centers + line_prefix(g, i as int, 0, 0),
            fits_i32(acc as int),
            forall|a: int, b: int, w: int|
                0 <= a < i && 0 <= b < n && 0 <= w <= 4 ==> fits_i32(
                    base + centers + #[trigger] line_prefix(g, a, b, w),
                ),
        decreases n - i,
    {
        let mut j: usize = 0;
        while j < n
            invariant
                n == cells@.len(),
                n == g.len(),
                n <= 1073741823,
                g == grid_view(cells@),
                cells@ == board.cells@,
                square_enough(g),
                s == board.score as int,
                base == 1000 * s,
                fits_i32(base as int),
                centers == center_prefix(g, n as int, 0),
                i < n,
                j <= n,
                acc == base + centers + line_prefix(g, i as int, j as int, 0),
                fits_i32(acc as int),
                forall|a: int, b: int, w: int|
                    0 <= a < i && 0 <= b < n && 0 <= w <= 4 ==> fits_i32(
                        base + centers + #[trigger] line_prefix(g, a, b, w),
                    ),
                forall|b: int, w: int|
                    0 <= b < j && 0 <= w <= 4 ==> fits_i32(
                        base + centers + #[trigger] line_prefix(g, i as int, b, w),
                    ),
            decreases n - j,
        {
            let mut w: usize = 0;
            while w < 4
                invariant
                    n == cells@.len(),
                    n == g.len(),
                    g == grid_view(cells@),
                    cells@ == board.cells@,
                    square_enough(g),
                    n <= 1073741823,
                    s == board.score as int,
                    base == 1000 * s,
                    centers == center_prefix(g, n as int, 0),
                    i < n,
                    j < n,
                    w <= 4,
                    acc == base + centers + line_prefix(g, i as int, j as int, w as int),
                    fits_i32(acc as int),
                    forall|v: int| 0 <= v <= w ==> fits_i32(
                        base + centers + #[trigger] line_prefix(g, i as int, j as int, v),
                    ),
                decreases 4 - w,
            {
                acc = acc + line_reward(cells, i, j, w) as i64;
                if acc < i32::MIN as i64 || acc > i32::MAX as i64 {
                    assert(!heuristic_defined(g, s)) by {
                        assert(!fits_i32(base + centers + line_prefix(g, i as int, j as int, w + 1)));
                        assert(0 <= i < n && 0 <= j < n && 0 <= w + 1 <= 4);
                    }
                    return false;
                }
                w = w + 1;
            }
            assert(line_prefix(g, i as int, j + 1, 0) == line_prefix(g, i as int, j as int, 4));
            j = j + 1;
        }
        assert(line_prefix(g, i + 1, 0, 0) == line_prefix(g, i as int, n as int, 0));
        i = i + 1;
    }
    true
}

/// Evaluates the board where the evaluation can run, and returns `None` where it would leave
/// the range of `i32`.
pub fn try_heuristic(board: &BoardState) -> (value: Option<i32>)
    ensures
        match value {
            Some(v) => heuristic_defined(grid_view(board.cells@), board.score as int) && v
                == heuristic_value(grid_view(board.cells@), board.score as int),
            None => !heuristic_defined(grid_view(board.cells@), board.score as int),
        },
{
    if check_heuristic(board) {
        Some(heuristic(board))
    } else {
        None
    }
}

} // verus!
