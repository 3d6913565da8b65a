use vstd::prelude::*;

verus! {

/// What a cell holds; fixed once the grid has been counted.
#[derive(PartialEq, Eq, Structural, Clone, Copy, Debug)]
pub enum CellContent {
    Mine,
    Empty,
    Close(i32),
}

/// What the player sees of a cell.
#[derive(PartialEq, Eq, Structural, Clone, Copy, Debug)]
pub enum CellState {
    Visible,
    Invisible,
    Flagged,
}

#[derive(PartialEq, Eq, Structural, Clone, Copy, Debug)]
pub struct Cell {
    pub content: CellContent,
    pub state: CellState,
}

/// Rows of cells, indexed as `grid[y][x]`.
pub type Grid = Vec<Vec<Cell>>;

/// The grid as a sequence of rows of cells.
pub open spec fn board(g: Grid) -> Seq<Seq<Cell>> {
    g@.map_values(|row: Vec<Cell>| row@)
}

/// Every row has the same, positive, length and there is at least one row.
pub open spec fn rectangular(b: Seq<Seq<Cell>>) -> bool {
    &&& b.len() > 0
    &&& b[0].len() > 0
    &&& forall|y: int| 0 <= y < b.len() ==> #[trigger] b[y].len() == b[0].len()
}

pub open spec fn in_bounds(b: Seq<Seq<Cell>>, x: int, y: int) -> bool {
    0 <= y < b.len() && 0 <= x < b[y].len()
}

/// 1 where (x, y) lies on the grid and holds a mine, else 0.
pub open spec fn mine_at(b: Seq<Seq<Cell>>, x: int, y: int) -> int {
    if in_bounds(b, x, y) && b[y][x].content is Mine {
        1
    } else {
        0
    }
}

/// Mines among the three cells of row `y` centred on column `x`.
pub open spec fn mines_in_row(b: Seq<Seq<Cell>>, x: int, y: int) -> int {
    mine_at(b, x - 1, y) + mine_at(b, x, y) + mine_at(b, x + 1, y)
}

/// Mines in the 3x3 block centred on (x, y), clipped to the grid.
pub open spec fn mines_near(b: Seq<Seq<Cell>>, x: int, y: int) -> int {
    mines_in_row(b, x, y - 1) + mines_in_row(b, x, y) + mines_in_row(b, x, y + 1)
}

/// The content a cell must have once the grid is counted.
pub open spec fn counted_content(b: Seq<Seq<Cell>>, x: int, y: int) -> CellContent {
    if b[y][x].content is Mine {
        CellContent::Mine
    } else if mines_near(b, x, y) == 0 {
        CellContent::Empty
    } else {
        CellContent::Close(mines_near(b, x, y) as i32)
    }
}

/// Every cell's content agrees with the mines around it.
pub open spec fn well_counted(b: Seq<Seq<Cell>>) -> bool {
    forall|x: int, y: int| in_bounds(b, x, y) ==> #[trigger] b[y][x].content == counted_content(b, x, y)
}

/// The two grids have the same shape and their mines at the same places.
pub open spec fn same_mines(a: Seq<Seq<Cell>>, b: Seq<Seq<Cell>>) -> bool {
    &&& a.len() == b.len()
    &&& forall|y: int| 0 <= y < a.len() ==> #[trigger] a[y].len() == b[y].len()
    &&& forall|x: int, y: int| in_bounds(a, x, y) ==> (#[trigger] a[y][x].content is Mine <==> b[y][x].content is Mine)
}

/// Mines among cells `lo..hi` of row `y`.
spec fn row_span(b: Seq<Seq<Cell>>, y: int, lo: int, hi: int) -> int
    decreases hi - lo,
{
    if hi <= lo {
        0
    } else {
        row_span(b, y, lo, hi - 1) + mine_at(b, hi - 1, y)
    }
}

/// Sum of `mines_in_row(b, x, r)` over rows `lo..hi`.
spec fn rows_span(b: Seq<Seq<Cell>>, x: int, lo: int, hi: int) -> int
    decreases hi - lo,
{
    if hi <= lo {
        0
    } else {
        rows_span(b, x, lo, hi - 1) + mines_in_row(b, x, hi - 1)
    }
}

proof fn lemma_same_mines_count(a: Seq<Seq<Cell>>, b: Seq<Seq<Cell>>, x: int, y: int)
    requires
        same_mines(a, b),
    ensures
        mines_near(a, x, y) == mines_near(b, x, y),
{
    assert forall|i: int, j: int| mine_at(a, i, j) == mine_at(b, i, j) by {
        if in_bounds(a, i, j) {
            assert(a[j][i].content is Mine <==> b[j][i].content is Mine);
        }
    }
}

/// The inclusive range of indices next to `n` (itself included) that stay below `length`.
fn safe_range(n: usize, length: usize) -> (r: (usize, usize))
    requires
        n < length,
    ensures
        r.0 == if n == 0 { 0 } else { n - 1 },
        r.1 == if n + 1 < length { n + 1 } else { length - 1 },
{
    (if n == 0 { 0 } else { n - 1 }, if n + 1 < length { n + 1 } else { length - 1 })
}

/// Counts the mines in the 3x3 block centred on (x, y).
fn mines_around(grid: &Grid, x: usize, y: usize) -> (n: i32)
    requires
        rectangular(board(*grid)),
        in_bounds(board(*grid), x as int, y as int),
    ensures
        n == mines_near(board(*grid), x as int, y as int),
        0 <= n <= 9,
{
    let ghost b = board(*grid);
    let max_y = grid.len();
    let max_x = grid[y].len();
    let (lo_y, hi_y) = safe_range(y, max_y);
    let (lo_x, hi_x) = safe_range(x, max_x);
    let mut count: i32 = 0;
    let mut sy: usize = lo_y;
    while sy <= hi_y
        invariant
            b == board(*grid),
            rectangular(b),
            max_y == b.len(),
            max_x == b[0].len(),
            lo_y <= sy <= hi_y + 1,
            hi_y < max_y,
            hi_x < max_x,
            lo_x <= hi_x,
            sy - lo_y <= 3,
            hi_y <= lo_y + 2,
            hi_x <= lo_x + 2,
            grid@.len() == max_y,
            count == rows_span(b, x as int, lo_y as int, sy as int),
            0 <= count <= 3 * (sy - lo_y),
            lo_x as int == if x == 0 { 0int } else { x - 1 },
            hi_x as int == if x + 1 < max_x { x + 1 } else { max_x - 1 },
        decreases hi_y + 1 - sy,
    {
        let ghost before = count;
        let mut sx: usize = lo_x;
        assert(b[sy as int].len() == max_x);
        assert(grid@[sy as int]@ == b[sy as int]);
        while sx <= hi_x
            invariant
                b == board(*grid),
                rectangular(b),
                sy < max_y,
                max_x == b[0].len(),
                b[sy as int].len() == max_x,
                lo_x <= sx <= hi_x + 1,
                hi_x < max_x,
                sx - lo_x <= 3,
                hi_x <= lo_x + 2,
                grid@.len() == max_y,
                grid@[sy as int]@.len() == max_x,
                count == before + row_span(b, sy as int, lo_x as int, sx as int),
                0 <= before <= 6,
                0 <= count - before <= sx - lo_x,
            decreases hi_x + 1 - sx,
        {
            if grid[sy][sx].content == CellContent::Mine {
                count = count + 1;
            }
            sx = sx + 1;
        }
        proof {
            reveal_with_fuel(row_span, 4);
            assert(row_span(b, sy as int, lo_x as int, hi_x + 1) == mines_in_row(b, x as int, sy as int));
        }
        sy = sy + 1;
    }
    proof {
        reveal_with_fuel(rows_span, 4);
        assert(y == 0 ==> mines_in_row(b, x as int, y - 1) == 0);
        assert(y + 1 >= max_y ==> mines_in_row(b, x as int, y + 1) == 0);
    }
    count
}

/// Replaces the content of every cell that is not a mine by the number of
/// mines next to it: `Empty` where there are none, `Close(n)` otherwise.
pub fn count_mines(grid: &mut Grid)
    requires
        rectangular(board(*old(grid))),
    ensures
        same_mines(board(*old(grid)), board(*final(grid))),
        well_counted(board(*final(grid))),
        forall|x: int, y: int| in_bounds(board(*old(grid)), x, y) ==>
            #[trigger] board(*final(grid))[y][x] == (Cell {
                content: counted_content(board(*old(grid)), x, y),
                state: board(*old(grid))[y][x].state,
            }),
{
    let ghost b0 = board(*grid);
    let max_y = grid.len();
    let max_x = grid[0].len();
    for y in 0..max_y
        invariant
            max_y == b0.len(),
            max_x == b0[0].len(),
            rectangular(b0),
            same_mines(b0, board(*grid)),
            forall|i: int, j: int| in_bounds(b0, i, j) ==>
                #[trigger] board(*grid)[j][i] == (if j < y { Cell {
                    content: counted_content(b0, i, j),
                    state: b0[j][i].state,
                } } else { b0[j][i] }),
    {
        for x in 0..max_x
            invariant
                max_y == b0.len(),
                max_x == b0[0].len(),
                y < max_y,
                rectangular(b0),
                same_mines(b0, board(*grid)),
                forall|i: int, j: int| in_bounds(b0, i, j) ==>
                    #[trigger] board(*grid)[j][i] == (if j < y || (j == y && i < x) { Cell {
                        content: counted_content(b0, i, j),
                        state: b0[j][i].state,
                    } } else { b0[j][i] }),
        {
            assert(b0[y as int].len() == max_x);
            assert(board(*grid)[y as int].len() == max_x);
            assert(board(*grid)[0].len() == max_x);
            assert(grid@[y as int]@ == board(*grid)[y as int]);
            if grid[y][x].content != CellContent::Mine {
                assert forall|j: int| 0 <= j < board(*grid).len() implies
                    #[trigger] board(*grid)[j].len() == board(*grid)[0].len() by {
                    assert(b0[j].len() == board(*grid)[j].len());
                }
                let count = mines_around(grid, x, y);
                proof {
                    lemma_same_mines_count(b0, board(*grid), x as int, y as int);
                }
                if count > 0 {
                    grid[y][x].content = CellContent::Close(count);
                } else {
                    grid[y][x].content = CellContent::Empty;
                }
            }
        }
    }
    proof {
        assert forall|x: int, y: int| in_bounds(board(*grid), x, y) implies
            #[trigger] board(*grid)[y][x].content == counted_content(board(*grid), x, y) by {
            lemma_same_mines_count(b0, board(*grid), x, y);
            assert(b0[y][x].content is Mine <==> board(*grid)[y][x].content is Mine);
        }
    }
}

pub open spec fn hidden(b: Seq<Seq<Cell>>, x: int, y: int) -> bool {
    in_bounds(b, x, y) && b[y][x].state is Invisible
}

/// (x, y) and (i, j) lie in one 3x3 block.
pub open spec fn adjacent(x: int, y: int, i: int, j: int) -> bool {
    -1 <= x - i <= 1 && -1 <= y - j <= 1
}

/// Step `n` of `p` leaves an `Empty` cell for one next to it.
pub open spec fn cascade_step(b: Seq<Seq<Cell>>, p: Seq<(int, int)>, n: int) -> bool {
    b[p[n].1][p[n].0].content is Empty && adjacent(p[n].0, p[n].1, p[n + 1].0, p[n + 1].1)
}

/// A chain of hidden cells, each next to the one before, all but the last `Empty`:
/// the way a reveal spreads.
pub open spec fn is_cascade(b: Seq<Seq<Cell>>, p: Seq<(int, int)>) -> bool {
    &&& p.len() > 0
    &&& forall|n: int| #![trigger p[n]] 0 <= n < p.len() ==> hidden(b, p[n].0, p[n].1)
    &&& forall|n: int| 0 <= n < p.len() - 1 ==> #[trigger] cascade_step(b, p, n)
}

/// Revealing (x, y) on `b` reaches (i, j).
pub open spec fn reachable(b: Seq<Seq<Cell>>, x: int, y: int, i: int, j: int) -> bool {
    exists|p: Seq<(int, int)>| #[trigger] is_cascade(b, p) && p[0] == (x, y) && p.last() == (i, j)
}

/// `b1` is `b0` after revealing (x, y): every cell that the reveal reaches is
/// shown, every other cell is as it was.
pub open spec fn revealed_from(b0: Seq<Seq<Cell>>, b1: Seq<Seq<Cell>>, x: int, y: int) -> bool {
    &&& b1.len() == b0.len()
    &&& forall|j: int| 0 <= j < b0.len() ==> #[trigger] b1[j].len() == b0[j].len()
    &&& forall|i: int, j: int| in_bounds(b0, i, j) ==> #[trigger] b1[j][i] == (Cell {
        content: b0[j][i].content,
        state: if reachable(b0, x, y, i, j) { CellState::Visible } else { b0[j][i].state },
    })
}

pub open spec fn row_hidden(r: Seq<Cell>, n: int) -> nat
    decreases n,
{
    if n <= 0 {
        0
    } else {
        row_hidden(r, n - 1) + if r[n - 1].state is Invisible { 1nat } else { 0nat }
    }
}

pub open spec fn rows_hidden(b: Seq<Seq<Cell>>, n: int) -> nat
    decreases n,
{
    if n <= 0 {
        0
    } else {
        rows_hidden(b, n - 1) + row_hidden(b[n - 1], b[n - 1].len() as int)
    }
}

/// The number of hidden cells.
pub open spec fn hidden_count(b: Seq<Seq<Cell>>) -> nat {
    rows_hidden(b, b.len() as int)
}

/// From `b0` to `b1` cells only went from hidden to shown; shape and contents stay.
spec fn grows(b0: Seq<Seq<Cell>>, b1: Seq<Seq<Cell>>) -> bool {
    &&& b1.len() == b0.len()
    &&& forall|j: int| 0 <= j < b0.len() ==> #[trigger] b1[j].len() == b0[j].len()
    &&& forall|i: int, j: int| in_bounds(b0, i, j) ==> {
        &&& #[trigger] b1[j][i].content == b0[j][i].content
        &&& (b1[j][i].state == b0[j][i].state || (b0[j][i].state is Invisible && b1[j][i].state is Visible))
    }
}

spec fn changed(b0: Seq<Seq<Cell>>, b1: Seq<Seq<Cell>>, i: int, j: int) -> bool {
    in_bounds(b0, i, j) && b0[j][i].state is Invisible && b1[j][i].state is Visible
}

/// Every hidden neighbour of (i, j) in `b0` is shown in `b1`.
spec fn spread_from(b0: Seq<Seq<Cell>>, b1: Seq<Seq<Cell>>, i: int, j: int) -> bool {
    forall|k: int, l: int| adjacent(i, j, k, l) && #[trigger] hidden(b0, k, l) ==> b1[l][k].state is Visible
}

proof fn lemma_row_hidden(r0: Seq<Cell>, r1: Seq<Cell>, n: int, k: int)
    requires
        0 <= n <= r0.len(),
        n <= r1.len(),
        forall|i: int| 0 <= i < n && #[trigger] r1[i].state is Invisible ==> r0[i].state is Invisible,
    ensures
        row_hidden(r1, n) <= row_hidden(r0, n),
        0 <= k < n && r0[k].state is Invisible && !(r1[k].state is Invisible) ==> row_hidden(r1, n) < row_hidden(r0, n),
    decreases n,
{
    if n > 0 {
        lemma_row_hidden(r0, r1, n - 1, k);
    }
}

proof fn lemma_rows_hidden(b0: Seq<Seq<Cell>>, b1: Seq<Seq<Cell>>, n: int, x: int, y: int)
    requires
        0 <= n <= b0.len(),
        grows(b0, b1),
    ensures
        rows_hidden(b1, n) <= rows_hidden(b0, n),
        0 <= y < n && changed(b0, b1, x, y) ==> rows_hidden(b1, n) < rows_hidden(b0, n),
    decreases n,
{
    if n > 0 {
        lemma_rows_hidden(b0, b1, n - 1, x, y);
        let r = n - 1;
        assert(b1[r].len() == b0[r].len());
        assert forall|i: int| 0 <= i < b0[r].len() && #[trigger] b1[r][i].state is Invisible implies b0[r][i].state is Invisible by {
            assert(in_bounds(b0, i, r));
            assert(b1[r][i].content == b0[r][i].content);
        }
        lemma_row_hidden(b0[r], b1[r], b0[r].len() as int, if y == r { x } else { -1 });
    }
}

/// A cascade in `b1` from a neighbour of an `Empty` hidden start is one in `b0` from the start.
proof fn lemma_cascade_prepend(b0: Seq<Seq<Cell>>, b1: Seq<Seq<Cell>>, x: int, y: int, p: Seq<(int, int)>)
    requires
        grows(b0, b1),
        hidden(b0, x, y),
        b0[y][x].content is Empty,
        is_cascade(b1, p),
        adjacent(x, y, p[0].0, p[0].1),
    ensures
        is_cascade(b0, seq![(x, y)] + p),
{
    let q = seq![(x, y)] + p;
    assert forall|n: int| #![trigger q[n]] 0 <= n < q.len() implies hidden(b0, q[n].0, q[n].1) by {
        if n > 0 {
            assert(q[n] == p[n - 1]);
            let (i, j) = p[n - 1];
            assert(hidden(b1, i, j));
            assert(b1[j].len() == b0[j].len());
            assert(b1[j][i].content == b0[j][i].content);
        } else {
            assert(q[0] == (x, y));
        }
    }
    assert forall|n: int| 0 <= n < q.len() - 1 implies #[trigger] cascade_step(b0, q, n) by {
        if n > 0 {
            assert(cascade_step(b1, p, n - 1));
            assert(q[n] == p[n - 1]);
            assert(q[n + 1] == p[n]);
            let (i, j) = p[n - 1];
            assert(hidden(b1, i, j));
            assert(b1[j].len() == b0[j].len());
            assert(b1[j][i].content == b0[j][i].content);
        } else {
            assert(q[0] == (x, y));
            assert(q[1] == p[0]);
        }
    }
}

proof fn lemma_cascade_append(b: Seq<Seq<Cell>>, p: Seq<(int, int)>, k: int, l: int)
    requires
        is_cascade(b, p),
        b[p.last().1][p.last().0].content is Empty,
        adjacent(p.last().0, p.last().1, k, l),
        hidden(b, k, l),
    ensures
        is_cascade(b, p.push((k, l))),
{
    let q = p.push((k, l));
    assert forall|n: int| #![trigger q[n]] 0 <= n < q.len() implies hidden(b, q[n].0, q[n].1) by {
        if n < p.len() {
            assert(q[n] == p[n]);
        }
    }
    assert forall|n: int| 0 <= n < q.len() - 1 implies #[trigger] cascade_step(b, q, n) by {
        assert(q[n] == p[n]);
        if n < p.len() - 1 {
            assert(cascade_step(b, p, n));
        }
    }
}

/// Where every changed `Empty` cell spread to its hidden neighbours, each cell
/// of a cascade from a changed start is shown.
proof fn lemma_cascade_shown(b0: Seq<Seq<Cell>>, b1: Seq<Seq<Cell>>, p: Seq<(int, int)>, n: int)
    requires
        grows(b0, b1),
        is_cascade(b0, p),
        0 <= n < p.len(),
        changed(b0, b1, p[0].0, p[0].1),
        forall|i: int, j: int| #[trigger] changed(b0, b1, i, j) && b0[j][i].content is Empty ==> spread_from(b0, b1, i, j),
    ensures
        changed(b0, b1, p[n].0, p[n].1),
    decreases n,
{
    if n > 0 {
        lemma_cascade_shown(b0, b1, p, n - 1);
        assert(cascade_step(b0, p, n - 1));
        let (i, j) = p[n - 1];
        assert(spread_from(b0, b1, i, j));
        assert(hidden(b0, p[n].0, p[n].1));
    }
}

/// Shows the cell at (x, y) if it is hidden and, where it is `Empty`, goes on
/// to its neighbours in the same way. Returns whether a mine was shown.
pub fn reveal_cell(grid: &mut Grid, x: usize, y: usize) -> (mine: bool)
    requires
        rectangular(board(*old(grid))),
        in_bounds(board(*old(grid)), x as int, y as int),
    ensures
        mine == (board(*old(grid))[y as int][x as int].state is Invisible
            && board(*old(grid))[y as int][x as int].content is Mine),
        revealed_from(board(*old(grid)), board(*final(grid)), x as int, y as int),
    decreases hidden_count(board(*old(grid))),
{
    let ghost b0 = board(*grid);
    assert(grid@[y as int]@ == b0[y as int]);
    if grid[y][x].state != CellState::Invisible {
        assert forall|i: int, j: int| in_bounds(b0, i, j) implies !reachable(b0, x as int, y as int, i, j) by {
            if reachable(b0, x as int, y as int, i, j) {
                let p = choose|p: Seq<(int, int)>| #[trigger] is_cascade(b0, p) && p[0] == (x as int, y as int) && p.last() == (i, j);
                assert(hidden(b0, p[0].0, p[0].1));
            }
        }
        return false;
    }
    grid[y][x].state = CellState::Visible;
    let content = grid[y][x].content;
    if content != CellContent::Empty {
        proof {
            let b1 = board(*grid);
            assert forall|i: int, j: int| in_bounds(b0, i, j) implies
                #[trigger] b1[j][i] == (Cell {
                    content: b0[j][i].content,
                    state: if reachable(b0, x as int, y as int, i, j) { CellState::Visible } else { b0[j][i].state },
                }) by {
                let single = seq![(x as int, y as int)];
                if i == x && j == y {
                    assert(is_cascade(b0, single));
                    assert(single.last() == (i, j));
                } else if reachable(b0, x as int, y as int, i, j) {
                    let p = choose|p: Seq<(int, int)>| #[trigger] is_cascade(b0, p) && p[0] == (x as int, y as int) && p.last() == (i, j);
                    assert(p.len() > 1);
                    assert(cascade_step(b0, p, 0));
                }
            }
        }
        return content == CellContent::Mine;
    }
    proof {
        let b1 = board(*grid);
        assert(grows(b0, b1));
        assert(changed(b0, b1, x as int, y as int));
        assert forall|i: int, j: int| #[trigger] changed(b0, b1, i, j) implies reachable(b0, x as int, y as int, i, j) by {
            if i != x || j != y {
                assert(b1[j][i] == b0[j][i]);
            }
            let single = seq![(x as int, y as int)];
            assert(is_cascade(b0, single));
            assert(single.last() == (x as int, y as int));
        }
    }
    let max_y = grid.len();
    let max_x = grid[y].len();
    let (lo_y, hi_y) = safe_range(y, max_y);
    let (lo_x, hi_x) = safe_range(x, max_x);
    let mut sy: usize = lo_y;
    while sy <= hi_y
        invariant
            b0 == board(*old(grid)),
            rectangular(b0),
            in_bounds(b0, x as int, y as int),
            hidden(b0, x as int, y as int),
            b0[y as int][x as int].content is Empty,
            max_y == b0.len(),
            max_x == b0[0].len(),
            lo_y <= sy <= hi_y + 1,
            hi_y < max_y,
            hi_x < max_x,
            lo_y as int == if y == 0 { 0int } else { y - 1 },
            hi_y as int == if y + 1 < max_y { y + 1 } else { max_y - 1 },
            lo_x as int == if x == 0 { 0int } else { x - 1 },
            hi_x as int == if x + 1 < max_x { x + 1 } else { max_x - 1 },
            grows(b0, board(*grid)),
            changed(b0, board(*grid), x as int, y as int),
            forall|i: int, j: int| #[trigger] changed(b0, board(*grid), i, j) ==> reachable(b0, x as int, y as int, i, j),
            forall|i: int, j: int| #[trigger] changed(b0, board(*grid), i, j) && b0[j][i].content is Empty && (i, j) != (x as int, y as int)
                ==> spread_from(b0, board(*grid), i, j),
            forall|k: int, l: int| lo_x <= k <= hi_x && lo_y <= l < sy && #[trigger] hidden(b0, k, l) ==> board(*grid)[l][k].state is Visible,
        decreases hi_y + 1 - sy,
    {
        let mut sx: usize = lo_x;
        while sx <= hi_x
            invariant
                b0 == board(*old(grid)),
                rectangular(b0),
                in_bounds(b0, x as int, y as int),
                hidden(b0, x as int, y as int),
                b0[y as int][x as int].content is Empty,
                max_y == b0.len(),
                max_x == b0[0].len(),
                lo_y <= sy <= hi_y,
                lo_x <= sx <= hi_x + 1,
                hi_y < max_y,
                hi_x < max_x,
                lo_y as int == if y == 0 { 0int } else { y - 1 },
                hi_y as int == if y + 1 < max_y { y + 1 } else { max_y - 1 },
                lo_x as int == if x == 0 { 0int } else { x - 1 },
                hi_x as int == if x + 1 < max_x { x + 1 } else { max_x - 1 },
                grows(b0, board(*grid)),
                changed(b0, board(*grid), x as int, y as int),
                forall|i: int, j: int| #[trigger] changed(b0, board(*grid), i, j) ==> reachable(b0, x as int, y as int, i, j),
                forall|i: int, j: int| #[trigger] changed(b0, board(*grid), i, j) && b0[j][i].content is Empty && (i, j) != (x as int, y as int)
                    ==> spread_from(b0, board(*grid), i, j),
                forall|k: int, l: int| lo_x <= k <= hi_x && (lo_y <= l < sy || (l == sy && lo_x <= k < sx)) && #[trigger] hidden(b0, k, l)
                    ==> board(*grid)[l][k].state is Visible,
            decreases hi_x + 1 - sx,
        {
            let ghost bk = board(*grid);
            proof {
                lemma_rows_hidden(b0, bk, b0.len() as int, x as int, y as int);
                assert(bk.len() == b0.len());
                assert(hidden_count(bk) < hidden_count(b0));
                assert forall|j: int| 0 <= j < bk.len() implies #[trigger] bk[j].len() == bk[0].len() by {
                    assert(bk[j].len() == b0[j].len());
                    assert(bk[0].len() == b0[0].len());
                }
                assert(bk[sy as int].len() == b0[sy as int].len());
            }
            reveal_cell(grid, sx, sy);
            proof {
                let b2 = board(*grid);
                lemma_step(b0, bk, b2, x as int, y as int, sx as int, sy as int);
                assert forall|k: int, l: int| lo_x <= k <= hi_x && (lo_y <= l < sy || (l == sy && lo_x <= k < sx + 1)) && #[trigger] hidden(b0, k, l)
                    implies b2[l][k].state is Visible by {
                    assert(bk[l].len() == b0[l].len());
                    assert(b2[l].len() == b0[l].len());
                    assert(in_bounds(b0, k, l));
                    assert(bk[l][k].state is Visible || hidden(bk, k, l));
                    if l == sy && k == sx {
                        assert(hidden(b0, k, l));
                    }
                }
            }
            sx = sx + 1;
        }
        sy = sy + 1;
    }
    proof {
        let b1 = board(*grid);
        assert(spread_from(b0, b1, x as int, y as int)) by {
            assert forall|k: int, l: int| adjacent(x as int, y as int, k, l) && #[trigger] hidden(b0, k, l)
                implies b1[l][k].state is Visible by {
                assert(lo_x <= k <= hi_x && lo_y <= l <= hi_y);
            }
        }
        assert forall|i: int, j: int| in_bounds(b0, i, j) implies
            #[trigger] b1[j][i] == (Cell {
                content: b0[j][i].content,
                state: if reachable(b0, x as int, y as int, i, j) { CellState::Visible } else { b0[j][i].state },
            }) by {
            assert(b1[j].len() == b0[j].len());
            assert(b1[j][i].content == b0[j][i].content);
            if reachable(b0, x as int, y as int, i, j) {
                let p = choose|p: Seq<(int, int)>| #[trigger] is_cascade(b0, p) && p[0] == (x as int, y as int) && p.last() == (i, j);
                assert forall|a: int, c: int| #[trigger] changed(b0, b1, a, c) && b0[c][a].content is Empty implies spread_from(b0, b1, a, c) by {
                    if (a, c) != (x as int, y as int) {
                    }
                }
                lemma_cascade_shown(b0, b1, p, p.len() - 1);
            } else {
                assert(!changed(b0, b1, i, j));
            }
        }
    }
    false
}

/// What one inner reveal, from a neighbour (sx, sy) of the start, keeps.
proof fn lemma_step(b0: Seq<Seq<Cell>>, bk: Seq<Seq<Cell>>, b2: Seq<Seq<Cell>>, x: int, y: int, sx: int, sy: int)
    requires
        in_bounds(b0, x, y),
        hidden(b0, x, y),
        b0[y][x].content is Empty,
        adjacent(x, y, sx, sy),
        in_bounds(b0, sx, sy),
        grows(b0, bk),
        changed(b0, bk, x, y),
        revealed_from(bk, b2, sx, sy),
        forall|i: int, j: int| #[trigger] changed(b0, bk, i, j) ==> reachable(b0, x, y, i, j),
        forall|i: int, j: int| #[trigger] changed(b0, bk, i, j) && b0[j][i].content is Empty && (i, j) != (x, y)
            ==> spread_from(b0, bk, i, j),
    ensures
        grows(b0, b2),
        changed(b0, b2, x, y),
        forall|i: int, j: int| #[trigger] changed(b0, b2, i, j) ==> reachable(b0, x, y, i, j),
        forall|i: int, j: int| #[trigger] changed(b0, b2, i, j) && b0[j][i].content is Empty && (i, j) != (x, y)
            ==> spread_from(b0, b2, i, j),
        forall|k: int, l: int| in_bounds(b0, k, l) && bk[l][k].state is Visible ==> #[trigger] b2[l][k].state is Visible,
        hidden(b0, sx, sy) ==> b2[sy][sx].state is Visible,
{
    assert(bk[sy].len() == b0[sy].len());
    // cells reached from (sx, sy) were hidden in bk, hence in b0
    assert forall|i: int, j: int| in_bounds(b0, i, j) && reachable(bk, sx, sy, i, j) implies
        #[trigger] hidden(bk, i, j) && reachable(b0, x, y, i, j) by {
        let p = choose|p: Seq<(int, int)>| #[trigger] is_cascade(bk, p) && p[0] == (sx, sy) && p.last() == (i, j);
        assert(hidden(bk, p[p.len() - 1].0, p[p.len() - 1].1));
        lemma_cascade_prepend(b0, bk, x, y, p);
        let q = seq![(x, y)] + p;
        assert(q[0] == (x, y));
        assert(q.last() == (i, j));
    }
    assert(grows(b0, b2)) by {
        assert forall|j: int| 0 <= j < b0.len() implies #[trigger] b2[j].len() == b0[j].len() by {
            assert(bk[j].len() == b0[j].len());
        }
        assert forall|i: int, j: int| in_bounds(b0, i, j) implies {
            &&& #[trigger] b2[j][i].content == b0[j][i].content
            &&& (b2[j][i].state == b0[j][i].state || (b0[j][i].state is Invisible && b2[j][i].state is Visible))
        } by {
            assert(bk[j].len() == b0[j].len());
            assert(in_bounds(bk, i, j));
        }
    }
    assert forall|i: int, j: int| #[trigger] changed(b0, b2, i, j) implies reachable(b0, x, y, i, j) by {
        assert(bk[j].len() == b0[j].len());
        assert(in_bounds(bk, i, j));
        if !changed(b0, bk, i, j) {
            assert(reachable(bk, sx, sy, i, j));
        }
    }
    assert forall|k: int, l: int| in_bounds(b0, k, l) && bk[l][k].state is Visible implies #[trigger] b2[l][k].state is Visible by {
        assert(bk[l].len() == b0[l].len());
        assert(in_bounds(bk, k, l));
    }
    assert forall|i: int, j: int| #[trigger] changed(b0, b2, i, j) && b0[j][i].content is Empty && (i, j) != (x, y)
        implies spread_from(b0, b2, i, j) by {
        assert(bk[j].len() == b0[j].len());
        assert(in_bounds(bk, i, j));
        assert forall|k: int, l: int| adjacent(i, j, k, l) && #[trigger] hidden(b0, k, l) implies b2[l][k].state is Visible by {
            assert(bk[l].len() == b0[l].len());
            assert(in_bounds(bk, k, l));
            if changed(b0, bk, i, j) {
                assert(spread_from(b0, bk, i, j));
                assert(bk[l][k].state is Visible);
            } else {
                assert(reachable(bk, sx, sy, i, j));
                if hidden(bk, k, l) {
                    let p = choose|p: Seq<(int, int)>| #[trigger] is_cascade(bk, p) && p[0] == (sx, sy) && p.last() == (i, j);
                    lemma_cascade_append(bk, p, k, l);
                    let q = p.push((k, l));
                    assert(q[0] == (sx, sy));
                    assert(q.last() == (k, l));
                    assert(reachable(bk, sx, sy, k, l));
                } else {
                    assert(bk[l][k].state is Visible);
                }
            }
        }
    }
    if hidden(b0, sx, sy) {
        if hidden(bk, sx, sy) {
            let single = seq![(sx, sy)];
            assert(is_cascade(bk, single));
            assert(single.last() == (sx, sy));
            assert(reachable(bk, sx, sy, sx, sy));
        }
    }
}

/// A solved cell: shown, or flagged exactly where it holds a mine.
pub open spec fn cell_won(c: Cell) -> bool {
    !(c.state is Invisible) && ((c.state is Flagged) <==> (c.content is Mine))
}

/// Every cell of the grid is solved.
pub open spec fn won(b: Seq<Seq<Cell>>) -> bool {
    forall|x: int, y: int| in_bounds(b, x, y) ==> #[trigger] cell_won(b[y][x])
}

/// Whether every safe cell is shown and every mine, and nothing else, is flagged.
pub fn check_win(grid: &Grid) -> (r: bool)
    ensures
        r == won(board(*grid)),
{
    let ghost b = board(*grid);
    let max_y = grid.len();
    for y in 0..max_y
        invariant
            b == board(*grid),
            max_y == b.len(),
            forall|i: int, j: int| 0 <= j < y && in_bounds(b, i, j) ==> #[trigger] cell_won(b[j][i]),
    {
        assert(grid@[y as int]@ == b[y as int]);
        let max_x = grid[y].len();
        for x in 0..max_x
            invariant
                b == board(*grid),
                max_y == b.len(),
                y < max_y,
                max_x == b[y as int].len(),
                grid@[y as int]@ == b[y as int],
                forall|i: int, j: int| (0 <= j < y || (j == y && 0 <= i < x)) && in_bounds(b, i, j) ==> #[trigger] cell_won(b[j][i]),
        {
            let cell = &grid[y][x];
            assert(in_bounds(b, x as int, y as int));
            if cell.state == CellState::Invisible {
                assert(!cell_won(b[y as int][x as int]));
                return false;
            }
            if (cell.state == CellState::Flagged) != (cell.content == CellContent::Mine) {
                assert(!cell_won(b[y as int][x as int]));
                return false;
            }
        }
    }
    true
}

/// A cell after a flag toggle: a hidden cell is flagged, a flagged one hidden
/// again, a shown one stays as it is.
pub open spec fn toggled(c: Cell) -> Cell {
    match c.state {
        CellState::Invisible => Cell { state: CellState::Flagged, ..c },
        CellState::Flagged => Cell { state: CellState::Invisible, ..c },
        CellState::Visible => c,
    }
}

/// The grid `b` after toggling the flag at (x, y).
pub open spec fn flag_toggled(b: Seq<Seq<Cell>>, x: int, y: int) -> Seq<Seq<Cell>> {
    b.update(y, b[y].update(x, toggled(b[y][x])))
}

/// Flags a hidden cell or unflags a flagged one. A shown cell is left alone,
/// and the result is then `false`.
pub fn toggle_flag(grid: &mut Grid, x: usize, y: usize) -> (r: bool)
    requires
        in_bounds(board(*old(grid)), x as int, y as int),
    ensures
        r == !(board(*old(grid))[y as int][x as int].state is Visible),
        board(*final(grid)) == flag_toggled(board(*old(grid)), x as int, y as int),
{
    let ghost b = board(*grid);
    assert(grid@[y as int]@ == b[y as int]);
    let state = grid[y][x].state;
    match state {
        CellState::Visible => {
            assert(b[y as int].update(x as int, b[y as int][x as int]) =~= b[y as int]);
            assert(board(*grid) =~= flag_toggled(b, x as int, y as int));
            return false;
        },
        CellState::Flagged => {
            grid[y][x].state = CellState::Invisible;
        },
        CellState::Invisible => {
            grid[y][x].state = CellState::Flagged;
        },
    }
    assert(board(*grid) =~= flag_toggled(b, x as int, y as int));
    true
}

/// The mine layout as rows of flags.
pub open spec fn layout(m: Vec<Vec<bool>>) -> Seq<Seq<bool>> {
    m@.map_values(|row: Vec<bool>| row@)
}

/// A grid of hidden cells, counted, with a mine wherever `mines[y][x]` holds.
pub fn grid_from_mines(mines: &Vec<Vec<bool>>) -> (grid: Grid)
    requires
        mines@.len() > 0,
        mines@[0]@.len() > 0,
        forall|y: int| 0 <= y < mines@.len() ==> #[trigger] mines@[y]@.len() == mines@[0]@.len(),
    ensures
        board(grid).len() == mines@.len(),
        forall|y: int| 0 <= y < mines@.len() ==> #[trigger] board(grid)[y].len() == mines@[y]@.len(),
        rectangular(board(grid)),
        well_counted(board(grid)),
        forall|x: int, y: int| in_bounds(board(grid), x, y) ==> {
            &&& #[trigger] board(grid)[y][x].state is Invisible
            &&& (board(grid)[y][x].content is Mine <==> layout(*mines)[y][x])
        },
{
    let ghost m = layout(*mines);
    let size_y = mines.len();
    let size_x = mines[0].len();
    let mut grid: Grid = Vec::with_capacity(size_y);
    for y in 0..size_y
        invariant
            m == layout(*mines),
            size_y == mines@.len(),
            size_x == mines@[0]@.len(),
            forall|j: int| 0 <= j < mines@.len() ==> #[trigger] mines@[j]@.len() == size_x,
            board(grid).len() == y,
            forall|j: int| 0 <= j < y ==> #[trigger] board(grid)[j].len() == size_x,
            forall|i: int, j: int| 0 <= j < y && 0 <= i < size_x ==>
                #[trigger] board(grid)[j][i] == (Cell {
                    content: if m[j][i] { CellContent::Mine } else { CellContent::Empty },
                    state: CellState::Invisible,
                }),
    {
        let mut row: Vec<Cell> = Vec::with_capacity(size_x);
        assert(mines@[y as int]@.len() == size_x);
        for x in 0..size_x
            invariant
                m == layout(*mines),
                y < size_y,
                size_y == mines@.len(),
                mines@[y as int]@.len() == size_x,
                row@.len() == x,
                forall|i: int| 0 <= i < x ==>
                    #[trigger] row@[i] == (Cell {
                        content: if m[y as int][i] { CellContent::Mine } else { CellContent::Empty },
                        state: CellState::Invisible,
                    }),
        {
            let cell = Cell {
                content: if mines[y][x] { CellContent::Mine } else { CellContent::Empty },
                state: CellState::Invisible,
            };
            row.push(cell);
        }
        let ghost before = grid;
        grid.push(row);
        proof {
            assert forall|j: int| 0 <= j < y ==> #[trigger] board(grid)[j] == board(before)[j] by {
            }
        }
    }
    let ghost b0 = board(grid);
    count_mines(&mut grid);
    proof {
        let b1 = board(grid);
        assert forall|y: int| 0 <= y < mines@.len() implies #[trigger] b1[y].len() == mines@[y]@.len() by {
            assert(b0[y].len() == b1[y].len());
        }
        assert forall|x: int, y: int| in_bounds(b1, x, y) implies {
            &&& #[trigger] b1[y][x].state is Invisible
            &&& (b1[y][x].content is Mine <==> m[y][x])
        } by {
            assert(b0[y].len() == b1[y].len());
            assert(in_bounds(b0, x, y));
        }
        assert forall|y: int| 0 <= y < b1.len() implies #[trigger] b1[y].len() == b1[0].len() by {
            assert(b0[y].len() == b1[y].len());
            assert(b0[0].len() == b1[0].len());
            assert(b0[y].len() == size_x);
            assert(b0[0].len() == size_x);
        }
    }
    grid
}

/// Relies on `rand::random`: a fresh value from the thread-local generator.
/// Nothing is known of the value.
pub assume_specification<T>[ rand::random::<T> ]() -> (r: T)
    where
        rand::distributions::Standard: rand::distributions::Distribution<T>,
;

/// The chance of a mine that stands for certainty, in parts per million.
pub const CERTAIN: u32 = 1_000_000;

/// A uniform 32-bit draw makes a mine when it falls in the first
/// `chance / 1_000_000` of its range; a chance above certainty counts as certain.
pub open spec fn mine_drawn(draw: u32, chance: u32) -> bool {
    let c: int = if chance > CERTAIN { CERTAIN as int } else { chance as int };
    (draw as int) * (CERTAIN as int) < c * 0x1_0000_0000
}

/// Decides from one random draw whether a cell holds a mine.
pub fn draw_is_mine(draw: u32, chance: u32) -> (r: bool)
    ensures
        r == mine_drawn(draw, chance),
        chance == 0 ==> !r,
        chance >= CERTAIN ==> r,
{
    let c: u64 = if chance > CERTAIN { CERTAIN as u64 } else { chance as u64 };
    (draw as u64) * (CERTAIN as u64) < c * 0x1_0000_0000u64
}

/// A `size_x` by `size_y` grid of hidden, counted cells, where each cell holds
/// a mine with `chance` parts per million, drawn independently.
pub fn create_grid(size_x: usize, size_y: usize, chance: u32) -> (grid: Grid)
    requires
        size_x > 0,
        size_y > 0,
    ensures
        board(grid).len() == size_y,
        forall|y: int| 0 <= y < size_y ==> #[trigger] board(grid)[y].len() == size_x,
        rectangular(board(grid)),
        well_counted(board(grid)),
        forall|x: int, y: int| in_bounds(board(grid), x, y) ==> {
            &&& #[trigger] board(grid)[y][x].state is Invisible
            &&& (chance == 0 ==> !(board(grid)[y][x].content is Mine))
            &&& (chance >= CERTAIN ==> board(grid)[y][x].content is Mine)
        },
{
    let mut mines: Vec<Vec<bool>> = Vec::with_capacity(size_y);
    for y in 0..size_y
        invariant
            mines@.len() == y,
            forall|j: int| 0 <= j < y ==> #[trigger] mines@[j]@.len() == size_x,
            forall|i: int, j: int| 0 <= j < y && 0 <= i < size_x ==> {
                &&& (chance == 0 ==> !(#[trigger] mines@[j]@[i]))
                &&& (chance >= CERTAIN ==> mines@[j]@[i])
            },
    {
        let mut row: Vec<bool> = Vec::with_capacity(size_x);
        for x in 0..size_x
            invariant
                row@.len() == x,
                forall|i: int| 0 <= i < x ==> {
                    &&& (chance == 0 ==> !(#[trigger] row@[i]))
                    &&& (chance >= CERTAIN ==> row@[i])
                },
        {
            let draw: u32 = rand::random::<u32>();
            row.push(draw_is_mine(draw, chance));
        }
        mines.push(row);
    }
    let grid = grid_from_mines(&mines);
    proof {
        assert forall|x: int, y: int| in_bounds(board(grid), x, y) implies {
            &&& #[trigger] board(grid)[y][x].state is Invisible
            &&& (chance == 0 ==> !(board(grid)[y][x].content is Mine))
            &&& (chance >= CERTAIN ==> board(grid)[y][x].content is Mine)
        } by {
            assert(layout(mines)[y][x] == mines@[y]@[x]);
        }
    }
    grid
}

/// Revealing a hidden cell twice: the first reveal shows it, and the second
/// finds it shown and leaves the whole grid as it was.
pub proof fn lemma_reveal_twice(b0: Seq<Seq<Cell>>, b1: Seq<Seq<Cell>>, b2: Seq<Seq<Cell>>, x: int, y: int)
    requires
        hidden(b0, x, y),
        revealed_from(b0, b1, x, y),
        revealed_from(b1, b2, x, y),
    ensures
        b1[y][x].state is Visible,
        b2 == b1,
{
    let single = seq![(x, y)];
    assert(is_cascade(b0, single));
    assert(single.last() == (x, y));
    assert(b1[y][x].state is Visible);
    assert forall|j: int| 0 <= j < b1.len() implies #[trigger] b2[j] =~= b1[j] by {
        assert forall|i: int| 0 <= i < b1[j].len() implies b2[j][i] == b1[j][i] by {
            assert(in_bounds(b0, i, j));
            if reachable(b1, x, y, i, j) {
                let p = choose|p: Seq<(int, int)>| #[trigger] is_cascade(b1, p) && p[0] == (x, y) && p.last() == (i, j);
                assert(hidden(b1, p[0].0, p[0].1));
            }
        }
    }
    assert(b2 =~= b1);
}

/// Revealing a hidden `Empty` cell shows the whole region of `Empty` cells that
/// the cascade reaches together with every hidden cell next to that region,
/// and changes no cell beyond what the cascade reaches.
pub proof fn lemma_flood_fill(b0: Seq<Seq<Cell>>, b1: Seq<Seq<Cell>>, x: int, y: int)
    requires
        hidden(b0, x, y),
        b0[y][x].content is Empty,
        revealed_from(b0, b1, x, y),
    ensures
        b1[y][x].state is Visible,
        forall|i: int, j: int, k: int, l: int|
            #![trigger reachable(b0, x, y, i, j), hidden(b0, k, l)]
            reachable(b0, x, y, i, j) && b0[j][i].content is Empty && adjacent(i, j, k, l) && hidden(b0, k, l)
                ==> reachable(b0, x, y, k, l) && b1[l][k].state is Visible,
        forall|i: int, j: int| in_bounds(b0, i, j) && #[trigger] b1[j][i].state != b0[j][i].state
            ==> reachable(b0, x, y, i, j) && b1[j][i].state is Visible,
{
    let single = seq![(x, y)];
    assert(is_cascade(b0, single));
    assert(single.last() == (x, y));
    assert forall|i: int, j: int, k: int, l: int|
        #![trigger reachable(b0, x, y, i, j), hidden(b0, k, l)]
        reachable(b0, x, y, i, j) && b0[j][i].content is Empty && adjacent(i, j, k, l) && hidden(b0, k, l)
        implies reachable(b0, x, y, k, l) && b1[l][k].state is Visible by {
        let p = choose|p: Seq<(int, int)>| #[trigger] is_cascade(b0, p) && p[0] == (x, y) && p.last() == (i, j);
        lemma_cascade_append(b0, p, k, l);
        let q = p.push((k, l));
        assert(q[0] == (x, y));
        assert(q.last() == (k, l));
    }
}

/// A won grid stays won after any reveal: no cell is left hidden, so nothing changes.
pub proof fn lemma_win_kept_by_reveal(b0: Seq<Seq<Cell>>, b1: Seq<Seq<Cell>>, x: int, y: int)
    requires
        won(b0),
        revealed_from(b0, b1, x, y),
    ensures
        won(b1),
{
    assert forall|i: int, j: int| in_bounds(b1, i, j) implies #[trigger] cell_won(b1[j][i]) by {
        assert(in_bounds(b0, i, j));
        assert(cell_won(b0[j][i]));
        if reachable(b0, x, y, i, j) {
            let p = choose|p: Seq<(int, int)>| #[trigger] is_cascade(b0, p) && p[0] == (x, y) && p.last() == (i, j);
            assert(hidden(b0, p[0].0, p[0].1));
            assert(cell_won(b0[p[0].1][p[0].0]));
        }
    }
}

/// A won grid stays won after a flag toggle, unless the toggle takes the flag
/// off a mine.
pub proof fn lemma_win_kept_by_flag(b: Seq<Seq<Cell>>, x: int, y: int)
    requires
        won(b),
        in_bounds(b, x, y),
        !(b[y][x].state is Flagged && b[y][x].content is Mine),
    ensures
        won(flag_toggled(b, x, y)),
{
    assert(cell_won(b[y][x]));
    assert(b[y].update(x, b[y][x]) =~= b[y]);
    assert(flag_toggled(b, x, y) =~= b);
}

} // verus!
