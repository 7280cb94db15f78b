//! The board model: cell values, the activation transform, and the two
//! completion predicates.

use vstd::prelude::*;

verus! {

/// A cell that is switched off.
pub const OFF: u8 = 0;

/// A cell that is switched on.
pub const ON: u8 = 1;

/// A blocked cell: never toggled, never a valid activation target, and it
/// stops toggle propagation.
pub const HOLE: u8 = 9;

/// In a display grid only: a cell visited by the solution.
pub const VISITED: u8 = 8;

/// Errors at the library boundary.
#[derive(Clone, Copy, Debug, PartialEq, Eq, Structural)]
pub enum PuzzleError {
    /// The encoded board does not match the given dimensions, or holds an
    /// unrecognized symbol.
    EncodingError,
    /// An activation targeted a hole.
    InvalidActivation,
}

/// A rectangular board of cells, stored row by row.
pub struct Board {
    pub rows: usize,
    pub cols: usize,
    pub cells: Vec<Vec<u8>>,
}

impl View for Board {
    type V = Seq<Seq<u8>>;

    open spec fn view(&self) -> Seq<Seq<u8>> {
        self.cells.deep_view()
    }
}

pub open spec fn cell_ok(v: u8) -> bool {
    v == OFF || v == ON || v == HOLE
}

/// Every cell of the grid holds one of the three recognized values.
pub open spec fn cells_ok(g: Seq<Seq<u8>>) -> bool {
    forall|r: int, c: int|
        0 <= r < g.len() && 0 <= c < g[r].len() ==> cell_ok(#[trigger] g[r][c])
}

/// All rows have the same length.
pub open spec fn rectangular(g: Seq<Seq<u8>>) -> bool {
    forall|r: int| 0 <= r < g.len() ==> (#[trigger] g[r]).len() == g[0].len()
}

/// A well-formed grid snapshot: rectangular, with recognized cell values.
pub open spec fn grid_ok(g: Seq<Seq<u8>>) -> bool {
    rectangular(g) && cells_ok(g)
}

impl Board {
    /// The board's dimensions match its storage and every cell is valid.
    pub open spec fn wf(&self) -> bool {
        &&& self@.len() == self.rows
        &&& forall|r: int| 0 <= r < self.rows ==> (#[trigger] self@[r]).len() == self.cols
        &&& cells_ok(self@)
    }
}

/// The position (r, c) lies inside the grid.
pub open spec fn pos_ok(g: Seq<Seq<u8>>, p: (usize, usize)) -> bool {
    p.0 < g.len() && p.1 < g[p.0 as int].len()
}

/// The position lies inside the grid and is not a hole.
pub open spec fn non_hole(g: Seq<Seq<u8>>, p: (usize, usize)) -> bool {
    pos_ok(g, p) && g[p.0 as int][p.1 as int] != HOLE
}

/// Whether activating cell (x, y) toggles cell (r, c): the target itself, or
/// a cell on one of the four rays from the target with no hole between them.
pub open spec fn toggles(g: Seq<Seq<u8>>, x: int, y: int, r: int, c: int) -> bool {
    ||| (r == x && c == y)
    ||| (c == y && r < x && (forall|j: int| r <= j < x ==> #[trigger] g[j][y] != HOLE))
    ||| (c == y && x < r && (forall|j: int| x < j <= r ==> #[trigger] g[j][y] != HOLE))
    ||| (r == x && c < y && (forall|j: int| c <= j < y ==> #[trigger] g[x][j] != HOLE))
    ||| (r == x && y < c && (forall|j: int| y < j <= c ==> #[trigger] g[x][j] != HOLE))
}

pub open spec fn flip(v: u8) -> u8 {
    if v == OFF { ON } else { OFF }
}

/// The grid after activating cell (x, y): the same dimensions, with every
/// toggled cell flipped and every other cell unchanged.
pub open spec fn activate_spec(g: Seq<Seq<u8>>, x: int, y: int) -> Seq<Seq<u8>> {
    Seq::new(
        g.len(),
        |r: int|
            Seq::new(
                g[r].len(),
                |c: int| if toggles(g, x, y, r, c) { flip(g[r][c]) } else { g[r][c] },
            ),
    )
}

/// The grid after activating, in order, every position of the sequence.
pub open spec fn apply_all(g: Seq<Seq<u8>>, s: Seq<(usize, usize)>) -> Seq<Seq<u8>>
    decreases s.len(),
{
    if s.len() == 0 {
        g
    } else {
        apply_all(activate_spec(g, s[0].0 as int, s[0].1 as int), s.drop_first())
    }
}

/// No cell of the grid is off; on cells and holes both count as satisfied.
pub open spec fn complete(g: Seq<Seq<u8>>) -> bool {
    forall|r: int, c: int|
        0 <= r < g.len() && 0 <= c < g[r].len() ==> #[trigger] g[r][c] != OFF
}

/// No cell of the top-left k-by-k minor square is off; cells outside the
/// grid are ignored, and holes inside the square count as satisfied.
pub open spec fn minor_complete(g: Seq<Seq<u8>>, k: int) -> bool {
    forall|r: int, c: int|
        0 <= r < k && 0 <= c < k && r < g.len() && c < g[r].len()
            ==> #[trigger] g[r][c] != OFF
}

/// A recognized encoding symbol: off, on, or the hole marker.
pub open spec fn symbol_ok(ch: char) -> bool {
    ch == '0' || ch == '1' || ch == 'x'
}

/// The cell value a recognized symbol encodes.
pub open spec fn symbol_cell(ch: char) -> u8 {
    if ch == 'x' {
        HOLE
    } else if ch == '1' {
        ON
    } else {
        OFF
    }
}

/// Builds a board from a flat, row-major string of cell symbols: '0' for
/// off, '1' for on, 'x' for a hole. Rejects with `EncodingError` a string
/// whose length is not nrows * ncols, or that holds any other symbol.
pub fn build_board_from_str(board_str: &str, nrows: usize, ncols: usize) -> (res: Result<
    Board,
    PuzzleError,
>)
    ensures
        match res {
            Ok(b) => {
                &&& b.wf()
                &&& b.rows == nrows
                &&& b.cols == ncols
                &&& board_str@.len() == (nrows as int) * (ncols as int)
                &&& forall|i: int|
                    0 <= i < board_str@.len() ==> symbol_ok(#[trigger] board_str@[i])
                &&& forall|r: int, c: int|
                    0 <= r < nrows && 0 <= c < ncols ==> #[trigger] b@[r][c] == symbol_cell(
                        board_str@[r * (ncols as int) + c],
                    )
            },
            Err(e) => {
                &&& e == PuzzleError::EncodingError
                &&& (board_str@.len() != (nrows as int) * (ncols as int) || exists|i: int|
                    0 <= i < board_str@.len() && !symbol_ok(#[trigger] board_str@[i]))
            },
        },
{
    let n = board_str.unicode_len();
    let mut cells: Vec<Vec<u8>> = Vec::new();
    let mut idx: usize = 0;
    let mut r: usize = 0;
    while r < nrows
        invariant
            r <= nrows,
            idx <= n,
            n == board_str@.len(),
            idx == r * (ncols as int),
            cells.deep_view().len() == r,
            forall|i: int| 0 <= i < r ==> (#[trigger] cells.deep_view()[i]).len() == ncols,
            forall|i: int, j: int|
                0 <= i < r && 0 <= j < ncols ==> #[trigger] cells.deep_view()[i][j]
                    == symbol_cell(board_str@[i * (ncols as int) + j]),
            forall|i: int| 0 <= i < idx ==> symbol_ok(#[trigger] board_str@[i]),
        decreases nrows - r,
    {
        let mut rowv: Vec<u8> = Vec::new();
        let mut c: usize = 0;
        while c < ncols
            invariant
                r < nrows,
                c <= ncols,
                idx <= n,
                n == board_str@.len(),
                idx == r * (ncols as int) + c,
                rowv@.len() == c,
                forall|j: int|
                    0 <= j < c ==> #[trigger] rowv@[j] == symbol_cell(
                        board_str@[r * (ncols as int) + j],
                    ),
                forall|i: int| 0 <= i < idx ==> symbol_ok(#[trigger] board_str@[i]),
            decreases ncols - c,
        {
            if idx >= n {
                proof {
                    assert(r * (ncols as int) + c < (nrows as int) * (ncols as int))
                        by (nonlinear_arith)
                        requires
                            0 <= r < nrows,
                            0 <= c < ncols,
                    ;
                }
                return Err(PuzzleError::EncodingError);
            }
            let ch = board_str.get_char(idx);
            let v: u8 = if ch == 'x' {
                HOLE
            } else if ch == '1' {
                ON
            } else if ch == '0' {
                OFF
            } else {
                return Err(PuzzleError::EncodingError);
            };
            rowv.push(v);
            idx += 1;
            c += 1;
        }
        let ghost prev = cells.deep_view();
        cells.push(rowv);
        proof {
            assert((r + 1) * (ncols as int) == r * (ncols as int) + ncols) by (nonlinear_arith);
            assert(rowv.deep_view() =~= rowv@);
            assert forall|i: int| 0 <= i < r + 1 implies #[trigger] cells.deep_view()[i]
                == (if i < r {
                    prev[i]
                } else {
                    rowv@
                }) by {
            }
        }
        r += 1;
    }
    if idx != n {
        proof {
            assert(idx == (nrows as int) * (ncols as int));
        }
        return Err(PuzzleError::EncodingError);
    }
    let b = Board { rows: nrows, cols: ncols, cells };
    proof {
        assert(idx == (nrows as int) * (ncols as int));
        assert forall|i: int, j: int|
            0 <= i < nrows && 0 <= j < ncols implies cell_ok(#[trigger] b@[i][j]) by {
            assert(b@[i][j] == symbol_cell(board_str@[i * (ncols as int) + j]));
        }
    }
    Ok(b)
}

/// True iff the sequence holds the position.
fn holds_pos(sol: &Vec<(usize, usize)>, p: (usize, usize)) -> (res: bool)
    ensures
        res == sol@.contains(p),
{
    let mut i: usize = 0;
    while i < sol.len()
        invariant
            i <= sol@.len(),
            forall|k: int| 0 <= k < i ==> #[trigger] sol@[k] != p,
        decreases sol@.len() - i,
    {
        let q = sol[i];
        if q.0 == p.0 && q.1 == p.1 {
            return true;
        }
        i += 1;
    }
    false
}

/// The value a display grid shows at (r, c): holes stay marked as holes,
/// cells the solution visits are marked `VISITED`, all others keep their
/// state.
pub open spec fn display_cell(g: Seq<Seq<u8>>, sol: Seq<(usize, usize)>, r: usize, c: usize) -> u8 {
    if g[r as int][c as int] == HOLE {
        HOLE
    } else if sol.contains((r, c)) {
        VISITED
    } else {
        g[r as int][c as int]
    }
}

/// Renders a solution onto a copy of the board: every visited non-hole cell
/// is marked distinctly, holes remain holes, untouched cells keep their
/// state.
pub fn display_moves_on_board(board: &Board, sol: &Vec<(usize, usize)>) -> (disp: Vec<Vec<u8>>)
    requires
        board.wf(),
        forall|i: int| 0 <= i < sol@.len() ==> pos_ok(board@, #[trigger] sol@[i]),
    ensures
        disp.deep_view().len() == board.rows,
        forall|r: int|
            0 <= r < board.rows ==> (#[trigger] disp.deep_view()[r]).len() == board.cols,
        forall|r: usize, c: usize|
            r < board.rows && c < board.cols ==> #[trigger] disp.deep_view()[r as int][c as int]
                == display_cell(board@, sol@, r, c),
{
    let rows = board.rows;
    let cols = board.cols;
    let mut disp: Vec<Vec<u8>> = Vec::new();
    let mut r: usize = 0;
    while r < rows
        invariant
            board.wf(),
            rows == board.rows,
            cols == board.cols,
            forall|i: int| 0 <= i < sol@.len() ==> pos_ok(board@, #[trigger] sol@[i]),
            r <= rows,
            disp.deep_view().len() == r,
            forall|i: int| 0 <= i < r ==> (#[trigger] disp.deep_view()[i]).len() == cols,
            forall|i: usize, j: usize|
                i < r && j < cols ==> #[trigger] disp.deep_view()[i as int][j as int]
                    == display_cell(board@, sol@, i, j),
        decreases rows - r,
    {
        let mut rowv: Vec<u8> = Vec::new();
        let mut c: usize = 0;
        while c < cols
            invariant
                board.wf(),
                rows == board.rows,
                cols == board.cols,
                r < rows,
                c <= cols,
                rowv@.len() == c,
                forall|j: usize|
                    j < c ==> #[trigger] rowv@[j as int] == display_cell(board@, sol@, r, j),
            decreases cols - c,
        {
            let v = cell_at(board, r, c);
            let nv = if v == HOLE {
                HOLE
            } else if holds_pos(sol, (r, c)) {
                VISITED
            } else {
                v
            };
            rowv.push(nv);
            c += 1;
        }
        let ghost prev = disp.deep_view();
        disp.push(rowv);
        proof {
            assert(rowv.deep_view() =~= rowv@);
            assert forall|i: int| 0 <= i < r + 1 implies #[trigger] disp.deep_view()[i]
                == (if i < r {
                    prev[i]
                } else {
                    rowv@
                }) by {
            }
        }
        r += 1;
    }
    disp
}

/// Reads one cell.
pub fn cell_at(board: &Board, r: usize, c: usize) -> (v: u8)
    requires
        board.wf(),
        r < board.rows,
        c < board.cols,
    ensures
        v == board@[r as int][c as int],
{
    proof {
        assert(board@[r as int].len() == board.cols);
    }
    board.cells[r][c]
}

/// Activates the non-hole cell at `pos`: toggles it, then toggles outward
/// along the four orthogonal rays, each ray stopping at the first hole or at
/// the board's edge. Pure: returns a new board.
pub fn activate(board: &Board, pos: (usize, usize)) -> (b: Board)
    requires
        board.wf(),
        pos.0 < board.rows,
        pos.1 < board.cols,
        board@[pos.0 as int][pos.1 as int] != HOLE,
    ensures
        b.wf(),
        b.rows == board.rows,
        b.cols == board.cols,
        b@ == activate_spec(board@, pos.0 as int, pos.1 as int),
{
    let x = pos.0;
    let y = pos.1;
    let rows = board.rows;
    let cols = board.cols;
    let ghost g = board@;

    // The toggled stretch of column y above x is up..x.
    let mut up: usize = x;
    while up > 0 && cell_at(board, up - 1, y) != HOLE
        invariant
            board.wf(),
            x < rows == board.rows,
            y < cols == board.cols,
            g == board@,
            up <= x,
            forall|j: int| up <= j < x ==> #[trigger] g[j][y as int] != HOLE,
        decreases up,
    {
        up -= 1;
    }
    // The toggled stretch of column y below x is x + 1..dn.
    let mut dn: usize = x + 1;
    while dn < rows && cell_at(board, dn, y) != HOLE
        invariant
            board.wf(),
            x < rows == board.rows,
            y < cols == board.cols,
            g == board@,
            x + 1 <= dn <= rows,
            forall|j: int| x < j < dn ==> #[trigger] g[j][y as int] != HOLE,
        decreases rows - dn,
    {
        dn += 1;
    }
    // The toggled stretch of row x left of y is lt..y.
    let mut lt: usize = y;
    while lt > 0 && cell_at(board, x, lt - 1) != HOLE
        invariant
            board.wf(),
            x < rows == board.rows,
            y < cols == board.cols,
            g == board@,
            lt <= y,
            forall|j: int| lt <= j < y ==> #[trigger] g[x as int][j] != HOLE,
        decreases lt,
    {
        lt -= 1;
    }
    // The toggled stretch of row x right of y is y + 1..rt.
    let mut rt: usize = y + 1;
    while rt < cols && cell_at(board, x, rt) != HOLE
        invariant
            board.wf(),
            x < rows == board.rows,
            y < cols == board.cols,
            g == board@,
            y + 1 <= rt <= cols,
            forall|j: int| y < j < rt ==> #[trigger] g[x as int][j] != HOLE,
        decreases cols - rt,
    {
        rt += 1;
    }

    let mut cells: Vec<Vec<u8>> = Vec::new();
    let mut r: usize = 0;
    while r < rows
        invariant
            board.wf(),
            g == board@,
            x < rows == board.rows,
            y < cols == board.cols,
            g[x as int][y as int] != HOLE,
            up <= x,
            x + 1 <= dn <= rows,
            lt <= y,
            y + 1 <= rt <= cols,
            forall|j: int| up <= j < x ==> #[trigger] g[j][y as int] != HOLE,
            up > 0 ==> g[up - 1][y as int] == HOLE,
            forall|j: int| x < j < dn ==> #[trigger] g[j][y as int] != HOLE,
            dn < rows ==> g[dn as int][y as int] == HOLE,
            forall|j: int| lt <= j < y ==> #[trigger] g[x as int][j] != HOLE,
            lt > 0 ==> g[x as int][lt - 1] == HOLE,
            forall|j: int| y < j < rt ==> #[trigger] g[x as int][j] != HOLE,
            rt < cols ==> g[x as int][rt as int] == HOLE,
            r <= rows,
            cells.deep_view().len() == r,
            forall|i: int| 0 <= i < r ==> (#[trigger] cells.deep_view()[i]).len() == cols,
            forall|i: int, j: int|
                0 <= i < r && 0 <= j < cols
                    ==> #[trigger] cells.deep_view()[i][j]
                        == activate_spec(g, x as int, y as int)[i][j],
        decreases rows - r,
    {
        let mut rowv: Vec<u8> = Vec::new();
        let mut c: usize = 0;
        while c < cols
            invariant
                board.wf(),
                g == board@,
                x < rows == board.rows,
                y < cols == board.cols,
                g[x as int][y as int] != HOLE,
                up <= x,
                x + 1 <= dn <= rows,
                lt <= y,
                y + 1 <= rt <= cols,
                forall|j: int| up <= j < x ==> #[trigger] g[j][y as int] != HOLE,
                up > 0 ==> g[up - 1][y as int] == HOLE,
                forall|j: int| x < j < dn ==> #[trigger] g[j][y as int] != HOLE,
                dn < rows ==> g[dn as int][y as int] == HOLE,
                forall|j: int| lt <= j < y ==> #[trigger] g[x as int][j] != HOLE,
                lt > 0 ==> g[x as int][lt - 1] == HOLE,
                forall|j: int| y < j < rt ==> #[trigger] g[x as int][j] != HOLE,
                rt < cols ==> g[x as int][rt as int] == HOLE,
                r < rows,
                c <= cols,
                rowv@.len() == c,
                forall|j: int|
                    0 <= j < c
                        ==> #[trigger] rowv@[j]
                            == activate_spec(g, x as int, y as int)[r as int][j],
            decreases cols - c,
        {
            let v = cell_at(board, r, c);
            let t = (r == x && c == y) || (c == y && r < x && up <= r) || (c == y && x < r
                && r < dn) || (r == x && c < y && lt <= c) || (r == x && y < c && c < rt);
            proof {
                let ri = r as int;
                let ci = c as int;
                let xi = x as int;
                let yi = y as int;
                if c == y && r < x {
                    if up <= r {
                        assert(forall|j: int| ri <= j < xi ==> #[trigger] g[j][yi] != HOLE);
                    } else {
                        assert(g[up - 1][yi] == HOLE);
                        assert(!(forall|j: int| ri <= j < xi ==> #[trigger] g[j][yi] != HOLE));
                    }
                }
                if c == y && x < r {
                    if r < dn {
                        assert(forall|j: int| xi < j <= ri ==> #[trigger] g[j][yi] != HOLE);
                    } else {
                        assert(g[dn as int][yi] == HOLE);
                        assert(!(forall|j: int| xi < j <= ri ==> #[trigger] g[j][yi] != HOLE));
                    }
                }
                if r == x && c < y {
                    if lt <= c {
                        assert(forall|j: int| ci <= j < yi ==> #[trigger] g[xi][j] != HOLE);
                    } else {
                        assert(g[xi][lt - 1] == HOLE);
                        assert(!(forall|j: int| ci <= j < yi ==> #[trigger] g[xi][j] != HOLE));
                    }
                }
                if r == x && y < c {
                    if c < rt {
                        assert(forall|j: int| yi < j <= ci ==> #[trigger] g[xi][j] != HOLE);
                    } else {
                        assert(g[xi][rt as int] == HOLE);
                        assert(!(forall|j: int| yi < j <= ci ==> #[trigger] g[xi][j] != HOLE));
                    }
                }
                assert(t == toggles(g, xi, yi, ri, ci));
                assert(g[ri].len() == cols);
            }
            let nv = if t {
                if v == OFF {
                    ON
                } else {
                    OFF
                }
            } else {
                v
            };
            rowv.push(nv);
            c += 1;
        }
        proof {
            assert(rowv.deep_view() =~= rowv@);
            assert(rowv@ =~= activate_spec(g, x as int, y as int)[r as int]);
        }
        let ghost prev = cells.deep_view();
        cells.push(rowv);
        proof {
            assert forall|i: int| 0 <= i < r + 1 implies #[trigger] cells.deep_view()[i]
                == (if i < r {
                    prev[i]
                } else {
                    activate_spec(g, x as int, y as int)[r as int]
                }) by {
            }
        }
        r += 1;
    }
    let b = Board { rows, cols, cells };
    proof {
        assert(b@ =~~= activate_spec(board@, x as int, y as int));
        assert forall|i: int, j: int|
            0 <= i < rows && 0 <= j < cols implies cell_ok(#[trigger] b@[i][j]) by {
            assert(cell_ok(g[i][j]));
        }
    }
    b
}

/// Activation at the library boundary: rejects a hole target with
/// `InvalidActivation`, and otherwise returns the activated board.
pub fn action(board: &Board, pos: (usize, usize)) -> (res: Result<Board, PuzzleError>)
    requires
        board.wf(),
        pos.0 < board.rows,
        pos.1 < board.cols,
    ensures
        match res {
            Ok(b) => {
                &&& board@[pos.0 as int][pos.1 as int] != HOLE
                &&& b.wf()
                &&& b.rows == board.rows
                &&& b.cols == board.cols
                &&& b@ == activate_spec(board@, pos.0 as int, pos.1 as int)
            },
            Err(e) => {
                &&& board@[pos.0 as int][pos.1 as int] == HOLE
                &&& e == PuzzleError::InvalidActivation
            },
        },
{
    if cell_at(board, pos.0, pos.1) == HOLE {
        Err(PuzzleError::InvalidActivation)
    } else {
        Ok(activate(board, pos))
    }
}

/// True iff no cell of the board is off.
pub fn is_complete(board: &Board) -> (res: bool)
    requires
        board.wf(),
    ensures
        res == complete(board@),
{
    let mut r: usize = 0;
    while r < board.rows
        invariant
            board.wf(),
            r <= board.rows,
            forall|i: int, j: int|
                0 <= i < r && 0 <= j < board.cols ==> #[trigger] board@[i][j] != OFF,
        decreases board.rows - r,
    {
        let mut c: usize = 0;
        while c < board.cols
            invariant
                board.wf(),
                r < board.rows,
                c <= board.cols,
                forall|j: int| 0 <= j < c ==> #[trigger] board@[r as int][j] != OFF,
            decreases board.cols - c,
        {
            if cell_at(board, r, c) == OFF {
                return false;
            }
            c += 1;
        }
        r += 1;
    }
    true
}

/// True iff no cell of the top-left minor-by-minor square is off. Cells
/// beyond the board's edge are ignored.
pub fn is_complete_minor(board: &Board, minor: usize) -> (res: bool)
    requires
        board.wf(),
    ensures
        res == minor_complete(board@, minor as int),
{
    let rlim = if minor < board.rows { minor } else { board.rows };
    let clim = if minor < board.cols { minor } else { board.cols };
    let mut r: usize = 0;
    while r < rlim
        invariant
            board.wf(),
            rlim <= board.rows,
            rlim <= minor,
            clim <= board.cols,
            clim <= minor,
            minor <= rlim || rlim == board.rows,
            minor <= clim || clim == board.cols,
            r <= rlim,
            forall|i: int, j: int|
                0 <= i < r && 0 <= j < clim ==> #[trigger] board@[i][j] != OFF,
        decreases rlim - r,
    {
        let mut c: usize = 0;
        while c < clim
            invariant
                board.wf(),
                r < rlim <= board.rows,
                rlim <= minor,
                clim <= board.cols,
                clim <= minor,
                c <= clim,
                forall|j: int| 0 <= j < c ==> #[trigger] board@[r as int][j] != OFF,
            decreases clim - c,
        {
            if cell_at(board, r, c) == OFF {
                return false;
            }
            c += 1;
        }
        r += 1;
    }
    true
}

/// One activation at a non-hole cell keeps the grid's dimensions, its hole
/// placement, and the validity of every cell value.
pub proof fn lemma_activate_preserves(g: Seq<Seq<u8>>, x: int, y: int)
    requires
        grid_ok(g),
        0 <= x < g.len(),
        0 <= y < g[x].len(),
        g[x][y] != HOLE,
    ensures
        ({
            let g2 = activate_spec(g, x, y);
            &&& g2.len() == g.len()
            &&& forall|r: int| 0 <= r < g.len() ==> (#[trigger] g2[r]).len() == g[r].len()
            &&& forall|r: int, c: int|
                0 <= r < g.len() && 0 <= c < g[r].len()
                    ==> ((#[trigger] g2[r][c]) == HOLE <==> g[r][c] == HOLE)
            &&& grid_ok(g2)
        }),
{
    let g2 = activate_spec(g, x, y);
    assert forall|r: int, c: int|
        0 <= r < g.len() && 0 <= c < g[r].len() implies ((#[trigger] g2[r][c]) == HOLE <==> g[r][c]
        == HOLE) && cell_ok(g2[r][c]) by {
        assert(cell_ok(g[r][c]));
        if toggles(g, x, y, r, c) {
            // Every toggled cell is itself hole-free: the target by the
            // precondition, a ray cell because the hole-free stretch that
            // lets the toggle reach it includes the cell itself.
            if r == x && c == y {
                assert(g[r][c] != HOLE);
            } else if c == y && r < x {
                assert(g[r][y] != HOLE);
            } else if c == y && x < r {
                assert(g[r][y] != HOLE);
            } else if r == x && c < y {
                assert(g[x][c] != HOLE);
            } else {
                assert(g[x][c] != HOLE);
            }
            assert(g2[r][c] == flip(g[r][c]));
        } else {
            assert(g2[r][c] == g[r][c]);
        }
    }
}

/// Activating the same non-hole cell twice restores the grid exactly:
/// toggling is its own inverse, and both activations stop their rays at the
/// same holes and boundaries.
pub proof fn lemma_activate_involutive(g: Seq<Seq<u8>>, x: int, y: int)
    requires
        grid_ok(g),
        0 <= x < g.len(),
        0 <= y < g[x].len(),
        g[x][y] != HOLE,
    ensures
        activate_spec(activate_spec(g, x, y), x, y) == g,
{
    let g1 = activate_spec(g, x, y);
    lemma_activate_preserves(g, x, y);
    assert forall|r: int, c: int|
        0 <= r < g.len() && 0 <= c < g[r].len() implies toggles(g1, x, y, r, c) == toggles(
        g,
        x,
        y,
        r,
        c,
    ) by {
        assert(g[0].len() == g[x].len());
        assert(g[r].len() == g[x].len());
        // The ray tests of the two grids agree cell by cell.
        assert forall|j: int| 0 <= j < g.len() implies (g1[j][y] == HOLE <==> g[j][y] == HOLE) by {
            assert(g[j].len() == g[x].len());
        }
        assert forall|j: int| 0 <= j < g[x].len() implies (g1[x][j] == HOLE <==> g[x][j]
            == HOLE) by {
        }
    }
    let g2 = activate_spec(g1, x, y);
    assert forall|r: int, c: int|
        0 <= r < g.len() && 0 <= c < g[r].len() implies #[trigger] g2[r][c] == g[r][c] by {
        assert(cell_ok(g[r][c]));
        if toggles(g, x, y, r, c) {
            assert(g[r][c] != HOLE);
            assert(g1[r][c] == flip(g[r][c]));
            assert(g2[r][c] == flip(g1[r][c]));
        }
    }
    assert(g2 =~~= g);
}

/// Across any sequence of activations at non-hole positions the grid keeps
/// its dimensions, every hole stays a hole, every other cell stays a
/// non-hole, and all values stay valid.
pub proof fn lemma_holes_immutable(g: Seq<Seq<u8>>, s: Seq<(usize, usize)>)
    requires
        grid_ok(g),
        forall|i: int| 0 <= i < s.len() ==> non_hole(g, #[trigger] s[i]),
    ensures
        ({
            let g2 = apply_all(g, s);
            &&& g2.len() == g.len()
            &&& forall|r: int| 0 <= r < g.len() ==> (#[trigger] g2[r]).len() == g[r].len()
            &&& forall|r: int, c: int|
                0 <= r < g.len() && 0 <= c < g[r].len()
                    ==> ((#[trigger] g2[r][c]) == HOLE <==> g[r][c] == HOLE)
            &&& grid_ok(g2)
        }),
    decreases s.len(),
{
    if s.len() > 0 {
        let p = s[0];
        let g1 = activate_spec(g, p.0 as int, p.1 as int);
        lemma_activate_preserves(g, p.0 as int, p.1 as int);
        let rest = s.drop_first();
        assert forall|i: int| 0 <= i < rest.len() implies non_hole(g1, #[trigger] rest[i]) by {
            assert(rest[i] == s[i + 1]);
            assert(non_hole(g, s[i + 1]));
        }
        lemma_holes_immutable(g1, rest);
    }
}

} // verus!
