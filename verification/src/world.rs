//! The executable grid.

use vstd::prelude::*;
use rand::rngs::StdRng;
use vstd::string::StringExecFns;
use crate::random::random_rows;
use crate::pattern::{
    fits, flags_of, live_of, parse_pattern, pattern_fits, row_text, rows_of, rows_text, text_of,
    token_of,
};
use crate::board::{
    Board, lemma_birth_counts, lemma_live_among_bound, lemma_touches_monotonic,
    lemma_touches_symmetric, offset, shift, survives, touches,
};

verus! {

/// Why an operation on a [`World`] was refused.
#[derive(Clone, Copy, Debug, PartialEq, Eq, Structural)]
pub enum WorldError {
    /// A grid needs at least one column and one row.
    InvalidDimensions,
    /// The coordinate names no cell of the grid.
    OutOfBounds,
    /// The pattern is ragged or larger than the grid.
    MalformedPattern,
}

/// One cell: its state and the number of its live neighbours.
#[derive(Clone, Copy, Debug, PartialEq, Eq, Structural)]
pub struct Cell {
    pub alive: bool,
    pub live_neighbours_count: u8,
}

impl Cell {
    /// A dead cell with no live neighbours.
    pub fn new() -> (cell: Cell)
        ensures
            !cell.alive,
            cell.live_neighbours_count == 0,
    {
        Cell { alive: false, live_neighbours_count: 0 }
    }
}

/// Whether `cells` holds `height` rows of `width` cells each.
spec fn rectangular(cells: Seq<Vec<Cell>>, width: int, height: int) -> bool {
    &&& cells.len() == height
    &&& forall|y: int| 0 <= y < height ==> (#[trigger] cells[y]).len() == width
}

/// The board that the `alive` flags of `cells` describe.
spec fn board_of(cells: Seq<Vec<Cell>>, width: int, height: int) -> Board {
    Board {
        width: width as nat,
        height: height as nat,
        live: Set::new(
            |c: (int, int)| 0 <= c.0 < width && 0 <= c.1 < height && cells[c.1][c.0].alive,
        ),
    }
}

/// Whether every cached count in `cells` is the number of live neighbours
/// that the `alive` flags give.
spec fn counted(cells: Seq<Vec<Cell>>, width: int, height: int) -> bool {
    forall|x: int, y: int|
        0 <= x < width && 0 <= y < height ==> (#[trigger] cells[y][x]).live_neighbours_count
            == board_of(cells, width, height).live_neighbours(x, y)
}

/// The coordinate `n + offset` on an axis whose last position is `max`: past
/// either end it comes back in at the other.
pub fn add_offset(max: usize, n: usize, offset: i8) -> (r: usize)
    ensures
        r == shift(n as int, offset as int, max + 1),
    no_unwind
{
    if offset < 0 {
        let back: usize = (-(offset as i16)) as usize;
        if n < back {
            max
        } else if n - back > max {
            0
        } else {
            n - back
        }
    } else {
        let ahead: usize = offset as usize;
        if n > max || ahead > max - n {
            0
        } else {
            n + ahead
        }
    }
}

/// The `k`-th of the eight neighbour offsets, counted from 0; past the
/// seventh, the last one.
pub fn offset_at(k: usize) -> (d: (i8, i8))
    ensures
        (d.0 as int, d.1 as int) == offset(k as int),
    no_unwind
{
    if k == 0 {
        (-1, -1)
    } else if k == 1 {
        (-1, 0)
    } else if k == 2 {
        (-1, 1)
    } else if k == 3 {
        (0, -1)
    } else if k == 4 {
        (0, 1)
    } else if k == 5 {
        (1, -1)
    } else if k == 6 {
        (1, 0)
    } else {
        (1, 1)
    }
}

/// Visits the eight wrapped neighbours of `(x, y)` and raises the count of
/// each by one when `born`, or lowers it by one otherwise. A cell that is a
/// neighbour under several offsets is visited once for each.
fn for_each_neighbour(
    cells: &mut Vec<Vec<Cell>>,
    width: usize,
    height: usize,
    x: usize,
    y: usize,
    born: bool,
)
    requires
        x < width,
        y < height,
        rectangular(old(cells)@, width as int, height as int),
        forall|p: int, q: int|
            0 <= p < width && 0 <= q < height ==> {
                let met = touches(width as int, height as int, x as int, y as int, p, q, 8);
                let count = (#[trigger] old(cells)@[q][p]).live_neighbours_count;
                if born {
                    count + met <= u8::MAX
                } else {
                    count >= met
                }
            },
    ensures
        rectangular(final(cells)@, width as int, height as int),
        forall|p: int, q: int|
            0 <= p < width && 0 <= q < height ==> {
                let met = touches(width as int, height as int, x as int, y as int, p, q, 8);
                let before = old(cells)@[q][p];
                let after = #[trigger] final(cells)@[q][p];
                &&& after.alive == before.alive
                &&& after.live_neighbours_count == if born {
                    before.live_neighbours_count + met
                } else {
                    before.live_neighbours_count - met
                }
            },
    no_unwind
{
    let ghost w = width as int;
    let ghost h = height as int;
    let ghost before = cells@;
    let mut k: usize = 0;
    while k < 8
        invariant
            k <= 8,
            x < width,
            y < height,
            w == width,
            h == height,
            rectangular(before, w, h),
            rectangular(cells@, w, h),
            forall|p: int, q: int|
                0 <= p < w && 0 <= q < h ==> {
                    let met = touches(w, h, x as int, y as int, p, q, 8);
                    let count = (#[trigger] before[q][p]).live_neighbours_count;
                    if born {
                        count + met <= u8::MAX
                    } else {
                        count >= met
                    }
                },
            forall|p: int, q: int|
                0 <= p < w && 0 <= q < h ==> {
                    let met = touches(w, h, x as int, y as int, p, q, k as nat);
                    let after = #[trigger] cells@[q][p];
                    &&& after.alive == before[q][p].alive
                    &&& after.live_neighbours_count == if born {
                        before[q][p].live_neighbours_count + met
                    } else {
                        before[q][p].live_neighbours_count - met
                    }
                },
        decreases 8 - k,
    {
        let d = offset_at(k);
        let nx = add_offset(width - 1, x, d.0);
        let ny = add_offset(height - 1, y, d.1);
        proof {
            lemma_touches_monotonic(w, h, x as int, y as int, nx as int, ny as int, (k + 1) as nat, 8);
        }
        let count: u8 = cells[ny][nx].live_neighbours_count;
        if born {
            cells[ny][nx].live_neighbours_count = count + 1;
        } else {
            cells[ny][nx].live_neighbours_count = count - 1;
        }
        k = k + 1;
    }
}

/// Makes the dead cell `(x, y)` alive when `born`, or the live cell dead
/// otherwise, and brings the counts of its eight neighbours up to date.
fn set_cell(
    cells: &mut Vec<Vec<Cell>>,
    width: usize,
    height: usize,
    x: usize,
    y: usize,
    born: bool,
)
    requires
        x < width,
        y < height,
        rectangular(old(cells)@, width as int, height as int),
        counted(old(cells)@, width as int, height as int),
        old(cells)@[y as int][x as int].alive != born,
    ensures
        rectangular(final(cells)@, width as int, height as int),
        counted(final(cells)@, width as int, height as int),
        board_of(final(cells)@, width as int, height as int) == if born {
            board_of(old(cells)@, width as int, height as int).birth(x as int, y as int)
        } else {
            board_of(old(cells)@, width as int, height as int).kill(x as int, y as int)
        },
    no_unwind
{
    let ghost w = width as int;
    let ghost h = height as int;
    let ghost held = cells@;
    let ghost before = board_of(held, w, h);
    let ghost dead = before.kill(x as int, y as int);
    let ghost live = before.birth(x as int, y as int);
    cells[y][x].alive = born;
    proof {
        assert(dead.birth(x as int, y as int).live =~= live.live);
        assert(born ==> dead.live =~= before.live);
        assert(!born ==> live.live =~= before.live);
        assert forall|p: int, q: int| 0 <= p < w && 0 <= q < h implies {
            let met = touches(w, h, x as int, y as int, p, q, 8);
            let count = (#[trigger] cells@[q][p]).live_neighbours_count;
            if born {
                count + met <= u8::MAX
            } else {
                count >= met
            }
        } by {
            assert(cells@[q][p].live_neighbours_count == held[q][p].live_neighbours_count);
            lemma_live_among_bound(before, p, q, 8);
            lemma_touches_monotonic(w, h, x as int, y as int, p, q, 8, 8);
            lemma_touches_symmetric(w, h, x as int, y as int, p, q);
            lemma_birth_counts(dead, x as int, y as int, p, q, 8);
        }
    }
    let ghost flagged = cells@;
    for_each_neighbour(cells, width, height, x, y, born);
    proof {
        let after = board_of(cells@, w, h);
        assert(forall|p: int, q: int|
            0 <= p < w && 0 <= q < h ==> cells@[q][p].alive == (#[trigger] flagged[q][p]).alive);
        assert(after.live =~= if born {
            live.live
        } else {
            dead.live
        });
        assert forall|p: int, q: int| 0 <= p < w && 0 <= q < h implies (
        #[trigger] cells@[q][p]).live_neighbours_count == after.live_neighbours(p, q) by {
            assert(flagged[q][p].live_neighbours_count == held[q][p].live_neighbours_count);
            assert(held[q][p].live_neighbours_count == before.live_neighbours(p, q));
            lemma_touches_symmetric(w, h, x as int, y as int, p, q);
            lemma_birth_counts(dead, x as int, y as int, p, q, 8);
        }
    }
}

/// A grid of cells whose edges wrap around. Every cell caches the number of
/// its live neighbours, and every operation keeps the cache exact.
#[derive(Debug, PartialEq)]
pub struct World {
    cells: Vec<Vec<Cell>>,
    width: usize,
    height: usize,
}

impl View for World {
    type V = Board;

    closed spec fn view(&self) -> Board {
        board_of(self.cells@, self.width as int, self.height as int)
    }
}

/// The text that stands for a cell: its token and a space.
fn cell_token(cell: Cell) -> (token: &'static str)
    ensures
        token@ == seq![token_of(cell.alive, cell.live_neighbours_count as nat), ' '],
{
    proof {
        reveal_strlit("# ");
        reveal_strlit("0 ");
        reveal_strlit("1 ");
        reveal_strlit("2 ");
        reveal_strlit("3 ");
        reveal_strlit("4 ");
        reveal_strlit("5 ");
        reveal_strlit("6 ");
        reveal_strlit("7 ");
        reveal_strlit("8 ");
    }
    let token = if cell.alive {
        "# "
    } else if cell.live_neighbours_count == 0 {
        "0 "
    } else if cell.live_neighbours_count == 1 {
        "1 "
    } else if cell.live_neighbours_count == 2 {
        "2 "
    } else if cell.live_neighbours_count == 3 {
        "3 "
    } else if cell.live_neighbours_count == 4 {
        "4 "
    } else if cell.live_neighbours_count == 5 {
        "5 "
    } else if cell.live_neighbours_count == 6 {
        "6 "
    } else if cell.live_neighbours_count == 7 {
        "7 "
    } else {
        "8 "
    };
    assert(token@ =~= seq![token_of(cell.alive, cell.live_neighbours_count as nat), ' ']);
    token
}

/// A copy of `cells`, row by row.
fn copy_cells(cells: &Vec<Vec<Cell>>, width: usize, height: usize) -> (copy: Vec<Vec<Cell>>)
    requires
        rectangular(cells@, width as int, height as int),
    ensures
        rectangular(copy@, width as int, height as int),
        forall|x: int, y: int|
            0 <= x < width && 0 <= y < height ==> #[trigger] copy@[y][x] == cells@[y][x],
{
    let mut copy: Vec<Vec<Cell>> = Vec::new();
    let mut y: usize = 0;
    while y < height
        invariant
            y <= height,
            copy.len() == y,
            rectangular(cells@, width as int, height as int),
            forall|j: int| 0 <= j < y ==> (#[trigger] copy@[j]).len() == width,
            forall|i: int, j: int|
                0 <= i < width && 0 <= j < y ==> #[trigger] copy@[j][i] == cells@[j][i],
        decreases height - y,
    {
        let mut row: Vec<Cell> = Vec::new();
        let mut x: usize = 0;
        while x < width
            invariant
                x <= width,
                y < height,
                row.len() == x,
                rectangular(cells@, width as int, height as int),
                forall|i: int| 0 <= i < x ==> #[trigger] row@[i] == cells@[y as int][i],
            decreases width - x,
        {
            row.push(cells[y][x]);
            x = x + 1;
        }
        copy.push(row);
        y = y + 1;
    }
    copy
}

impl Clone for World {
    /// A grid of the same size with the same cells alive.
    fn clone(&self) -> (copy: World)
        ensures
            copy@ == self@,
    {
        proof {
            use_type_invariant(self);
        }
        let cells = copy_cells(&self.cells, self.width, self.height);
        proof {
            let w = self.width as int;
            let h = self.height as int;
            assert(board_of(cells@, w, h).live =~= board_of(self.cells@, w, h).live);
        }
        World { cells, width: self.width, height: self.height }
    }
}

impl World {
    #[verifier::type_invariant]
    spec fn inv(self) -> bool {
        &&& self.width >= 1
        &&& self.height >= 1
        &&& rectangular(self.cells@, self.width as int, self.height as int)
        &&& counted(self.cells@, self.width as int, self.height as int)
    }

    /// A grid of `width` columns and `height` rows with every cell dead.
    pub fn new(width: usize, height: usize) -> (r: Result<World, WorldError>)
        ensures
            width >= 1 && height >= 1 ==> r is Ok && r->Ok_0@ == Board::empty(
                width as nat,
                height as nat,
            ),
            width == 0 || height == 0 ==> r == Err::<World, WorldError>(
                WorldError::InvalidDimensions,
            ),
    {
        if width == 0 || height == 0 {
            return Err(WorldError::InvalidDimensions);
        }
        let mut cells: Vec<Vec<Cell>> = Vec::new();
        let mut y: usize = 0;
        while y < height
            invariant
                y <= height,
                cells.len() == y,
                forall|j: int| 0 <= j < y ==> (#[trigger] cells@[j]).len() == width,
                forall|i: int, j: int|
                    0 <= i < width && 0 <= j < y ==> #[trigger] cells@[j][i] == (Cell {
                        alive: false,
                        live_neighbours_count: 0,
                    }),
            decreases height - y,
        {
            let mut row: Vec<Cell> = Vec::new();
            let mut x: usize = 0;
            while x < width
                invariant
                    x <= width,
                    row.len() == x,
                    forall|i: int|
                        0 <= i < x ==> #[trigger] row@[i] == (Cell {
                            alive: false,
                            live_neighbours_count: 0,
                        }),
                decreases width - x,
            {
                row.push(Cell::new());
                x = x + 1;
            }
            cells.push(row);
            y = y + 1;
        }
        proof {
            let b = board_of(cells@, width as int, height as int);
            assert(b.live =~= Set::empty());
            assert forall|p: int, q: int| 0 <= p < width && 0 <= q < height implies (
            #[trigger] cells@[q][p]).live_neighbours_count == b.live_neighbours(p, q) by {
                reveal_with_fuel(Board::live_among, 9);
            }
        }
        Ok(World { cells, width, height })
    }

    /// The number of columns.
    pub fn width(&self) -> (w: usize)
        ensures
            w == self@.width,
            self@.wf(),
    {
        proof {
            use_type_invariant(self);
        }
        self.width
    }

    /// The number of rows.
    pub fn height(&self) -> (h: usize)
        ensures
            h == self@.height,
            self@.wf(),
    {
        proof {
            use_type_invariant(self);
        }
        self.height
    }

    /// The record of a cell of the grid.
    fn at(&self, x: usize, y: usize) -> (cell: Cell)
        requires
            self@.contains(x as int, y as int),
        ensures
            cell.alive == self@.alive(x as int, y as int),
            cell.live_neighbours_count == self@.live_neighbours(x as int, y as int),
            cell.live_neighbours_count <= 8,
    {
        proof {
            use_type_invariant(self);
            lemma_live_among_bound(self@, x as int, y as int, 8);
        }
        self.cells[y][x]
    }

    /// The record of the cell `(x, y)`: whether it is alive, and how many of
    /// its eight wrapped neighbours are.
    pub fn cell(&self, x: usize, y: usize) -> (r: Result<Cell, WorldError>)
        ensures
            self@.contains(x as int, y as int) ==> r == Ok::<Cell, WorldError>(
                Cell {
                    alive: self@.alive(x as int, y as int),
                    live_neighbours_count: self@.live_neighbours(x as int, y as int) as u8,
                },
            ) && self@.live_neighbours(x as int, y as int) <= 8,
            !self@.contains(x as int, y as int) ==> r == Err::<Cell, WorldError>(
                WorldError::OutOfBounds,
            ),
    {
        if x >= self.width || y >= self.height {
            return Err(WorldError::OutOfBounds);
        }
        Ok(self.at(x, y))
    }

    /// Whether the cell `(x, y)` is alive.
    pub fn is_alive(&self, x: usize, y: usize) -> (r: Result<bool, WorldError>)
        ensures
            self@.contains(x as int, y as int) ==> r == Ok::<bool, WorldError>(
                self@.alive(x as int, y as int),
            ),
            !self@.contains(x as int, y as int) ==> r == Err::<bool, WorldError>(
                WorldError::OutOfBounds,
            ),
    {
        match self.cell(x, y) {
            Ok(cell) => Ok(cell.alive),
            Err(e) => Err(e),
        }
    }

    /// The number of live cells among the eight wrapped neighbours of
    /// `(x, y)`, whatever was done to the grid before.
    pub fn live_neighbour_count(&self, x: usize, y: usize) -> (r: Result<u8, WorldError>)
        ensures
            self@.contains(x as int, y as int) ==> r is Ok && r->Ok_0 == self@.live_neighbours(
                x as int,
                y as int,
            ) && r->Ok_0 <= 8,
            !self@.contains(x as int, y as int) ==> r == Err::<u8, WorldError>(
                WorldError::OutOfBounds,
            ),
    {
        match self.cell(x, y) {
            Ok(cell) => Ok(cell.live_neighbours_count),
            Err(e) => Err(e),
        }
    }

    /// Makes the cell `(x, y)` alive. A cell that is alive already stays as
    /// it is; a coordinate outside the grid is refused and changes nothing.
    pub fn birth_cell(&mut self, x: usize, y: usize) -> (r: Result<(), WorldError>)
        ensures
            old(self)@.contains(x as int, y as int) ==> r is Ok && final(self)@ == old(self)@.birth(
                x as int,
                y as int,
            ),
            !old(self)@.contains(x as int, y as int) ==> r == Err::<(), WorldError>(
                WorldError::OutOfBounds,
            ) && final(self)@ == old(self)@,
    {
        proof {
            use_type_invariant(&*self);
        }
        if x >= self.width || y >= self.height {
            return Err(WorldError::OutOfBounds);
        }
        let ghost before = self@;
        if self.cells[y][x].alive {
            assert(before.birth(x as int, y as int).live =~= before.live);
            return Ok(());
        }
        set_cell(&mut self.cells, self.width, self.height, x, y, true);
        Ok(())
    }

    /// Makes the cell `(x, y)` dead. A cell that is dead already stays as it
    /// is; a coordinate outside the grid is refused and changes nothing.
    pub fn kill_cell(&mut self, x: usize, y: usize) -> (r: Result<(), WorldError>)
        ensures
            old(self)@.contains(x as int, y as int) ==> r is Ok && final(self)@ == old(self)@.kill(
                x as int,
                y as int,
            ),
            !old(self)@.contains(x as int, y as int) ==> r == Err::<(), WorldError>(
                WorldError::OutOfBounds,
            ) && final(self)@ == old(self)@,
    {
        proof {
            use_type_invariant(&*self);
        }
        if x >= self.width || y >= self.height {
            return Err(WorldError::OutOfBounds);
        }
        let ghost before = self@;
        if !self.cells[y][x].alive {
            assert(before.kill(x as int, y as int).live =~= before.live);
            return Ok(());
        }
        set_cell(&mut self.cells, self.width, self.height, x, y, false);
        Ok(())
    }

    /// Makes the cell `(x, y)` alive if it is dead and dead if it is alive.
    /// A coordinate outside the grid is refused and changes nothing.
    pub fn toggle_cell(&mut self, x: usize, y: usize) -> (r: Result<(), WorldError>)
        ensures
            old(self)@.contains(x as int, y as int) ==> r is Ok && final(self)@ == old(
                self,
            )@.toggle(x as int, y as int),
            !old(self)@.contains(x as int, y as int) ==> r == Err::<(), WorldError>(
                WorldError::OutOfBounds,
            ) && final(self)@ == old(self)@,
    {
        proof {
            use_type_invariant(&*self);
        }
        if x >= self.width || y >= self.height {
            return Err(WorldError::OutOfBounds);
        }
        let born = !self.cells[y][x].alive;
        set_cell(&mut self.cells, self.width, self.height, x, y, born);
        Ok(())
    }

    /// Advances the grid by one generation. Every cell is decided from the
    /// generation before the call: a live cell with two or three live
    /// neighbours lives on, a dead cell with exactly three comes alive, and
    /// every other cell is dead afterwards.
    pub fn simulate(&mut self)
        ensures
            final(self)@ == old(self)@.step(),
    {
        proof {
            use_type_invariant(&*self);
        }
        let width = self.width;
        let height = self.height;
        let snapshot = copy_cells(&self.cells, width, height);
        let ghost start = self@;
        let mut y: usize = 0;
        while y < height
            invariant
                y <= height,
                width == self.width,
                height == self.height,
                start.width == width,
                start.height == height,
                rectangular(snapshot@, width as int, height as int),
                forall|p: int, q: int|
                    0 <= p < width && 0 <= q < height ==> {
                        let cell = #[trigger] snapshot@[q][p];
                        &&& cell.alive == start.alive(p, q)
                        &&& cell.live_neighbours_count == start.live_neighbours(p, q)
                    },
                forall|p: int, q: int|
                    0 <= p < width && 0 <= q < height ==> #[trigger] self@.alive(p, q) == if q < y {
                        survives(start.alive(p, q), start.live_neighbours(p, q))
                    } else {
                        start.alive(p, q)
                    },
            decreases height - y,
        {
            let mut x: usize = 0;
            while x < width
                invariant
                    x <= width,
                    y < height,
                    width == self.width,
                    height == self.height,
                    start.width == width,
                    start.height == height,
                    rectangular(snapshot@, width as int, height as int),
                    forall|p: int, q: int|
                        0 <= p < width && 0 <= q < height ==> {
                            let cell = #[trigger] snapshot@[q][p];
                            &&& cell.alive == start.alive(p, q)
                            &&& cell.live_neighbours_count == start.live_neighbours(p, q)
                        },
                    forall|p: int, q: int|
                        0 <= p < width && 0 <= q < height ==> #[trigger] self@.alive(p, q) == if q
                            < y || (q == y && p < x) {
                            survives(start.alive(p, q), start.live_neighbours(p, q))
                        } else {
                            start.alive(p, q)
                        },
                decreases width - x,
            {
                proof {
                    use_type_invariant(&*self);
                    assert(self@.alive(x as int, y as int) == start.alive(x as int, y as int));
                }
                let cell = snapshot[y][x];
                let count: u8 = cell.live_neighbours_count;
                let ghost held = self@;
                if cell.alive && (count < 2 || count > 3) {
                    set_cell(&mut self.cells, width, height, x, y, false);
                } else if !cell.alive && count == 3 {
                    set_cell(&mut self.cells, width, height, x, y, true);
                }
                proof {
                    assert forall|p: int, q: int| 0 <= p < width && 0 <= q < height implies
                        #[trigger] self@.alive(p, q) == if q < y || (q == y && p < x + 1) {
                        survives(start.alive(p, q), start.live_neighbours(p, q))
                    } else {
                        start.alive(p, q)
                    } by {
                        assert(held.alive(p, q) == if q < y || (q == y && p < x) {
                            survives(start.alive(p, q), start.live_neighbours(p, q))
                        } else {
                            start.alive(p, q)
                        });
                    }
                }
                x = x + 1;
            }
            y = y + 1;
        }
        proof {
            assert(self@.live =~= start.step().live) by {
                assert forall|c: (int, int)| self@.live.contains(c) == start.step().live.contains(
                    c,
                ) by {
                    if 0 <= c.0 < width && 0 <= c.1 < height {
                        assert(self@.alive(c.0, c.1) == survives(
                            start.alive(c.0, c.1),
                            start.live_neighbours(c.0, c.1),
                        ));
                    }
                }
            }
        }
    }

    /// Lays a pattern over the grid, its first cell on `(0, 0)`: every cell
    /// that the text marks with `#` is made alive, and no cell is made dead.
    /// A pattern whose rows differ in length, or that has more rows or
    /// columns than the grid, is refused and changes nothing.
    pub fn seed_from_string(&mut self, seed: String) -> (r: Result<(), WorldError>)
        ensures
            fits(rows_of(seed@), old(self)@.width as int, old(self)@.height as int) ==> r is Ok
                && final(self)@ == old(self)@.overlay(live_of(rows_of(seed@))),
            !fits(rows_of(seed@), old(self)@.width as int, old(self)@.height as int) ==> r
                == Err::<(), WorldError>(WorldError::MalformedPattern) && final(self)@ == old(
                self,
            )@,
    {
        proof {
            use_type_invariant(&*self);
        }
        let rows = parse_pattern(seed.as_str());
        self.seed_from_rows(&rows)
    }

    /// Draws every cell at random and makes it alive with probability
    /// `numerator / denominator`, row by row; no cell is made dead. With a
    /// zero numerator nothing changes, and with a numerator equal to the
    /// denominator every cell is alive afterwards.
    pub fn seed_random(&mut self, rng: &mut StdRng, numerator: u32, denominator: u32)
        requires
            denominator > 0,
            numerator <= denominator,
        ensures
            final(self)@.width == old(self)@.width,
            final(self)@.height == old(self)@.height,
            final(self)@.wf(),
            old(self)@.live.subset_of(final(self)@.live),
            numerator == 0 ==> final(self)@ == old(self)@,
            numerator == denominator ==> forall|x: int, y: int|
                old(self)@.contains(x, y) ==> final(self)@.alive(x, y),
    {
        proof {
            use_type_invariant(&*self);
        }
        let ghost start = self@;
        let rows = random_rows(rng, self.width, self.height, numerator, denominator);
        proof {
            let flags = flags_of(rows@);
            assert forall|y: int| 0 <= y < flags.len() implies (#[trigger] flags[y]).len()
                == self.width by {
                assert(flags[y] == rows@[y]@);
            }
            assert(flags[0] == rows@[0]@);
            assert(fits(flags, self.width as int, self.height as int));
            if numerator == 0 {
                assert(live_of(flags) =~= Set::empty()) by {
                    assert forall|c: (int, int)| !live_of(flags).contains(c) by {
                        if 0 <= c.1 < flags.len() && 0 <= c.0 < flags[c.1].len() {
                            assert(flags[c.1] == rows@[c.1]@);
                        }
                    }
                }
                assert(start.overlay(live_of(flags)).live =~= start.live);
            }
            if numerator == denominator {
                assert forall|x: int, y: int| start.contains(x, y) implies live_of(
                    flags,
                ).contains((x, y)) by {
                    assert(flags[y] == rows@[y]@);
                }
            }
        }
        let seeded = self.seed_from_rows(&rows);
        proof {
            assert(seeded is Ok);
            use_type_invariant(&*self);
        }
    }

    /// Lays rows of flags over the grid, the first flag of the first row on
    /// `(0, 0)`: every cell whose flag is set is made alive, and no cell is
    /// made dead. Rows that differ in length, or more rows or columns than
    /// the grid has, are refused and change nothing.
    pub fn seed_from_rows(&mut self, rows: &Vec<Vec<bool>>) -> (r: Result<(), WorldError>)
        ensures
            fits(flags_of(rows@), old(self)@.width as int, old(self)@.height as int) ==> r is Ok
                && final(self)@ == old(self)@.overlay(live_of(flags_of(rows@))),
            !fits(flags_of(rows@), old(self)@.width as int, old(self)@.height as int) ==> r
                == Err::<(), WorldError>(WorldError::MalformedPattern) && final(self)@ == old(
                self,
            )@,
    {
        proof {
            use_type_invariant(&*self);
        }
        let width = self.width;
        let height = self.height;
        if !pattern_fits(rows, width, height) {
            return Err(WorldError::MalformedPattern);
        }
        let ghost start = self@;
        let ghost flags = flags_of(rows@);
        let mut y: usize = 0;
        while y < rows.len()
            invariant
                y <= rows.len(),
                width == self.width,
                height == self.height,
                start.width == width,
                start.height == height,
                start.wf(),
                flags == flags_of(rows@),
                fits(flags, width as int, height as int),
                forall|p: int, q: int|
                    0 <= p < width && 0 <= q < height ==> #[trigger] self@.alive(p, q) == (
                    start.alive(p, q) || (q < y && live_of(flags).contains((p, q)))),
            decreases rows.len() - y,
        {
            let mut x: usize = 0;
            assert(flags[y as int] == rows@[y as int]@);
            while x < rows[y].len()
                invariant
                    y < rows.len(),
                    x <= rows@[y as int].len(),
                    width == self.width,
                    height == self.height,
                    start.width == width,
                    start.height == height,
                    start.wf(),
                    flags == flags_of(rows@),
                    flags[y as int] == rows@[y as int]@,
                    fits(flags, width as int, height as int),
                    forall|p: int, q: int|
                        0 <= p < width && 0 <= q < height ==> #[trigger] self@.alive(p, q) == (
                        start.alive(p, q) || ((q < y || (q == y && p < x)) && live_of(
                            flags,
                        ).contains((p, q)))),
                decreases rows@[y as int].len() - x,
            {
                proof {
                    use_type_invariant(&*self);
                }
                let ghost held = self@;
                if rows[y][x] && !self.cells[y][x].alive {
                    set_cell(&mut self.cells, width, height, x, y, true);
                }
                proof {
                    assert forall|p: int, q: int| 0 <= p < width && 0 <= q < height implies
                        #[trigger] self@.alive(p, q) == (start.alive(p, q) || ((q < y || (q == y
                        && p < x + 1)) && live_of(flags).contains((p, q)))) by {
                        assert(held.alive(p, q) == (start.alive(p, q) || ((q < y || (q == y && p
                            < x)) && live_of(flags).contains((p, q)))));
                    }
                }
                x = x + 1;
            }
            y = y + 1;
        }
        proof {
            use_type_invariant(&*self);
            assert(self@.live =~= start.overlay(live_of(flags)).live) by {
                assert forall|c: (int, int)| self@.live.contains(c) == start.overlay(
                    live_of(flags),
                ).live.contains(c) by {
                    if 0 <= c.0 < width && 0 <= c.1 < height {
                        assert(self@.alive(c.0, c.1) == (start.alive(c.0, c.1) || (c.1
                            < rows.len() && live_of(flags).contains((c.0, c.1)))));
                    }
                }
            }
        }
        Ok(())
    }

    /// The grid as text: an empty line, then each row on a line of its own,
    /// with `#` for a live cell and the number of its live neighbours for a
    /// dead one, and a space behind each cell.
    pub fn to_text(&self) -> (text: String)
        ensures
            text@ == text_of(self@),
    {
        proof {
            use_type_invariant(self);
        }
        let ghost board = self@;
        let mut text = String::new();
        text.append("\n");
        proof {
            reveal_strlit("\n");
            assert(text@ =~= rows_text(board, 0));
        }
        let mut y: usize = 0;
        while y < self.height
            invariant
                y <= self.height,
                board == self@,
                text@ == rows_text(board, y as nat),
            decreases self.height - y,
        {
            let ghost done = text@;
            let mut x: usize = 0;
            while x < self.width
                invariant
                    x <= self.width,
                    y < self.height,
                    board == self@,
                    text@ == done + row_text(board, y as int, x as nat),
                decreases self.width - x,
            {
                let token = cell_token(self.at(x, y));
                let ghost held = text@;
                text.append(token);
                proof {
                    assert(row_text(board, y as int, (x + 1) as nat) == row_text(
                        board,
                        y as int,
                        x as nat,
                    ) + token@);
                    assert(text@ == held + token@);
                    assert(held + token@ =~= done + (row_text(board, y as int, x as nat)
                        + token@));
                }
                x = x + 1;
            }
            text.append("\n");
            proof {
                reveal_strlit("\n");
                assert(text@ =~= rows_text(board, (y + 1) as nat));
            }
            y = y + 1;
        }
        text
    }
}

} // verus!
