//! The mathematical model of a Life grid and the laws that hold of it.

use vstd::prelude::*;

verus! {

/// Coordinate `n + d` on an axis of `size` positions whose two ends are
/// joined, for a step `d` of at most one position either way.
pub open spec fn shift(n: int, d: int, size: int) -> int {
    if n + d < 0 {
        size - 1
    } else if n + d >= size {
        0
    } else {
        n + d
    }
}

/// The eight offsets of the Moore neighbourhood, in the fixed order in which
/// neighbours are visited: `k` counts from 0, and past the seventh offset
/// stands the last one.
pub open spec fn offset(k: int) -> (int, int) {
    if k == 0 {
        (-1, -1)
    } else if k == 1 {
        (-1, 0)
    } else if k == 2 {
        (-1, 1)
    } else if k == 3 {
        (0, -1)
    } else if k == 4 {
        (0, 1)
    } else if k == 5 {
        (1, -1)
    } else if k == 6 {
        (1, 0)
    } else {
        (1, 1)
    }
}

/// The `k`-th neighbour of `(x, y)` on a grid of the given size, wrapped on
/// both axes.
pub open spec fn neighbour(width: int, height: int, x: int, y: int, k: int) -> (int, int) {
    (shift(x, offset(k).0, width), shift(y, offset(k).1, height))
}

/// How many of the first `n` neighbours of `(x, y)` are the cell `(p, q)`.
pub open spec fn touches(width: int, height: int, x: int, y: int, p: int, q: int, n: nat) -> nat
    decreases n,
{
    if n == 0 {
        0
    } else {
        let rest = touches(width, height, x, y, p, q, (n - 1) as nat);
        if neighbour(width, height, x, y, n - 1) == (p, q) {
            rest + 1
        } else {
            rest
        }
    }
}

/// Whether a cell with the given state and number of live neighbours is
/// alive in the next generation.
pub open spec fn survives(alive: bool, neighbours: nat) -> bool {
    if alive {
        neighbours == 2 || neighbours == 3
    } else {
        neighbours == 3
    }
}

/// A grid of dead and live cells whose edges wrap around.
pub struct Board {
    pub width: nat,
    pub height: nat,
    pub live: Set<(int, int)>,
}

impl Board {
    /// Whether `(x, y)` names a cell of the board.
    pub open spec fn contains(self, x: int, y: int) -> bool {
        0 <= x < self.width && 0 <= y < self.height
    }

    /// A board has at least one cell, and only cells of the board are live.
    pub open spec fn wf(self) -> bool {
        &&& self.width >= 1
        &&& self.height >= 1
        &&& forall|x: int, y: int| #[trigger] self.live.contains((x, y)) ==> self.contains(x, y)
    }

    /// The board of the given size on which every cell is dead.
    pub open spec fn empty(width: nat, height: nat) -> Board {
        Board { width, height, live: Set::empty() }
    }

    /// Whether the cell `(x, y)` is alive.
    pub open spec fn alive(self, x: int, y: int) -> bool {
        self.live.contains((x, y))
    }

    /// The `k`-th neighbour of `(x, y)`.
    pub open spec fn neighbour(self, x: int, y: int, k: int) -> (int, int) {
        neighbour(self.width as int, self.height as int, x, y, k)
    }

    /// How many of the first `n` neighbours of `(x, y)` are alive. Positions
    /// that coincide on a narrow board are counted once for each offset.
    pub open spec fn live_among(self, x: int, y: int, n: nat) -> nat
        decreases n,
    {
        if n == 0 {
            0
        } else {
            let rest = self.live_among(x, y, (n - 1) as nat);
            if self.live.contains(self.neighbour(x, y, n - 1)) {
                rest + 1
            } else {
                rest
            }
        }
    }

    /// The number of live cells among the eight wrapped neighbours of `(x, y)`.
    pub open spec fn live_neighbours(self, x: int, y: int) -> nat {
        self.live_among(x, y, 8)
    }

    /// 1 if the position `(x, y)`, taken modulo the size of the board, is a
    /// live cell, and 0 if it is a dead one.
    pub open spec fn live_at_modulo(self, x: int, y: int) -> nat {
        if self.alive(x % (self.width as int), y % (self.height as int)) {
            1
        } else {
            0
        }
    }

    /// 1 if the cell `(x, y)` is alive, and 0 if it is not.
    pub open spec fn one(self, x: int, y: int) -> nat {
        if self.alive(x, y) {
            1
        } else {
            0
        }
    }

    /// The board with `(x, y)` alive.
    pub open spec fn birth(self, x: int, y: int) -> Board {
        Board { live: self.live.insert((x, y)), ..self }
    }

    /// The board with `(x, y)` dead.
    pub open spec fn kill(self, x: int, y: int) -> Board {
        Board { live: self.live.remove((x, y)), ..self }
    }

    /// The board with the state of `(x, y)` flipped.
    pub open spec fn toggle(self, x: int, y: int) -> Board {
        if self.alive(x, y) {
            self.kill(x, y)
        } else {
            self.birth(x, y)
        }
    }

    /// The board with the given cells alive besides those that are already.
    pub open spec fn overlay(self, cells: Set<(int, int)>) -> Board {
        Board { live: self.live.union(cells), ..self }
    }

    /// The board with the state of every given cell of the board flipped.
    pub open spec fn toggle_all(self, cells: Set<(int, int)>) -> Board {
        Board {
            live: Set::new(
                |c: (int, int)|
                    if self.contains(c.0, c.1) && cells.contains(c) {
                        !self.live.contains(c)
                    } else {
                        self.live.contains(c)
                    },
            ),
            ..self
        }
    }

    /// The next generation: every cell decided at once from this board.
    pub open spec fn step(self) -> Board {
        Board {
            live: Set::new(
                |c: (int, int)|
                    self.contains(c.0, c.1) && survives(
                        self.alive(c.0, c.1),
                        self.live_neighbours(c.0, c.1),
                    ),
            ),
            ..self
        }
    }
}

/// A cell is among the neighbours of another exactly as often as the other
/// is among its own.
pub proof fn lemma_touches_symmetric(width: int, height: int, x: int, y: int, p: int, q: int)
    requires
        0 <= x < width,
        0 <= y < height,
        0 <= p < width,
        0 <= q < height,
    ensures
        touches(width, height, x, y, p, q, 8) == touches(width, height, p, q, x, y, 8),
{
    assert((shift(x, -1, width) == p) == (shift(p, 1, width) == x));
    assert((shift(x, 1, width) == p) == (shift(p, -1, width) == x));
    assert((shift(y, -1, height) == q) == (shift(q, 1, height) == y));
    assert((shift(y, 1, height) == q) == (shift(q, -1, height) == y));
    assert forall|k: int| 0 <= k < 8 implies (neighbour(width, height, x, y, k) == (p, q)) == (
    #[trigger] neighbour(width, height, p, q, 7 - k) == (x, y)) by {}
    reveal_with_fuel(touches, 9);
}

/// Looking at more neighbours never lowers the number of times a cell is met,
/// which is at most the number of neighbours looked at.
pub proof fn lemma_touches_monotonic(
    width: int,
    height: int,
    x: int,
    y: int,
    p: int,
    q: int,
    m: nat,
    n: nat,
)
    requires
        m <= n,
    ensures
        touches(width, height, x, y, p, q, m) <= touches(width, height, x, y, p, q, n) <= n,
    decreases n,
{
    if n > 0 {
        if m < n {
            lemma_touches_monotonic(width, height, x, y, p, q, m, (n - 1) as nat);
        } else {
            lemma_touches_monotonic(width, height, x, y, p, q, (m - 1) as nat, (n - 1) as nat);
        }
    }
}

/// The neighbour count never exceeds the number of neighbours looked at.
pub proof fn lemma_live_among_bound(b: Board, x: int, y: int, n: nat)
    ensures
        b.live_among(x, y, n) <= n,
    decreases n,
{
    if n > 0 {
        lemma_live_among_bound(b, x, y, (n - 1) as nat);
    }
}

/// Bringing a dead cell to life raises the count of every cell by the number
/// of times the new cell is its neighbour.
pub proof fn lemma_birth_counts(b: Board, x: int, y: int, p: int, q: int, n: nat)
    requires
        !b.alive(x, y),
    ensures
        b.birth(x, y).live_among(p, q, n) == b.live_among(p, q, n) + touches(
            b.width as int,
            b.height as int,
            p,
            q,
            x,
            y,
            n,
        ),
    decreases n,
{
    if n > 0 {
        lemma_birth_counts(b, x, y, p, q, (n - 1) as nat);
    }
}

/// Wrapping a step of at most one position is arithmetic modulo the size of
/// the axis.
pub proof fn lemma_shift_is_modular(n: int, d: int, size: int)
    requires
        0 <= n < size,
        -1 <= d <= 1,
    ensures
        shift(n, d, size) == (n + d) % size,
{
    if n + d < 0 {
        assert((n + d) % size == size - 1) by (nonlinear_arith)
            requires
                n + d == -1,
                size >= 1,
        ;
    } else if n + d >= size {
        assert((n + d) % size == 0) by (nonlinear_arith)
            requires
                n + d == size,
                size >= 1,
        ;
    } else {
        assert((n + d) % size == n + d) by (nonlinear_arith)
            requires
                0 <= n + d < size,
        ;
    }
}

/// The number of live neighbours is the number of live cells among the
/// eight positions around `(x, y)`, each taken modulo the size of the board
/// and counted for itself, whether or not it coincides with another.
pub proof fn lemma_live_neighbours_is_modular(b: Board, x: int, y: int)
    requires
        b.wf(),
        b.contains(x, y),
    ensures
        b.live_neighbours(x, y) == b.live_at_modulo(x - 1, y - 1) + b.live_at_modulo(x - 1, y)
            + b.live_at_modulo(x - 1, y + 1) + b.live_at_modulo(x, y - 1) + b.live_at_modulo(
            x,
            y + 1,
        ) + b.live_at_modulo(x + 1, y - 1) + b.live_at_modulo(x + 1, y) + b.live_at_modulo(
            x + 1,
            y + 1,
        ),
{
    reveal_with_fuel(Board::live_among, 9);
    lemma_shift_is_modular(x, -1, b.width as int);
    lemma_shift_is_modular(x, 0, b.width as int);
    lemma_shift_is_modular(x, 1, b.width as int);
    lemma_shift_is_modular(y, -1, b.height as int);
    lemma_shift_is_modular(y, 0, b.height as int);
    lemma_shift_is_modular(y, 1, b.height as int);
}

/// Every neighbour of a cell of the board is a cell of the board, and no
/// cell has more than eight live neighbours.
pub proof fn lemma_neighbours_on_board(b: Board, x: int, y: int, k: int)
    requires
        b.wf(),
        b.contains(x, y),
    ensures
        b.contains(b.neighbour(x, y, k).0, b.neighbour(x, y, k).1),
        b.live_neighbours(x, y) <= 8,
{
    lemma_live_among_bound(b, x, y, 8);
}

/// Births, deaths and generations keep a board well formed.
pub proof fn lemma_operations_keep_wf(b: Board, x: int, y: int)
    requires
        b.wf(),
    ensures
        b.contains(x, y) ==> b.birth(x, y).wf(),
        b.kill(x, y).wf(),
        b.contains(x, y) ==> b.toggle(x, y).wf(),
        b.step().wf(),
{
}

/// A birth followed by the death of the same cell, dead before, gives back
/// the board as it was: the same cells alive, and so the same count of live
/// neighbours for every cell.
pub proof fn lemma_birth_then_kill_restores(b: Board, x: int, y: int)
    requires
        !b.alive(x, y),
    ensures
        b.birth(x, y).kill(x, y) == b,
        forall|p: int, q: int|
            b.birth(x, y).kill(x, y).alive(p, q) == b.alive(p, q) && b.birth(x, y).kill(
                x,
                y,
            ).live_neighbours(p, q) == b.live_neighbours(p, q),
{
    assert(b.birth(x, y).kill(x, y).live =~= b.live);
}

/// Toggling a cell twice gives back the board as it was: the state of the
/// cell and the count of live neighbours of every cell.
pub proof fn lemma_toggle_twice_restores(b: Board, x: int, y: int)
    ensures
        b.toggle(x, y).toggle(x, y) == b,
        forall|p: int, q: int|
            b.toggle(x, y).toggle(x, y).alive(p, q) == b.alive(p, q) && b.toggle(x, y).toggle(
                x,
                y,
            ).live_neighbours(p, q) == b.live_neighbours(p, q),
{
    assert(b.toggle(x, y).toggle(x, y).live =~= b.live);
}

/// The birth of a live cell and the death of a dead one change nothing, so
/// a second birth of the same cell changes nothing either.
pub proof fn lemma_birth_is_idempotent(b: Board, x: int, y: int)
    ensures
        b.birth(x, y).birth(x, y) == b.birth(x, y),
        b.alive(x, y) ==> b.birth(x, y) == b,
        !b.alive(x, y) ==> b.kill(x, y) == b,
{
    assert(b.birth(x, y).birth(x, y).live =~= b.birth(x, y).live);
    if b.alive(x, y) {
        assert(b.birth(x, y).live =~= b.live);
    } else {
        assert(b.kill(x, y).live =~= b.live);
    }
}

/// The four cells of the square block whose top left corner is `(x, y)`.
pub open spec fn block(x: int, y: int) -> Set<(int, int)> {
    Set::new(|c: (int, int)| (c.0 == x || c.0 == x + 1) && (c.1 == y || c.1 == y + 1))
}

/// A square block of four live cells, alone on the board and at least one
/// cell away from every edge, is the same in the next generation.
pub proof fn lemma_block_is_still(b: Board, x: int, y: int)
    requires
        1 <= x,
        x + 2 < b.width,
        1 <= y,
        y + 2 < b.height,
        b.live == block(x, y),
    ensures
        b.step() == b,
{
    assert forall|c: (int, int)| b.step().live.contains(c) == b.live.contains(c) by {
        reveal_with_fuel(Board::live_among, 9);
    }
    assert(b.step().live =~= b.live);
}

/// The five cells of a glider whose frame has its top left corner on
/// `(x, y)`, one, two or three generations after the shape
///
/// ```text
/// - - #
/// # - #
/// - # #
/// ```
///
/// or in that shape for any other `age`.
pub open spec fn glider(x: int, y: int, age: int) -> Set<(int, int)> {
    if age == 1 {
        Set::new(
            |c: (int, int)|
                c == (x + 1, y) || c == (x + 2, y + 1) || c == (x + 3, y + 1) || c == (x + 1, y + 2)
                    || c == (x + 2, y + 2),
        )
    } else if age == 2 {
        Set::new(
            |c: (int, int)|
                c == (x + 2, y) || c == (x + 3, y + 1) || c == (x + 1, y + 2) || c == (x + 2, y + 2)
                    || c == (x + 3, y + 2),
        )
    } else if age == 3 {
        Set::new(
            |c: (int, int)|
                c == (x + 1, y + 1) || c == (x + 3, y + 1) || c == (x + 2, y + 2) || c == (
                    x + 3,
                    y + 2,
                ) || c == (x + 2, y + 3),
        )
    } else {
        Set::new(
            |c: (int, int)|
                c == (x + 2, y) || c == (x, y + 1) || c == (x + 2, y + 1) || c == (x + 1, y + 2)
                    || c == (x + 2, y + 2),
        )
    }
}

/// The count of live neighbours, written out: the cells to the left and to
/// the right, above and below, and on the four diagonals, each wrapped.
pub proof fn lemma_live_neighbours_unrolled(b: Board, x: int, y: int)
    ensures
        b.live_neighbours(x, y) == ({
            let l = shift(x, -1, b.width as int);
            let r = shift(x, 1, b.width as int);
            let u = shift(y, -1, b.height as int);
            let d = shift(y, 1, b.height as int);
            let m = shift(x, 0, b.width as int);
            let n = shift(y, 0, b.height as int);
            b.one(l, u) + b.one(l, n) + b.one(l, d) + b.one(m, u) + b.one(m, d) + b.one(r, u)
                + b.one(r, n) + b.one(r, d)
        }),
{
    reveal_with_fuel(Board::live_among, 9);
}

/// The next state of one cell of a board that holds a glider of the given
/// age at its origin and nothing else.
proof fn lemma_glider_cell(b: Board, age: int, p: int, q: int)
    requires
        b.width >= 5,
        b.height >= 5,
        0 <= age <= 3,
        b.live == glider(0, 0, age),
    ensures
        b.step().live.contains((p, q)) == (if age == 3 {
            glider(1, 1, 0)
        } else {
            glider(0, 0, age + 1)
        }).contains((p, q)),
{
    if b.contains(p, q) {
        lemma_live_neighbours_unrolled(b, p, q);
        let l = shift(p, -1, b.width as int);
        let r = shift(p, 1, b.width as int);
        let u = shift(q, -1, b.height as int);
        let d = shift(q, 1, b.height as int);
        assert(0 <= l < b.width && 0 <= r < b.width && 0 <= u < b.height && 0 <= d < b.height);
        assert(l <= 3 ==> p == l + 1);
        assert(r <= 3 ==> (r == p + 1 || (r == 0 && p == b.width - 1)));
        assert(u <= 3 ==> q == u + 1);
        assert(d <= 3 ==> (d == q + 1 || (d == 0 && q == b.height - 1)));
    }
}

/// A glider at the origin of a board of at least five columns and five
/// rows, alone on the board, is one generation older in the next generation,
/// and after its third generation it is a new glider one cell further down
/// and to the right.
pub proof fn lemma_glider_ages(b: Board, age: int)
    requires
        b.width >= 5,
        b.height >= 5,
        0 <= age <= 3,
        b.live == glider(0, 0, age),
    ensures
        b.step().live == if age == 3 {
            glider(1, 1, 0)
        } else {
            glider(0, 0, age + 1)
        },
{
    let next = if age == 3 {
        glider(1, 1, 0)
    } else {
        glider(0, 0, age + 1)
    };
    assert forall|c: (int, int)| b.step().live.contains(c) == next.contains(c) by {
        lemma_glider_cell(b, age, c.0, c.1);
    }
    assert(b.step().live =~= next);
}

/// Four generations move a glider by one cell diagonally: on a board of at
/// least five columns and five rows that holds the glider at its origin and
/// nothing else, the fourth generation holds the same shape one cell further
/// down and to the right, and nothing else.
pub proof fn lemma_glider_translates(b: Board)
    requires
        b.width >= 5,
        b.height >= 5,
        b.live == glider(0, 0, 0),
    ensures
        b.step().step().step().step().live == glider(1, 1, 0),
{
    lemma_glider_ages(b, 0);
    lemma_glider_ages(b.step(), 1);
    lemma_glider_ages(b.step().step(), 2);
    lemma_glider_ages(b.step().step().step(), 3);
}

} // verus!
