//! Cells marked with the mouse: while the button is held the cells under
//! the pointer are collected, and on release each of them is toggled once.

use vstd::prelude::*;
use crate::world::World;

verus! {

/// The coordinates in `cells`, as a set.
pub open spec fn marked_set(cells: Seq<(usize, usize)>) -> Set<(int, int)> {
    Set::new(
        |c: (int, int)|
            exists|i: int| 0 <= i < cells.len() && (#[trigger] cells[i]).0 == c.0 && cells[i].1 == c.1,
    )
}

/// The marked cells, in the order in which they were marked and each only
/// once, and whether the button is held.
#[derive(Debug)]
pub struct Marks {
    cells: Vec<(usize, usize)>,
    pressed: bool,
}

impl View for Marks {
    type V = Seq<(usize, usize)>;

    closed spec fn view(&self) -> Seq<(usize, usize)> {
        self.cells@
    }
}

impl Marks {
    #[verifier::type_invariant]
    spec fn inv(self) -> bool {
        self.cells@.no_duplicates()
    }

    /// Whether the button is held.
    pub closed spec fn pressed(&self) -> bool {
        self.pressed
    }

    /// No cell marked, the button not held.
    pub fn new() -> (marks: Marks)
        ensures
            marks@ == Seq::<(usize, usize)>::empty(),
            !marks.pressed(),
    {
        Marks { cells: Vec::new(), pressed: false }
    }

    /// The marked cells, none of them twice.
    pub fn cells(&self) -> (cells: &Vec<(usize, usize)>)
        ensures
            cells@ == self@,
            cells@.no_duplicates(),
    {
        proof {
            use_type_invariant(self);
        }
        &self.cells
    }

    /// Whether the button is held.
    pub fn is_pressed(&self) -> (pressed: bool)
        ensures
            pressed == self.pressed(),
    {
        self.pressed
    }

    /// Takes in the state of the mouse with the pointer on `(x, y)`. While
    /// the button is down the cell is marked, if it is not yet. When the
    /// button comes up, every marked cell of `world` is toggled and no cell
    /// stays marked. Otherwise nothing changes.
    pub fn mouse(&mut self, world: &mut World, x: usize, y: usize, down: bool)
        ensures
            down ==> final(self).pressed() && final(world)@ == old(world)@ && final(self)@ == if old(
                self,
            )@.contains((x, y)) {
                old(self)@
            } else {
                old(self)@.push((x, y))
            },
            !down && old(self).pressed() ==> !final(self).pressed() && final(self)@ == Seq::<
                (usize, usize),
            >::empty() && final(world)@ == old(world)@.toggle_all(marked_set(old(self)@)),
            !down && !old(self).pressed() ==> *final(self) == *old(self) && final(world)@ == old(
                world,
            )@,
    {
        proof {
            use_type_invariant(&*self);
        }
        if down {
            let seen = holds(&self.cells, x, y);
            *self = Marks { cells: with_cell(&self.cells, x, y, seen), pressed: true };
        } else if self.pressed {
            let ghost start = world@;
            let ghost cells = self.cells@;
            let mut i: usize = 0;
            while i < self.cells.len()
                invariant
                    i <= self.cells.len(),
                    cells == self.cells@,
                    cells.no_duplicates(),
                    world@.width == start.width,
                    world@.height == start.height,
                    forall|c: (int, int)|
                        world@.live.contains(c) == if start.contains(c.0, c.1) && marked_set(
                            cells.take(i as int),
                        ).contains(c) {
                            !start.live.contains(c)
                        } else {
                            start.live.contains(c)
                        },
                decreases self.cells.len() - i,
            {
                let cx = self.cells[i].0;
                let cy = self.cells[i].1;
                let ghost held = world@;
                let toggled = world.toggle_cell(cx, cy);
                proof {
                    let before = cells.take(i as int);
                    let after = cells.take(i + 1);
                    assert(after[i as int] == cells[i as int]);
                    assert forall|c: (int, int)|
                        marked_set(after).contains(c) == (marked_set(before).contains(c) || c == (
                            cx as int,
                            cy as int,
                        )) by {
                        if marked_set(before).contains(c) {
                            let j = choose|j: int|
                                0 <= j < before.len() && (#[trigger] before[j]).0 == c.0
                                    && before[j].1 == c.1;
                            assert(after[j] == before[j]);
                        }
                        if marked_set(after).contains(c) {
                            let j = choose|j: int|
                                0 <= j < after.len() && (#[trigger] after[j]).0 == c.0
                                    && after[j].1 == c.1;
                            if j < i {
                                assert(before[j] == after[j]);
                            }
                        }
                    }
                    if marked_set(before).contains((cx as int, cy as int)) {
                        let j = choose|j: int|
                            0 <= j < before.len() && (#[trigger] before[j]).0 == cx
                                && before[j].1 == cy;
                        assert(before[j] == cells[j]);
                        assert(cells[j] == cells[i as int]);
                    }
                    assert forall|c: (int, int)|
                        world@.live.contains(c) == if start.contains(c.0, c.1) && marked_set(
                            after,
                        ).contains(c) {
                            !start.live.contains(c)
                        } else {
                            start.live.contains(c)
                        } by {
                        assert(held.live.contains(c) == if start.contains(c.0, c.1) && marked_set(
                            before,
                        ).contains(c) {
                            !start.live.contains(c)
                        } else {
                            start.live.contains(c)
                        });
                    }
                }
                i = i + 1;
            }
            proof {
                assert(cells.take(cells.len() as int) =~= cells);
                assert(world@.live =~= start.toggle_all(marked_set(cells)).live);
            }
            *self = Marks { cells: Vec::new(), pressed: false };
        }
    }
}

/// Whether `(x, y)` is among `cells`.
fn holds(cells: &Vec<(usize, usize)>, x: usize, y: usize) -> (seen: bool)
    ensures
        seen == cells@.contains((x, y)),
{
    let mut i: usize = 0;
    while i < cells.len()
        invariant
            i <= cells.len(),
            forall|j: int| 0 <= j < i ==> cells@[j] != (x, y),
        decreases cells.len() - i,
    {
        if cells[i].0 == x && cells[i].1 == y {
            return true;
        }
        i = i + 1;
    }
    false
}

/// A copy of `cells`, with `(x, y)` behind it unless it is `seen` among them.
fn with_cell(cells: &Vec<(usize, usize)>, x: usize, y: usize, seen: bool) -> (r: Vec<(usize, usize)>)
    requires
        seen == cells@.contains((x, y)),
        cells@.no_duplicates(),
    ensures
        r@ == if seen {
            cells@
        } else {
            cells@.push((x, y))
        },
        r@.no_duplicates(),
{
    let mut r: Vec<(usize, usize)> = Vec::new();
    let mut i: usize = 0;
    while i < cells.len()
        invariant
            i <= cells.len(),
            r@ == cells@.take(i as int),
        decreases cells.len() - i,
    {
        r.push(cells[i]);
        assert(cells@.take(i as int).push(cells@[i as int]) =~= cells@.take(i + 1));
        i = i + 1;
    }
    assert(cells@.take(cells.len() as int) =~= cells@);
    if !seen {
        r.push((x, y));
    }
    r
}

} // verus!
