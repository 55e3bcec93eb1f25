//! Painting a grid into a pixel buffer.

use vstd::prelude::*;
use rand::rngs::StdRng;
use crate::random::random_u32;
use crate::window_buffer::{
    WindowBuffer, lemma_pixel_index_bound, lemma_pixel_index_injective, pixel_index,
};
use crate::world::World;

verus! {

/// The colour of a live cell when colours are not drawn at random.
pub const ALIVE_COLOR: u32 = 0xff0000;

/// The colour of a cell that is marked for toggling.
pub const MARKED_COLOR: u32 = 0xffffff;

/// Whether `(x, y)` is among the first `n` marked cells.
pub open spec fn marked(cells: Seq<(usize, usize)>, n: int, x: int, y: int) -> bool {
    exists|i: int| 0 <= i < n && (#[trigger] cells[i]).0 == x && cells[i].1 == y
}

/// Paints `world` into `window_buffer`, one pixel for each cell: a marked
/// cell in the colour for marks, any other live cell in the colour for live
/// cells, or in a random colour when `random_color` is set, and every other
/// cell in the colour 0. Marks that name no cell of the world are passed over.
pub fn draw_world(
    world: &World,
    window_buffer: &mut WindowBuffer,
    cells_to_toggle: &Vec<(usize, usize)>,
    random_color: bool,
    rng: &mut StdRng,
)
    requires
        old(window_buffer).spec_width() == world@.width,
        old(window_buffer).spec_height() == world@.height,
    ensures
        final(window_buffer).spec_width() == old(window_buffer).spec_width(),
        final(window_buffer).spec_height() == old(window_buffer).spec_height(),
        final(window_buffer)@.len() == world@.width * world@.height,
        forall|x: int, y: int|
            world@.contains(x, y) ==> {
                let pixel = #[trigger] final(window_buffer)@[pixel_index(world@.width as int, x, y)];
                if marked(cells_to_toggle@, cells_to_toggle.len() as int, x, y) {
                    pixel == MARKED_COLOR
                } else if world@.alive(x, y) {
                    random_color || pixel == ALIVE_COLOR
                } else {
                    pixel == 0
                }
            },
{
    let width = world.width();
    let height = world.height();
    let ghost w = width as int;
    let ghost h = height as int;
    let ghost board = world@;
    window_buffer.clear();
    proof {
        assert forall|p: int, q: int| 0 <= p < w && 0 <= q < h implies #[trigger] window_buffer@[pixel_index(
            w,
            p,
            q,
        )] == 0 by {
            lemma_pixel_index_bound(w, h, p, q);
        }
    }
    let mut y: usize = 0;
    while y < height
        invariant
            y <= height,
            board == world@,
            board.width == width,
            board.height == height,
            w == width,
            h == height,
            window_buffer.spec_width() == w,
            window_buffer.spec_height() == h,
            window_buffer@.len() == w * h,
            forall|p: int, q: int|
                0 <= p < w && 0 <= q < h ==> {
                    let pixel = #[trigger] window_buffer@[pixel_index(w, p, q)];
                    if q < y && board.alive(p, q) {
                        random_color || pixel == ALIVE_COLOR
                    } else {
                        pixel == 0
                    }
                },
        decreases height - y,
    {
        let mut x: usize = 0;
        while x < width
            invariant
                x <= width,
                y < height,
                board == world@,
                board.width == width,
                board.height == height,
                w == width,
                h == height,
                window_buffer.spec_width() == w,
                window_buffer.spec_height() == h,
                window_buffer@.len() == w * h,
                forall|p: int, q: int|
                    0 <= p < w && 0 <= q < h ==> {
                        let pixel = #[trigger] window_buffer@[pixel_index(w, p, q)];
                        if (q < y || (q == y && p < x)) && board.alive(p, q) {
                            random_color || pixel == ALIVE_COLOR
                        } else {
                            pixel == 0
                        }
                    },
            decreases width - x,
        {
            let alive = match world.cell(x, y) {
                Ok(cell) => cell.alive,
                Err(_) => false,
            };
            if alive {
                let color = if random_color {
                    random_u32(rng)
                } else {
                    ALIVE_COLOR
                };
                let ghost held = window_buffer@;
                proof {
                    lemma_pixel_index_bound(w, h, x as int, y as int);
                }
                window_buffer.set_pixel(x, y, color);
                proof {
                    assert forall|p: int, q: int| 0 <= p < w && 0 <= q < h implies {
                        let pixel = #[trigger] window_buffer@[pixel_index(w, p, q)];
                        if (q < y || (q == y && p < x + 1)) && board.alive(p, q) {
                            random_color || pixel == ALIVE_COLOR
                        } else {
                            pixel == 0
                        }
                    } by {
                        lemma_pixel_index_bound(w, h, p, q);
                        if pixel_index(w, p, q) == pixel_index(w, x as int, y as int) {
                            lemma_pixel_index_injective(w, p, q, x as int, y as int);
                        } else {
                            assert(window_buffer@[pixel_index(w, p, q)] == held[pixel_index(
                                w,
                                p,
                                q,
                            )]);
                        }
                    }
                }
            }
            x = x + 1;
        }
        y = y + 1;
    }
    let ghost painted = window_buffer@;
    let mut i: usize = 0;
    while i < cells_to_toggle.len()
        invariant
            i <= cells_to_toggle.len(),
            board == world@,
            board.width == w,
            board.height == h,
            window_buffer.spec_width() == w,
            window_buffer.spec_height() == h,
            window_buffer@.len() == w * h,
            painted.len() == w * h,
            w == width,
            h == height,
            forall|p: int, q: int|
                0 <= p < w && 0 <= q < h ==> #[trigger] window_buffer@[pixel_index(w, p, q)] == if marked(
                    cells_to_toggle@,
                    i as int,
                    p,
                    q,
                ) {
                    MARKED_COLOR
                } else {
                    painted[pixel_index(w, p, q)]
                },
        decreases cells_to_toggle.len() - i,
    {
        let x = cells_to_toggle[i].0;
        let y = cells_to_toggle[i].1;
        let ghost held = window_buffer@;
        if x < width && y < height {
            proof {
                lemma_pixel_index_bound(w, h, x as int, y as int);
            }
            window_buffer.set_pixel(x, y, MARKED_COLOR);
        }
        proof {
            assert forall|p: int, q: int| 0 <= p < w && 0 <= q < h implies
                #[trigger] window_buffer@[pixel_index(w, p, q)] == if marked(
                cells_to_toggle@,
                i + 1,
                p,
                q,
            ) {
                MARKED_COLOR
            } else {
                painted[pixel_index(w, p, q)]
            } by {
                lemma_pixel_index_bound(w, h, p, q);
                if p == x && q == y {
                    assert(cells_to_toggle@[i as int].0 == p && cells_to_toggle@[i as int].1 == q);
                } else {
                    if x < width && y < height {
                        lemma_pixel_index_bound(w, h, x as int, y as int);
                        if pixel_index(w, p, q) == pixel_index(w, x as int, y as int) {
                            lemma_pixel_index_injective(w, p, q, x as int, y as int);
                        }
                    }
                    assert(window_buffer@[pixel_index(w, p, q)] == held[pixel_index(w, p, q)]);
                    if marked(cells_to_toggle@, i + 1, p, q) {
                        let j = choose|j: int|
                            0 <= j < i + 1 && (#[trigger] cells_to_toggle@[j]).0 == p
                                && cells_to_toggle@[j].1 == q;
                        assert(j != i);
                        assert(marked(cells_to_toggle@, i as int, p, q));
                    }
                }
            }
        }
        i = i + 1;
    }
}

} // verus!
