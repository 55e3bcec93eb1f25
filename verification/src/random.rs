//! The random source behind random seeding and random colours.

use vstd::prelude::*;
use rand::rngs::StdRng;
use rand::Rng;

verus! {

/// `StdRng` of `rand`, the generator that the caller seeds and hands in. It
/// is carried through to the calls below and never looked into.
#[verifier::external_type_specification]
#[verifier::external_body]
pub struct ExStdRng(StdRng);

/// `Rng::gen_ratio` of `rand` on a `StdRng`: a random flag that is set with
/// probability `numerator / denominator`. Nothing is proved of it. What is
/// taken on trust is what the documentation of `gen_ratio` guarantees: the
/// flag is never set when `numerator` is zero and always set when
/// `numerator` equals `denominator`. The call panics on a zero denominator
/// and on a numerator above the denominator, which the precondition rules out.
#[verifier::external_body]
pub(crate) fn random_ratio(rng: &mut StdRng, numerator: u32, denominator: u32) -> (flag: bool)
    requires
        denominator > 0,
        numerator <= denominator,
    ensures
        numerator == 0 ==> !flag,
        numerator == denominator ==> flag,
{
    rng.gen_ratio(numerator, denominator)
}

/// `Rng::gen::<u32>` of `rand` on a `StdRng`: a random 32-bit value, of
/// which nothing is claimed.
#[verifier::external_body]
pub(crate) fn random_u32(rng: &mut StdRng) -> u32 {
    rng.gen::<u32>()
}

/// Whether all flags of all rows are `value`.
pub open spec fn all_flags(rows: Seq<Vec<bool>>, value: bool) -> bool {
    forall|x: int, y: int| 0 <= y < rows.len() && 0 <= x < rows[y].len() ==> rows[y][x] == value
}

/// Draws one flag for every cell of a grid of the given size, row by row,
/// each set with probability `numerator / denominator`.
pub fn random_rows(
    rng: &mut StdRng,
    width: usize,
    height: usize,
    numerator: u32,
    denominator: u32,
) -> (rows: Vec<Vec<bool>>)
    requires
        denominator > 0,
        numerator <= denominator,
    ensures
        rows.len() == height,
        forall|y: int| 0 <= y < height ==> (#[trigger] rows@[y]).len() == width,
        numerator == 0 ==> all_flags(rows@, false),
        numerator == denominator ==> all_flags(rows@, true),
{
    let mut rows: Vec<Vec<bool>> = Vec::new();
    let mut y: usize = 0;
    while y < height
        invariant
            y <= height,
            denominator > 0,
            numerator <= denominator,
            rows.len() == y,
            forall|j: int| 0 <= j < y ==> (#[trigger] rows@[j]).len() == width,
            numerator == 0 ==> all_flags(rows@, false),
            numerator == denominator ==> all_flags(rows@, true),
        decreases height - y,
    {
        let mut row: Vec<bool> = Vec::new();
        let mut x: usize = 0;
        while x < width
            invariant
                x <= width,
                denominator > 0,
                numerator <= denominator,
                row.len() == x,
                numerator == 0 ==> forall|i: int| 0 <= i < x ==> !row@[i],
                numerator == denominator ==> forall|i: int| 0 <= i < x ==> row@[i],
            decreases width - x,
        {
            let flag = random_ratio(rng, numerator, denominator);
            row.push(flag);
            x = x + 1;
        }
        rows.push(row);
        y = y + 1;
    }
    rows
}

} // verus!
