//! A pixel buffer of one 32-bit colour per cell, row after row.

use vstd::prelude::*;

verus! {

/// A buffer of `width * height` pixels, the rows one after another.
#[derive(Debug)]
pub struct WindowBuffer {
    buffer: Vec<u32>,
    width: usize,
    height: usize,
}

impl View for WindowBuffer {
    type V = Seq<u32>;

    closed spec fn view(&self) -> Seq<u32> {
        self.buffer@
    }
}

/// Where the pixel `(x, y)` stands in a buffer of rows of `width` pixels.
pub open spec fn pixel_index(width: int, x: int, y: int) -> int {
    y * width + x
}

/// Two pixels inside a row of `width` pixels stand at the same place only
/// if they are the same pixel.
pub proof fn lemma_pixel_index_injective(width: int, x: int, y: int, p: int, q: int)
    requires
        0 <= x < width,
        0 <= p < width,
        pixel_index(width, x, y) == pixel_index(width, p, q),
    ensures
        x == p,
        y == q,
{
    assert(y == q) by (nonlinear_arith)
        requires
            0 <= x < width,
            0 <= p < width,
            y * width + x == q * width + p,
    ;
}

/// A pixel of a row inside the buffer stands inside the buffer.
pub proof fn lemma_pixel_index_bound(width: int, height: int, x: int, y: int)
    requires
        0 <= x < width,
        0 <= y < height,
    ensures
        0 <= pixel_index(width, x, y) < width * height,
{
    assert(0 <= y * width + x < width * height) by (nonlinear_arith)
        requires
            0 <= x < width,
            0 <= y < height,
    ;
}

impl WindowBuffer {
    #[verifier::type_invariant]
    spec fn inv(self) -> bool {
        self.buffer.len() == self.width * self.height
    }

    /// The number of pixels in a row.
    pub closed spec fn spec_width(&self) -> int {
        self.width as int
    }

    /// The number of rows.
    pub closed spec fn spec_height(&self) -> int {
        self.height as int
    }

    /// A buffer of `width * height` pixels, all of them 0.
    pub fn new(width: usize, height: usize) -> (r: WindowBuffer)
        requires
            width * height <= usize::MAX,
        ensures
            r.spec_width() == width,
            r.spec_height() == height,
            r@ == Seq::new((width * height) as nat, |i: int| 0u32),
    {
        let buffer = zeroes(width * height);
        WindowBuffer { buffer, width, height }
    }

    /// The number of pixels in a row.
    pub fn width(&self) -> (w: usize)
        ensures
            w == self.spec_width(),
    {
        self.width
    }

    /// The number of rows.
    pub fn height(&self) -> (h: usize)
        ensures
            h == self.spec_height(),
            self@.len() == self.spec_width() * self.spec_height(),
    {
        proof {
            use_type_invariant(self);
        }
        self.height
    }

    /// The pixels, row after row.
    pub fn buffer(&self) -> (pixels: &Vec<u32>)
        ensures
            pixels@ == self@,
            pixels@.len() == self.spec_width() * self.spec_height(),
    {
        proof {
            use_type_invariant(self);
        }
        &self.buffer
    }

    /// Gives the pixel `(x, y)` the colour `color`.
    pub fn set_pixel(&mut self, x: usize, y: usize, color: u32)
        requires
            pixel_index(old(self).spec_width(), x as int, y as int) < old(self).spec_width() * old(
                self,
            ).spec_height(),
        ensures
            final(self).spec_width() == old(self).spec_width(),
            final(self).spec_height() == old(self).spec_height(),
            final(self)@ == old(self)@.update(
                pixel_index(old(self).spec_width(), x as int, y as int),
                color,
            ),
    {
        proof {
            use_type_invariant(&*self);
            assert(0 <= y * self.width) by (nonlinear_arith)
                requires
                    0 <= y,
                    0 <= self.width,
            ;
        }
        let l: usize = y * self.width + x;
        put(&mut self.buffer, l, color);
    }

    /// Gives every pixel the colour 0.
    pub fn clear(&mut self)
        ensures
            final(self).spec_width() == old(self).spec_width(),
            final(self).spec_height() == old(self).spec_height(),
            final(self)@ == Seq::new(
                (old(self).spec_width() * old(self).spec_height()) as nat,
                |i: int| 0u32,
            ),
    {
        proof {
            use_type_invariant(&*self);
        }
        fill_zero(&mut self.buffer);
    }
}

/// A vector of `n` zeroes.
fn zeroes(n: usize) -> (v: Vec<u32>)
    ensures
        v@ == Seq::new(n as nat, |i: int| 0u32),
{
    let mut v: Vec<u32> = Vec::new();
    let mut i: usize = 0;
    while i < n
        invariant
            i <= n,
            v.len() == i,
            forall|j: int| 0 <= j < i ==> v@[j] == 0,
        decreases n - i,
    {
        v.push(0);
        i = i + 1;
    }
    assert(v@ =~= Seq::new(n as nat, |i: int| 0u32));
    v
}

/// Stores `value` at place `i` of `v`.
fn put(v: &mut Vec<u32>, i: usize, value: u32)
    requires
        i < old(v).len(),
    ensures
        final(v)@ == old(v)@.update(i as int, value),
    no_unwind
{
    v[i] = value;
}

/// Stores 0 at every place of `v`.
fn fill_zero(v: &mut Vec<u32>)
    ensures
        final(v)@ == Seq::new(old(v)@.len(), |i: int| 0u32),
    no_unwind
{
    let n = v.len();
    let mut i: usize = 0;
    while i < n
        invariant
            i <= n,
            v.len() == n,
            forall|j: int| 0 <= j < i ==> v@[j] == 0,
        decreases n - i,
    {
        v[i] = 0;
        i = i + 1;
    }
    assert(v@ =~= Seq::new(n as nat, |i: int| 0u32));
}

} // verus!
