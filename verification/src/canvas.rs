//! A canvas: a rectangular grid of pixels that can be read, written and walked
//! in reading order.

use vstd::arithmetic::div_mod::lemma_fundamental_div_mod_converse;
use vstd::arithmetic::mul::lemma_mul_inequality;
use vstd::prelude::*;

verus! {

/// The colour of a pixel as three channel levels, each counted in 255ths of
/// full intensity. A level may lie outside `0..=255`; it is brought into that
/// range when the pixel is written out as text.
#[derive(Clone, Copy, Debug, PartialEq, Eq, Structural)]
pub struct Rgb {
    pub red: i64,
    pub green: i64,
    pub blue: i64,
}

/// A rectangular grid of pixels, `width` across and `length` down.
///
/// The canvas only stores its pixels, so a pixel may be of any type that can
/// be copied. Pixel `(x, y)` is column `x` of row `y`.
#[derive(Debug)]
pub struct Canvas<P> {
    width: usize,
    length: usize,
    matrix: Vec<Vec<P>>,
}

/// One pixel of a canvas together with its place.
#[derive(Clone, Copy, Debug)]
pub struct Pixel<P> {
    pub x: usize,
    pub y: usize,
    pub color: P,
}

/// A walk over the pixels of a canvas in reading order: the top row first,
/// each row from left to right.
pub struct CanvasIter<'a, P> {
    canvas: &'a Canvas<P>,
    col: usize,
    row: usize,
}

impl<P> View for Canvas<P> {
    type V = Seq<Seq<P>>;

    /// The rows of the canvas from the top down, each from left to right.
    closed spec fn view(&self) -> Seq<Seq<P>> {
        Seq::new(
            self.length as nat,
            |y: int| Seq::new(self.width as nat, |x: int| self.matrix@[y]@[x]),
        )
    }
}

impl<P> Canvas<P> {
    #[verifier::type_invariant]
    spec fn well_formed(&self) -> bool {
        &&& self.matrix@.len() == self.length
        &&& forall|y: int|
            0 <= y < self.matrix@.len() ==> (#[trigger] self.matrix@[y])@.len() == self.width
    }

    /// The number of columns.
    pub closed spec fn spec_width(&self) -> nat {
        self.width as nat
    }

    /// The number of rows.
    pub closed spec fn spec_length(&self) -> nat {
        self.length as nat
    }

    /// Whether every pixel of the canvas is `color`.
    pub open spec fn is_filled_with(&self, color: P) -> bool {
        self@ == Seq::new(self.spec_length(), |y: int| Seq::new(self.spec_width(), |x: int| color))
    }

    /// The pixels in reading order, each with its place.
    pub open spec fn pixels(&self) -> Seq<Pixel<P>> {
        Seq::new(
            self.spec_width() * self.spec_length(),
            |k: int|
                Pixel {
                    x: (k % self.spec_width() as int) as usize,
                    y: (k / self.spec_width() as int) as usize,
                    color: self@[k / self.spec_width() as int][k % self.spec_width() as int],
                },
        )
    }

    /// The view has exactly `spec_length()` rows of `spec_width()` pixels,
    /// and both numbers are ones that the machine can count to.
    pub proof fn lemma_shape(&self)
        ensures
            self.spec_width() <= usize::MAX,
            self.spec_length() <= usize::MAX,
            self@.len() == self.spec_length(),
            forall|y: int| 0 <= y < self.spec_length() ==> (#[trigger] self@[y]).len() == self.spec_width(),
    {
    }
}

impl<P: Copy> Canvas<P> {
    /// A canvas of the given size with every pixel set to `color`.
    pub fn filled(width: usize, length: usize, color: P) -> (c: Self)
        ensures
            c.spec_width() == width,
            c.spec_length() == length,
            c.is_filled_with(color),
    {
        let mut matrix: Vec<Vec<P>> = Vec::new();
        let mut y: usize = 0;
        while y < length
            invariant
                y <= length,
                matrix@.len() == y,
                forall|j: int| 0 <= j < y ==> (#[trigger] matrix@[j])@.len() == width,
                forall|i: int, j: int| 0 <= i < width && 0 <= j < y ==> matrix@[j]@[i] == color,
            decreases length - y,
        {
            let mut row: Vec<P> = Vec::new();
            let mut x: usize = 0;
            while x < width
                invariant
                    x <= width,
                    row@.len() == x,
                    forall|i: int| 0 <= i < x ==> row@[i] == color,
                decreases width - x,
            {
                row.push(color);
                x += 1;
            }
            matrix.push(row);
            y += 1;
        }
        let c = Canvas { width, length, matrix };
        assert(c.is_filled_with(color)) by {
            let all = Seq::new(length as nat, |y: int| Seq::new(width as nat, |x: int| color));
            assert forall|y: int| 0 <= y < length implies c@[y] == all[y] by {
                assert(c@[y] =~= all[y]);
            }
            assert(c@ =~= all);
        }
        c
    }

    /// The number of columns.
    pub fn width(&self) -> (w: usize)
        ensures
            w == self.spec_width(),
    {
        self.width
    }

    /// The number of rows.
    pub fn length(&self) -> (l: usize)
        ensures
            l == self.spec_length(),
    {
        self.length
    }

    /// The pixel in column `x` of row `y`.
    pub fn pixel_at(&self, x: usize, y: usize) -> (color: P)
        requires
            x < self.spec_width(),
            y < self.spec_length(),
        ensures
            color == self@[y as int][x as int],
    {
        proof {
            use_type_invariant(self);
        }
        self.matrix[y][x]
    }

    /// Sets the pixel in column `x` of row `y` and leaves all others alone.
    pub fn write_pixel(&mut self, x: usize, y: usize, color: P)
        requires
            x < old(self).spec_width(),
            y < old(self).spec_length(),
        ensures
            final(self).spec_width() == old(self).spec_width(),
            final(self).spec_length() == old(self).spec_length(),
            final(self)@ == old(self)@.update(y as int, old(self)@[y as int].update(x as int, color)),
    {
        proof {
            use_type_invariant(&*self);
        }
        set_cell(&mut self.matrix, x, y, color);
        assert(self@[y as int] =~= old(self)@[y as int].update(x as int, color));
        assert forall|j: int| 0 <= j < self.length && j != y implies self@[j] == old(self)@[j] by {
            assert(self@[j] =~= old(self)@[j]);
        }
    }

    /// Sets every pixel to `color`.
    pub fn fill_with(&mut self, color: P)
        ensures
            final(self).spec_width() == old(self).spec_width(),
            final(self).spec_length() == old(self).spec_length(),
            final(self).is_filled_with(color),
    {
        let width = self.width;
        let length = self.length;
        let mut col: usize = 0;
        while col < width
            invariant
                col <= width,
                width == self.spec_width() == old(self).spec_width(),
                length == self.spec_length() == old(self).spec_length(),
                forall|x: int, y: int| 0 <= x < col && 0 <= y < length ==> self@[y][x] == color,
            decreases width - col,
        {
            let mut row: usize = 0;
            while row < length
                invariant
                    col < width,
                    row <= length,
                    width == self.spec_width() == old(self).spec_width(),
                    length == self.spec_length() == old(self).spec_length(),
                    forall|x: int, y: int| 0 <= x < col && 0 <= y < length ==> self@[y][x] == color,
                    forall|y: int| 0 <= y < row ==> self@[y][col as int] == color,
                decreases length - row,
            {
                proof {
                    self.lemma_shape();
                }
                self.write_pixel(col, row, color);
                row += 1;
            }
            col += 1;
        }
        proof {
            self.lemma_shape();
            let all = Seq::new(length as nat, |y: int| Seq::new(width as nat, |x: int| color));
            assert forall|y: int| 0 <= y < length implies self@[y] == all[y] by {
                assert(self@[y] =~= all[y]);
            }
            assert(self@ =~= all);
        }
    }

    /// A walk over the pixels that starts at the top left.
    pub fn iter(&self) -> (it: CanvasIter<'_, P>)
        ensures
            it.canvas() == self,
            it.index() == 0,
    {
        let it = CanvasIter { canvas: self, col: 0, row: 0 };
        assert(it.index() == 0) by (nonlinear_arith)
            requires
                it.index() == it.row * it.canvas.width + it.col,
                it.row == 0,
                it.col == 0,
        ;
        it
    }
}

impl<P: Copy> Clone for Canvas<P> {
    /// A second canvas of the same size with the same pixels.
    fn clone(&self) -> (c: Self)
        ensures
            c.spec_width() == self.spec_width(),
            c.spec_length() == self.spec_length(),
            c@ == self@,
    {
        proof {
            use_type_invariant(self);
        }
        let mut matrix: Vec<Vec<P>> = Vec::new();
        let mut y: usize = 0;
        while y < self.length
            invariant
                self.matrix@.len() == self.length,
                forall|j: int|
                    0 <= j < self.matrix@.len() ==> (#[trigger] self.matrix@[j])@.len() == self.width,
                y <= self.length,
                matrix@.len() == y,
                forall|j: int| 0 <= j < y ==> (#[trigger] matrix@[j])@ == self.matrix@[j]@,
            decreases self.length - y,
        {
            let mut row: Vec<P> = Vec::new();
            let mut x: usize = 0;
            while x < self.width
                invariant
                    y < self.matrix@.len(),
                    self.matrix@[y as int]@.len() == self.width,
                    x <= self.width,
                    row@.len() == x,
                    forall|i: int| 0 <= i < x ==> row@[i] == self.matrix@[y as int]@[i],
                decreases self.width - x,
            {
                row.push(self.matrix[y][x]);
                x += 1;
            }
            matrix.push(row);
            y += 1;
        }
        let c = Canvas { width: self.width, length: self.length, matrix };
        assert(c@ =~= self@) by {
            assert forall|j: int| 0 <= j < self.length implies c@[j] == self@[j] by {
                assert(c@[j] =~= self@[j]);
            }
        }
        c
    }
}

impl Canvas<Rgb> {
    /// A canvas of the given size, all black.
    pub fn new(width: usize, length: usize) -> (c: Self)
        ensures
            c.spec_width() == width,
            c.spec_length() == length,
            c.is_filled_with(Rgb { red: 0, green: 0, blue: 0 }),
    {
        Canvas::filled(width, length, Rgb { red: 0, green: 0, blue: 0 })
    }
}

impl<'a, P> CanvasIter<'a, P> {
    #[verifier::type_invariant]
    spec fn well_formed(&self) -> bool {
        &&& self.row <= self.canvas.length
        &&& self.col <= self.canvas.width
        &&& self.row == self.canvas.length ==> self.col == 0
    }

    /// The canvas that is walked.
    pub closed spec fn canvas(&self) -> &Canvas<P> {
        self.canvas
    }

    /// How many pixels the walk has handed out.
    pub closed spec fn index(&self) -> nat {
        (self.row * self.canvas.width + self.col) as nat
    }
}

impl<'a, P: Copy> CanvasIter<'a, P> {
    /// Hands out the next pixel in reading order, or `None` when every pixel
    /// has been handed out.
    pub fn next(&mut self) -> (item: Option<Pixel<P>>)
        ensures
            final(self).canvas() == old(self).canvas(),
            old(self).index() <= old(self).canvas().pixels().len(),
            match item {
                Some(pixel) => {
                    &&& old(self).index() < old(self).canvas().pixels().len()
                    &&& pixel == old(self).canvas().pixels()[old(self).index() as int]
                    &&& final(self).index() == old(self).index() + 1
                },
                None => {
                    &&& old(self).index() == old(self).canvas().pixels().len()
                    &&& final(self).index() == old(self).index()
                },
            },
    {
        proof {
            use_type_invariant(&*self);
            use_type_invariant(self.canvas);
        }
        let width = self.canvas.width;
        let length = self.canvas.length;
        proof {
            lemma_index_in_range(self.row as int, self.col as int, width as int, length as int);
        }
        if self.row < length && self.col == width {
            assert((self.row + 1) * width + 0 == self.row * width + self.col) by (nonlinear_arith)
                requires
                    self.col == width,
            ;
            self.col = 0;
            self.row += 1;
        }
        if self.row == length || width == 0 {
            assert(self.row * width + self.col == width * length) by (nonlinear_arith)
                requires
                    self.row == length || width == 0,
                    self.row == length ==> self.col == 0,
                    self.col <= width,
            ;
            return None;
        }
        let pixel = Pixel { x: self.col, y: self.row, color: self.canvas.matrix[self.row][self.col] };
        proof {
            let k = self.row * width + self.col;
            lemma_fundamental_div_mod_converse(k, width as int, self.row as int, self.col as int);
            lemma_index_below(self.row as int, self.col as int, width as int, length as int);
        }
        self.col += 1;
        Some(pixel)
    }
}

/// A place on the grid, or the place just past a row's end, counts at most
/// `width * length` pixels before it.
proof fn lemma_index_in_range(row: int, col: int, width: int, length: int)
    requires
        0 <= row <= length,
        0 <= col <= width,
        row == length ==> col == 0,
    ensures
        0 <= row * width + col <= width * length,
{
    if row < length {
        lemma_mul_inequality(row + 1, length, width);
        assert((row + 1) * width == row * width + width) by (nonlinear_arith);
        assert(length * width == width * length) by (nonlinear_arith);
        assert(0 <= row * width) by (nonlinear_arith)
            requires
                0 <= row,
                0 <= width,
        ;
    } else {
        assert(row * width == width * length) by (nonlinear_arith)
            requires
                row == length,
        ;
        assert(0 <= row * width) by (nonlinear_arith)
            requires
                0 <= row,
                0 <= width,
        ;
    }
}

/// A place on the grid counts fewer than `width * length` pixels before it.
proof fn lemma_index_below(row: int, col: int, width: int, length: int)
    requires
        0 <= row < length,
        0 <= col < width,
    ensures
        0 <= row * width + col < width * length,
{
    lemma_index_in_range(row + 1, 0, width, length);
    assert((row + 1) * width == row * width + width) by (nonlinear_arith);
    assert(0 <= row * width) by (nonlinear_arith)
        requires
            0 <= row,
            0 <= width,
    ;
}

/// Overwrites one cell of a grid of rows.
fn set_cell<P: Copy>(grid: &mut Vec<Vec<P>>, x: usize, y: usize, color: P)
    requires
        y < old(grid)@.len(),
        x < old(grid)@[y as int]@.len(),
    ensures
        final(grid)@.len() == old(grid)@.len(),
        final(grid)@[y as int]@ == old(grid)@[y as int]@.update(x as int, color),
        forall|j: int| 0 <= j < old(grid)@.len() && j != y ==> final(grid)@[j] == old(grid)@[j],
    no_unwind
{
    grid[y][x] = color;
}

} // verus!
