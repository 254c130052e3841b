//! The in-memory image: rows of RGBA pixels, each row as wide as the image.

use vstd::prelude::*;

verus! {

/// One pixel: four 8-bit channels.
#[derive(Clone, Copy, Debug, PartialEq, Eq, Structural)]
pub struct Pixel {
    pub r: u8,
    pub g: u8,
    pub b: u8,
    pub a: u8,
}

/// The mathematical picture of an image: its width and its rows, top first.
pub struct ImageModel {
    pub width: nat,
    pub rows: Seq<Seq<Pixel>>,
}

impl ImageModel {
    pub open spec fn height(self) -> nat {
        self.rows.len()
    }

    /// Every row holds exactly `width` pixels.
    pub open spec fn wf(self) -> bool {
        forall|y: int| 0 <= y < self.rows.len() ==> (#[trigger] self.rows[y]).len() == self.width
    }

    /// The pixel in column `x` of row `y`.
    pub open spec fn at(self, x: int, y: int) -> Pixel {
        self.rows[y][x]
    }

    /// The intensity (first channel) of the pixel at `(x, y)`.
    pub open spec fn intensity(self, x: int, y: int) -> u8 {
        self.rows[y][x].r
    }
}

/// An image of `width` columns, stored row by row.
pub struct Image {
    width: usize,
    rows: Vec<Vec<Pixel>>,
}

impl View for Image {
    type V = ImageModel;

    closed spec fn view(&self) -> ImageModel {
        ImageModel { width: self.width as nat, rows: self.rows@.map_values(|row: Vec<Pixel>| row@) }
    }
}

impl Image {
    /// Builds an image from its rows; `None` where a row is not `width` pixels long.
    pub fn from_rows(width: usize, rows: Vec<Vec<Pixel>>) -> (r: Option<Image>)
        ensures
            r is Some <==> forall|y: int| 0 <= y < rows@.len() ==> (#[trigger] rows@[y])@.len() == width,
            r matches Some(img) ==> img@.wf() && img@.width == width && img@.rows == rows@.map_values(
                |row: Vec<Pixel>| row@,
            ),
    {
        let mut y: usize = 0;
        while y < rows.len()
            invariant
                y <= rows@.len(),
                forall|k: int| 0 <= k < y ==> (#[trigger] rows@[k])@.len() == width,
            decreases rows@.len() - y,
        {
            if rows[y].len() != width {
                return None;
            }
            y = y + 1;
        }
        let img = Image { width, rows };
        assert(img@.wf());
        Some(img)
    }

    /// Builds an image from rows already known to be `width` pixels long.
    pub(crate) fn from_sized_rows(width: usize, rows: Vec<Vec<Pixel>>) -> (r: Image)
        requires
            forall|y: int| 0 <= y < rows@.len() ==> (#[trigger] rows@[y])@.len() == width,
        ensures
            r@.wf(),
            r@.width == width,
            r@.rows == rows@.map_values(|row: Vec<Pixel>| row@),
    {
        Image { width, rows }
    }

    /// An image of `width` by `height` pixels, all equal to `p`.
    pub fn filled(width: usize, height: usize, p: Pixel) -> (r: Image)
        ensures
            r@.wf(),
            r@.width == width,
            r@.height() == height,
            forall|x: int, y: int| 0 <= x < width && 0 <= y < height ==> r@.at(x, y) == p,
    {
        let mut rows: Vec<Vec<Pixel>> = Vec::new();
        let mut y: usize = 0;
        while y < height
            invariant
                y <= height,
                rows@.len() == y,
                forall|k: int| 0 <= k < y ==> (#[trigger] rows@[k])@ == Seq::new(width as nat, |x: int| p),
            decreases height - y,
        {
            let mut row: Vec<Pixel> = Vec::new();
            let mut x: usize = 0;
            while x < width
                invariant
                    x <= width,
                    row@ == Seq::new(x as nat, |i: int| p),
                decreases width - x,
            {
                row.push(p);
                x = x + 1;
                assert(row@ =~= Seq::new(x as nat, |i: int| p));
            }
            rows.push(row);
            y = y + 1;
        }
        Image { width, rows }
    }

    pub fn width(&self) -> (r: usize)
        ensures
            r == self@.width,
    {
        self.width
    }

    pub fn height(&self) -> (r: usize)
        ensures
            r == self@.height(),
    {
        self.rows.len()
    }

    /// The pixel at `(x, y)`.
    pub fn pixel(&self, x: usize, y: usize) -> (r: Pixel)
        requires
            self@.wf(),
            x < self@.width,
            y < self@.height(),
        ensures
            r == self@.at(x as int, y as int),
    {
        assert(self@.rows[y as int] == self.rows@[y as int]@);
        self.rows[y][x]
    }

    /// Keeps the rows `top..bottom`, full width.
    pub fn crop_rows(&mut self, top: usize, bottom: usize)
        requires
            top <= bottom <= old(self)@.height(),
        ensures
            final(self)@ == (ImageModel {
                width: old(self)@.width,
                rows: old(self)@.rows.subrange(top as int, bottom as int),
            }),
    {
        let ghost before = self.rows@;
        self.rows.truncate(bottom);
        let kept = self.rows.split_off(top);
        self.rows = kept;
        assert(self.rows@ == before.subrange(top as int, bottom as int));
        assert(self@.rows =~= before.map_values(|row: Vec<Pixel>| row@).subrange(
            top as int,
            bottom as int,
        ));
    }

    /// The rows, top first.
    pub fn into_rows(self) -> (r: Vec<Vec<Pixel>>)
        ensures
            r@.map_values(|row: Vec<Pixel>| row@) == self@.rows,
    {
        self.rows
    }
}

} // verus!
