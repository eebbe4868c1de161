//! Frames, and how one is drawn: two terminal cells side by side for each
//! pixel, since a terminal cell is about twice as tall as it is wide.

use crate::canvas::{
    all_in_bounds, blit_cells, canvas_background, canvas_cells, canvas_size, canvas_wf,
    cell_index, in_bounds, lemma_cell_index, lemma_plot_all_disjoint, lemma_plot_all_len,
    plot_all,
    positions_distinct, Cell, TerminalCell, Tint, WrapPolicy,
};
use crate::codec::{at_least_one, resizable, resize_nearest, resized};
use gemini_engine::elements;
use vstd::prelude::*;

verus! {

/// A raster image as a mathematical value: its size and its samples, three
/// (red, green, blue) for each pixel, row after row.
pub struct Raster {
    pub width: nat,
    pub height: nat,
    pub samples: Seq<u8>,
}

impl Raster {
    /// There are exactly as many samples as the size asks for.
    pub open spec fn wf(self) -> bool {
        self.samples.len() == 3 * (self.width * self.height)
    }

    /// The colour of pixel number `p`, counted row after row.
    pub open spec fn colour(self, p: int) -> (u8, u8, u8) {
        (self.samples[3 * p], self.samples[3 * p + 1], self.samples[3 * p + 2])
    }

    /// The colour of the pixel in column `x` of row `y`.
    pub open spec fn colour_at(self, x: int, y: int) -> (u8, u8, u8) {
        self.colour(y * self.width + x)
    }

    /// Write number `k` of a blit. Pixel `p` gives writes `2p` and `2p + 1`:
    /// the pixel in column `x` of row `y` lands in columns `2x` and `2x + 1`
    /// of row `y`.
    pub open spec fn write(self, k: int, glyph: char) -> TerminalCell {
        let p = k / 2;
        let colour = self.colour(p);
        TerminalCell {
            col: (2 * (p % self.width as int) + k % 2) as isize,
            row: (p / self.width as int) as isize,
            glyph,
            r: colour.0,
            g: colour.1,
            b: colour.2,
        }
    }

    /// All the writes of a blit, in the order in which they are made.
    pub open spec fn writes(self, glyph: char) -> Seq<TerminalCell> {
        Seq::new(2 * (self.width * self.height), |k: int| self.write(k, glyph))
    }
}

/// One still of the video: a raster of RGB samples.
#[derive(Clone, Debug, PartialEq, Eq)]
pub struct Frame {
    pub width: usize,
    pub height: usize,
    pub pixels: Vec<u8>,
}

impl View for Frame {
    type V = Raster;

    open spec fn view(&self) -> Raster {
        Raster { width: self.width as nat, height: self.height as nat, samples: self.pixels@ }
    }
}

impl Frame {
    /// The frame holds exactly the samples of its pixels.
    pub open spec fn wf(&self) -> bool {
        self@.wf()
    }

    /// The frame is well formed and every position that a blit writes to can
    /// be held in the canvas's coordinates.
    pub open spec fn drawable(&self) -> bool {
        self.wf() && self@.placeable()
    }

    /// Makes a frame of the samples, if there are exactly as many as the size
    /// asks for.
    pub fn new(width: usize, height: usize, pixels: Vec<u8>) -> (r: Option<Frame>)
        ensures
            match r {
                Some(frame) => frame.wf() && frame.width == width && frame.height == height
                    && frame.pixels == pixels,
                None => pixels@.len() != 3 * (width * height),
            },
    {
        let frame = Frame { width, height, pixels };
        if frame.is_wf() {
            Some(frame)
        } else {
            None
        }
    }

    /// Tells whether the frame holds exactly the samples of its pixels.
    pub fn is_wf(&self) -> (r: bool)
        ensures
            r == self.wf(),
    {
        assert(0 <= self.width * self.height) by (nonlinear_arith);
        assert(self.pixels@.len() == self.pixels.len());
        match self.width.checked_mul(self.height) {
            Some(count) => match count.checked_mul(3) {
                Some(len) => self.pixels.len() == len,
                None => false,
            },
            None => false,
        }
    }

    /// Tells whether the frame can be blitted.
    pub fn is_drawable(&self) -> (r: bool)
        ensures
            r == self.drawable(),
    {
        let limit = isize::MAX as usize;
        self.is_wf() && self.width <= limit / 2 && self.height <= limit
    }
}

/// Resizes an image to fit into `width` by `height`, keeping its aspect ratio
/// and taking for each new pixel the nearest old one, and gives the result
/// together with its size.
pub fn resized_img_and_size(img: Frame, width: u32, height: u32) -> (r: (Frame, usize, usize))
    requires
        resizable(img@, width, height),
    ensures
        r.0@ == resized(img@, width, height),
        r.0.wf(),
        r.1 == r.0.width,
        r.2 == r.0.height,
        r.1 <= at_least_one(width),
        r.2 <= at_least_one(height),
{
    let resized_img = resize_nearest(&img, width, height);
    let width = resized_img.width;
    let height = resized_img.height;
    (resized_img, width, height)
}

/// The writes that draw a frame, in raster order: for the pixel in column `x`
/// of row `y`, one at `(2x, y)` and one at `(2x + 1, y)`, both with the glyph
/// and the pixel's colour.
pub fn frame_cells(img: &Frame, glyph: char) -> (writes: Vec<TerminalCell>)
    requires
        img.drawable(),
    ensures
        writes@ == img@.writes(glyph),
{
    assert(0 <= img.width * img.height) by (nonlinear_arith);
    assert(img.pixels@.len() == img.pixels.len());
    let count = img.width * img.height;
    let mut writes: Vec<TerminalCell> = Vec::new();
    let mut p: usize = 0;
    while p < count
        invariant
            img.drawable(),
            count == img.width * img.height,
            p <= count,
            writes@.len() == 2 * p,
            forall|k: int| 0 <= k < 2 * p ==> writes@[k] == img@.write(k, glyph),
        decreases count - p,
    {
        assert(img.pixels@.len() == img.pixels.len());
        assert(img.width > 0) by (nonlinear_arith)
            requires
                p < img.width * img.height,
        ;
        let x = p % img.width;
        let y = p / img.width;
        assert(y < img.height) by (nonlinear_arith)
            requires
                p < img.width * img.height,
                img.width > 0,
                y == p as int / img.width as int,
        ;
        let r = img.pixels[3 * p];
        let g = img.pixels[3 * p + 1];
        let b = img.pixels[3 * p + 2];
        let left = TerminalCell { col: (2 * x) as isize, row: y as isize, glyph, r, g, b };
        let right = TerminalCell { col: (2 * x + 1) as isize, row: y as isize, glyph, r, g, b };
        assert(left == img@.write(2 * p, glyph));
        assert(right == img@.write(2 * p + 1, glyph));
        writes.push(left);
        writes.push(right);
        p += 1;
    }
    assert(writes@ =~= img@.writes(glyph));
    writes
}

/// Draws a frame onto the canvas: every write of `frame_cells`, in order,
/// under the given policy for writes that fall outside the canvas.
///
/// Under `WrapPolicy::Panic` the canvas must hold the whole frame.
pub fn blit_image_to(
    view: &mut elements::View,
    img: &Frame,
    pixel_char: char,
    wrapping: WrapPolicy,
)
    requires
        img.drawable(),
        canvas_wf(*old(view)),
        wrapping == WrapPolicy::Panic ==> all_in_bounds(
            canvas_size(*old(view)).0,
            canvas_size(*old(view)).1,
            img@.writes(pixel_char),
        ),
    ensures
        canvas_wf(*final(view)),
        canvas_size(*final(view)) == canvas_size(*old(view)),
        canvas_background(*final(view)) == canvas_background(*old(view)),
        canvas_cells(*final(view)) == plot_all(
            canvas_cells(*old(view)),
            canvas_size(*old(view)).0,
            canvas_size(*old(view)).1,
            img@.writes(pixel_char),
            wrapping,
        ),
{
    let writes = frame_cells(img, pixel_char);
    proof {
        lemma_plot_all_len(
            canvas_cells(*view),
            canvas_size(*view).0,
            canvas_size(*view).1,
            writes@,
            wrapping,
        );
    }
    blit_cells(view, &writes, wrapping);
}

impl Raster {
    /// The number of the write that goes to column `col` of row `row`.
    pub open spec fn write_to(self, col: int, row: int) -> int {
        2 * (row * self.width + col / 2) + col % 2
    }

    /// Whether a canvas position lies in the footprint of the frame: the
    /// rectangle `2 * width` wide and `height` high at the canvas's origin.
    pub open spec fn covers(self, col: int, row: int) -> bool {
        0 <= col < 2 * self.width && 0 <= row < self.height
    }

    /// Whether the positions of the frame's footprint fit the canvas's
    /// coordinates.
    pub open spec fn placeable(self) -> bool {
        2 * self.width <= isize::MAX && self.height <= isize::MAX
    }

    /// What the drawn frame shows in column `col` of row `row` of its
    /// footprint: the glyph in the colour of the pixel in column `col / 2` of
    /// that row.
    pub open spec fn shows(self, col: int, row: int, glyph: char) -> Cell {
        let colour = self.colour_at(col / 2, row);
        Cell { glyph, tint: Tint::Rgb(colour.0, colour.1, colour.2) }
    }
}

/// Write number `k` of a blit goes to column `2x + k % 2` of row `y`, where
/// `(x, y)` is the place of pixel `k / 2`, and lies in the footprint.
pub proof fn lemma_write_position(raster: Raster, k: int, glyph: char)
    requires
        raster.placeable(),
        0 <= k < 2 * (raster.width * raster.height),
    ensures
        raster.width > 0,
        raster.write(k, glyph).col == 2 * ((k / 2) % raster.width as int) + k % 2,
        raster.write(k, glyph).row == (k / 2) / raster.width as int,
        raster.covers(raster.write(k, glyph).col as int, raster.write(k, glyph).row as int),
        raster.write_to(raster.write(k, glyph).col as int, raster.write(k, glyph).row as int) == k,
{
    let w = raster.width as int;
    let h = raster.height as int;
    let p = k / 2;
    assert(w > 0 && 0 <= p < w * h) by (nonlinear_arith)
        requires
            0 <= k < 2 * (w * h),
            p == k / 2,
            w >= 0,
    ;
    let x = p % w;
    let y = p / w;
    vstd::arithmetic::div_mod::lemma_fundamental_div_mod(p, w);
    assert(0 <= y < h) by (nonlinear_arith)
        requires
            0 <= p < w * h,
            w > 0,
            y == p / w,
    ;
    assert(0 <= x < w);
    assert(p == y * w + x) by (nonlinear_arith)
        requires
            p == w * y + x,
    ;
    let col = 2 * x + k % 2;
    assert((col / 2) == x && col % 2 == k % 2);
}

/// Every position of the footprint is written by the write that `write_to`
/// names, which leaves there what the frame `shows`.
pub proof fn lemma_write_to(raster: Raster, col: int, row: int, glyph: char)
    requires
        raster.placeable(),
        raster.covers(col, row),
    ensures
        0 <= raster.write_to(col, row) < 2 * (raster.width * raster.height),
        raster.write(raster.write_to(col, row), glyph).col == col,
        raster.write(raster.write_to(col, row), glyph).row == row,
        raster.write(raster.write_to(col, row), glyph).shown() == raster.shows(col, row, glyph),
{
    let w = raster.width as int;
    let h = raster.height as int;
    let x = col / 2;
    let p = row * w + x;
    let k = raster.write_to(col, row);
    assert(0 <= x < w);
    assert(0 <= p < w * h) by (nonlinear_arith)
        requires
            0 <= x < w,
            0 <= row < h,
            p == row * w + x,
    ;
    assert(k / 2 == p && k % 2 == col % 2);
    vstd::arithmetic::div_mod::lemma_fundamental_div_mod_converse(p, w, row, x);
}

/// Blitting a frame `W` wide and `H` high makes exactly `2 * W * H` writes,
/// all of them to columns in `[0, 2W)` and rows in `[0, H)`.
pub proof fn lemma_blit_footprint(raster: Raster, glyph: char)
    requires
        raster.placeable(),
    ensures
        raster.writes(glyph).len() == 2 * raster.width * raster.height,
        forall|k: int|
            0 <= k < raster.writes(glyph).len() ==> 0 <= (#[trigger] raster.writes(glyph)[k]).col
                < 2 * raster.width && 0 <= raster.writes(glyph)[k].row < raster.height,
{
    let writes = raster.writes(glyph);
    assert(2 * (raster.width * raster.height) == 2 * raster.width * raster.height)
        by (nonlinear_arith);
    assert forall|k: int| 0 <= k < writes.len() implies 0 <= (#[trigger] writes[k]).col < 2
        * raster.width && 0 <= writes[k].row < raster.height by {
        lemma_write_position(raster, k, glyph);
    }
}

/// No two writes of a blit go to the same position: the `2 * W * H` writes
/// fill `2 * W * H` cells.
pub proof fn lemma_blit_positions_distinct(raster: Raster, glyph: char)
    requires
        raster.placeable(),
    ensures
        positions_distinct(raster.writes(glyph)),
{
    let writes = raster.writes(glyph);
    assert forall|j: int, k: int| 0 <= j < k < writes.len() implies (#[trigger] writes[j]).col
        != (#[trigger] writes[k]).col || writes[j].row != writes[k].row by {
        lemma_write_position(raster, j, glyph);
        lemma_write_position(raster, k, glyph);
    }
}

/// The two writes that come from one pixel sit side by side in one row and
/// carry the same glyph and the same colour: the pixel's.
pub proof fn lemma_paired_cells(raster: Raster, p: int, glyph: char)
    requires
        raster.placeable(),
        0 <= p < raster.width * raster.height,
    ensures
        2 * p + 1 < raster.writes(glyph).len(),
        raster.writes(glyph)[2 * p].row == raster.writes(glyph)[2 * p + 1].row,
        raster.writes(glyph)[2 * p].col + 1 == raster.writes(glyph)[2 * p + 1].col,
        raster.writes(glyph)[2 * p].col == 2 * (p % raster.width as int),
        raster.writes(glyph)[2 * p].shown() == raster.writes(glyph)[2 * p + 1].shown(),
        raster.writes(glyph)[2 * p].shown().glyph == glyph,
        raster.writes(glyph)[2 * p].shown().tint == Tint::Rgb(
            raster.colour(p).0,
            raster.colour(p).1,
            raster.colour(p).2,
        ),
{
    lemma_write_position(raster, 2 * p, glyph);
    lemma_write_position(raster, 2 * p + 1, glyph);
}

/// What a blit leaves on a canvas that holds the whole frame: a cell in the
/// frame's footprint is what the frame `shows` there, and every other cell is
/// as it was. No trace of what the footprint held before is left, whatever
/// the policy.
pub proof fn lemma_blit_result(
    raster: Raster,
    glyph: char,
    cells: Seq<Cell>,
    w: nat,
    h: nat,
    policy: WrapPolicy,
)
    requires
        raster.placeable(),
        cells.len() == w * h,
        2 * raster.width <= w,
        raster.height <= h,
    ensures
        all_in_bounds(w, h, raster.writes(glyph)),
        plot_all(cells, w, h, raster.writes(glyph), policy).len() == cells.len(),
        forall|col: int, row: int|
            in_bounds(w, h, col, row) ==> #[trigger] plot_all(
                cells,
                w,
                h,
                raster.writes(glyph),
                policy,
            )[cell_index(w, col, row)] == if raster.covers(col, row) {
                raster.shows(col, row, glyph)
            } else {
                cells[cell_index(w, col, row)]
            },
{
    let writes = raster.writes(glyph);
    let after = plot_all(cells, w, h, writes, policy);
    lemma_blit_footprint(raster, glyph);
    lemma_blit_positions_distinct(raster, glyph);
    assert(all_in_bounds(w, h, writes));
    lemma_plot_all_disjoint(cells, w, h, writes, policy);
    assert forall|col: int, row: int| in_bounds(w, h, col, row) implies #[trigger] after[cell_index(
        w,
        col,
        row,
    )] == if raster.covers(col, row) {
        raster.shows(col, row, glyph)
    } else {
        cells[cell_index(w, col, row)]
    } by {
        let i = cell_index(w, col, row);
        lemma_cell_index(w, h, col, row);
        if raster.covers(col, row) {
            let k = raster.write_to(col, row);
            lemma_write_to(raster, col, row, glyph);
            assert(writes[k] == raster.write(k, glyph));
            assert(writes[k].col == col && writes[k].row == row);
        } else {
            assert forall|k: int| 0 <= k < writes.len() implies cell_index(
                w,
                (#[trigger] writes[k]).col as int,
                writes[k].row as int,
            ) != i by {
                lemma_cell_index(w, h, writes[k].col as int, writes[k].row as int);
            }
        }
    }
}

} // verus!
