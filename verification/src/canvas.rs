//! The terminal canvas: `gemini_engine`'s `View`, seen as a grid of cells.
//!
//! Verus cannot look inside a `View`, so this module gives names to what one
//! holds and states, over those names, what the few `View` operations that the
//! player uses do to it. Those statements are believed, not proved.

use gemini_engine::elements;
use gemini_engine::elements::view::{ColChar, Modifier, Vec2D, Wrapping};
use gemini_engine::elements::PixelContainer;
use vstd::prelude::*;

verus! {

/// `gemini_engine`'s `View`, the canvas. Nothing inside it is seen here; what
/// it holds goes by the names `canvas_size`, `canvas_background` and
/// `canvas_cells`.
#[verifier::external_type_specification]
#[verifier::external_body]
pub struct ExView(gemini_engine::elements::View);

/// How a cell of the canvas is coloured.
#[derive(Clone, Copy, Debug, PartialEq, Eq, Structural)]
pub enum Tint {
    /// No colour: the terminal's default.
    Plain,
    /// An ANSI escape code.
    Coded(u8),
    /// A 24-bit colour.
    Rgb(u8, u8, u8),
}

/// What one position of the canvas shows.
#[derive(Clone, Copy, Debug, PartialEq, Eq, Structural)]
pub struct Cell {
    pub glyph: char,
    pub tint: Tint,
}

/// One write to the canvas: a position, a glyph and a colour.
#[derive(Clone, Copy, Debug, PartialEq, Eq, Structural)]
pub struct TerminalCell {
    pub col: isize,
    pub row: isize,
    pub glyph: char,
    pub r: u8,
    pub g: u8,
    pub b: u8,
}

/// What becomes of a write that falls outside the canvas.
#[derive(Clone, Copy, Debug, PartialEq, Eq, Structural)]
pub enum WrapPolicy {
    /// It lands on the other side.
    Wrap,
    /// It is dropped.
    Ignore,
    /// It is a bug: the caller promises that none falls outside.
    Panic,
}

/// The canvas's width and height, in cells: the `width` and `height` that a
/// `View` was made with.
pub uninterp spec fn canvas_size(view: elements::View) -> (nat, nat);

/// The cell that a `View` is filled with when it is made or cleared: its
/// `background_char`.
pub uninterp spec fn canvas_background(view: elements::View) -> Cell;

/// The cells that a `View` holds, row after row, each with its character and
/// its modifier.
pub uninterp spec fn canvas_cells(view: elements::View) -> Seq<Cell>;

/// The most cells a canvas made by this library has.
pub const MAX_CANVAS_CELLS: usize = 0x0400_0000;

/// A canvas that can be written to: it has cells, and as many as its size says.
pub open spec fn canvas_wf(view: elements::View) -> bool {
    let (w, h) = canvas_size(view);
    &&& 0 < w <= isize::MAX
    &&& 0 < h <= isize::MAX
    &&& canvas_cells(view).len() == w * h
}

impl TerminalCell {
    /// The cell that this write leaves on the canvas.
    pub open spec fn shown(self) -> Cell {
        Cell { glyph: self.glyph, tint: Tint::Rgb(self.r, self.g, self.b) }
    }
}

/// Whether a position lies on a canvas of `w` by `h` cells.
pub open spec fn in_bounds(w: nat, h: nat, col: int, row: int) -> bool {
    0 <= col < w && 0 <= row < h
}

/// Where a write lands under a policy, before the bounds are looked at.
pub open spec fn landing(w: nat, h: nat, cell: TerminalCell, policy: WrapPolicy) -> (int, int) {
    match policy {
        WrapPolicy::Wrap => (cell.col as int % w as int, cell.row as int % h as int),
        _ => (cell.col as int, cell.row as int),
    }
}

/// The cells of a `w` by `h` canvas after one write.
pub open spec fn plot(
    cells: Seq<Cell>,
    w: nat,
    h: nat,
    cell: TerminalCell,
    policy: WrapPolicy,
) -> Seq<Cell> {
    let (col, row) = landing(w, h, cell, policy);
    if in_bounds(w, h, col, row) {
        cells.update(cell_index(w, col, row), cell.shown())
    } else {
        cells
    }
}

/// The cells of a `w` by `h` canvas after a run of writes, first to last.
pub open spec fn plot_all(
    cells: Seq<Cell>,
    w: nat,
    h: nat,
    writes: Seq<TerminalCell>,
    policy: WrapPolicy,
) -> Seq<Cell>
    decreases writes.len(),
{
    if writes.len() == 0 {
        cells
    } else {
        plot(plot_all(cells, w, h, writes.drop_last(), policy), w, h, writes.last(), policy)
    }
}

/// Whether every write of a run lands on the canvas as it stands.
pub open spec fn all_in_bounds(w: nat, h: nat, writes: Seq<TerminalCell>) -> bool {
    forall|k: int|
        0 <= k < writes.len() ==> in_bounds(
            w,
            h,
            (#[trigger] writes[k]).col as int,
            writes[k].row as int,
        )
}

/// A canvas on which nothing is drawn: `w` by `h` cells, all the background.
pub open spec fn cleared(w: nat, h: nat, background: Cell) -> Seq<Cell> {
    Seq::new(w * h, |i: int| background)
}

/// Where a position lies in the row-after-row sequence of a canvas `w` wide.
pub open spec fn cell_index(w: nat, col: int, row: int) -> int {
    row * w + col
}

/// Whether no two writes of a run go to the same position.
pub open spec fn positions_distinct(writes: Seq<TerminalCell>) -> bool {
    forall|j: int, k: int|
        0 <= j < k < writes.len() ==> (#[trigger] writes[j]).col != (#[trigger] writes[k]).col
            || writes[j].row != writes[k].row
}

/// A position on the canvas has its index among the canvas's cells, and two
/// positions with one index are one position.
pub proof fn lemma_cell_index(w: nat, h: nat, col: int, row: int)
    requires
        in_bounds(w, h, col, row),
    ensures
        0 <= cell_index(w, col, row) < w * h,
        cell_index(w, col, row) % w as int == col,
        cell_index(w, col, row) / w as int == row,
{
    assert(0 <= row * w + col < w * h) by (nonlinear_arith)
        requires
            0 <= col < w,
            0 <= row < h,
    ;
    vstd::arithmetic::div_mod::lemma_fundamental_div_mod_converse(
        cell_index(w, col, row),
        w as int,
        row,
        col,
    );
}

/// Writing leaves the canvas with as many cells as it had.
pub proof fn lemma_plot_all_len(
    cells: Seq<Cell>,
    w: nat,
    h: nat,
    writes: Seq<TerminalCell>,
    policy: WrapPolicy,
)
    requires
        cells.len() == w * h,
    ensures
        plot_all(cells, w, h, writes, policy).len() == cells.len(),
    decreases writes.len(),
{
    if writes.len() > 0 {
        lemma_plot_all_len(cells, w, h, writes.drop_last(), policy);
        let (col, row) = landing(w, h, writes.last(), policy);
        if in_bounds(w, h, col, row) {
            lemma_cell_index(w, h, col, row);
        }
    }
}

/// A run of writes that all land on the canvas, no two on one position,
/// leaves each written position with what its write shows and every other
/// cell as it was; the policy plays no part.
pub proof fn lemma_plot_all_disjoint(
    cells: Seq<Cell>,
    w: nat,
    h: nat,
    writes: Seq<TerminalCell>,
    policy: WrapPolicy,
)
    requires
        cells.len() == w * h,
        all_in_bounds(w, h, writes),
        positions_distinct(writes),
    ensures
        plot_all(cells, w, h, writes, policy).len() == cells.len(),
        forall|k: int|
            0 <= k < writes.len() ==> plot_all(cells, w, h, writes, policy)[cell_index(
                w,
                (#[trigger] writes[k]).col as int,
                writes[k].row as int,
            )] == writes[k].shown(),
        forall|i: int|
            0 <= i < cells.len() && (forall|k: int|
                0 <= k < writes.len() ==> cell_index(
                    w,
                    (#[trigger] writes[k]).col as int,
                    writes[k].row as int,
                ) != i) ==> #[trigger] plot_all(cells, w, h, writes, policy)[i] == cells[i],
    decreases writes.len(),
{
    lemma_plot_all_len(cells, w, h, writes, policy);
    if writes.len() > 0 {
        let front = writes.drop_last();
        let last = writes.last();
        let before = plot_all(cells, w, h, front, policy);
        let after = plot_all(cells, w, h, writes, policy);
        assert(all_in_bounds(w, h, front)) by {
            assert forall|k: int| 0 <= k < front.len() implies in_bounds(
                w,
                h,
                (#[trigger] front[k]).col as int,
                front[k].row as int,
            ) by {
                assert(front[k] == writes[k]);
            }
        }
        assert(positions_distinct(front)) by {
            assert forall|j: int, k: int| 0 <= j < k < front.len() implies (#[trigger] front[j]).col
                != (#[trigger] front[k]).col || front[j].row != front[k].row by {
                assert(front[j] == writes[j]);
                assert(front[k] == writes[k]);
            }
        }
        lemma_plot_all_disjoint(cells, w, h, front, policy);
        lemma_plot_all_len(cells, w, h, front, policy);
        let n = writes.len() - 1;
        assert(writes[n] == last);
        assert(in_bounds(w, h, last.col as int, last.row as int));
        vstd::arithmetic::div_mod::lemma_small_mod(last.col as nat, w);
        vstd::arithmetic::div_mod::lemma_small_mod(last.row as nat, h);
        assert(landing(w, h, last, policy) == (last.col as int, last.row as int));
        let at = cell_index(w, last.col as int, last.row as int);
        lemma_cell_index(w, h, last.col as int, last.row as int);
        assert(after == before.update(at, last.shown()));
        assert forall|k: int| 0 <= k < writes.len() implies after[cell_index(
            w,
            (#[trigger] writes[k]).col as int,
            writes[k].row as int,
        )] == writes[k].shown() by {
            if k < n {
                assert(front[k] == writes[k]);
                lemma_cell_index(w, h, writes[k].col as int, writes[k].row as int);
                assert(writes[k].col != writes[n].col || writes[k].row != writes[n].row);
            }
        }
        assert forall|i: int|
            0 <= i < cells.len() && (forall|k: int|
                0 <= k < writes.len() ==> cell_index(
                    w,
                    (#[trigger] writes[k]).col as int,
                    writes[k].row as int,
                ) != i) implies #[trigger] after[i] == cells[i] by {
            assert(i != at);
            assert forall|k: int| 0 <= k < front.len() implies cell_index(
                w,
                (#[trigger] front[k]).col as int,
                front[k].row as int,
            ) != i by {
                assert(front[k] == writes[k]);
            }
            assert(before[i] == cells[i]);
        }
    }
}

/// `View::new` with `ColChar::EMPTY` as the background: a canvas of the given
/// size, every cell a blank without colour. The size is kept small enough for
/// the allocation of the cells to succeed.
#[verifier::external_body]
pub(crate) fn blank_canvas(width: usize, height: usize) -> (view: elements::View)
    requires
        width * height <= MAX_CANVAS_CELLS,
    ensures
        canvas_size(view) == (width as nat, height as nat),
        canvas_background(view) == (Cell { glyph: ' ', tint: Tint::Plain }),
        canvas_cells(view) == cleared(width as nat, height as nat, canvas_background(view)),
{
    elements::View::new(width, height, ColChar::EMPTY)
}

/// `View::clear`: every cell becomes the background; size and background
/// stay. The new cells are as many as the old, which the canvas could hold.
#[verifier::external_body]
pub(crate) fn clear_canvas(view: &mut elements::View)
    requires
        canvas_wf(*old(view)),
    ensures
        canvas_size(*final(view)) == canvas_size(*old(view)),
        canvas_background(*final(view)) == canvas_background(*old(view)),
        canvas_cells(*final(view)) == cleared(
            canvas_size(*old(view)).0,
            canvas_size(*old(view)).1,
            canvas_background(*old(view)),
        ),
{
    view.clear()
}

/// `View::blit` of a `PixelContainer` made from the writes: `View::plot` for
/// each of them in turn, which replaces the cell where the write lands, or
/// nothing where it lands outside. Size and background stay. With
/// `Wrapping::Panic` a write outside the canvas panics, so none may be.
#[verifier::external_body]
pub(crate) fn blit_cells(view: &mut elements::View, writes: &Vec<TerminalCell>, policy: WrapPolicy)
    requires
        canvas_wf(*old(view)),
        policy == WrapPolicy::Panic ==> all_in_bounds(
            canvas_size(*old(view)).0,
            canvas_size(*old(view)).1,
            writes@,
        ),
    ensures
        canvas_size(*final(view)) == canvas_size(*old(view)),
        canvas_background(*final(view)) == canvas_background(*old(view)),
        canvas_cells(*final(view)) == plot_all(
            canvas_cells(*old(view)),
            canvas_size(*old(view)).0,
            canvas_size(*old(view)).1,
            writes@,
            policy,
        ),
{
    let wrapping = match policy {
        WrapPolicy::Wrap => Wrapping::Wrap,
        WrapPolicy::Ignore => Wrapping::Ignore,
        WrapPolicy::Panic => Wrapping::Panic,
    };
    let pixels: Vec<(Vec2D, ColChar)> = writes.iter().map(
        |c| (Vec2D::new(c.col, c.row), ColChar::new(c.glyph, Modifier::from_rgb(c.r, c.g, c.b))),
    ).collect();
    view.blit(&PixelContainer::from(&pixels[..]), wrapping);
}

} // verus!
