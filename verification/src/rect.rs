//! Rectangles of terminal cells.
use vstd::prelude::*;

verus! {

#[derive(Clone, Copy, PartialEq, Eq, Structural, Debug)]
pub struct Rect {
    pub x: u16,
    pub y: u16,
    pub width: u16,
    pub height: u16,
}

/// The rectangle with nothing in it.
pub open spec fn nowhere() -> Rect {
    Rect { x: 0, y: 0, width: 0, height: 0 }
}

/// Whether a rectangle's far edges can be counted.
pub open spec fn is_bounded(r: Rect) -> bool {
    r.x + r.width <= u16::MAX && r.y + r.height <= u16::MAX
}

/// Whether one rectangle lies inside another.
pub open spec fn is_inside(r: Rect, outer: Rect) -> bool {
    &&& outer.x <= r.x
    &&& outer.y <= r.y
    &&& r.x + r.width <= outer.x + outer.width
    &&& r.y + r.height <= outer.y + outer.height
}

impl Rect {
    /// The rectangle with nothing in it.
    pub fn zero() -> (r: Rect)
        ensures
            r == nowhere(),
    {
        Rect { x: 0, y: 0, width: 0, height: 0 }
    }
}

/// Where a span of `part` cells starts when it is centred in `whole` cells that
/// start at `start`.
pub open spec fn centred(start: int, whole: int, part: int) -> int {
    if part < whole {
        start + (whole - part) / 2
    } else {
        start
    }
}

/// Whether the place where a picture starts can be counted.
pub open spec fn can_centre(body: Rect, cells: (u16, u16)) -> bool {
    &&& centred(body.x as int, body.width as int, cells.0 as int) <= u16::MAX
    &&& centred(body.y as int, body.height as int, cells.1 as int) <= u16::MAX
}

/// A picture of `cells` centred inside `body`, and clipped to it.
pub open spec fn centre_of(body: Rect, cells: (u16, u16)) -> Rect {
    Rect {
        x: centred(body.x as int, body.width as int, cells.0 as int) as u16,
        y: centred(body.y as int, body.height as int, cells.1 as int) as u16,
        width: if cells.0 < body.width {
            cells.0
        } else {
            body.width
        },
        height: if cells.1 < body.height {
            cells.1
        } else {
            body.height
        },
    }
}

/// Centre a `cells`-sized picture inside `body`. The rectangle has the canvas's
/// own shape, so the compositor scales it one to one rather than stretching it.
pub fn centre(body: Rect, cells: (u16, u16)) -> (placed: Rect)
    requires
        can_centre(body, cells),
    ensures
        placed == centre_of(body, cells),
{
    Rect {
        x: body.x + body.width.saturating_sub(cells.0) / 2,
        y: body.y + body.height.saturating_sub(cells.1) / 2,
        width: if cells.0 < body.width {
            cells.0
        } else {
            body.width
        },
        height: if cells.1 < body.height {
            cells.1
        } else {
            body.height
        },
    }
}

/// A centred picture never leaves the body, and one that fits keeps its own
/// shape with the same margin on both sides, give or take a cell.
pub proof fn a_centred_picture_stays_in_the_body(body: Rect, cells: (u16, u16))
    requires
        can_centre(body, cells),
    ensures
        is_inside(centre_of(body, cells), body),
        cells.0 <= body.width && cells.1 <= body.height ==> {
            let placed = centre_of(body, cells);
            let left = placed.x - body.x;
            let above = placed.y - body.y;
            &&& placed.width == cells.0
            &&& placed.height == cells.1
            &&& left <= body.width - cells.0 - left <= left + 1
            &&& above <= body.height - cells.1 - above <= above + 1
        },
{
}

/// One past the last cell of a span, held to what a cell can be.
pub open spec fn far_edge(start: u16, length: u16) -> int {
    if start + length <= u16::MAX {
        start + length
    } else {
        u16::MAX as int
    }
}

/// The row under a pointer: the one that many rows below the first row shown as
/// the pointer is below the top of the body.
pub open spec fn row_under(body: Rect, offset: int, count: int, column: u16, row: u16) -> Option<
    int,
> {
    let inside = body.x <= column < far_edge(body.x, body.width) && body.y <= row < far_edge(
        body.y,
        body.height,
    );
    if inside && offset + (row - body.y) < count {
        Some(offset + (row - body.y))
    } else {
        None
    }
}

/// The row under a click, or `None` when the pointer is outside the tree body or
/// past its last row.
pub fn row_at(body: Rect, offset: usize, count: usize, column: u16, row: u16) -> (index: Option<
    usize,
>)
    ensures
        match (index, row_under(body, offset as int, count as int, column, row)) {
            (Some(i), Some(k)) => i == k,
            (None, None) => true,
            _ => false,
        },
{
    let inside = column >= body.x && column < body.x.saturating_add(body.width) && row >= body.y
        && row < body.y.saturating_add(body.height);
    if !inside {
        return None;
    }
    let down = (row - body.y) as usize;
    if offset < count && down < count - offset {
        Some(offset + down)
    } else {
        None
    }
}

/// The row under a pointer is the one as far below the first row shown as the pointer
/// is below the top: so every row that shows has its own place, and no place has
/// another.
pub proof fn every_row_that_shows_can_be_pointed_at(
    body: Rect,
    offset: int,
    count: int,
    column: u16,
    row: u16,
)
    requires
        is_bounded(body),
    ensures
        row_under(body, offset, count, column, row) is Some <==> body.x <= column < body.x
            + body.width && body.y <= row < body.y + body.height && offset + (row - body.y) < count,
        row_under(body, offset, count, column, row) matches Some(index) ==> index - offset == row
            - body.y,
{
}

/// A picture larger than the body is cut to it, on either axis.
pub proof fn a_picture_is_cut_to_the_body(body: Rect, cells: (u16, u16))
    requires
        is_bounded(body),
    ensures
        cells.0 >= body.width ==> centre_of(body, cells).x == body.x && centre_of(body, cells).width
            == body.width,
        cells.1 >= body.height ==> centre_of(body, cells).y == body.y && centre_of(
            body,
            cells,
        ).height == body.height,
        cells.0 <= body.width ==> centre_of(body, cells).x == body.x + (body.width - cells.0) / 2
            && centre_of(body, cells).width == cells.0,
        cells.1 <= body.height ==> centre_of(body, cells).y == body.y + (body.height - cells.1) / 2
            && centre_of(body, cells).height == cells.1,
{
}

} // verus!
