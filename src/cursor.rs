//! The pen position inside a text box.
use vstd::prelude::*;
use crate::alignment::Rect;

verus! {

/// Tracks where the next character goes inside a box: a horizontal offset
/// from the left edge and a vertical offset from the top edge, in pixels.
#[derive(Debug, Clone, Copy, PartialEq, Eq)]
pub struct Cursor {
    bounds: Rect,
    line_height: u32,
    x: u64,
    y: u64,
}

impl Cursor {
    /// Offset from the left edge.
    pub closed spec fn x_offset(&self) -> nat {
        self.x as nat
    }

    /// Offset from the top edge.
    pub closed spec fn y_offset(&self) -> nat {
        self.y as nat
    }

    /// Height of a line.
    pub closed spec fn spec_line_height(&self) -> nat {
        self.line_height as nat
    }

    /// The horizontal offset never passes the right edge, and the vertical
    /// offset stays in the range of a `u32`.
    pub closed spec fn wf(&self) -> bool {
        self.x <= self.bounds.width && self.y <= u32::MAX
    }

    /// The box the cursor moves in.
    pub closed spec fn spec_bounds(&self) -> Rect {
        self.bounds
    }

    /// A cursor at the top left corner of `bounds`.
    pub fn new(bounds: Rect, line_height: u32) -> (r: Self)
        ensures
            r.wf(),
            r.spec_bounds() == bounds,
            r.x_offset() == 0,
            r.y_offset() == 0,
            r.spec_line_height() == line_height,
    {
        Cursor { bounds, line_height, x: 0, y: 0 }
    }

    /// The pixel the cursor is at.
    pub fn position(&self) -> (r: (i64, i64))
        requires
            self.wf(),
        ensures
            r.0 == self.spec_bounds().x + self.x_offset(),
            r.1 == self.spec_bounds().y + self.y_offset(),
    {
        (self.bounds.x as i64 + self.x as i64, self.bounds.y as i64 + self.y as i64)
    }

    /// The box the cursor moves in.
    pub fn bounds(&self) -> (r: Rect)
        ensures
            r == self.spec_bounds(),
    {
        self.bounds
    }

    /// Height of a line.
    pub fn line_height(&self) -> (r: u32)
        ensures
            r == self.spec_line_height(),
    {
        self.line_height
    }

    /// Whether `width` more pixels fit on the current line.
    pub fn fits_in_line(&self, width: u32) -> (r: bool)
        requires
            self.wf(),
        ensures
            r == (self.x_offset() + width <= self.spec_bounds().width),
    {
        width as u64 <= self.bounds.width as u64 - self.x
    }

    /// Moves right by `width` pixels if they fit on the current line, and
    /// says whether they did; otherwise the cursor stays where it is.
    pub fn advance(&mut self, width: u32) -> (r: bool)
        requires
            old(self).wf(),
        ensures
            final(self).wf(),
            r == (old(self).x_offset() + width <= old(self).spec_bounds().width),
            r ==> final(self).x_offset() == old(self).x_offset() + width,
            !r ==> final(self).x_offset() == old(self).x_offset(),
            final(self).y_offset() == old(self).y_offset(),
            final(self).spec_bounds() == old(self).spec_bounds(),
            final(self).spec_line_height() == old(self).spec_line_height(),
    {
        if self.fits_in_line(width) {
            self.x = self.x + width as u64;
            true
        } else {
            false
        }
    }

    /// Goes back to the left edge of the next line.
    pub fn new_line(&mut self)
        requires
            old(self).wf(),
            old(self).y_offset() + old(self).spec_line_height() <= u32::MAX,
        ensures
            final(self).wf(),
            final(self).x_offset() == 0,
            final(self).y_offset() == old(self).y_offset() + old(self).spec_line_height(),
            final(self).spec_bounds() == old(self).spec_bounds(),
            final(self).spec_line_height() == old(self).spec_line_height(),
    {
        self.x = 0;
        self.y = self.y + self.line_height as u64;
    }

    /// Whether the current line starts inside the box; once it does not,
    /// nothing more is drawn.
    pub fn in_display_area(&self) -> (r: bool)
        ensures
            r == (self.y_offset() < self.spec_bounds().height),
    {
        self.y < self.bounds.height as u64
    }
}

} // verus!
