//! Geometry and layed-out text of the full-screen view.

use vstd::prelude::*;

verus! {

/// A rectangle of terminal cells: the half-open column range
/// `[x_start, x_end)` by the row range `[y_start, y_end)`.
#[derive(Copy, Clone, Debug, PartialEq, Eq, Structural)]
pub struct Area {
    pub x_start: u32,
    pub x_end: u32,
    pub y_start: u32,
    pub y_end: u32,
}

impl Area {
    pub fn new(x_start: u32, x_end: u32, y_start: u32, y_end: u32) -> (r: Self)
        ensures
            r == (Area { x_start, x_end, y_start, y_end }),
    {
        Area { x_start, x_end, y_start, y_end }
    }

    /// Whether the cell lies inside the rectangle.
    pub fn contains(&self, pos: (u16, u16)) -> (r: bool)
        ensures
            r == (self.x_start <= (pos.0 as u32) && (pos.0 as u32) < self.x_end
                && self.y_start <= (pos.1 as u32) && (pos.1 as u32) < self.y_end),
    {
        self.x_start <= pos.0 as u32 && (pos.0 as u32) < self.x_end && self.y_start <= pos.1 as u32
            && (pos.1 as u32) < self.y_end
    }
}

/// Lines of text with the cell each starts at, ready to be written to a
/// terminal of the recorded size.
#[derive(Debug)]
pub struct RenderedContent {
    terminal_size: (u16, u16),
    lines: Vec<((u32, u32), String)>,
}

impl RenderedContent {
    pub closed spec fn spec_lines(self) -> Seq<((u32, u32), String)> {
        self.lines@
    }

    pub fn new(terminal_size: (u16, u16)) -> (r: Self)
        ensures
            r.spec_lines().len() == 0,
    {
        RenderedContent { terminal_size, lines: Vec::new() }
    }

    /// Adds one line at `pos`.
    pub fn push_line(&mut self, pos: (u32, u32), line: String)
        ensures
            final(self).spec_lines() == old(self).spec_lines().push((pos, line)),
    {
        self.lines.push((pos, line));
    }

    /// The recorded lines with their positions, for the caller to draw.
    pub fn lines(self) -> (r: Vec<((u32, u32), String)>)
        ensures
            r@ == self.spec_lines(),
    {
        self.lines
    }
}

} // verus!
