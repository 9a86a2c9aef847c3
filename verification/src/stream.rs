//! The pen cursor the text flow engine advances: a position inside a
//! box whose origin and horizontal budget are fixed when the stream is
//! made.  All movement saturates at the `i32` range.

use vstd::prelude::*;

use crate::distance::add32;
use crate::distance::add_clip;

verus! {

/// A pen cursor: the box origin, the current position, and the box
/// size.
pub struct Stream {
    pub start_x: i32,
    pub start_y: i32,
    pub x: i32,
    pub y: i32,
    pub width: i32,
    pub height: i32,
}

impl Stream {
    /// A stream at the origin of a box of the given size.
    pub fn new(x: i32, y: i32, width: i32, height: i32) -> (r: Stream)
        ensures
            r == (Stream { start_x: x, start_y: y, x, y, width, height }),
    {
        Stream { start_x: x, start_y: y, x, y, width, height }
    }

    /// The current horizontal position.
    pub fn get_x(&self) -> (r: i32)
        ensures
            r == self.x,
    {
        self.x
    }

    /// The current vertical position.
    pub fn get_y(&self) -> (r: i32)
        ensures
            r == self.y,
    {
        self.y
    }

    /// Advance the pen to the right.
    pub fn increase_x(&mut self, o: i32)
        ensures
            *final(self) == (Stream { x: add32(old(self).x, o), ..*old(self) }),
    {
        self.x = add_clip(self.x, o);
    }

    /// Whether advancing by `o` stays inside the horizontal budget.
    pub fn increase_x_fits(&self, o: i32) -> (r: bool)
        ensures
            r == (self.x as int + o as int <= self.start_x as int + self.width as int),
    {
        self.x as i64 + o as i64 <= self.start_x as i64 + self.width as i64
    }

    /// Advance the pen downward.
    pub fn increase_y(&mut self, o: i32)
        ensures
            *final(self) == (Stream { y: add32(old(self).y, o), ..*old(self) }),
    {
        self.y = add_clip(self.y, o);
    }

    /// Return the pen to the left edge of the box.
    pub fn reset_x(&mut self)
        ensures
            *final(self) == (Stream { x: old(self).start_x, ..*old(self) }),
    {
        self.x = self.start_x;
    }

    /// Return the pen to the top edge of the box.
    pub fn reset_y(&mut self)
        ensures
            *final(self) == (Stream { y: old(self).start_y, ..*old(self) }),
    {
        self.y = self.start_y;
    }

    /// The horizontal budget of the box.
    pub fn get_width(&self) -> (r: i32)
        ensures
            r == self.width,
    {
        self.width
    }

    /// The vertical extent of the box.
    pub fn get_height(&self) -> (r: i32)
        ensures
            r == self.height,
    {
        self.height
    }
}

} // verus!
