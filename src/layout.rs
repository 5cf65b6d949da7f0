use vstd::prelude::*;
use vstd::string::*;

use crate::canvas::solid;
use crate::color::{Color, Palette};
use crate::font::FONT_CHAR_HEIGHT;
use crate::painter::{button_size, text_covers, Painter, BUTTON_PADDING};

verus! {

/// Places text lines and buttons one under another, from a starting position.
pub struct VerticalStackLayout<'a, 'b, P: Palette> {
    pub painter: &'a mut Painter<'b, P>,
    pub cursor: (i32, i32),
}

impl<'b, P: Palette> Painter<'b, P> {
    /// A layout that stacks widgets downward from `(x, y)` on this painter.
    pub fn stack_vertical<'a>(&'a mut self, x: i32, y: i32) -> (r: VerticalStackLayout<'a, 'b, P>)
        ensures
            *r.painter == *old(self),
            *final(self) == *final(r.painter),
            r.cursor == (x, y),
    {
        VerticalStackLayout::new(self, x, y)
    }
}

impl<'a, 'b, P: Palette> VerticalStackLayout<'a, 'b, P> {
    fn new(painter: &'a mut Painter<'b, P>, x: i32, y: i32) -> (r: VerticalStackLayout<'a, 'b, P>)
        ensures
            *r.painter == *old(painter),
            *final(painter) == *final(r.painter),
            r.cursor == (x, y),
    {
        VerticalStackLayout { painter, cursor: (x, y) }
    }

    /// Draws a line of text at the cursor and moves the cursor down one cell.
    pub fn text(&mut self, color: Color, string: &str)
        requires
            old(self).painter.wf(),
            old(self).cursor.1 + 8 <= i32::MAX,
        ensures
            final(self).painter.wf(),
            final(self).cursor == (old(self).cursor.0, (old(self).cursor.1 + 8) as i32),
            old(self).painter.draws(
                &*final(self).painter,
                solid(|px: int, py: int| text_covers(old(self).painter.context.font@, old(self).cursor.0 as int, old(self).cursor.1 as int, string@, px, py), old(self).painter.value_of(color)),
            ),
            *final(final(self).painter) == *final(old(self).painter),
            *final(final(self).painter.buffer) == *final(old(self).painter.buffer),
    {
        self.painter.text(self.cursor.0, self.cursor.1, color, string);
        self.cursor.1 = self.cursor.1 + FONT_CHAR_HEIGHT as i32;
    }

    /// Draws a button at the cursor, moves the cursor down by the button's
    /// height, and returns whether the button was clicked this frame.
    pub fn button(&mut self, string: &str) -> (clicked: bool)
        requires
            old(self).painter.wf(),
            string.spec_bytes().len() * 8 + 8 <= i32::MAX,
            old(self).cursor.0 + 4 <= i32::MAX,
            old(self).cursor.1 + 16 <= i32::MAX,
        ensures
            final(self).painter.wf(),
            final(self).cursor == (old(self).cursor.0, (old(self).cursor.1 + 16) as i32),
            clicked == old(self).painter.context.spec_interaction(
                old(self).cursor,
                (button_size(string.spec_bytes().len() as int).0 as i32, button_size(string.spec_bytes().len() as int).1 as i32),
            ).clicked,
            old(self).painter.draws(
                &*final(self).painter,
                old(self).painter.button_paint(old(self).cursor.0 as int, old(self).cursor.1 as int, string@, string.spec_bytes().len() as int),
            ),
            *final(final(self).painter) == *final(old(self).painter),
            *final(final(self).painter.buffer) == *final(old(self).painter.buffer),
    {
        let clicked = self.painter.button(self.cursor.0, self.cursor.1, string);
        self.cursor.1 = self.cursor.1 + (FONT_CHAR_HEIGHT as i32 + BUTTON_PADDING * 2);
        clicked
    }
}

} // verus!
