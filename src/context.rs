use vstd::prelude::*;

use crate::color::Palette;
use crate::font::Font;

verus! {

/// The session state: the font, the palette and what the pointer did.
///
/// `update` is called once per frame, before any widget is drawn; the edge
/// flags and their latched positions describe the transition of that frame.
pub struct Context<P: Palette> {
    pub font: Font,
    pub palette: P,
    pub mouse_pos: (i32, i32),
    pub is_left_mouse_down: bool,
    pub last_is_left_mouse_down: bool,
    pub was_left_mouse_pressed: bool,
    pub left_mouse_pressed_pos: (i32, i32),
    pub was_left_mouse_released: bool,
    pub left_mouse_released_pos: (i32, i32),
}

/// Whether `point` lies in the rectangle at `pos` of extent `size`: left and top
/// edges included, right and bottom edges excluded.
pub open spec fn spec_in_bounds(pos: (i32, i32), size: (i32, i32), point: (i32, i32)) -> bool {
    &&& pos.0 <= point.0 < pos.0 + size.0
    &&& pos.1 <= point.1 < pos.1 + size.1
}

/// Half-open containment of `point` in the rectangle at `pos` of extent `size`.
pub fn is_in_bounds(pos: (i32, i32), size: (i32, i32), point: (i32, i32)) -> (r: bool)
    ensures
        r == spec_in_bounds(pos, size, point),
{
    let px = point.0 as i64;
    let py = point.1 as i64;
    px >= pos.0 as i64 && px < pos.0 as i64 + size.0 as i64 && py >= pos.1 as i64 && py < pos.1 as i64
        + size.1 as i64
}

/// How the pointer relates to one widget in the current frame.
#[derive(Clone, Copy, Debug, PartialEq, Eq, Structural)]
pub struct Interaction {
    /// The pointer is over the widget with the button up.
    pub hovered: bool,
    /// The button is held, went down over the widget, and the pointer is over it.
    pub down: bool,
    /// The button was released this frame, and both the press and the release
    /// happened over the widget.
    pub clicked: bool,
}

impl<P: Palette> Context<P> {
    pub open spec fn wf(&self) -> bool {
        self.font.wf()
    }

    /// A session with the pointer at the origin, the button up and no edge seen.
    pub fn new(palette: P, font: Font) -> (r: Context<P>)
        requires
            font.wf(),
        ensures
            r.wf(),
            r.font == font,
            r.palette == palette,
            r.mouse_pos == (0i32, 0i32),
            !r.is_left_mouse_down,
            !r.last_is_left_mouse_down,
            !r.was_left_mouse_pressed,
            r.left_mouse_pressed_pos == (0i32, 0i32),
            !r.was_left_mouse_released,
            r.left_mouse_released_pos == (0i32, 0i32),
    {
        Context {
            font,
            palette,
            mouse_pos: (0, 0),
            is_left_mouse_down: false,
            last_is_left_mouse_down: false,
            was_left_mouse_pressed: false,
            left_mouse_pressed_pos: (0, 0),
            was_left_mouse_released: false,
            left_mouse_released_pos: (0, 0),
        }
    }

    /// Takes this frame's pointer sample and derives its press and release edges.
    pub fn update(&mut self, mouse_pos: (i32, i32), is_left_mouse_down: bool)
        ensures
            final(self).font == old(self).font,
            final(self).palette == old(self).palette,
            final(self).mouse_pos == mouse_pos,
            final(self).is_left_mouse_down == is_left_mouse_down,
            final(self).last_is_left_mouse_down == old(self).is_left_mouse_down,
            final(self).was_left_mouse_pressed == (is_left_mouse_down
                && !old(self).is_left_mouse_down),
            final(self).left_mouse_pressed_pos == if final(self).was_left_mouse_pressed {
                mouse_pos
            } else {
                old(self).left_mouse_pressed_pos
            },
            final(self).was_left_mouse_released == (!is_left_mouse_down
                && old(self).is_left_mouse_down),
            final(self).left_mouse_released_pos == if final(self).was_left_mouse_released {
                mouse_pos
            } else {
                old(self).left_mouse_released_pos
            },
    {
        self.mouse_pos = mouse_pos;

        self.was_left_mouse_pressed = is_left_mouse_down && !self.is_left_mouse_down;
        if self.was_left_mouse_pressed {
            self.left_mouse_pressed_pos = mouse_pos;
        }
        self.was_left_mouse_released = !is_left_mouse_down && self.is_left_mouse_down;
        if self.was_left_mouse_released {
            self.left_mouse_released_pos = mouse_pos;
        }

        self.last_is_left_mouse_down = self.is_left_mouse_down;
        self.is_left_mouse_down = is_left_mouse_down;
    }

    /// The interaction of the pointer with a widget at `pos` of extent `size`.
    pub open spec fn spec_interaction(&self, pos: (i32, i32), size: (i32, i32)) -> Interaction {
        let over = spec_in_bounds(pos, size, self.mouse_pos);
        let pressed_over = spec_in_bounds(pos, size, self.left_mouse_pressed_pos);
        let released_over = spec_in_bounds(pos, size, self.left_mouse_released_pos);
        Interaction {
            hovered: over && !self.is_left_mouse_down,
            down: over && self.is_left_mouse_down && pressed_over,
            clicked: self.was_left_mouse_released && pressed_over && released_over,
        }
    }

    /// Hit-tests a widget at `pos` of extent `size` against this frame's input.
    pub fn interaction(&self, pos: (i32, i32), size: (i32, i32)) -> (r: Interaction)
        ensures
            r == self.spec_interaction(pos, size),
    {
        let over = is_in_bounds(pos, size, self.mouse_pos);
        let pressed_over = is_in_bounds(pos, size, self.left_mouse_pressed_pos);
        let released_over = is_in_bounds(pos, size, self.left_mouse_released_pos);
        Interaction {
            hovered: over && !self.is_left_mouse_down,
            down: over && self.is_left_mouse_down && pressed_over,
            clicked: self.was_left_mouse_released && pressed_over && released_over,
        }
    }
}

} // verus!
