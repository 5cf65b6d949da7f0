use vstd::prelude::*;
use vstd::string::*;

use crate::canvas::{
    in_rect, lemma_pixel_index, lemma_repainted_equiv, lemma_repainted_then, over, pixel_at, repainted, solid, Paint,
};
use crate::color::{Color, Palette};
use crate::context::{Context, Interaction};
use crate::font::{glyph_index, row_has, Font};

verus! {

/// Sets the pixels of `[x0, x1) × [y0, y1)` in a `width` by `height` buffer to `value`.
fn fill_span(buf: &mut Vec<u32>, width: usize, height: usize, x0: usize, x1: usize, y0: usize, y1: usize, value: u32)
    requires
        old(buf)@.len() == width * height,
        x0 <= x1 <= width,
        y0 <= y1 <= height,
    ensures
        repainted(old(buf)@, final(buf)@, width as int, height as int, solid(|px: int, py: int| x0 <= px < x1 && y0 <= py < y1, value)),
{
    let ghost before = buf@;
    let total = buf.len();
    let mut y: usize = y0;
    while y < y1
        invariant
            buf@.len() == width * height,
            total == width * height,
            before.len() == width * height,
            x0 <= x1 <= width,
            y0 <= y <= y1 <= height,
            forall|px: int, py: int| 0 <= px < width && 0 <= py < height ==> #[trigger] pixel_at(buf@, width as int, px, py) == if x0 <= px < x1 && y0 <= py < y {
                value
            } else {
                pixel_at(before, width as int, px, py)
            },
        decreases y1 - y,
    {
        let mut x: usize = x0;
        while x < x1
            invariant
                buf@.len() == width * height,
                total == width * height,
                before.len() == width * height,
                x0 <= x <= x1 <= width,
                y0 <= y < y1 <= height,
                forall|px: int, py: int| 0 <= px < width && 0 <= py < height ==> #[trigger] pixel_at(buf@, width as int, px, py) == if x0 <= px < x1 && y0 <= py < y || (py == y && x0 <= px < x) {
                    value
                } else {
                    pixel_at(before, width as int, px, py)
                },
            decreases x1 - x,
        {
            proof {
                lemma_pixel_index(width as int, height as int, x as int, y as int, 0, 0);
            }
            let ghost prev = buf@;
            let i: usize = y * width + x;
            buf.set(i, value);
            proof {
                assert forall|px: int, py: int| 0 <= px < width && 0 <= py < height implies #[trigger] pixel_at(buf@, width as int, px, py) == if x0 <= px < x1 && y0 <= py < y || (py == y && x0 <= px < x + 1) {
                    value
                } else {
                    pixel_at(before, width as int, px, py)
                } by {
                    lemma_pixel_index(width as int, height as int, x as int, y as int, px, py);
                    lemma_pixel_index(width as int, height as int, px, py, x as int, y as int);
                    assert(pixel_at(prev, width as int, px, py) == pixel_at(prev, width as int, px, py));
                    assert(pixel_at(prev, width as int, px, py) == if x0 <= px < x1 && y0 <= py < y || (py == y && x0 <= px < x) {
                        value
                    } else {
                        pixel_at(before, width as int, px, py)
                    });
                    if px != x || py != y {
                        assert(buf@[py * width + px] == prev[py * width + px]);
                    } else {
                        assert(buf@[py * width + px] == value);
                    }
                }
            }
            x = x + 1;
        }
        y = y + 1;
    }
}

/// Whether `(px, py)` lies on the one-pixel outline drawn just outside the
/// rectangle at `(x, y)` of extent `w` by `h`: its four sides are the rows above
/// and below and the columns left and right of the rectangle, each running two
/// pixels longer than the side it borders.
pub open spec fn on_outline(x: int, y: int, w: int, h: int, px: int, py: int) -> bool {
    ||| in_rect(x - 1, y - 1, w + 2, 1, px, py)
    ||| in_rect(x - 1, y + h, w + 2, 1, px, py)
    ||| in_rect(x - 1, y - 1, 1, h + 2, px, py)
    ||| in_rect(x + w, y - 1, 1, h + 2, px, py)
}

/// What `rect` draws: the outline in `stroke` over the interior in `fill`, each
/// only when given.
pub open spec fn rect_paint(x: int, y: int, w: int, h: int, fill: Option<u32>, stroke: Option<u32>) -> Paint {
    |px: int, py: int|
        if stroke is Some && on_outline(x, y, w, h, px, py) {
            stroke
        } else if fill is Some && in_rect(x, y, w, h, px, py) {
            fill
        } else {
            None
        }
}

/// Whether the glyph whose rows are `rows`, drawn with its top-left corner at
/// `(left, top)`, sets `(px, py)`.
pub open spec fn glyph_covers(rows: Seq<u8>, left: int, top: int, px: int, py: int) -> bool {
    &&& left <= px < left + 8
    &&& top <= py < top + 8
    &&& row_has(rows[py - top], px - left)
}

/// Whether `s` drawn in the font `glyphs` from `(x, y)` sets `(px, py)`: the
/// character at `k` takes the eight columns from `x + 8 * k`, and characters
/// that the font lacks are drawn as its first glyph, the space.
pub open spec fn text_covers(glyphs: Seq<Seq<u8>>, x: int, y: int, s: Seq<char>, px: int, py: int) -> bool {
    let k = (px - x) / 8;
    &&& x <= px
    &&& k < s.len()
    &&& glyph_covers(glyphs[glyph_index(glyphs.len() as int, (s[k] as u32) as int)], x + 8 * k, y, px, py)
}

/// Sets, inside the canvas, the pixels of a glyph drawn at `(left, top)`.
fn blit_glyph(buf: &mut Vec<u32>, width: usize, height: usize, rows: &Vec<u8>, left: i64, top: i64, value: u32)
    requires
        old(buf)@.len() == width * height,
        width <= i32::MAX,
        height <= i32::MAX,
        rows@.len() == 8,
        -0x1_0000_0000 <= left <= 0x1_0000_0000,
        -0x1_0000_0000 <= top <= 0x1_0000_0000,
    ensures
        repainted(old(buf)@, final(buf)@, width as int, height as int, solid(|px: int, py: int| glyph_covers(rows@, left as int, top as int, px, py), value)),
{
    let ghost before = buf@;
    let total = buf.len();
    let mut r: usize = 0;
    while r < 8
        invariant
            buf@.len() == width * height,
            total == width * height,
            width <= i32::MAX,
            height <= i32::MAX,
            rows@.len() == 8,
            -0x1_0000_0000 <= left <= 0x1_0000_0000,
            -0x1_0000_0000 <= top <= 0x1_0000_0000,
            r <= 8,
            forall|px: int, py: int| 0 <= px < width && 0 <= py < height ==> #[trigger] pixel_at(buf@, width as int, px, py) == if glyph_covers(rows@, left as int, top as int, px, py) && py - top < r {
                value
            } else {
                pixel_at(before, width as int, px, py)
            },
        decreases 8 - r,
    {
        let row = rows[r];
        let mut c: usize = 0;
        while c < 8
            invariant
                buf@.len() == width * height,
                total == width * height,
                width <= i32::MAX,
                height <= i32::MAX,
                rows@.len() == 8,
                -0x1_0000_0000 <= left <= 0x1_0000_0000,
                -0x1_0000_0000 <= top <= 0x1_0000_0000,
                r < 8,
                c <= 8,
                row == rows@[r as int],
                forall|px: int, py: int| 0 <= px < width && 0 <= py < height ==> #[trigger] pixel_at(buf@, width as int, px, py) == if glyph_covers(rows@, left as int, top as int, px, py) && (py - top < r || (py - top == r && px - left < c)) {
                    value
                } else {
                    pixel_at(before, width as int, px, py)
                },
            decreases 8 - c,
        {
            let px = left + c as i64;
            let py = top + r as i64;
            let ghost prev = buf@;
            let set = (row >> ((7 - c) as u8)) & 1u8 == 1u8;
            if set && 0 <= px && px < width as i64 && 0 <= py && py < height as i64 {
                proof {
                    lemma_pixel_index(width as int, height as int, px as int, py as int, 0, 0);
                }
                let i: usize = py as usize * width + px as usize;
                buf.set(i, value);
            }
            proof {
                assert forall|qx: int, qy: int| 0 <= qx < width && 0 <= qy < height implies #[trigger] pixel_at(buf@, width as int, qx, qy) == if glyph_covers(rows@, left as int, top as int, qx, qy) && (qy - top < r || (qy - top == r && qx - left < c + 1)) {
                    value
                } else {
                    pixel_at(before, width as int, qx, qy)
                } by {
                    lemma_pixel_index(width as int, height as int, qx, qy, qx, qy);
                    assert(pixel_at(prev, width as int, qx, qy) == if glyph_covers(rows@, left as int, top as int, qx, qy) && (qy - top < r || (qy - top == r && qx - left < c)) {
                        value
                    } else {
                        pixel_at(before, width as int, qx, qy)
                    });
                    if set && 0 <= px && px < width as i64 && 0 <= py && py < height as i64 {
                        lemma_pixel_index(width as int, height as int, px as int, py as int, qx, qy);
                        if qx != px || qy != py {
                            assert(buf@[qy * width + qx] == prev[qy * width + qx]);
                        } else {
                            assert(buf@[qy * width + qx] == value);
                        }
                    }
                }
            }
            c = c + 1;
        }
        r = r + 1;
    }
}

/// Space in pixels between a button's edge and its label.
pub const BUTTON_PADDING: i32 = 4;

/// The extent of a button whose label is `len` bytes long: the label's cell
/// size with the padding added on every side.
pub open spec fn button_size(len: int) -> (int, int) {
    (len * 8 + 8, 16int)
}

/// Background of a button: light while held down on it, dark while hovered,
/// darkest otherwise.
pub open spec fn button_background(i: Interaction) -> Color {
    if i.down {
        Color::Light
    } else if i.hovered {
        Color::Dark
    } else {
        Color::Darkest
    }
}

/// Label colour of a button: darkest while held down on it, lightest otherwise.
pub open spec fn button_label(i: Interaction) -> Color {
    if i.down {
        Color::Darkest
    } else {
        Color::Lightest
    }
}

/// Draws into a caller's pixel buffer, with the colours and font of a session.
pub struct Painter<'a, P: Palette> {
    pub context: &'a Context<P>,
    pub buffer: &'a mut Vec<u32>,
    pub width: usize,
    pub height: usize,
}

impl<'a, P: Palette> Painter<'a, P> {
    /// The buffer holds one pixel per position, and positions fit in an `i32`.
    pub open spec fn wf(&self) -> bool {
        &&& self.buffer@.len() == self.width * self.height
        &&& self.width <= i32::MAX
        &&& self.height <= i32::MAX
        &&& self.context.wf()
    }

    /// The pixel value of `color` in the session's palette.
    pub open spec fn value_of(&self, color: Color) -> u32 {
        self.context.palette.spec_color(color)
    }

    /// `after` draws on the same buffer, with the same session, as `self`.
    pub open spec fn same_target(&self, after: &Self) -> bool {
        &&& after.context == self.context
        &&& after.width == self.width
        &&& after.height == self.height
    }

    /// `after`'s buffer is this one's with `paint` drawn over it.
    pub open spec fn draws(&self, after: &Self, paint: Paint) -> bool {
        &&& self.same_target(after)
        &&& repainted(self.buffer@, after.buffer@, self.width as int, self.height as int, paint)
    }

    /// The pixel value of an optional colour.
    pub open spec fn value_opt(&self, color: Option<Color>) -> Option<u32> {
        match color {
            Some(c) => Some(self.value_of(c)),
            None => None,
        }
    }

    pub fn new(context: &'a Context<P>, buffer: &'a mut Vec<u32>, width: usize, height: usize) -> (r: Painter<'a, P>)
        requires
            old(buffer)@.len() == width * height,
            width <= i32::MAX,
            height <= i32::MAX,
            context.wf(),
        ensures
            r.wf(),
            r.context == context,
            *r.buffer == *old(buffer),
            *final(buffer) == *final(r.buffer),
            r.width == width,
            r.height == height,
    {
        Painter { context, buffer, width, height }
    }

    /// Fills the part of a rectangle that lies on the canvas.
    fn fill_rect(&mut self, x: i64, y: i64, w: i64, h: i64, value: u32)
        requires
            old(self).wf(),
            -0x1_0000_0000 <= x <= 0x1_0000_0000,
            -0x1_0000_0000 <= y <= 0x1_0000_0000,
            -0x1_0000_0000 <= w <= 0x1_0000_0000,
            -0x1_0000_0000 <= h <= 0x1_0000_0000,
        ensures
            final(self).wf(),
            old(self).draws(final(self), solid(|px: int, py: int| in_rect(x as int, y as int, w as int, h as int, px, py), value)),
            *final(final(self).buffer) == *final(old(self).buffer),
    {
        let width = self.width as i64;
        let height = self.height as i64;
        let x0: i64 = if x < 0 { 0 } else { x };
        let y0: i64 = if y < 0 { 0 } else { y };
        let x1: i64 = if x + w > width { width } else { x + w };
        let y1: i64 = if y + h > height { height } else { y + h };
        let ghost before = self.buffer@;
        if x0 < x1 && y0 < y1 {
            fill_span(self.buffer, self.width, self.height, x0 as usize, x1 as usize, y0 as usize, y1 as usize, value);
        }
        proof {
            let paint = solid(|px: int, py: int| in_rect(x as int, y as int, w as int, h as int, px, py), value);
            assert forall|px: int, py: int| 0 <= px < width && 0 <= py < height implies #[trigger] pixel_at(self.buffer@, width as int, px, py) == match paint(px, py) {
                Some(v) => v,
                None => pixel_at(before, width as int, px, py),
            } by {
                assert(pixel_at(before, width as int, px, py) == pixel_at(before, width as int, px, py));
            }
        }
    }

    /// Sets every pixel of the canvas to `color`.
    pub fn clear(&mut self, color: Color)
        requires
            old(self).wf(),
        ensures
            final(self).wf(),
            old(self).draws(final(self), solid(|px: int, py: int| true, old(self).value_of(color))),
            *final(final(self).buffer) == *final(old(self).buffer),
    {
        let value = self.context.palette.color(color);
        fill_span(self.buffer, self.width, self.height, 0, self.width, 0, self.height, value);
        proof {
            let old_paint = solid(|px: int, py: int| 0 <= px < self.width && 0 <= py < self.height, value);
            let new_paint = solid(|px: int, py: int| true, value);
            lemma_repainted_equiv(old(self).buffer@, self.buffer@, self.width as int, self.height as int, old_paint, new_paint);
        }
    }

    /// A one-pixel row from `(x, y)` running `width` pixels right, clipped to the canvas.
    pub fn horizontal_line(&mut self, x: i32, width: i32, y: i32, stroke: Color)
        requires
            old(self).wf(),
        ensures
            final(self).wf(),
            old(self).draws(final(self), solid(|px: int, py: int| in_rect(x as int, y as int, width as int, 1, px, py), old(self).value_of(stroke))),
            *final(final(self).buffer) == *final(old(self).buffer),
    {
        let value = self.context.palette.color(stroke);
        self.fill_rect(x as i64, y as i64, width as i64, 1, value);
    }

    /// A one-pixel column from `(x, y)` running `height` pixels down, clipped to the canvas.
    pub fn vertical_line(&mut self, y: i32, height: i32, x: i32, stroke: Color)
        requires
            old(self).wf(),
        ensures
            final(self).wf(),
            old(self).draws(final(self), solid(|px: int, py: int| in_rect(x as int, y as int, 1, height as int, px, py), old(self).value_of(stroke))),
            *final(final(self).buffer) == *final(old(self).buffer),
    {
        let value = self.context.palette.color(stroke);
        self.fill_rect(x as i64, y as i64, 1, height as i64, value);
    }

    /// A rectangle at `(x, y)` of extent `width` by `height`, filled with `fill`
    /// and outlined just outside its edges with `stroke`, either one optional;
    /// whatever falls outside the canvas is left out.
    pub fn rect(&mut self, x: i32, y: i32, width: i32, height: i32, fill: Option<Color>, stroke: Option<Color>)
        requires
            old(self).wf(),
        ensures
            final(self).wf(),
            old(self).draws(final(self), rect_paint(x as int, y as int, width as int, height as int, old(self).value_opt(fill), old(self).value_opt(stroke))),
            *final(final(self).buffer) == *final(old(self).buffer),
    {
        let ghost (x_, y_, w_, h_) = (x as int, y as int, width as int, height as int);
        let ghost (cw, ch) = (self.width as int, self.height as int);
        let ghost b0 = self.buffer@;
        let x = x as i64;
        let y = y as i64;
        let width = width as i64;
        let height = height as i64;
        let ghost mut paint: Paint = |px: int, py: int| None;
        assert(repainted(b0, self.buffer@, cw, ch, paint));
        if let Some(fill) = fill {
            let value = self.context.palette.color(fill);
            self.fill_rect(x, y, width, height, value);
            proof {
                let p = solid(|px: int, py: int| in_rect(x_, y_, w_, h_, px, py), value);
                lemma_repainted_equiv(b0, self.buffer@, cw, ch, p, over(p, paint));
                paint = over(p, paint);
            }
        }
        let ghost b1 = self.buffer@;
        if let Some(stroke) = stroke {
            let value = self.context.palette.color(stroke);
            self.fill_rect(x - 1, y - 1, width + 2, 1, value);
            let ghost b2 = self.buffer@;
            self.fill_rect(x - 1, y + height, width + 2, 1, value);
            let ghost b3 = self.buffer@;
            self.fill_rect(x - 1, y - 1, 1, height + 2, value);
            let ghost b4 = self.buffer@;
            self.fill_rect(x + width, y - 1, 1, height + 2, value);
            proof {
                let top_side = solid(|px: int, py: int| in_rect(x_ - 1, y_ - 1, w_ + 2, 1, px, py), value);
                let bottom_side = solid(|px: int, py: int| in_rect(x_ - 1, y_ + h_, w_ + 2, 1, px, py), value);
                let left_side = solid(|px: int, py: int| in_rect(x_ - 1, y_ - 1, 1, h_ + 2, px, py), value);
                let right_side = solid(|px: int, py: int| in_rect(x_ + w_, y_ - 1, 1, h_ + 2, px, py), value);
                lemma_repainted_then(b0, b1, b2, cw, ch, paint, top_side);
                lemma_repainted_then(b0, b2, b3, cw, ch, over(top_side, paint), bottom_side);
                lemma_repainted_then(b0, b3, b4, cw, ch, over(bottom_side, over(top_side, paint)), left_side);
                lemma_repainted_then(b0, b4, self.buffer@, cw, ch, over(left_side, over(bottom_side, over(top_side, paint))), right_side);
                paint = over(right_side, over(left_side, over(bottom_side, over(top_side, paint))));
            }
        }
        proof {
            let target = rect_paint(x_, y_, w_, h_, old(self).value_opt(fill), old(self).value_opt(stroke));
            lemma_repainted_equiv(b0, self.buffer@, cw, ch, paint, target);
        }
    }

    /// Draws `string` in `color` from `(x, y)`, one glyph cell per character,
    /// leaving out whatever falls outside the canvas.
    pub fn text(&mut self, x: i32, y: i32, color: Color, string: &str)
        requires
            old(self).wf(),
        ensures
            final(self).wf(),
            old(self).draws(final(self), solid(|px: int, py: int| text_covers(old(self).context.font@, x as int, y as int, string@, px, py), old(self).value_of(color))),
            *final(final(self).buffer) == *final(old(self).buffer),
    {
        let value = self.context.palette.color(color);
        let ghost b0 = self.buffer@;
        let ghost glyphs = self.context.font@;
        let ghost (cw, ch) = (self.width as int, self.height as int);
        let count = self.context.font.chars.len();
        let mut pen: i64 = x as i64;
        let ghost mut k: int = 0;
        for c in it: string.chars()
            invariant
                self.wf(),
                self.context == old(self).context,
                self.width == old(self).width,
                self.height == old(self).height,
                *final(self.buffer) == *final(old(self).buffer),
                glyphs == self.context.font@,
                count == glyphs.len(),
                b0 == old(self).buffer@,
                cw == self.width,
                ch == self.height,
                it.seq() == string@,
                k == it.index(),
                pen < self.width ==> pen == x + 8 * k,
                pen >= self.width ==> x + 8 * k >= pen,
                pen < self.width + 8 || pen == x,
                pen >= x,
                repainted(b0, self.buffer@, cw, ch, solid(|px: int, py: int| text_covers(glyphs, x as int, y as int, string@.take(k), px, py), value)),
        {
            let ghost b1 = self.buffer@;
            let code = c as u32 as usize;
            let ghost before = solid(|px: int, py: int| text_covers(glyphs, x as int, y as int, string@.take(k), px, py), value);
            let ghost after = solid(|px: int, py: int| text_covers(glyphs, x as int, y as int, string@.take(k + 1), px, py), value);
            if pen < self.width as i64 {
                let index: usize = if code >= 32 && code - 32 < count {
                    code - 32
                } else {
                    0
                };
                let rows = &self.context.font.chars[index];
                blit_glyph(self.buffer, self.width, self.height, rows, pen, y as i64, value);
                proof {
                    assert(c == string@[k]);
                    assert(code as int == (string@[k] as u32) as int);
                    assert(index as int == glyph_index(glyphs.len() as int, (string@[k] as u32) as int));
                    let glyph = solid(|px: int, py: int| glyph_covers(rows@, pen as int, (y as i64) as int, px, py), value);
                    assert(repainted(b1, self.buffer@, cw, ch, glyph));
                    lemma_repainted_then(b0, b1, self.buffer@, cw, ch, before, glyph);
                    assert forall|px: int, py: int| 0 <= px < cw && 0 <= py < ch implies #[trigger] over(glyph, before)(px, py) == after(px, py) by {
                        lemma_text_step(glyphs, x as int, y as int, string@, k, px, py);
                    }
                    lemma_repainted_equiv(b0, self.buffer@, cw, ch, over(glyph, before), after);
                }
                pen = pen + 8;
            } else {
                proof {
                    assert forall|px: int, py: int| 0 <= px < cw && 0 <= py < ch implies #[trigger] before(px, py) == after(px, py) by {
                        lemma_text_step(glyphs, x as int, y as int, string@, k, px, py);
                        assert(px < x + 8 * k);
                    }
                    lemma_repainted_equiv(b0, self.buffer@, cw, ch, before, after);
                }
            }
            proof {
                k = k + 1;
            }
        }
        proof {
            assert(string@.take(k) =~= string@);
        }
    }
}

impl<'a, P: Palette> Painter<'a, P> {
    /// What a button at `(x, y)` labelled `s` draws: its padded rectangle with
    /// a light outline, and its label over it.
    pub open spec fn button_paint(&self, x: int, y: int, s: Seq<char>, len: int) -> Paint {
        let size = button_size(len);
        let i = self.context.spec_interaction((x as i32, y as i32), (size.0 as i32, size.1 as i32));
        over(
            solid(|px: int, py: int| text_covers(self.context.font@, x + 4, y + 4, s, px, py), self.value_of(button_label(i))),
            rect_paint(x, y, size.0, size.1, Some(self.value_of(button_background(i))), Some(self.value_of(Color::Light))),
        )
    }

    /// A button at `(x, y)` labelled `string`: hit-tested against this frame's
    /// input, then drawn. Returns whether it was clicked this frame.
    pub fn button(&mut self, x: i32, y: i32, string: &str) -> (clicked: bool)
        requires
            old(self).wf(),
            string.spec_bytes().len() * 8 + 8 <= i32::MAX,
            x + 4 <= i32::MAX,
            y + 4 <= i32::MAX,
        ensures
            final(self).wf(),
            clicked == old(self).context.spec_interaction((x, y), (button_size(string.spec_bytes().len() as int).0 as i32, button_size(string.spec_bytes().len() as int).1 as i32)).clicked,
            old(self).draws(final(self), old(self).button_paint(x as int, y as int, string@, string.spec_bytes().len() as int)),
            *final(final(self).buffer) == *final(old(self).buffer),
    {
        let padding = BUTTON_PADDING;
        let font_metrics = Font::measure(string);
        let total_size = (font_metrics.0 + padding * 2, font_metrics.1 + padding * 2);
        let interaction = self.context.interaction((x, y), total_size);
        let bg_color = if interaction.down {
            Color::Light
        } else if interaction.hovered {
            Color::Dark
        } else {
            Color::Darkest
        };
        let text_color = if interaction.down {
            Color::Darkest
        } else {
            Color::Lightest
        };
        let ghost b0 = self.buffer@;
        self.rect(x, y, total_size.0, total_size.1, Some(bg_color), Some(Color::Light));
        let ghost b1 = self.buffer@;
        self.text(x + padding, y + padding, text_color, string);
        proof {
            let first = rect_paint(x as int, y as int, total_size.0 as int, total_size.1 as int, old(self).value_opt(Some(bg_color)), old(self).value_opt(Some(Color::Light)));
            let second = solid(|px: int, py: int| text_covers(old(self).context.font@, (x + padding) as int, (y + padding) as int, string@, px, py), old(self).value_of(text_color));
            lemma_repainted_then(b0, b1, self.buffer@, self.width as int, self.height as int, first, second);
            let target = old(self).button_paint(x as int, y as int, string@, string.spec_bytes().len() as int);
            lemma_repainted_equiv(b0, self.buffer@, self.width as int, self.height as int, over(second, first), target);
        }
        interaction.clicked
    }
}

/// Drawing the character at `k` adds its glyph to the prefix before it.
proof fn lemma_text_step(glyphs: Seq<Seq<u8>>, x: int, y: int, s: Seq<char>, k: int, px: int, py: int)
    requires
        0 <= k < s.len(),
    ensures
        text_covers(glyphs, x, y, s.take(k + 1), px, py) == (glyph_covers(glyphs[glyph_index(glyphs.len() as int, (s[k] as u32) as int)], x + 8 * k, y, px, py)
            || text_covers(glyphs, x, y, s.take(k), px, py)),
{
    if x <= px {
        let j = (px - x) / 8;
        assert(x + 8 * j <= px < x + 8 * j + 8);
        if j == k {
            assert(s.take(k + 1)[k] == s[k]);
        } else if j < k {
            assert(s.take(k + 1)[j] == s.take(k)[j]);
        }
    }
}

} // verus!
