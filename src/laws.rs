use vstd::prelude::*;

use crate::canvas::{in_rect, lemma_repainted_unique, pixel_at, repainted, solid};
use crate::painter::{on_outline, rect_paint, text_covers};

verus! {

/// A rectangle that lies wholly on the canvas: every one of its `w * h` pixels
/// takes the fill colour, every pixel of its outline on the canvas takes the
/// stroke colour, and every other pixel keeps its value.
pub proof fn lemma_rect_inside_canvas(
    before: Seq<u32>,
    after: Seq<u32>,
    width: int,
    height: int,
    x: int,
    y: int,
    w: int,
    h: int,
    fill: u32,
    stroke: u32,
)
    requires
        0 <= x,
        0 <= y,
        0 <= w,
        0 <= h,
        x + w <= width,
        y + h <= height,
        repainted(before, after, width, height, rect_paint(x, y, w, h, Some(fill), Some(stroke))),
    ensures
        after.len() == before.len(),
        forall|px: int, py: int| #[trigger] in_rect(x, y, w, h, px, py) ==> pixel_at(after, width, px, py) == fill,
        forall|px: int, py: int|
            0 <= px < width && 0 <= py < height && #[trigger] on_outline(x, y, w, h, px, py) ==> pixel_at(after, width, px, py) == stroke,
        forall|px: int, py: int|
            0 <= px < width && 0 <= py < height && !in_rect(x, y, w, h, px, py) && !on_outline(x, y, w, h, px, py)
                ==> #[trigger] pixel_at(after, width, px, py) == pixel_at(before, width, px, py),
{
    assert forall|px: int, py: int| #[trigger] in_rect(x, y, w, h, px, py) implies pixel_at(after, width, px, py) == fill by {
        assert(!on_outline(x, y, w, h, px, py));
        assert(pixel_at(after, width, px, py) == pixel_at(after, width, px, py));
    }
    assert forall|px: int, py: int|
        0 <= px < width && 0 <= py < height && #[trigger] on_outline(x, y, w, h, px, py) implies pixel_at(after, width, px, py) == stroke by {
        assert(pixel_at(after, width, px, py) == pixel_at(after, width, px, py));
    }
}

/// A filled rectangle that starts left of the canvas writes nothing outside the
/// buffer, and what shows is the rectangle cut at the left edge: the part from
/// column `0` to column `x + w`.
pub proof fn lemma_rect_clipped_left(before: Seq<u32>, after: Seq<u32>, width: int, height: int, x: int, y: int, w: int, h: int, fill: u32)
    requires
        x < 0,
        repainted(before, after, width, height, rect_paint(x, y, w, h, Some(fill), None)),
    ensures
        after.len() == before.len(),
        forall|px: int, py: int|
            0 <= px < width && 0 <= py < height ==> #[trigger] pixel_at(after, width, px, py) == if in_rect(0, y, x + w, h, px, py) {
                fill
            } else {
                pixel_at(before, width, px, py)
            },
{
    assert forall|px: int, py: int| 0 <= px < width && 0 <= py < height implies #[trigger] pixel_at(after, width, px, py) == if in_rect(0, y, x + w, h, px, py) {
        fill
    } else {
        pixel_at(before, width, px, py)
    } by {
        assert(pixel_at(after, width, px, py) == pixel_at(after, width, px, py));
    }
}

/// Text drawn twice with the same arguments on a freshly cleared canvas gives
/// the same pixels both times: drawing text depends on nothing but its arguments.
pub proof fn lemma_text_repeatable(
    glyphs: Seq<Seq<u8>>,
    width: int,
    height: int,
    background: u32,
    cleared: Seq<u32>,
    first: Seq<u32>,
    second: Seq<u32>,
    x: int,
    y: int,
    s: Seq<char>,
    value: u32,
)
    requires
        0 <= width,
        0 <= height,
        cleared.len() == width * height,
        forall|i: int| 0 <= i < cleared.len() ==> cleared[i] == background,
        repainted(cleared, first, width, height, solid(|px: int, py: int| text_covers(glyphs, x, y, s, px, py), value)),
        repainted(cleared, second, width, height, solid(|px: int, py: int| text_covers(glyphs, x, y, s, px, py), value)),
    ensures
        first == second,
{
    lemma_repainted_unique(cleared, first, second, width, height, solid(|px: int, py: int| text_covers(glyphs, x, y, s, px, py), value));
}

/// Drawing the same text again over itself changes nothing.
pub proof fn lemma_text_idempotent(
    glyphs: Seq<Seq<u8>>,
    width: int,
    height: int,
    before: Seq<u32>,
    once: Seq<u32>,
    twice: Seq<u32>,
    x: int,
    y: int,
    s: Seq<char>,
    value: u32,
)
    requires
        0 <= width,
        0 <= height,
        before.len() == width * height,
        repainted(before, once, width, height, solid(|px: int, py: int| text_covers(glyphs, x, y, s, px, py), value)),
        repainted(once, twice, width, height, solid(|px: int, py: int| text_covers(glyphs, x, y, s, px, py), value)),
    ensures
        twice == once,
{
    let paint = solid(|px: int, py: int| text_covers(glyphs, x, y, s, px, py), value);
    assert(repainted(before, twice, width, height, paint)) by {
        assert forall|px: int, py: int| 0 <= px < width && 0 <= py < height implies #[trigger] pixel_at(twice, width, px, py) == match paint(px, py) {
            Some(v) => v,
            None => pixel_at(before, width, px, py),
        } by {
            assert(pixel_at(once, width, px, py) == pixel_at(once, width, px, py));
        }
    }
    lemma_repainted_unique(before, once, twice, width, height, paint);
}

} // verus!
