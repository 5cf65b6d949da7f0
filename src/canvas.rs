use vstd::prelude::*;

verus! {

/// The pixel at column `px` and row `py` of a row-major buffer `width` pixels wide.
pub open spec fn pixel_at(buf: Seq<u32>, width: int, px: int, py: int) -> u32 {
    buf[py * width + px]
}

/// Whether `(px, py)` lies in the rectangle at `(x, y)` of extent `w` by `h`.
pub open spec fn in_rect(x: int, y: int, w: int, h: int, px: int, py: int) -> bool {
    x <= px < x + w && y <= py < y + h
}

/// A drawing: the value that it puts at each position, if any.
pub type Paint = spec_fn(int, int) -> Option<u32>;

/// The drawing that puts `value` at every position that `covers` holds of.
pub open spec fn solid(covers: spec_fn(int, int) -> bool, value: u32) -> Paint {
    |px: int, py: int|
        if covers(px, py) {
            Some(value)
        } else {
            None
        }
}

/// `top` drawn after `bottom`.
pub open spec fn over(top: Paint, bottom: Paint) -> Paint {
    |px: int, py: int|
        if top(px, py) is Some {
            top(px, py)
        } else {
            bottom(px, py)
        }
}

/// `after` is `before` with `paint` drawn over it on a `width` by `height`
/// canvas: each pixel of the canvas holds what `paint` puts there, or else keeps
/// its value, and nothing outside the canvas is touched.
pub open spec fn repainted(before: Seq<u32>, after: Seq<u32>, width: int, height: int, paint: Paint) -> bool {
    &&& after.len() == before.len()
    &&& forall|px: int, py: int|
        0 <= px < width && 0 <= py < height ==> #[trigger] pixel_at(after, width, px, py) == match paint(px, py) {
            Some(v) => v,
            None => pixel_at(before, width, px, py),
        }
}

/// Positions on the canvas have distinct indices inside the buffer.
pub proof fn lemma_pixel_index(width: int, height: int, px: int, py: int, qx: int, qy: int)
    requires
        0 <= px < width,
        0 <= py < height,
        0 <= qx < width,
        0 <= qy < height,
    ensures
        0 <= py * width + px < width * height,
        (px != qx || py != qy) ==> py * width + px != qy * width + qx,
{
    assert(0 <= py * width + px < width * height) by (nonlinear_arith)
        requires 0 <= px < width, 0 <= py < height;
    if py < qy {
        assert(py * width + px < qy * width + qx) by (nonlinear_arith)
            requires 0 <= px < width, 0 <= qx, py < qy;
    } else if qy < py {
        assert(qy * width + qx < py * width + px) by (nonlinear_arith)
            requires 0 <= qx < width, 0 <= px, qy < py;
    }
}

/// Drawing one thing and then another is drawing the second over the first.
pub proof fn lemma_repainted_then(a: Seq<u32>, b: Seq<u32>, c: Seq<u32>, width: int, height: int, first: Paint, second: Paint)
    requires
        repainted(a, b, width, height, first),
        repainted(b, c, width, height, second),
    ensures
        repainted(a, c, width, height, over(second, first)),
{
    assert forall|px: int, py: int| 0 <= px < width && 0 <= py < height implies #[trigger] pixel_at(c, width, px, py) == match over(second, first)(px, py) {
        Some(v) => v,
        None => pixel_at(a, width, px, py),
    } by {
        assert(pixel_at(b, width, px, py) == pixel_at(b, width, px, py));
    }
}

/// Two drawings that put the same values on the canvas draw the same thing.
pub proof fn lemma_repainted_equiv(a: Seq<u32>, b: Seq<u32>, width: int, height: int, p: Paint, q: Paint)
    requires
        repainted(a, b, width, height, p),
        forall|px: int, py: int| 0 <= px < width && 0 <= py < height ==> #[trigger] p(px, py) == q(px, py),
    ensures
        repainted(a, b, width, height, q),
{
    assert forall|px: int, py: int| 0 <= px < width && 0 <= py < height implies #[trigger] pixel_at(b, width, px, py) == match q(px, py) {
        Some(v) => v,
        None => pixel_at(a, width, px, py),
    } by {
        assert(p(px, py) == q(px, py));
    }
}

/// On a canvas that the buffer covers exactly, what a drawing leaves is fixed
/// by what was there before.
pub proof fn lemma_repainted_unique(before: Seq<u32>, a: Seq<u32>, b: Seq<u32>, width: int, height: int, paint: Paint)
    requires
        before.len() == width * height,
        0 <= width,
        0 <= height,
        repainted(before, a, width, height, paint),
        repainted(before, b, width, height, paint),
    ensures
        a == b,
{
    assert forall|i: int| 0 <= i < a.len() implies a[i] == b[i] by {
        let px = i % width;
        let py = i / width;
        assert(0 <= px < width && 0 <= py < height && i == py * width + px) by (nonlinear_arith)
            requires 0 <= i < width * height, px == i % width, py == i / width, 0 <= height;
        assert(pixel_at(a, width, px, py) == pixel_at(b, width, px, py));
    }
    assert(a =~= b);
}

} // verus!
