use vstd::prelude::*;

use crate::canvas::{lemma_pixel_index, lemma_repainted_equiv, lemma_repainted_then, over, pixel_at, repainted, solid};
use crate::color::{Color, Palette};
use crate::painter::Painter;

verus! {

/// `|a - b|`.
pub open spec fn dist(a: int, b: int) -> int {
    if a < b {
        b - a
    } else {
        a - b
    }
}

/// How far along the minor axis the line has moved at step `j` of `major`
/// steps, when it moves `minor` pixels along that axis in all.
pub open spec fn minor_offset(j: int, minor: int, major: int) -> int {
    let q = minor * (j + 1) / major;
    if j < q {
        j
    } else {
        q
    }
}

/// `from` moved `n` pixels toward `to`.
pub open spec fn toward(from: int, to: int, n: int) -> int {
    if to < from {
        from - n
    } else {
        from + n
    }
}

/// How many pixels `p` lies from `from` toward `to`.
pub open spec fn along(from: int, to: int, p: int) -> int {
    if to < from {
        from - p
    } else {
        p - from
    }
}

/// Whether `(px, py)` is one of the first `n + 1` pixels of the line from
/// `start` to `end`. The line takes one pixel per step along its major axis (the
/// one with the larger extent, `y` on a tie), and at step `j` of `major` it has
/// moved `minor_offset(j, minor, major)` pixels along the other axis.
pub open spec fn on_line_upto(start: (int, int), end: (int, int), n: int, px: int, py: int) -> bool {
    let a = dist(start.0, end.0);
    let b = dist(start.1, end.1);
    if a > b {
        let j = along(start.0, end.0, px);
        0 <= j <= n && py == toward(start.1, end.1, minor_offset(j, b, a))
    } else if b == 0 {
        px == start.0 && py == start.1
    } else {
        let j = along(start.1, end.1, py);
        0 <= j <= n && px == toward(start.0, end.0, minor_offset(j, a, b))
    }
}

/// Whether `(px, py)` is a pixel of the line traced from `start` toward `end`,
/// both ends included.
pub open spec fn traced_line(start: (int, int), end: (int, int), px: int, py: int) -> bool {
    let a = dist(start.0, end.0);
    let b = dist(start.1, end.1);
    on_line_upto(start, end, if a > b { a } else { b }, px, py)
}

/// The two ends of a line in the order in which it is traced: from the end with
/// the smaller coordinate along the major axis.
pub open spec fn line_ends(start: (int, int), end: (int, int)) -> ((int, int), (int, int)) {
    let a = dist(start.0, end.0);
    let b = dist(start.1, end.1);
    if (a > b && end.0 < start.0) || (a <= b && end.1 < start.1) {
        (end, start)
    } else {
        (start, end)
    }
}

/// Whether `(px, py)` is a pixel of the line between `start` and `end`, both
/// ends included. The line is traced from the end that `line_ends` puts first,
/// so it does not depend on which end is given as the start.
pub open spec fn on_line(start: (int, int), end: (int, int), px: int, py: int) -> bool {
    let ends = line_ends(start, end);
    traced_line(ends.0, ends.1, px, py)
}

/// One step of the decision variable: with `m` the minor offset at step `j`,
/// the line moves along the minor axis on the next step exactly when
/// `4 minor - 2 major + 2 minor j - 2 major m` is not negative.
proof fn lemma_minor_step(j: int, minor: int, major: int, m: int)
    requires
        0 <= minor <= major,
        0 < major,
        0 <= j < major,
        m == minor_offset(j, minor, major),
    ensures
        0 <= m <= minor,
        m <= j,
        -2 * major <= 4 * minor - 2 * major + 2 * minor * j - 2 * major * m <= 2 * minor,
        minor_offset(j + 1, minor, major) == if 4 * minor - 2 * major + 2 * minor * j - 2 * major * m >= 0 {
            m + 1
        } else {
            m
        },
        minor_offset(j + 1, minor, major) <= minor,
{
    let n = minor * (j + 1);
    let q = n / major;
    let n2 = minor * (j + 2);
    let q2 = n2 / major;
    assert(0 <= n) by (nonlinear_arith)
        requires 0 <= minor, 0 <= j, n == minor * (j + 1);
    assert(major * q <= n < major * (q + 1)) by (nonlinear_arith)
        requires 0 < major, q == n / major, 0 <= n;
    assert(major * q2 <= n2 < major * (q2 + 1)) by (nonlinear_arith)
        requires 0 < major, q2 == n2 / major, 0 <= n2;
    assert(n2 == n + minor) by (nonlinear_arith)
        requires n == minor * (j + 1), n2 == minor * (j + 2);
    if minor == major {
        assert(q == j + 1) by (nonlinear_arith)
            requires major * q <= n < major * (q + 1), n == minor * (j + 1), minor == major, 0 < major;
        assert(q2 == j + 2) by (nonlinear_arith)
            requires major * q2 <= n2 < major * (q2 + 1), n2 == minor * (j + 2), minor == major, 0 < major;
        assert(4 * minor - 2 * major + 2 * minor * j - 2 * major * m == 2 * minor) by (nonlinear_arith)
            requires minor == major, m == j, 0 < major;
    } else {
        assert(q <= j) by (nonlinear_arith)
            requires major * q <= n, n == minor * (j + 1), minor < major, 0 <= j, 0 < major;
        assert(q <= minor) by (nonlinear_arith)
            requires major * q <= n, n == minor * (j + 1), j < major, 0 <= minor, 0 < major;
        assert(q <= q2 <= q + 1) by (nonlinear_arith)
            requires
                major * q <= n < major * (q + 1),
                major * q2 <= n2 < major * (q2 + 1),
                n2 == n + minor,
                0 <= minor < major;
        assert(q2 <= j + 1) by (nonlinear_arith)
            requires major * q2 <= n2, n2 == minor * (j + 2), minor < major, 0 <= j, 0 < major;
        assert(q2 <= minor) by (nonlinear_arith)
            requires major * q2 <= n2, n2 == minor * (j + 2), j + 1 < major + 1, 0 <= minor < major;
        assert((4 * minor - 2 * major + 2 * minor * j - 2 * major * q >= 0) == (q2 == q + 1)) by (nonlinear_arith)
            requires
                major * q <= n < major * (q + 1),
                major * q2 <= n2 < major * (q2 + 1),
                n == minor * (j + 1),
                n2 == minor * (j + 2),
                q <= q2 <= q + 1;
        assert(-2 * major <= 4 * minor - 2 * major + 2 * minor * j - 2 * major * q <= 2 * minor) by (nonlinear_arith)
            requires
                major * q <= n < major * (q + 1),
                n == minor * (j + 1),
                0 <= minor < major;
    }
}

/// A line holds both its ends.
pub proof fn lemma_line_ends(start: (int, int), end: (int, int))
    ensures
        on_line(start, end, start.0, start.1),
        on_line(start, end, end.0, end.1),
{
    let ends = line_ends(start, end);
    lemma_traced_ends(ends.0, ends.1);
}

/// The same line is drawn whichever end is given first.
pub proof fn lemma_line_symmetric(start: (int, int), end: (int, int), px: int, py: int)
    ensures
        on_line(start, end, px, py) == on_line(end, start, px, py),
{
    assert(line_ends(start, end) == line_ends(end, start));
}

/// A traced line holds both its ends.
proof fn lemma_traced_ends(start: (int, int), end: (int, int))
    ensures
        traced_line(start, end, start.0, start.1),
        traced_line(start, end, end.0, end.1),
{
    let a = dist(start.0, end.0);
    let b = dist(start.1, end.1);
    if a > b {
        lemma_minor_step(0, b, a, minor_offset(0, b, a));
        lemma_minor_offset_last(b, a);
    } else if b > 0 {
        lemma_minor_step(0, a, b, minor_offset(0, a, b));
        lemma_minor_offset_last(a, b);
    }
}

/// A line has no gaps: from one step to the next it moves one pixel along its
/// major axis and at most one pixel along the other.
pub proof fn lemma_line_connected(minor: int, major: int, j: int)
    requires
        0 <= minor <= major,
        0 < major,
        0 <= j < major,
    ensures
        0 <= minor_offset(j + 1, minor, major) - minor_offset(j, minor, major) <= 1,
{
    lemma_minor_step(j, minor, major, minor_offset(j, minor, major));
}

/// The last step of a line lands on its end.
proof fn lemma_minor_offset_last(minor: int, major: int)
    requires
        0 <= minor <= major,
        0 < major,
    ensures
        minor_offset(major, minor, major) == minor,
{
    let q = minor * (major + 1) / major;
    assert(q == minor + minor / major) by (nonlinear_arith)
        requires q == minor * (major + 1) / major, 0 < major, 0 <= minor;
    if minor < major {
        assert(minor / major == 0) by (nonlinear_arith)
            requires 0 <= minor < major;
    } else {
        assert(minor / major == 1) by (nonlinear_arith)
            requires minor == major, 0 < major;
    }
}

/// Sets one pixel of the canvas.
fn put_pixel(buf: &mut Vec<u32>, width: usize, height: usize, x: i64, y: i64, value: u32)
    requires
        old(buf)@.len() == width * height,
        0 <= x < width,
        0 <= y < height,
    ensures
        repainted(old(buf)@, final(buf)@, width as int, height as int, solid(|px: int, py: int| px == x && py == y, value)),
{
    proof {
        lemma_pixel_index(width as int, height as int, x as int, y as int, 0, 0);
    }
    let ghost prev = buf@;
    let total = buf.len();
    let i: usize = y as usize * width + x as usize;
    buf.set(i, value);
    proof {
        assert forall|qx: int, qy: int| 0 <= qx < width && 0 <= qy < height implies #[trigger] pixel_at(buf@, width as int, qx, qy) == if qx == x && qy == y {
            value
        } else {
            pixel_at(prev, width as int, qx, qy)
        } by {
            lemma_pixel_index(width as int, height as int, qx, qy, x as int, y as int);
            lemma_pixel_index(width as int, height as int, x as int, y as int, qx, qy);
        }
    }
}

/// The first pixel of a line is its start.
proof fn lemma_line_first(start: (int, int), end: (int, int), px: int, py: int)
    ensures
        on_line_upto(start, end, 0, px, py) == (px == start.0 && py == start.1),
{
    let a = dist(start.0, end.0);
    let b = dist(start.1, end.1);
    if a > b {
        lemma_minor_step(0, b, a, minor_offset(0, b, a));
    } else if b > 0 {
        lemma_minor_step(0, a, b, minor_offset(0, a, b));
    }
}

impl<'a, P: Palette> Painter<'a, P> {
    /// A line between `start` and `end`, both ends included, one pixel per step
    /// along the axis of larger extent, and the same pixels whichever end comes
    /// first. Both ends must lie on the canvas.
    pub fn line(&mut self, start: (i32, i32), end: (i32, i32), stroke: Color)
        requires
            old(self).wf(),
            0 <= start.0 < old(self).width,
            0 <= start.1 < old(self).height,
            0 <= end.0 < old(self).width,
            0 <= end.1 < old(self).height,
        ensures
            final(self).wf(),
            old(self).draws(final(self), solid(|px: int, py: int| on_line((start.0 as int, start.1 as int), (end.0 as int, end.1 as int), px, py), old(self).value_of(stroke))),
            *final(final(self).buffer) == *final(old(self).buffer),
    {
        let run_x: i32 = if start.0 < end.0 { end.0 - start.0 } else { start.0 - end.0 };
        let run_y: i32 = if start.1 < end.1 { end.1 - start.1 } else { start.1 - end.1 };
        let (from, to) = if (run_x > run_y && end.0 < start.0) || (run_x <= run_y && end.1 < start.1) {
            (end, start)
        } else {
            (start, end)
        };
        let ghost s = (from.0 as int, from.1 as int);
        let ghost e = (to.0 as int, to.1 as int);
        let ghost target = solid(|px: int, py: int| on_line((start.0 as int, start.1 as int), (end.0 as int, end.1 as int), px, py), self.value_of(stroke));
        assert(line_ends((start.0 as int, start.1 as int), (end.0 as int, end.1 as int)) == (s, e));
        let ghost (cw, ch) = (self.width as int, self.height as int);
        let ghost b0 = self.buffer@;
        let x0 = from.0 as i64;
        let y0 = from.1 as i64;
        let x1 = to.0 as i64;
        let y1 = to.1 as i64;
        let mut dx = x1 - x0;
        let mut dy = y1 - y0;
        let step_x: i64;
        let step_y: i64;
        if dx < 0 {
            dx = -dx;
            step_x = -1;
        } else {
            step_x = 1;
        }
        if dy < 0 {
            dy = -dy;
            step_y = -1;
        } else {
            step_y = 1;
        }
        let ghost a = dx as int;
        let ghost b = dy as int;
        dx = dx * 2;
        dy = dy * 2;

        let stroke = self.context.palette.color(stroke);
        let mut x = x0;
        let mut y = y0;
        put_pixel(self.buffer, self.width, self.height, x, y, stroke);
        proof {
            let dot = solid(|px: int, py: int| px == x && py == y, stroke);
            let first = solid(|px: int, py: int| on_line_upto(s, e, 0, px, py), stroke);
            assert forall|px: int, py: int| 0 <= px < cw && 0 <= py < ch implies #[trigger] dot(px, py) == first(px, py) by {
                lemma_line_first(s, e, px, py);
            }
            lemma_repainted_equiv(b0, self.buffer@, cw, ch, dot, first);
        }
        let ghost mut j: int = 0;
        let ghost mut m: int = 0;
        if dx > dy {
            let mut fraction: i64 = 2 * dy - dx;
            while x != x1
                invariant
                    self.wf(),
                    self.context == old(self).context,
                    self.width == old(self).width,
                    self.height == old(self).height,
                    *final(self.buffer) == *final(old(self).buffer),
                    cw == self.width,
                    ch == self.height,
                    b0 == old(self).buffer@,
                    s == (x0 as int, y0 as int),
                    e == (x1 as int, y1 as int),
                    0 <= x0 < cw,
                    0 <= x1 < cw,
                    0 <= y0 < ch,
                    0 <= y1 < ch,
                    a == dist(x0 as int, x1 as int),
                    b == dist(y0 as int, y1 as int),
                    a > b,
                    dx == 2 * a,
                    dy == 2 * b,
                    step_x == if x1 < x0 { -1int } else { 1int },
                    step_y == if y1 < y0 { -1int } else { 1int },
                    0 <= j <= a,
                    x == toward(x0 as int, x1 as int, j),
                    m == minor_offset(j, b, a),
                    y == toward(y0 as int, y1 as int, m),
                    fraction == 4 * b - 2 * a + 2 * b * j - 2 * a * m,
                    repainted(b0, self.buffer@, cw, ch, solid(|px: int, py: int| on_line_upto(s, e, j, px, py), stroke)),
                decreases a - j,
            {
                proof {
                    lemma_minor_step(j, b, a, m);
                }
                let ghost (f0, j0, m0) = (fraction as int, j, m);
                if fraction >= 0 {
                    y = y + step_y;
                    fraction = fraction - dx;
                    proof {
                        m = m + 1;
                    }
                }
                x = x + step_x;
                fraction = fraction + dy;
                let ghost b1 = self.buffer@;
                proof {
                    j = j + 1;
                    assert(fraction == f0 - 2 * a * (m - m0) + 2 * b) by (nonlinear_arith)
                        requires
                            (m == m0 && fraction == f0 + 2 * b) || (m == m0 + 1 && fraction == f0 - 2 * a + 2 * b);
                    assert(fraction == 4 * b - 2 * a + 2 * b * j - 2 * a * m) by (nonlinear_arith)
                        requires
                            f0 == 4 * b - 2 * a + 2 * b * j0 - 2 * a * m0,
                            fraction == f0 - 2 * a * (m - m0) + 2 * b,
                            j == j0 + 1;
                }
                put_pixel(self.buffer, self.width, self.height, x, y, stroke);
                proof {
                    let before = solid(|px: int, py: int| on_line_upto(s, e, j - 1, px, py), stroke);
                    let dot = solid(|px: int, py: int| px == x && py == y, stroke);
                    let after = solid(|px: int, py: int| on_line_upto(s, e, j, px, py), stroke);
                    lemma_repainted_then(b0, b1, self.buffer@, cw, ch, before, dot);
                    assert forall|px: int, py: int| 0 <= px < cw && 0 <= py < ch implies #[trigger] over(dot, before)(px, py) == after(px, py) by {
                        assert(on_line_upto(s, e, j, px, py) == (on_line_upto(s, e, j - 1, px, py) || (px == x && py == y)));
                    }
                    lemma_repainted_equiv(b0, self.buffer@, cw, ch, over(dot, before), after);
                }
            }
            assert(j == a);
        } else {
            let mut fraction: i64 = 2 * dx - dy;
            while y != y1
                invariant
                    self.wf(),
                    self.context == old(self).context,
                    self.width == old(self).width,
                    self.height == old(self).height,
                    *final(self.buffer) == *final(old(self).buffer),
                    cw == self.width,
                    ch == self.height,
                    b0 == old(self).buffer@,
                    s == (x0 as int, y0 as int),
                    e == (x1 as int, y1 as int),
                    0 <= x0 < cw,
                    0 <= x1 < cw,
                    0 <= y0 < ch,
                    0 <= y1 < ch,
                    a == dist(x0 as int, x1 as int),
                    b == dist(y0 as int, y1 as int),
                    a <= b,
                    dx == 2 * a,
                    dy == 2 * b,
                    step_x == if x1 < x0 { -1int } else { 1int },
                    step_y == if y1 < y0 { -1int } else { 1int },
                    0 <= j <= b,
                    y == toward(y0 as int, y1 as int, j),
                    b > 0 ==> m == minor_offset(j, a, b),
                    b == 0 ==> m == 0 && j == 0,
                    x == toward(x0 as int, x1 as int, m),
                    fraction == 4 * a - 2 * b + 2 * a * j - 2 * b * m,
                    repainted(b0, self.buffer@, cw, ch, solid(|px: int, py: int| on_line_upto(s, e, j, px, py), stroke)),
                decreases b - j,
            {
                proof {
                    lemma_minor_step(j, a, b, m);
                }
                let ghost (f0, j0, m0) = (fraction as int, j, m);
                if fraction >= 0 {
                    x = x + step_x;
                    fraction = fraction - dy;
                    proof {
                        m = m + 1;
                    }
                }
                y = y + step_y;
                fraction = fraction + dx;
                let ghost b1 = self.buffer@;
                proof {
                    j = j + 1;
                    assert(fraction == f0 - 2 * b * (m - m0) + 2 * a) by (nonlinear_arith)
                        requires
                            (m == m0 && fraction == f0 + 2 * a) || (m == m0 + 1 && fraction == f0 - 2 * b + 2 * a);
                    assert(fraction == 4 * a - 2 * b + 2 * a * j - 2 * b * m) by (nonlinear_arith)
                        requires
                            f0 == 4 * a - 2 * b + 2 * a * j0 - 2 * b * m0,
                            fraction == f0 - 2 * b * (m - m0) + 2 * a,
                            j == j0 + 1;
                }
                put_pixel(self.buffer, self.width, self.height, x, y, stroke);
                proof {
                    let before = solid(|px: int, py: int| on_line_upto(s, e, j - 1, px, py), stroke);
                    let dot = solid(|px: int, py: int| px == x && py == y, stroke);
                    let after = solid(|px: int, py: int| on_line_upto(s, e, j, px, py), stroke);
                    lemma_repainted_then(b0, b1, self.buffer@, cw, ch, before, dot);
                    assert forall|px: int, py: int| 0 <= px < cw && 0 <= py < ch implies #[trigger] over(dot, before)(px, py) == after(px, py) by {
                        assert(on_line_upto(s, e, j, px, py) == (on_line_upto(s, e, j - 1, px, py) || (px == x && py == y)));
                    }
                    lemma_repainted_equiv(b0, self.buffer@, cw, ch, over(dot, before), after);
                }
            }
            assert(j == b);
        }
        proof {
            let traced = solid(|px: int, py: int| on_line_upto(s, e, j, px, py), stroke);
            assert forall|px: int, py: int| 0 <= px < cw && 0 <= py < ch implies #[trigger] traced(px, py) == target(px, py) by {
            }
            lemma_repainted_equiv(b0, self.buffer@, cw, ch, traced, target);
        }
    }
}

} // verus!
