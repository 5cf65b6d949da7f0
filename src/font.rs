use vstd::prelude::*;
use vstd::string::*;

verus! {

/// Width in pixels of one glyph cell.
pub const FONT_CHAR_WIDTH: usize = 8;

/// Height in pixels of one glyph cell.
pub const FONT_CHAR_HEIGHT: usize = 8;

/// A fixed-width bitmap font: glyph `i` draws the character with code `32 + i`.
/// Each glyph is one byte per row, the most significant bit being the leftmost column.
pub struct Font {
    pub chars: Vec<Vec<u8>>,
}

/// What PNG decoding makes of an encoded image: its width, its height and the
/// red channel of its pixels in row-major order.
pub uninterp spec fn decoded_red(data: Seq<u8>) -> Option<(u32, u32, Seq<u8>)>;

/// Relies on `image::load_from_memory_with_format` with the PNG format fixed,
/// `DynamicImage::to_rgb8` and `ImageBuffer::pixels`: the PNG is decoded by the
/// built-in decoder, converted to 8-bit RGB, and its pixels come one per
/// position, row by row, `width * height` of them.
#[verifier::external_body]
fn decode_red_channel(data: &[u8]) -> (r: Option<(u32, u32, Vec<u8>)>)
    ensures
        match r {
            Some((w, h, red)) => decoded_red(data@) == Some((w, h, red@)) && red@.len() == w * h,
            None => decoded_red(data@) is None,
        },
{
    match image::load_from_memory_with_format(data, image::ImageFormat::Png) {
        Ok(img) => {
            let rgb = img.to_rgb8();
            let (w, h) = rgb.dimensions();
            Some((w, h, rgb.pixels().map(|p| p.0[0]).collect()))
        },
        Err(_) => None,
    }
}

/// The row mask built from the first `n` columns of a glyph row whose leftmost
/// pixel has index `start` in the red channel: one bit per column, set when the
/// red intensity is above zero, the first column ending up most significant.
pub open spec fn row_bits(red: Seq<u8>, start: int, n: nat) -> int
    decreases n,
{
    if n == 0 {
        0
    } else {
        2 * row_bits(red, start, (n - 1) as nat) + if red[start + n - 1] > 0 {
            1int
        } else {
            0int
        }
    }
}

/// The glyph table cut from a bitmap of `width` by `height` pixels given by its
/// red channel: cells are taken left to right, then top to bottom. A bitmap
/// whose sides are not whole multiples of the cell, whose channel does not
/// hold one sample per pixel, or that holds no cell at all gives no table.
pub open spec fn bitmap_glyphs(width: nat, height: nat, red: Seq<u8>) -> Option<Seq<Seq<u8>>> {
    let cols = width / 8;
    let rows = height / 8;
    if width % 8 != 0 || height % 8 != 0 || red.len() != width * height || cols * rows == 0 {
        None
    } else {
        Some(
            Seq::new(
                cols * rows,
                |g: int|
                    Seq::new(
                        8,
                        |r: int| row_bits(red, ((g / (cols as int)) * 8 + r) * width + (g % (cols as int)) * 8, 8) as u8,
                    ),
            ),
        )
    }
}

/// Index of the glyph drawn for a character code: codes outside the table fall
/// back to the space glyph.
pub open spec fn glyph_index(count: int, code: int) -> int {
    if 32 <= code < 32 + count {
        code - 32
    } else {
        0
    }
}

/// Whether column `col` (0 is leftmost) of a glyph row is set.
pub open spec fn row_has(row: u8, col: int) -> bool {
    (row >> ((7 - col) as u8)) & 1u8 == 1u8
}

impl View for Font {
    type V = Seq<Seq<u8>>;

    open spec fn view(&self) -> Seq<Seq<u8>> {
        self.chars@.map_values(|g: Vec<u8>| g@)
    }
}

impl Font {
    /// At least one glyph, the first one for the space, and eight rows in each.
    pub open spec fn wf(&self) -> bool {
        &&& 1 <= self.chars@.len()
        &&& forall|i: int| 0 <= i < self.chars@.len() ==> (#[trigger] self.chars@[i])@.len() == 8
    }

    /// Builds the glyph table from a decoded bitmap given as its red channel.
    pub fn from_bitmap(width: usize, height: usize, red: &Vec<u8>) -> (r: Option<Font>)
        ensures
            match r {
                Some(f) => f.wf() && bitmap_glyphs(width as nat, height as nat, red@) == Some(f@),
                None => bitmap_glyphs(width as nat, height as nat, red@) is None,
            },
    {
        if width % 8 != 0 || height % 8 != 0 {
            return None;
        }
        let len = red.len();
        match width.checked_mul(height) {
            Some(n) => {
                if n != len {
                    return None;
                }
            },
            None => {
                return None;
            },
        }
        let cols = width / 8;
        let rows = height / 8;
        if cols == 0 || rows == 0 {
            proof {
                assert(cols * rows == 0) by (nonlinear_arith)
                    requires cols == 0 || rows == 0;
            }
            return None;
        }
        proof {
            assert(cols * rows > 0) by (nonlinear_arith)
                requires cols > 0 && rows > 0;
            assert(width * height == red@.len());
        }
        let ghost glyphs = bitmap_glyphs(width as nat, height as nat, red@).unwrap();
        assert(bitmap_glyphs(width as nat, height as nat, red@) == Some(glyphs));
        let mut chars: Vec<Vec<u8>> = Vec::new();
        let mut char_y: usize = 0;
        while char_y < rows
            invariant
                width == cols * 8,
                height == rows * 8,
                red@.len() == width * height,
                width * height <= usize::MAX,
                cols * rows > 0,
                glyphs == bitmap_glyphs(width as nat, height as nat, red@).unwrap(),
                glyphs.len() == cols * rows,
                0 < cols,
                0 < rows,
                char_y <= rows,
                chars@.len() == char_y * cols,
                forall|i: int| 0 <= i < chars@.len() ==> (#[trigger] chars@[i])@ == glyphs[i],
            decreases rows - char_y,
        {
            let mut char_x: usize = 0;
            while char_x < cols
                invariant
                    width == cols * 8,
                    height == rows * 8,
                    red@.len() == width * height,
                    width * height <= usize::MAX,
                cols * rows > 0,
                    glyphs == bitmap_glyphs(width as nat, height as nat, red@).unwrap(),
                    glyphs.len() == cols * rows,
                    0 < cols,
                    char_y < rows,
                    char_x <= cols,
                    chars@.len() == char_y * cols + char_x,
                    forall|i: int| 0 <= i < chars@.len() ==> (#[trigger] chars@[i])@ == glyphs[i],
                decreases cols - char_x,
            {
                let ghost g: int = char_y * cols + char_x;
                proof {
                    assert(g < cols * rows) by (nonlinear_arith)
                        requires g == char_y * cols + char_x, char_x < cols, char_y < rows;
                    assert(g / (cols as int) == char_y && g % (cols as int) == char_x) by (nonlinear_arith)
                        requires g == char_y * cols + char_x, char_x < cols, 0 < cols;
                }
                let mut char_vec: Vec<u8> = Vec::new();
                let mut y: usize = 0;
                while y < 8
                    invariant
                        width == cols * 8,
                        height == rows * 8,
                        red@.len() == width * height,
                        width * height <= usize::MAX,
                cols * rows > 0,
                        char_y < rows,
                        char_x < cols,
                        0 <= g < glyphs.len(),
                        g / (cols as int) == char_y,
                        g % (cols as int) == char_x,
                        glyphs == bitmap_glyphs(width as nat, height as nat, red@).unwrap(),
                        y <= 8,
                        char_vec@.len() == y,
                        forall|r: int| 0 <= r < y ==> #[trigger] char_vec@[r] == glyphs[g][r],
                    decreases 8 - y,
                {
                    proof {
                        assert((char_y * 8 + y) * width + char_x * 8 + 8 <= width * height) by (nonlinear_arith)
                            requires
                                width == cols * 8,
                                height == rows * 8,
                                char_x < cols,
                                char_y < rows,
                                y < 8;
                        assert((char_y * 8 + y) * width <= (char_y * 8 + y) * width + char_x * 8);
                    }
                    let start: usize = (char_y * 8 + y) * width + char_x * 8;
                    let mut acc: u8 = 0;
                    let mut x: usize = 0;
                    while x < 8
                        invariant
                            start + 8 <= red@.len(),
                            red@.len() <= usize::MAX,
                            x <= 8,
                            acc as int == row_bits(red@, start as int, x as nat),
                            row_bits(red@, start as int, x as nat) < pow2_of(x as nat),
                        decreases 8 - x,
                    {
                        let bit: u8 = if red[start + x] > 0 {
                            1
                        } else {
                            0
                        };
                        proof {
                            reveal_with_fuel(row_bits, 2);
                            assert(pow2_of((x + 1) as nat) == 2 * pow2_of(x as nat));
                            assert(pow2_of(x as nat) <= 128) by {
                                lemma_pow2_of_mono(x as nat, 7);
                                reveal_with_fuel(pow2_of, 8);
                            }
                        }
                        acc = acc * 2 + bit;
                        x = x + 1;
                    }
                    proof {
                        assert(start as int == ((g / (cols as int)) * 8 + y) * width + (g % (cols as int)) * 8);
                        assert(glyphs[g][y as int] == row_bits(red@, start as int, 8) as u8);
                    }
                    char_vec.push(acc);
                    y = y + 1;
                }
                assert(char_vec@ =~= glyphs[g]);
                chars.push(char_vec);
                char_x = char_x + 1;
            }
            char_y = char_y + 1;
            proof {
                assert(chars@.len() == char_y * cols) by (nonlinear_arith)
                    requires chars@.len() == (char_y - 1) * cols + cols;
            }
        }
        proof {
            assert(chars@.len() == glyphs.len()) by (nonlinear_arith)
                requires chars@.len() == char_y * cols, char_y == rows, glyphs.len() == cols * rows;
            assert forall|i: int| 0 <= i < chars@.len() implies (#[trigger] chars@[i])@.len() == 8 by {
                assert(glyphs[i].len() == 8);
            }
        }
        let font = Font { chars };
        assert(font@ =~= glyphs) by {
            assert forall|i: int| 0 <= i < glyphs.len() implies font@[i] == glyphs[i] by {
                assert(font@[i] == font.chars@[i]@);
            }
        }
        Some(font)
    }

    /// Decodes a PNG font image and builds its glyph table.
    pub fn new(encoded: &[u8]) -> (r: Option<Font>)
        ensures
            match decoded_red(encoded@) {
                Some((w, h, red)) => match r {
                    Some(f) => f.wf() && bitmap_glyphs(w as nat, h as nat, red) == Some(f@),
                    None => bitmap_glyphs(w as nat, h as nat, red) is None,
                },
                None => r is None,
            },
    {
        match decode_red_channel(encoded) {
            Some((w, h, red)) => Font::from_bitmap(w as usize, h as usize, &red),
            None => None,
        }
    }

    /// Size in pixels of `string` set in this font: one cell per byte, one cell high.
    pub fn measure(string: &str) -> (r: (i32, i32))
        requires
            string.spec_bytes().len() * 8 <= i32::MAX,
        ensures
            r.0 == string.spec_bytes().len() * 8,
            r.1 == 8,
    {
        ((string.len() * FONT_CHAR_WIDTH) as i32, FONT_CHAR_HEIGHT as i32)
    }
}

/// `2` to the power `n`.
pub open spec fn pow2_of(n: nat) -> int
    decreases n,
{
    if n == 0 {
        1
    } else {
        2 * pow2_of((n - 1) as nat)
    }
}

proof fn lemma_pow2_of_mono(a: nat, b: nat)
    requires
        a <= b,
    ensures
        1 <= pow2_of(a) <= pow2_of(b),
    decreases b,
{
    if a < b {
        lemma_pow2_of_mono(a, (b - 1) as nat);
    } else if a > 0 {
        lemma_pow2_of_mono((a - 1) as nat, (a - 1) as nat);
    }
}

} // verus!
