use wisegui::context::is_in_bounds;
use wisegui::{Color, Context, Font, Interaction, Painter, Palette, VirtualBoyPalette, FONT_CHAR_HEIGHT, FONT_CHAR_WIDTH};

const DARKEST: u32 = 0x000000;
const DARK: u32 = 0x550000;
const LIGHT: u32 = 0xaa0000;
const LIGHTEST: u32 = 0xff0000;

/// A two-glyph font: a blank space, and for '!' a glyph whose leftmost column
/// is set on every row and whose top row is fully set.
fn test_font() -> Font {
    let width = 16usize;
    let height = 8usize;
    let mut red = vec![0u8; width * height];
    for y in 0..8 {
        red[y * width + 8] = 200;
    }
    for x in 8..16 {
        red[x] = 1;
    }
    Font::from_bitmap(width, height, &red).expect("well-formed bitmap")
}

fn context() -> Context<VirtualBoyPalette> {
    Context::new(VirtualBoyPalette, test_font())
}

fn px(buf: &[u32], width: usize, x: usize, y: usize) -> u32 {
    buf[y * width + x]
}

#[test]
fn palette_maps_each_level() {
    let p = VirtualBoyPalette;
    assert_eq!(p.color(Color::Darkest), DARKEST);
    assert_eq!(p.color(Color::Dark), DARK);
    assert_eq!(p.color(Color::Light), LIGHT);
    assert_eq!(p.color(Color::Lightest), LIGHTEST);
}

#[test]
fn measure_is_fixed_width() {
    assert_eq!(Font::measure("hello"), (40, 8));
    assert_eq!(Font::measure(""), (0, 8));
    assert_eq!(FONT_CHAR_WIDTH, 8);
    assert_eq!(FONT_CHAR_HEIGHT, 8);
}

#[test]
fn glyphs_are_cut_left_to_right_top_to_bottom() {
    let f = test_font();
    assert_eq!(f.chars.len(), 2);
    assert_eq!(f.chars[0], vec![0u8; 8]);
    let mut expected = vec![0x80u8; 8];
    expected[0] = 0xff;
    assert_eq!(f.chars[1], expected);
}

#[test]
fn glyph_grid_of_two_rows() {
    // 8 wide, 16 high: two cells stacked; the second has its rightmost column set.
    let mut red = vec![0u8; 8 * 16];
    for y in 8..16 {
        red[y * 8 + 7] = 5;
    }
    let f = Font::from_bitmap(8, 16, &red).unwrap();
    assert_eq!(f.chars.len(), 2);
    assert_eq!(f.chars[0], vec![0u8; 8]);
    assert_eq!(f.chars[1], vec![0x01u8; 8]);
}

#[test]
fn malformed_bitmap_is_refused() {
    assert!(Font::from_bitmap(12, 8, &vec![0u8; 96]).is_none());
    assert!(Font::from_bitmap(8, 9, &vec![0u8; 72]).is_none());
    assert!(Font::from_bitmap(8, 8, &vec![0u8; 63]).is_none());
    assert!(Font::from_bitmap(0, 8, &vec![]).is_none());
}

#[test]
fn font_from_undecodable_bytes_is_refused() {
    assert!(Font::new(&[1, 2, 3, 4]).is_none());
}

#[test]
fn font_from_encoded_png() {
    let mut img = image::RgbImage::new(16, 8);
    for y in 0..8 {
        img.put_pixel(8, y, image::Rgb([255, 0, 0]));
    }
    img.put_pixel(15, 0, image::Rgb([0, 255, 0]));
    let mut bytes: Vec<u8> = Vec::new();
    img.write_to(&mut std::io::Cursor::new(&mut bytes), image::ImageFormat::Png).unwrap();
    let f = Font::new(&bytes).unwrap();
    assert_eq!(f.chars.len(), 2);
    assert_eq!(f.chars[0], vec![0u8; 8]);
    // Green alone does not count: only the red channel sets a bit.
    assert_eq!(f.chars[1], vec![0x80u8; 8]);
}

#[test]
fn edge_detection_sequence() {
    let mut c = context();
    let downs = [false, true, true, false];
    let positions = [(1, 1), (2, 3), (4, 5), (6, 7)];
    let mut pressed = Vec::new();
    let mut released = Vec::new();
    for i in 0..4 {
        c.update(positions[i], downs[i]);
        pressed.push(c.was_left_mouse_pressed);
        released.push(c.was_left_mouse_released);
        if i == 1 {
            assert_eq!(c.left_mouse_pressed_pos, (2, 3));
        }
        if i == 3 {
            assert_eq!(c.left_mouse_released_pos, (6, 7));
        }
    }
    assert_eq!(pressed, vec![false, true, false, false]);
    assert_eq!(released, vec![false, false, false, true]);
    assert_eq!(c.left_mouse_pressed_pos, (2, 3));
}

#[test]
fn button_click_scenario() {
    let mut c = context();
    let pos = (10, 10);
    let size = (50, 20);
    c.update((20, 15), false);
    assert_eq!(c.interaction(pos, size), Interaction { hovered: true, down: false, clicked: false });
    c.update((20, 15), true);
    let i = c.interaction(pos, size);
    assert!(i.down);
    assert!(!i.clicked);
    c.update((20, 15), false);
    assert!(c.interaction(pos, size).clicked);
    c.update((20, 15), false);
    assert!(!c.interaction(pos, size).clicked);
}

#[test]
fn press_inside_release_outside_is_no_click() {
    let mut c = context();
    c.update((20, 15), false);
    c.update((20, 15), true);
    c.update((200, 200), false);
    assert!(!c.interaction((10, 10), (50, 20)).clicked);
}

#[test]
fn drag_in_while_held_is_not_down() {
    let mut c = context();
    c.update((0, 0), true);
    c.update((20, 15), true);
    let i = c.interaction((10, 10), (50, 20));
    assert!(!i.down);
    assert!(!i.hovered);
}

#[test]
fn bounds_are_half_open() {
    assert!(is_in_bounds((10, 10), (50, 20), (10, 10)));
    assert!(is_in_bounds((10, 10), (50, 20), (59, 29)));
    assert!(!is_in_bounds((10, 10), (50, 20), (60, 15)));
    assert!(!is_in_bounds((10, 10), (50, 20), (20, 30)));
    assert!(!is_in_bounds((10, 10), (50, 20), (9, 15)));
}

#[test]
fn clear_sets_every_pixel() {
    let c = context();
    let mut buf = vec![7u32; 6 * 4];
    {
        let mut p = Painter::new(&c, &mut buf, 6, 4);
        p.clear(Color::Dark);
    }
    assert!(buf.iter().all(|&v| v == DARK));
}

#[test]
fn rect_inside_fills_and_strokes() {
    let c = context();
    let (w, h) = (10usize, 10usize);
    let mut buf = vec![1u32; w * h];
    {
        let mut p = Painter::new(&c, &mut buf, w, h);
        p.rect(2, 3, 4, 3, Some(Color::Dark), Some(Color::Lightest));
    }
    let mut fill = 0;
    for y in 0..h {
        for x in 0..w {
            let (xi, yi) = (x as i64, y as i64);
            let inside = in_rect_i(2, 3, 4, 3, xi, yi);
            let outline = in_rect_i(1, 2, 6, 5, xi, yi) && !inside;
            let v = px(&buf, w, x, y);
            if inside {
                assert_eq!(v, DARK);
                fill += 1;
            } else if outline {
                assert_eq!(v, LIGHTEST);
            } else {
                assert_eq!(v, 1);
            }
        }
    }
    assert_eq!(fill, 4 * 3);
}

fn in_rect_i(x: i64, y: i64, w: i64, h: i64, px: i64, py: i64) -> bool {
    x <= px && px < x + w && y <= py && py < y + h
}

#[test]
fn rect_clipped_on_the_left() {
    let c = context();
    let (w, h) = (8usize, 6usize);
    let mut buf = vec![0u32; w * h];
    {
        let mut p = Painter::new(&c, &mut buf, w, h);
        p.rect(-3, 1, 5, 2, Some(Color::Light), None);
    }
    for y in 0..h {
        for x in 0..w {
            let expect = if x < 2 && (1..3).contains(&y) { LIGHT } else { 0 };
            assert_eq!(px(&buf, w, x, y), expect, "at {x},{y}");
        }
    }
}

#[test]
fn rect_off_canvas_or_empty_draws_nothing() {
    let c = context();
    let mut buf = vec![9u32; 16];
    {
        let mut p = Painter::new(&c, &mut buf, 4, 4);
        p.rect(10, 10, 5, 5, Some(Color::Light), None);
        p.rect(-10, 0, 5, 4, Some(Color::Light), None);
        p.rect(1, 1, 0, 2, Some(Color::Light), None);
        p.rect(1, 1, -3, 2, Some(Color::Light), None);
        p.rect(i32::MIN, i32::MIN, i32::MAX, i32::MAX, Some(Color::Light), Some(Color::Dark));
    }
    assert!(buf.iter().all(|&v| v == 9));
}

#[test]
fn rect_stroke_only_with_outline_partly_off_canvas() {
    let c = context();
    let (w, h) = (5usize, 5usize);
    let mut buf = vec![0u32; w * h];
    {
        let mut p = Painter::new(&c, &mut buf, w, h);
        p.rect(0, 0, 3, 3, None, Some(Color::Light));
    }
    for y in 0..h {
        for x in 0..w {
            let on = (x == 3 && y <= 3) || (y == 3 && x <= 3);
            assert_eq!(px(&buf, w, x, y), if on { LIGHT } else { 0 }, "at {x},{y}");
        }
    }
}

#[test]
fn horizontal_and_vertical_lines_clip() {
    let c = context();
    let (w, h) = (6usize, 4usize);
    let mut buf = vec![0u32; w * h];
    {
        let mut p = Painter::new(&c, &mut buf, w, h);
        p.horizontal_line(-2, 5, 1, Color::Dark);
        p.vertical_line(2, 10, 5, Color::Light);
        p.horizontal_line(0, 6, 7, Color::Lightest);
        p.vertical_line(0, 4, -1, Color::Lightest);
    }
    for y in 0..h {
        for x in 0..w {
            let expect = if y == 1 && x < 3 {
                DARK
            } else if x == 5 && y >= 2 {
                LIGHT
            } else {
                0
            };
            assert_eq!(px(&buf, w, x, y), expect, "at {x},{y}");
        }
    }
}

fn line_pixels(start: (i32, i32), end: (i32, i32)) -> Vec<(usize, usize)> {
    let c = context();
    let (w, h) = (8usize, 8usize);
    let mut buf = vec![0u32; w * h];
    {
        let mut p = Painter::new(&c, &mut buf, w, h);
        p.line(start, end, Color::Lightest);
    }
    let mut out = Vec::new();
    for y in 0..h {
        for x in 0..w {
            if px(&buf, w, x, y) == LIGHTEST {
                out.push((x, y));
            }
        }
    }
    out
}

#[test]
fn horizontal_line_by_line_has_five_pixels() {
    assert_eq!(line_pixels((0, 0), (4, 0)), vec![(0, 0), (1, 0), (2, 0), (3, 0), (4, 0)]);
}

#[test]
fn diagonal_line_has_four_pixels() {
    assert_eq!(line_pixels((0, 0), (3, 3)), vec![(0, 0), (1, 1), (2, 2), (3, 3)]);
}

#[test]
fn shallow_and_steep_lines() {
    let mut shallow = line_pixels((0, 0), (4, 3));
    shallow.sort_by_key(|p| p.0);
    assert_eq!(shallow, vec![(0, 0), (1, 1), (2, 2), (3, 3), (4, 3)]);
    let mut steep = line_pixels((5, 6), (4, 1));
    steep.sort_by_key(|p| std::cmp::Reverse(p.1));
    assert_eq!(steep, vec![(5, 6), (5, 5), (4, 4), (4, 3), (4, 2), (4, 1)]);
    assert_eq!(line_pixels((2, 2), (2, 2)), vec![(2, 2)]);
}

#[test]
fn line_is_the_same_either_way() {
    assert_eq!(line_pixels((0, 0), (2, 1)), line_pixels((2, 1), (0, 0)));
    assert_eq!(line_pixels((0, 0), (2, 1)), vec![(0, 0), (1, 1), (2, 1)]);
    assert_eq!(line_pixels((5, 6), (4, 1)), line_pixels((4, 1), (5, 6)));
    assert_eq!(line_pixels((7, 0), (0, 5)), line_pixels((0, 5), (7, 0)));
    assert_eq!(line_pixels((3, 7), (3, 0)), line_pixels((3, 0), (3, 7)));
}

#[test]
fn text_draws_glyph_bits_and_falls_back_to_space() {
    let c = context();
    let (w, h) = (24usize, 10usize);
    let mut buf = vec![0u32; w * h];
    {
        let mut p = Painter::new(&c, &mut buf, w, h);
        // 'A' is not in the two-glyph font: it draws as a space.
        p.text(1, 2, Color::Lightest, "!A!");
    }
    for y in 0..h {
        for x in 0..w {
            let set = (2..10).contains(&y)
                && ((x == 1 || (y == 2 && (1..9).contains(&x))) || (x == 17 || (y == 2 && (17..25).contains(&x))));
            assert_eq!(px(&buf, w, x, y), if set { LIGHTEST } else { 0 }, "at {x},{y}");
        }
    }
}

#[test]
fn text_clips_at_every_edge() {
    let c = context();
    let (w, h) = (4usize, 4usize);
    let mut buf = vec![0u32; w * h];
    {
        let mut p = Painter::new(&c, &mut buf, w, h);
        p.text(-1, 0, Color::Dark, "!");
        p.text(-1, -1, Color::Light, "!");
        p.text(i32::MAX - 3, i32::MIN, Color::Dark, "!!!!");
    }
    for y in 0..h {
        for x in 0..w {
            assert_eq!(px(&buf, w, x, y), if y == 0 { DARK } else { 0 }, "at {x},{y}");
        }
    }
}

#[test]
fn text_twice_on_cleared_canvas_is_the_same() {
    let c = context();
    let (w, h) = (20usize, 12usize);
    let mut first = vec![0u32; w * h];
    let mut second = vec![5u32; w * h];
    {
        let mut p = Painter::new(&c, &mut first, w, h);
        p.clear(Color::Darkest);
        p.text(3, 2, Color::Light, "!!");
    }
    {
        let mut p = Painter::new(&c, &mut second, w, h);
        p.clear(Color::Darkest);
        p.text(3, 2, Color::Light, "!!");
    }
    assert_eq!(first, second);
    let once = first.clone();
    {
        let mut p = Painter::new(&c, &mut first, w, h);
        p.text(3, 2, Color::Light, "!!");
    }
    assert_eq!(first, once);
}

#[test]
fn painter_button_draws_and_reports_click() {
    let mut c = context();
    let (w, h) = (40usize, 30usize);
    // "!" is 8 wide: the button spans (2, 3) to (18, 19).
    c.update((5, 5), false);
    c.update((5, 5), true);
    let mut buf = vec![0u32; w * h];
    {
        let mut p = Painter::new(&c, &mut buf, w, h);
        assert!(!p.button(2, 3, "!"));
    }
    // Held down over it: light background, darkest label, light outline.
    assert_eq!(px(&buf, w, 7, 5), LIGHT);
    assert_eq!(px(&buf, w, 6, 7), DARKEST);
    assert_eq!(px(&buf, w, 1, 2), LIGHT);
    assert_eq!(px(&buf, w, 18, 19), LIGHT);
    assert_eq!(px(&buf, w, 20, 20), 0);
    c.update((17, 18), false);
    let mut buf = vec![0u32; w * h];
    {
        let mut p = Painter::new(&c, &mut buf, w, h);
        assert!(p.button(2, 3, "!"));
    }
    // Released: the pointer hovers, so the background is dark and the label lightest.
    assert_eq!(px(&buf, w, 7, 5), DARK);
    assert_eq!(px(&buf, w, 6, 7), LIGHTEST);
    assert!(in_rect_i(2, 3, 16, 16, 17, 18));
}

#[test]
fn idle_button_is_darkest() {
    let c = context();
    let (w, h) = (40usize, 30usize);
    let mut buf = vec![0u32; w * h];
    {
        let mut p = Painter::new(&c, &mut buf, w, h);
        assert!(!p.button(2, 3, "!"));
    }
    assert_eq!(px(&buf, w, 7, 5), DARKEST);
    assert_eq!(px(&buf, w, 6, 7), LIGHTEST);
}

#[test]
fn layout_cursor_advances() {
    let c = context();
    let (w, h) = (64usize, 64usize);
    let mut buf = vec![0u32; w * h];
    let mut p = Painter::new(&c, &mut buf, w, h);
    let mut layout = p.stack_vertical(8, 8);
    assert_eq!(layout.cursor, (8, 8));
    layout.text(Color::Light, "!");
    assert_eq!(layout.cursor, (8, 16));
    assert!(!layout.button("!"));
    assert_eq!(layout.cursor, (8, 32));
    drop(layout);
    drop(p);
    // The text line, then the button's outline just above its top edge.
    assert_eq!(px(&buf, w, 8, 8), LIGHT);
    assert_eq!(px(&buf, w, 7, 15), LIGHT);
    assert_eq!(px(&buf, w, 10, 18), DARKEST);
}

#[test]
fn layout_button_reports_click() {
    let mut c = context();
    c.update((10, 10), true);
    c.update((12, 12), false);
    let mut buf = vec![0u32; 32 * 32];
    let mut p = Painter::new(&c, &mut buf, 32, 32);
    let mut layout = p.stack_vertical(8, 8);
    assert!(layout.button("!"));
}
