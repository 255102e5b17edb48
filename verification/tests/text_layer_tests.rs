use cpu_game::font::{Font, GLYPH_H, GLYPH_W};
use cpu_game::text_layer::{place_text, wrap_text, Cell, HAlign, TextLayer, VAlign};

/// A 128 x 48 font bitmap in which glyph `A` (column 1, row 2 of the cell
/// grid) has its left half lit and every other glyph is dark.
fn test_font() -> Font {
    let width = 128usize;
    let height = 48usize;
    let mut pixels = vec![0u8; width * height];
    let index = ('A' as usize) - 32;
    let (col, row) = (index % 16, index / 16);
    for gy in 0..8 {
        for gx in 0..4 {
            pixels[(row * 8 + gy) * width + col * 8 + gx] = 255;
        }
    }
    Font::from_luma(width as u32, height as u32, &pixels)
}

#[test]
fn computes_centered_grid_size() {
    let layer = TextLayer::new(18, 10);

    assert_eq!(layer.cols(), 2);
    assert_eq!(layer.rows(), 1);
    assert_eq!(layer.offset().0, 1);
    assert_eq!(layer.offset().1, 1);
    assert_eq!(layer.scene_size(), (18, 10));
}

#[test]
fn ignores_out_of_bounds_writes() {
    let mut layer = TextLayer::new(GLYPH_W as u32, GLYPH_H as u32);

    layer.set(4, 4, Cell { glyph: 'A', fg: [255, 255, 255, 255], bg: [0, 0, 0, 0] });
    layer.clear(8, 8);

    assert!(layer.cells().iter().all(Option::is_none));
}

#[test]
fn blends_background_before_foreground_pixels() {
    let font = test_font();
    let mut layer = TextLayer::new(GLYPH_W as u32, GLYPH_H as u32);
    layer.set(0, 0, Cell { glyph: 'A', fg: [240, 10, 20, 255], bg: [10, 20, 240, 128] });

    let mut buf = vec![0u8; GLYPH_W * GLYPH_H * 4];
    layer.render_to_buf(&mut buf, &font);

    let glyph = font.glyph('A').unwrap();
    let mut lit = None;
    let mut unlit = None;
    for y in 0..GLYPH_H {
        for x in 0..GLYPH_W {
            if glyph.pixel(x, y) && lit.is_none() {
                lit = Some((x, y));
            }
            if !glyph.pixel(x, y) && unlit.is_none() {
                unlit = Some((x, y));
            }
        }
    }

    let (lit_x, lit_y) = lit.expect("expected lit pixel in glyph");
    let (unlit_x, unlit_y) = unlit.expect("expected unlit pixel in glyph");

    let lit_index = (lit_y * GLYPH_W + lit_x) * 4;
    assert_eq!(&buf[lit_index..lit_index + 4], &[240, 10, 20, 255]);

    let unlit_index = (unlit_y * GLYPH_W + unlit_x) * 4;
    assert_eq!(&buf[unlit_index..unlit_index + 4], &[5, 10, 120, 128]);
}

#[test]
fn places_single_line_text_with_alignment() {
    let mut layer = TextLayer::new((GLYPH_W * 4) as u32, (GLYPH_H * 3) as u32);

    place_text(&mut layer, "HI", HAlign::Center, VAlign::Bottom, [255, 255, 255, 255], [0, 0, 0, 0]);

    let row = layer.rows() - 1;
    let col = (layer.cols() - 2) / 2;
    assert_eq!(layer.cells()[row * layer.cols() + col].unwrap().glyph, 'H');
    assert_eq!(layer.cells()[row * layer.cols() + col + 1].unwrap().glyph, 'I');
}

#[test]
fn wraps_long_words_and_lines() {
    let lines = wrap_text("alpha beta12345 gamma", 5);

    assert_eq!(lines, vec!["alpha", "beta1", "2345", "gamma"]);
}

#[test]
fn render_leaves_margins_and_empty_cells_alone() {
    let font = test_font();
    let mut layer = TextLayer::new(18, 10);
    layer.set(1, 0, Cell { glyph: 'A', fg: [9, 9, 9, 255], bg: [0, 0, 0, 0] });
    let mut buf = vec![7u8; 18 * 10 * 4];
    layer.render_to_buf(&mut buf, &font);
    let px = |x: usize, y: usize| -> [u8; 4] {
        let i = (y * 18 + x) * 4;
        [buf[i], buf[i + 1], buf[i + 2], buf[i + 3]]
    };
    // margins (offset 1) and the empty cell 0 keep their bytes
    assert_eq!(px(0, 0), [7, 7, 7, 7]);
    assert_eq!(px(4, 4), [7, 7, 7, 7]);
    assert_eq!(px(17, 9), [7, 7, 7, 7]);
    // cell 1 starts at x = 9, y = 1; its glyph's left half is lit
    assert_eq!(px(9, 1), [9, 9, 9, 255]);
    assert_eq!(px(13, 1), [7, 7, 7, 7]);
}

#[test]
fn invisible_cells_and_missing_glyphs_draw_nothing() {
    let font = test_font();
    let mut layer = TextLayer::new(16, 8);
    layer.set(0, 0, Cell { glyph: 'A', fg: [1, 2, 3, 0], bg: [4, 5, 6, 0] });
    layer.set(1, 0, Cell { glyph: '\u{7}', fg: [1, 2, 3, 255], bg: [0, 0, 0, 0] });
    let mut buf = vec![50u8; 16 * 8 * 4];
    layer.render_to_buf(&mut buf, &font);
    assert!(buf.iter().all(|&b| b == 50));
}

#[test]
fn clear_all_empties_every_cell() {
    let mut layer = TextLayer::new(32, 16);
    place_text(&mut layer, "ABCD", HAlign::Left, VAlign::Top, [1, 1, 1, 1], [0, 0, 0, 0]);
    assert!(layer.cells().iter().any(Option::is_some));
    layer.clear_all();
    assert_eq!(layer.cells().len(), 8);
    assert!(layer.cells().iter().all(Option::is_none));
}

#[test]
fn place_text_clips_and_aligns_right() {
    let mut layer = TextLayer::new(24, 8);
    place_text(&mut layer, "WXYZ", HAlign::Right, VAlign::Middle, [1, 1, 1, 1], [0, 0, 0, 0]);
    let glyphs: Vec<char> = layer.cells().iter().map(|c| c.unwrap().glyph).collect();
    assert_eq!(glyphs, vec!['W', 'X', 'Y']);
}

#[test]
fn wrap_text_handles_spaces_and_empty_input() {
    assert_eq!(wrap_text("", 4), Vec::<String>::new());
    assert_eq!(wrap_text("a  b", 10), vec!["a b"]);
    assert_eq!(wrap_text("ab cd ef", 5), vec!["ab cd", "ef"]);
}

#[test]
fn draw_text_writes_color_on_lit_pixels_only() {
    let font = test_font();
    let (w, h) = (20usize, 6usize);
    let mut buf = vec![0u8; w * h * 4];
    font.draw_text(&mut buf, w, h, "AAA", 2, 1, [10, 20, 30]);
    let px = |x: usize, y: usize| -> [u8; 4] {
        let i = (y * w + x) * 4;
        [buf[i], buf[i + 1], buf[i + 2], buf[i + 3]]
    };
    // first A at x = 2..10: left half lit, rows cut off at the bottom edge
    assert_eq!(px(2, 1), [10, 20, 30, 255]);
    assert_eq!(px(5, 5), [10, 20, 30, 255]);
    assert_eq!(px(6, 1), [0, 0, 0, 0]);
    // second A at x = 10..18
    assert_eq!(px(10, 3), [10, 20, 30, 255]);
    // third A would end at 26 > 20: not drawn
    assert_eq!(px(18, 1), [0, 0, 0, 0]);
    assert_eq!(px(19, 1), [0, 0, 0, 0]);
    assert_eq!(px(0, 0), [0, 0, 0, 0]);
}

#[test]
fn font_decodes_from_image_bytes() {
    let mut img = image::GrayImage::new(128, 48);
    let index = ('B' as u32) - 32;
    let (col, row) = (index % 16, index / 16);
    img.put_pixel(col * 8 + 7, row * 8, image::Luma([200]));
    img.put_pixel(col * 8, row * 8 + 1, image::Luma([128]));
    let mut bytes = Vec::new();
    img.write_to(&mut std::io::Cursor::new(&mut bytes), image::ImageFormat::Png).unwrap();
    let font = Font::decode(&bytes).unwrap();
    let glyph = font.glyph('B').unwrap();
    assert!(glyph.pixel(7, 0));
    assert!(!glyph.pixel(0, 1));
    assert_eq!(glyph.rows[0], 0x01);
    assert!(font.glyph('\u{1f}').is_none());
    assert!(font.glyph('\u{80}').is_none());
    assert!(font.glyph('~').is_some());

    let small = image::GrayImage::new(64, 48);
    let mut bytes = Vec::new();
    small.write_to(&mut std::io::Cursor::new(&mut bytes), image::ImageFormat::Png).unwrap();
    assert!(Font::decode(&bytes).is_none());
    assert!(Font::decode(&[1, 2, 3]).is_none());
}
