use schematic_diff::font::{draw, Font, Glyph};
use schematic_diff::layout::{
    caption_scale, clip_to_width, compose, fits, plan_panel, Layout, Panel, Plan, Segment, Theme,
};
use schematic_diff::raster::{encode_png, Canvas};
use schematic_diff::render::Bounds;

fn font() -> Font {
    Font {
        glyphs: vec![
            Glyph { symbol: 'I', rows: [0b00100; 7] },
            Glyph { symbol: '#', rows: [0b11111; 7] },
        ],
    }
}

fn layout(width: u32, height: u32) -> Layout {
    Layout { width, height, cell_px: (6, 12), frame: Bounds::default() }
}

fn segment(text: &str) -> Segment {
    Segment::new(text.to_string(), [1, 2, 3])
}

#[test]
fn a_canvas_starts_clear_and_is_set_pixel_by_pixel() {
    let mut canvas = Canvas::new(3, 2);
    assert_eq!(canvas.pixels, vec![0; 24]);
    canvas.set(2, 1, [1, 2, 3, 4]);
    canvas.set(3, 1, [9; 4]);
    canvas.set(0, 2, [9; 4]);
    assert_eq!(canvas.get(2, 1), [1, 2, 3, 4]);
    assert_eq!(canvas.get(1, 1), [0; 4]);
    assert_eq!(&canvas.pixels[20..], &[1, 2, 3, 4]);
    assert_eq!(Canvas::filled(2, 2, [7, 8, 9]).get(1, 1), [7, 8, 9, 255]);
}

#[test]
fn rectangles_are_clipped() {
    let mut canvas = Canvas::new(4, 4);
    canvas.fill_rect(-2, 1, 4, 2, [5; 4]);
    for y in 0..4 {
        for x in 0..4 {
            let inside = x < 2 && (y == 1 || y == 2);
            assert_eq!(canvas.get(x, y) == [5; 4], inside);
        }
    }
    let before = canvas.pixels.clone();
    canvas.fill_rect(4, 0, 9, 9, [6; 4]);
    canvas.fill_rect(i64::MAX, 0, u32::MAX, 1, [6; 4]);
    canvas.fill_rect(i64::MIN, 0, u32::MAX, 1, [6; 4]);
    canvas.fill_rect(5_000_000_000, 0, 1, 1, [6; 4]);
    assert_eq!(canvas.pixels, before);
    canvas.fill_rect(-10, -10, u32::MAX, u32::MAX, [1; 4]);
    assert_eq!(canvas.pixels, vec![1; 64]);
}

#[test]
fn clear_pixels_let_the_background_through() {
    let mut source = Canvas::new(2, 2);
    source.set(0, 0, [1, 1, 1, 255]);
    source.set(1, 1, [2, 2, 2, 1]);
    let mut canvas = Canvas::filled(3, 3, [9, 9, 9]);
    canvas.blit(&source, 1, 1);
    assert_eq!(canvas.get(1, 1), [1, 1, 1, 255]);
    assert_eq!(canvas.get(2, 2), [2, 2, 2, 1]);
    assert_eq!(canvas.get(2, 1), [9, 9, 9, 255]);
    canvas.blit(&source, -1, -1);
    assert_eq!(canvas.get(0, 0), [2, 2, 2, 1]);
    canvas.blit(&source, i64::MIN, i64::MAX);
    assert_eq!(canvas.get(1, 0), [9, 9, 9, 255]);
}

#[test]
fn a_png_holds_the_pixels() {
    let mut canvas = Canvas::filled(3, 2, [10, 20, 30]);
    canvas.set(1, 1, [1, 2, 3, 4]);
    let file = encode_png(&canvas).unwrap();
    let decoder = png::Decoder::new(std::io::Cursor::new(file));
    let mut reader = decoder.read_info().unwrap();
    let mut pixels = vec![0; reader.output_buffer_size().unwrap()];
    let info = reader.next_frame(&mut pixels).unwrap();
    assert_eq!((info.width, info.height), (3, 2));
    assert_eq!(info.color_type, png::ColorType::Rgba);
    assert_eq!(pixels, canvas.pixels);
}

#[test]
fn an_image_without_pixels_is_refused() {
    for (width, height) in [(0, 3), (3, 0), (0, 0)] {
        let error = encode_png(&Canvas::new(width, height)).unwrap_err().to_text();
        assert!(error.starts_with("PNG header failed: "));
    }
}

#[test]
fn text_is_drawn_in_dots() {
    let mut canvas = Canvas::new(14, 8);
    draw(&mut canvas, &font(), 1, 0, "I#", 1, [7, 7, 7]);
    for y in 0..8 {
        for x in 0..14 {
            let lit = y < 7 && (x == 3 || (7..12).contains(&x));
            assert_eq!(canvas.get(x, y) == [7, 7, 7, 255], lit, "{x} {y}");
        }
    }
    let mut scaled = Canvas::new(12, 14);
    draw(&mut scaled, &font(), -2, 0, "I", 2, [7, 7, 7]);
    for x in 0..12 {
        assert_eq!(scaled.get(x, 13)[3] != 0, x == 2 || x == 3);
    }
    let blank = Canvas::new(5, 5);
    let mut same = Canvas::new(5, 5);
    draw(&mut same, &font(), 0, 0, "??", 1, [7, 7, 7]);
    draw(&mut same, &font(), 0, 0, "II", 0, [7, 7, 7]);
    assert_eq!(same.pixels, blank.pixels);
}

#[test]
fn captions_are_clipped_to_what_fits() {
    assert_eq!(clip_to_width("abcdef", 17, 1), "abc");
    assert_eq!(clip_to_width("abcdef", 16, 1), "ab");
    assert_eq!(clip_to_width("abcdef", 34, 2), "abc");
    assert_eq!(clip_to_width("ab", u32::MAX, 1), "ab");
    assert_eq!(clip_to_width("ab", 100, 0), "");
    assert_eq!(clip_to_width("ab", 4, 1), "");
    for width in 0..80u32 {
        for scale in 1..4u32 {
            let n = clip_to_width("abcdefghij", width, scale).len() as u32;
            assert!(n == 0 || (6 * n - 1) * scale <= width);
            assert!(n == 10 || (6 * (n + 1) - 1) * scale > width);
        }
    }
}

#[test]
fn captions_are_scaled_to_fit() {
    let caption = vec![segment("abc"), segment("de")];
    assert_eq!(caption_scale(&caption, 200, 24), 4);
    assert_eq!(caption_scale(&caption, 117, 24), 3);
    assert_eq!(caption_scale(&caption, 118, 24), 4);
    assert_eq!(caption_scale(&caption, 200, 12), 2);
    assert_eq!(caption_scale(&caption, 200, 0), 1);
    assert_eq!(caption_scale(&caption, 200, 100), 4);
    assert_eq!(caption_scale(&caption, 1, 24), 1);
    assert_eq!(caption_scale(&vec![segment("")], 1000, 24), 1);
}

#[test]
fn panels_need_room() {
    assert!(fits(1080, 3));
    assert!(!fits(1079, 3));
    assert!(fits(0, 0));
    assert!(!fits(u32::MAX, u32::MAX));
}

#[test]
fn panels_tile_the_width() {
    for width in [1, 5, 99, 100, 101] {
        for count in 1..=7u32 {
            let plans: Vec<Plan> = (0..count)
                .map(|i| plan_panel(&vec![segment("x")], i, count, &layout(width, 50)))
                .collect();
            let mut left = 0;
            for plan in &plans {
                assert_eq!(plan.left, left);
                left += plan.width;
            }
            assert_eq!(left, width);
            let widest = plans.iter().map(|plan| plan.width).max().unwrap();
            let narrowest = plans.iter().map(|plan| plan.width).min().unwrap();
            assert!(widest - narrowest <= 1);
        }
    }
    let plan = plan_panel(&vec![segment("x")], 0, 1, &layout(10, 5));
    assert_eq!(
        plan,
        Plan { left: 0, width: 10, scale: 1, band: 9, body_height: 0 }
    );
}

#[test]
fn panels_are_composed() {
    let theme = Theme::default();
    assert_eq!(theme.background, [18, 20, 24]);
    assert_eq!(theme.divider, [58, 63, 72]);
    let picture = Canvas::filled(10, 3, [200, 0, 0]);
    let other = Canvas::new(10, 3);
    let panels = vec![
        Panel::new("#".to_string(), [1, 2, 3], picture),
        Panel::legend(vec![segment("I"), segment("#")], other),
    ];
    let image = compose(&panels, &layout(20, 12), &theme, &font());
    assert_eq!((image.width, image.height), (20, 12));
    let ground = [18, 20, 24, 255];
    // The captions, one pixel in from each panel's corner.
    assert_eq!(image.get(0, 0), ground);
    assert_eq!(image.get(1, 1), [1, 2, 3, 255]);
    assert_eq!(image.get(5, 7), [1, 2, 3, 255]);
    assert_eq!(image.get(6, 7), ground);
    assert_eq!(image.get(13, 1), [1, 2, 3, 255]);
    assert_eq!(image.get(12, 1), ground);
    // The pictures below the caption's band, and what is clear in them.
    assert_eq!(image.get(0, 9), [200, 0, 0, 255]);
    assert_eq!(image.get(8, 11), [200, 0, 0, 255]);
    assert_eq!(image.get(10, 9), ground);
    // The rule between the two, clear in the band.
    assert_eq!(image.get(9, 0), [0, 0, 0, 0]);
    assert_eq!(image.get(9, 8), [0, 0, 0, 0]);
    assert_eq!(image.get(9, 9), [58, 63, 72, 255]);
    assert_eq!(image.get(19, 9), ground);
}

#[test]
fn a_composite_without_panels_is_background() {
    let none: Vec<Panel<Canvas>> = Vec::new();
    let image = compose(&none, &layout(2, 2), &Theme::default(), &font());
    assert_eq!(image.get(1, 1), [18, 20, 24, 255]);
    let flat = compose(
        &vec![Panel::new("x".to_string(), [0; 3], Canvas::new(1, 1))],
        &layout(0, 5),
        &Theme::default(),
        &font(),
    );
    assert!(flat.pixels.is_empty());
}

#[test]
fn a_long_caption_stays_in_its_panel() {
    let empty = |width: u32| Canvas::new(width, 20);
    let panels = vec![
        Panel::new("#".repeat(500), [200, 0, 0], empty(30)),
        Panel::new(String::new(), [0, 200, 0], empty(30)),
    ];
    let image = compose(&panels, &layout(60, 40), &Theme::default(), &font());
    for y in 0..40 {
        for x in 30..60 {
            assert_ne!(image.get(x, y), [200, 0, 0, 255]);
        }
    }
    assert_eq!(image.get(1, 1), [200, 0, 0, 255]);
}
