use watermark::layout::{glyph_lines, line_baseline, text_lines};
use watermark::raster::{check_layout, compose_stamp, GlyphBitmap};

fn chars(s: &str) -> Vec<char> {
    s.chars().collect()
}

fn glyph(left: i32, bottom: i32, width: usize, height: usize) -> GlyphBitmap {
    GlyphBitmap {
        left,
        bottom,
        width,
        height,
        coverage: vec![1; width * height],
    }
}

#[test]
fn text_lines_split_at_line_feeds() {
    assert_eq!(text_lines("AB\nC"), Ok(vec![chars("AB"), chars("C")]));
    assert_eq!(text_lines("a\n"), Ok(vec![chars("a"), vec![]]));
    assert_eq!(text_lines("\n\nx"), Ok(vec![vec![], vec![], chars("x")]));
    assert_eq!(text_lines("é€"), Ok(vec![chars("é€")]));
}

#[test]
fn an_empty_text_is_refused() {
    assert_eq!(text_lines(""), Err("watermark text is empty".to_string()));
}

#[test]
fn baselines_go_down_one_line_height_at_a_time() {
    assert_eq!(line_baseline(120, 0), Some(0));
    assert_eq!(line_baseline(120, 1), Some(-120));
    assert_eq!(line_baseline(120, 3), Some(-360));
    assert_eq!(line_baseline(-5, 2), Some(10));
    assert_eq!(line_baseline(i32::MAX, 1), Some(-i32::MAX));
    assert_eq!(line_baseline(i32::MAX, 2), None);
    assert_eq!(line_baseline(i32::MIN, 1), None);
}

#[test]
fn glyphs_are_aligned_as_the_line_they_sit_on() {
    // "AB\nC": two glyphs on line 0, one on line 1
    assert_eq!(glyph_lines(&vec![0, 0, -100], 100, 2), vec![0, 0, 1]);
    // three lines of one glyph each
    assert_eq!(glyph_lines(&vec![0, -100, -200], 100, 3), vec![0, 1, 2]);
    assert_eq!(glyph_lines(&vec![], 100, 1), vec![]);
}

#[test]
fn a_line_without_glyphs_is_skipped() {
    // "A\n\nB": the glyph of the third line is aligned as the third line
    assert_eq!(glyph_lines(&vec![0, -200], 100, 3), vec![0, 2]);
    // "\nA": the only glyph sits on the second line
    assert_eq!(glyph_lines(&vec![-100], 100, 2), vec![1]);
}

#[test]
fn a_baseline_on_no_line_goes_to_the_last_line() {
    assert_eq!(glyph_lines(&vec![0, 7], 100, 3), vec![0, 2]);
    assert_eq!(glyph_lines(&vec![0, 5], i32::MAX, 3), vec![0, 2]);
}

#[test]
fn layouts_that_fit_in_i32_are_accepted() {
    assert!(check_layout(&vec![glyph(0, 0, 3, 2), glyph(-10, -5, 4, 4)]));
    assert!(check_layout(&vec![glyph(i32::MAX - 3, 0, 3, 1)]));
}

#[test]
fn layouts_that_overflow_i32_are_refused() {
    assert!(!check_layout(&vec![]));
    assert!(!check_layout(&vec![glyph(i32::MAX - 2, 0, 3, 1)]));
    assert!(!check_layout(&vec![glyph(i32::MIN, 0, 1, 1), glyph(10, 0, 1, 1)]));
    let mut short = glyph(0, 0, 2, 2);
    short.coverage.pop();
    assert!(!check_layout(&vec![short]));
}

fn partial_glyph(left: i32, bottom: i32) -> GlyphBitmap {
    GlyphBitmap {
        left,
        bottom,
        width: 2,
        height: 2,
        coverage: vec![255, 100, 0, 7],
    }
}

#[test]
fn the_colour_only_fills_the_rgb_plane() {
    let gs = vec![partial_glyph(0, 0), partial_glyph(1, -1)];
    let red = compose_stamp(&gs, 255, 0, 0, 200).unwrap();
    let blue = compose_stamp(&gs, 0, 0, 255, 200).unwrap();
    assert_eq!((red.w, red.h), (blue.w, blue.h));
    assert_eq!(red.alpha, blue.alpha);
    assert_ne!(red.rgb, blue.rgb);
}

#[test]
fn the_alpha_scales_the_opaque_image() {
    let gs = vec![partial_glyph(0, 0), partial_glyph(1, -1)];
    let opaque = compose_stamp(&gs, 9, 8, 7, 255).unwrap();
    let faint = compose_stamp(&gs, 9, 8, 7, 128).unwrap();
    assert_eq!((opaque.w, opaque.h), (faint.w, faint.h));
    assert_eq!(opaque.rgb, faint.rgb);
    for (o, f) in opaque.alpha.iter().zip(faint.alpha.iter()) {
        assert_eq!(*f as u16, *o as u16 * 128 / 255);
    }
}

#[test]
fn moving_lines_sideways_keeps_the_height() {
    let left = compose_stamp(&vec![partial_glyph(0, 0), partial_glyph(0, -5)], 0, 0, 0, 255).unwrap();
    let right = compose_stamp(&vec![partial_glyph(0, 0), partial_glyph(3, -5)], 0, 0, 0, 255).unwrap();
    assert_eq!(left.h, right.h);
    assert_eq!(left.h, 7);
}
