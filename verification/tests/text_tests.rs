use nomai_engine::text::TextRenderer;

#[test]
fn text_renderer_has_digits() {
    let tr = TextRenderer::new();
    for ch in '0'..='9' {
        assert!(tr.glyph(ch).is_some(), "TextRenderer should have glyph for '{ch}'");
    }
}

#[test]
fn text_renderer_has_uppercase() {
    let tr = TextRenderer::new();
    for ch in 'A'..='Z' {
        assert!(tr.glyph(ch).is_some(), "TextRenderer should have glyph for '{ch}'");
    }
}

#[test]
fn text_renderer_has_lowercase() {
    let tr = TextRenderer::new();
    for ch in 'a'..='z' {
        assert!(tr.glyph(ch).is_some(), "TextRenderer should have glyph for '{ch}'");
    }
}

#[test]
fn text_renderer_glyph_dimensions() {
    let tr = TextRenderer::new();
    for ch in 'A'..='Z' {
        let glyph = tr.glyph(ch).unwrap();
        assert_eq!(glyph.len(), 7, "glyph for '{ch}' should have 7 rows");
        for row in glyph {
            assert_eq!(row.len(), 5, "glyph row for '{ch}' should have 5 columns");
        }
    }
}

#[test]
fn glyph_bits_decode_left_to_right() {
    let tr = TextRenderer::new();
    let one = tr.glyph('1').unwrap();
    assert_eq!(one[0], [false, false, true, false, false]);
    assert_eq!(one[1], [false, true, true, false, false]);
    assert_eq!(one[6], [false, true, true, true, false]);
    let space = tr.glyph(' ').unwrap();
    assert!(space.iter().all(|row| row.iter().all(|&lit| !lit)));
    let percent = tr.glyph('%').unwrap();
    assert_eq!(percent[0], [true, true, false, false, true]);
}

#[test]
fn characters_outside_the_font_have_no_glyph() {
    let tr = TextRenderer::new();
    assert!(tr.glyph('@').is_none());
    assert!(tr.glyph('~').is_none());
    assert!(tr.glyph('\u{e9}').is_none());
    assert!(tr.glyph('\u{1F600}').is_none());
    let count = (0u8..128).filter(|&b| tr.glyph(b as char).is_some()).count();
    assert_eq!(count, 80);
}

#[test]
fn text_renderer_space_produces_no_lit_pixels() {
    let tr = TextRenderer::new();
    let pixels = tr.lit_pixels(" ");
    assert!(pixels.is_empty(), "space should produce no lit pixels");
}

#[test]
fn text_renderer_produces_commands_for_known_chars() {
    let tr = TextRenderer::new();
    let pixels = tr.lit_pixels("A");
    assert!(!pixels.is_empty(), "'A' should produce at least one lit pixel");
}

#[test]
fn lit_pixels_of_one_in_row_major_order() {
    let tr = TextRenderer::new();
    // '1': rows 00100, 01100, 00100, 00100, 00100, 00100, 01110
    let expected = vec![
        (0, 0, 2),
        (0, 1, 1),
        (0, 1, 2),
        (0, 2, 2),
        (0, 3, 2),
        (0, 4, 2),
        (0, 5, 2),
        (0, 6, 1),
        (0, 6, 2),
        (0, 6, 3),
    ];
    assert_eq!(tr.lit_pixels("1"), expected);
}

#[test]
fn lit_pixels_keep_character_positions_across_unknown_chars() {
    let tr = TextRenderer::new();
    let pixels = tr.lit_pixels("\u{e9}1");
    assert_eq!(pixels.len(), 10);
    assert!(pixels.iter().all(|&(i, _, _)| i == 1));
    let two = tr.lit_pixels("11");
    assert_eq!(two.len(), 20);
    assert_eq!(two[10], (1, 0, 2));
}

#[test]
fn text_columns_and_rows() {
    let tr = TextRenderer::new();
    assert_eq!(tr.text_columns(""), 0);
    assert_eq!(tr.text_columns("A"), 5);
    assert_eq!(tr.text_columns("ABC"), 17);
    assert_eq!(tr.text_rows(), 7);
}

#[test]
fn text_to_draw_commands_produces_nonempty_output() {
    let tr = TextRenderer::new();
    assert!(!tr.lit_pixels("Hello").is_empty(), "'Hello' should produce lit pixels");
}

#[test]
fn text_to_draw_commands_empty_string() {
    let tr = TextRenderer::new();
    assert!(tr.lit_pixels("").is_empty(), "empty string should produce no lit pixels");
}

#[test]
fn text_to_draw_commands_unknown_chars_skipped() {
    let tr = TextRenderer::new();
    assert!(tr.lit_pixels("\u{1F600}").is_empty(), "unknown characters should be silently skipped");
}

#[test]
fn text_to_draw_commands_multichar_spacing() {
    let tr = TextRenderer::new();
    let a = tr.lit_pixels("A");
    let ab = tr.lit_pixels("AB");
    assert!(ab.len() > a.len(), "'AB' should produce more lit pixels than 'A'");
    assert_eq!(&ab[..a.len()], &a[..]);
    assert!(ab[a.len()..].iter().all(|&(i, _, _)| i == 1), "'B' pixels come after 'A'");
}

#[test]
fn text_width_and_height() {
    let tr = TextRenderer::new();
    let scale: f32 = 2.0;
    let width = tr.text_columns("Hello") as f32 * scale;
    assert!((width - 58.0).abs() < f32::EPSILON, "text width for 'Hello' at scale 2 should be 58.0, got {width}");
    let height = tr.text_rows() as f32 * scale;
    assert!((height - 14.0).abs() < f32::EPSILON, "text height at scale 2 should be 14.0, got {height}");
    assert_eq!(tr.text_columns(""), 0);
}

#[test]
fn text_renderer_all_digits_render() {
    let tr = TextRenderer::new();
    for digit in '0'..='9' {
        let text = String::from(digit);
        assert!(!tr.lit_pixels(&text).is_empty(), "digit '{digit}' should produce lit pixels");
    }
}

#[test]
fn text_renderer_score_display() {
    let tr = TextRenderer::new();
    assert!(!tr.lit_pixels("Score: 42").is_empty(), "score display string should produce lit pixels");
}
