use embedded_text::alignment::{
    apply_height_mode, horizontal_offset, justified_gap_extra, vertical_offset,
    FontMetrics, HeightMode, HorizontalAlignment, Rect, RightAligned, RightAlignedState,
    TextBoxStyle, VerticalAlignment,
};
use embedded_text::layout::{fill_line_from, line_count, Piece};
use embedded_text::parser::Parser;
use embedded_text::rendering::{Placed, StyledTextBox, StyledTextBoxIterator};

fn style(
    alignment: HorizontalAlignment,
    vertical_alignment: VerticalAlignment,
    height_mode: HeightMode,
) -> TextBoxStyle {
    TextBoxStyle {
        font: FontMetrics {
            widths: vec![],
            default_width: 6,
            line_height: 8,
        },
        alignment,
        vertical_alignment,
        height_mode,
    }
}

fn rect(width: u32, height: u32) -> Rect {
    Rect {
        x: 0,
        y: 0,
        width,
        height,
    }
}

fn chars(placed: &[Placed]) -> Vec<(char, i64, i64)> {
    placed
        .iter()
        .filter_map(|p| match *p {
            Placed::Char { c, x, y } => Some((c, x, y)),
            Placed::Space { .. } => None,
        })
        .collect()
}

#[test]
fn right_aligned_line_ends_at_right_edge() {
    let s = style(
        HorizontalAlignment::Right,
        VerticalAlignment::Top,
        HeightMode::Exact,
    );
    let b = StyledTextBox::new("Benchmark text!", rect(90, 8), s.clone());
    let cs = chars(&b.draw());
    assert_eq!(cs.len(), 14);
    assert_eq!(cs[0], ('B', 0, 0));
    let last = cs[cs.len() - 1];
    assert_eq!(last, ('!', 84, 0));
    assert_eq!(last.1 + 6, 90);
}

#[test]
fn right_aligned_short_line_is_pushed_right() {
    let s = style(
        HorizontalAlignment::Right,
        VerticalAlignment::Top,
        HeightMode::Exact,
    );
    let b = StyledTextBox::new("ab", Rect { x: 10, y: 5, width: 30, height: 8 }, s.clone());
    assert_eq!(chars(&b.draw()), vec![('a', 28, 5), ('b', 34, 5)]);
}

#[test]
fn fit_to_text_grows_zero_height_box() {
    let s = style(
        HorizontalAlignment::Left,
        VerticalAlignment::Top,
        HeightMode::FitToText,
    );
    let b = StyledTextBox::new("Hello world", rect(36, 0), s.clone());
    assert_eq!(b.bounds.height, 16);
    let b = StyledTextBox::new("Hello world", rect(36, 100), s.clone());
    assert_eq!(b.bounds.height, 16);
    assert_eq!(
        chars(&b.draw()),
        vec![
            ('H', 0, 0),
            ('e', 6, 0),
            ('l', 12, 0),
            ('l', 18, 0),
            ('o', 24, 0),
            ('w', 0, 8),
            ('o', 6, 8),
            ('r', 12, 8),
            ('l', 18, 8),
            ('d', 24, 8),
        ]
    );
}

#[test]
fn shrink_to_text_never_grows() {
    let s = style(
        HorizontalAlignment::Left,
        VerticalAlignment::Top,
        HeightMode::ShrinkToText,
    );
    assert_eq!(StyledTextBox::new("ab", rect(60, 100), s.clone()).bounds.height, 8);
    assert_eq!(StyledTextBox::new("ab", rect(60, 4), s.clone()).bounds.height, 4);
    let e = style(
        HorizontalAlignment::Left,
        VerticalAlignment::Top,
        HeightMode::Exact,
    );
    assert_eq!(StyledTextBox::new("ab", rect(60, 100), e).bounds.height, 100);
}

#[test]
fn narrow_box_puts_one_word_per_line() {
    let s = style(
        HorizontalAlignment::Left,
        VerticalAlignment::Top,
        HeightMode::FitToText,
    );
    let b = StyledTextBox::new("ab cd ef", rect(3, 0), s.clone());
    assert_eq!(b.bounds.height, 24);
    assert_eq!(
        chars(&b.draw()),
        vec![('a', 0, 0), ('c', 0, 8), ('e', 0, 16)]
    );
}

#[test]
fn justified_line_fills_width() {
    let s = style(
        HorizontalAlignment::Justified,
        VerticalAlignment::Top,
        HeightMode::Exact,
    );
    let b = StyledTextBox::new("aa bb cc dd", rect(60, 16), s.clone());
    let placed = b.draw();
    assert_eq!(
        chars(&placed),
        vec![
            ('a', 0, 0),
            ('a', 6, 0),
            ('b', 24, 0),
            ('b', 30, 0),
            ('c', 48, 0),
            ('c', 54, 0),
            ('d', 0, 8),
            ('d', 6, 8),
        ]
    );
    assert!(placed.contains(&Placed::Space {
        x: 12,
        y: 0,
        width: 12
    }));
}

#[test]
fn justified_remainder_goes_to_leftmost_gaps() {
    let s = style(
        HorizontalAlignment::Justified,
        VerticalAlignment::Top,
        HeightMode::Exact,
    );
    // 8 characters of 6 px in 59 px: 11 px to share between two gaps.
    let b = StyledTextBox::new("aa bb cc dd", rect(59, 16), s.clone());
    let cs = chars(&b.draw());
    assert_eq!(cs[2], ('b', 24, 0));
    assert_eq!(cs[4], ('c', 47, 0));
    assert_eq!(cs[5].1 + 6, 59);
    assert_eq!(justified_gap_extra(5, 2, 0), 3);
    assert_eq!(justified_gap_extra(5, 2, 1), 2);
    assert_eq!(justified_gap_extra(5, 0, 0), 0);
}

#[test]
fn justified_last_line_is_left_aligned() {
    let s = style(
        HorizontalAlignment::Justified,
        VerticalAlignment::Top,
        HeightMode::Exact,
    );
    let b = StyledTextBox::new("aa bb", rect(60, 16), s.clone());
    assert_eq!(
        chars(&b.draw()),
        vec![('a', 0, 0), ('a', 6, 0), ('b', 18, 0), ('b', 24, 0)]
    );
}

#[test]
fn centered_line() {
    let s = style(
        HorizontalAlignment::Center,
        VerticalAlignment::Top,
        HeightMode::Exact,
    );
    let b = StyledTextBox::new("abcd", rect(60, 8), s.clone());
    assert_eq!(chars(&b.draw())[0], ('a', 18, 0));
    assert_eq!(horizontal_offset(HorizontalAlignment::Center, 25, 60), 17);
    assert_eq!(horizontal_offset(HorizontalAlignment::Right, 70, 60), 0);
}

#[test]
fn vertical_alignment_moves_block() {
    let bottom = style(
        HorizontalAlignment::Left,
        VerticalAlignment::Bottom,
        HeightMode::Exact,
    );
    let b = StyledTextBox::new("ab", rect(60, 40), bottom.clone());
    assert_eq!(chars(&b.draw())[0], ('a', 0, 32));
    let center = style(
        HorizontalAlignment::Left,
        VerticalAlignment::Center,
        HeightMode::Exact,
    );
    let b = StyledTextBox::new("ab", rect(60, 40), center.clone());
    assert_eq!(chars(&b.draw())[0], ('a', 0, 16));
    assert_eq!(vertical_offset(VerticalAlignment::Bottom, 50, 40), 0);
}

#[test]
fn zero_height_box_draws_nothing() {
    let s = style(
        HorizontalAlignment::Left,
        VerticalAlignment::Top,
        HeightMode::Exact,
    );
    let b = StyledTextBox::new("ab cd", rect(60, 0), s.clone());
    assert!(b.draw().is_empty());
}

#[test]
fn overlong_word_is_clipped_at_right_edge() {
    let s = style(
        HorizontalAlignment::Left,
        VerticalAlignment::Top,
        HeightMode::Exact,
    );
    let b = StyledTextBox::new("abcdef", rect(12, 8), s.clone());
    assert_eq!(chars(&b.draw()), vec![('a', 0, 0), ('b', 6, 0)]);
}

#[test]
fn newline_and_trailing_space() {
    let s = style(
        HorizontalAlignment::Right,
        VerticalAlignment::Top,
        HeightMode::FitToText,
    );
    let b = StyledTextBox::new("ab  \ncd", rect(30, 0), s.clone());
    assert_eq!(b.bounds.height, 16);
    assert_eq!(
        chars(&b.draw()),
        vec![('a', 18, 0), ('b', 24, 0), ('c', 18, 8), ('d', 24, 8)]
    );
}

#[test]
fn iterator_repeats_same_output() {
    let s = style(
        HorizontalAlignment::Justified,
        VerticalAlignment::Center,
        HeightMode::Exact,
    );
    let b = StyledTextBox::new("Lorem ipsum dolor sit amet", rect(50, 40), s.clone());
    let mut first = Vec::new();
    let mut it = StyledTextBoxIterator::new(&b);
    while let Some(p) = it.next() {
        first.push(p);
    }
    assert_eq!(it.next(), None);
    let mut second = Vec::new();
    let mut it = StyledTextBoxIterator::new(&b);
    while let Some(p) = it.next() {
        second.push(p);
    }
    assert!(!first.is_empty());
    assert_eq!(first, second);
    assert_eq!(first, b.draw());
}

#[test]
fn line_breaking_on_tokens() {
    let ts = Parser::parse("ab cd\nef").tokens();
    let font = FontMetrics {
        widths: vec![],
        default_width: 1,
        line_height: 1,
    };
    let l = fill_line_from(&ts, &font, 0, 10);
    assert_eq!(
        l.pieces,
        vec![Piece::Word("ab"), Piece::Gap(1), Piece::Word("cd")]
    );
    assert_eq!(l.end, 4);
    assert!(l.hard);
    assert_eq!(l.width, 5);
    assert_eq!(l.words, 2);
    let l = fill_line_from(&ts, &font, 0, 3);
    assert_eq!(l.pieces, vec![Piece::Word("ab")]);
    assert_eq!(l.end, 2);
    assert!(!l.hard);
    assert_eq!(line_count(&ts, &font, 10), 2);
    assert_eq!(line_count(&ts, &font, 3), 3);
    assert_eq!(line_count(&ts, &font, 0), 3);
}

#[test]
fn style_helpers() {
    assert_eq!(apply_height_mode(HeightMode::FitToText, 24, 0), 24);
    assert_eq!(apply_height_mode(HeightMode::ShrinkToText, 24, 10), 10);
    assert_eq!(apply_height_mode(HeightMode::Exact, 24, 10), 10);
    assert_eq!(RightAlignedState::default(), RightAlignedState::StartNewLine);
    assert_eq!(RightAligned.alignment(), HorizontalAlignment::Right);
}

#[test]
fn rect_contains_pixels_inside_only() {
    let r = Rect {
        x: -2,
        y: 3,
        width: 4,
        height: 2,
    };
    assert!(r.contains(-2, 3));
    assert!(r.contains(1, 4));
    assert!(!r.contains(2, 4));
    assert!(!r.contains(0, 5));
    assert!(!r.contains(-3, 3));
    assert!(!rect(0, 10).contains(0, 0));
}

fn narrow_font() -> FontMetrics {
    FontMetrics {
        widths: vec![('i', 2), (' ', 3), ('i', 9)],
        default_width: 6,
        line_height: 8,
    }
}

#[test]
fn font_advance_looks_up_first_entry() {
    let f = narrow_font();
    assert_eq!(f.advance('i'), 2);
    assert_eq!(f.advance(' '), 3);
    assert_eq!(f.advance('w'), 6);
    let ts = Parser::parse("iiw").tokens();
    assert_eq!(fill_line_from(&ts, &f, 0, 100).width, 10);
}

#[test]
fn variable_width_characters_advance_by_their_own_width() {
    let s = TextBoxStyle {
        font: narrow_font(),
        alignment: HorizontalAlignment::Left,
        vertical_alignment: VerticalAlignment::Top,
        height_mode: HeightMode::FitToText,
    };
    let b = StyledTextBox::new("ii w", rect(60, 0), s.clone());
    assert_eq!(b.bounds.height, 8);
    assert_eq!(
        chars(&b.draw()),
        vec![('i', 0, 0), ('i', 2, 0), ('w', 7, 0)]
    );
    // "ii ii" is 4 + 3 + 4 = 11 px wide: it wraps in 10 px, fits in 11 px.
    let b = StyledTextBox::new("ii ii", rect(10, 0), s.clone());
    assert_eq!(b.bounds.height, 16);
    let b = StyledTextBox::new("ii ii", rect(11, 0), s);
    assert_eq!(b.bounds.height, 8);
    assert_eq!(
        chars(&b.draw()),
        vec![('i', 0, 0), ('i', 2, 0), ('i', 7, 0), ('i', 9, 0)]
    );
}
