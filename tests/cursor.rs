use embedded_text::alignment::Rect;
use embedded_text::cursor::Cursor;

fn bounds() -> Rect {
    Rect {
        x: 10,
        y: 20,
        width: 30,
        height: 16,
    }
}

#[test]
fn cursor_starts_at_top_left() {
    let c = Cursor::new(bounds(), 8);
    assert_eq!(c.position(), (10, 20));
    assert_eq!(c.line_height(), 8);
    assert_eq!(c.bounds(), bounds());
    assert!(c.in_display_area());
}

#[test]
fn cursor_advances_until_right_edge() {
    let mut c = Cursor::new(bounds(), 8);
    assert!(c.fits_in_line(30));
    assert!(!c.fits_in_line(31));
    assert!(c.advance(24));
    assert_eq!(c.position(), (34, 20));
    assert!(!c.advance(7));
    assert_eq!(c.position(), (34, 20));
    assert!(c.advance(6));
    assert_eq!(c.position(), (40, 20));
    assert!(!c.fits_in_line(1));
    assert!(c.fits_in_line(0));
}

#[test]
fn cursor_new_line_and_display_area() {
    let mut c = Cursor::new(bounds(), 8);
    assert!(c.advance(12));
    c.new_line();
    assert_eq!(c.position(), (10, 28));
    assert!(c.in_display_area());
    c.new_line();
    assert_eq!(c.position(), (10, 36));
    assert!(!c.in_display_area());
}

#[test]
fn cursor_in_zero_height_box_is_outside() {
    let c = Cursor::new(
        Rect {
            x: 0,
            y: 0,
            width: 5,
            height: 0,
        },
        8,
    );
    assert!(!c.in_display_area());
}
