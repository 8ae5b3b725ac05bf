use spanned::{Order, Position, Span};
use std::cmp::Ordering;

#[test]
fn new_span_holds_file_and_range() {
    let s = Span::new("dir/a.txt", 3..9);
    assert_eq!(s.file(), "dir/a.txt");
    assert_eq!(s.bytes(), 3..9);
    assert_eq!(s.len(), 6);
    assert!(!s.is_dummy());
}

#[test]
fn boundary_moves_shrink_the_range() {
    let s = Span::new("a", 10..20);
    assert_eq!(s.clone().dec_col_end(3).bytes(), 10..17);
    assert_eq!(s.clone().inc_col_start(3).bytes(), 13..20);
    assert_eq!(s.clone().set_col_end_relative_to_start(4).bytes(), 10..14);
    assert_eq!(s.clone().shrink_to_start().bytes(), 10..10);
    assert_eq!(s.clone().shrink_to_end().bytes(), 20..20);
    assert_eq!(s.clone().dec_col_end(10).bytes(), 10..10);
    assert_eq!(s.clone().inc_col_start(10).bytes(), 20..20);
    assert_eq!(s.clone().set_col_end_relative_to_start(10).bytes(), 10..20);
    assert_eq!(s.clone().dec_col_end(0), s);
    assert_eq!(s.clone().inc_col_start(0).file(), "a");
}

#[test]
fn dummy_span_equals_only_itself() {
    let d = Span::default();
    assert!(d.is_dummy());
    assert_eq!(d.file(), "");
    assert_eq!(d.bytes(), u32::MAX as usize..u32::MAX as usize);
    assert_eq!(d, Span::default());
    assert_ne!(d, Span::new("", 0..0));
    let named = Span::new("a", u32::MAX as usize..u32::MAX as usize);
    assert_ne!(d, named);
    assert!(!named.is_dummy());
    assert!(!Span::new("", 0..0).is_dummy());
    assert!(!Span::new("", 0..u32::MAX as usize).is_dummy());
    assert!(Span::default().clone().is_dummy());
    for other in [named, Span::new("", 0..0), Span::new("f", 1..2), Span::default()] {
        assert_eq!(other.is_dummy(), other == d);
        assert_eq!(other.is_dummy(), d == other);
    }
    assert_ne!(d, Span::new("", 0..u32::MAX as usize));
    assert_eq!(d.order(&Span::default()), Order::Same);
    assert_ne!(d.order(&Span::new("", 0..0)), Order::Same);
}

#[test]
fn dummy_span_shows_no_place() {
    let d = Span::default();
    assert_eq!(d.position(None), Position::Dummy);
    assert_eq!(d.position(Some(b"some\ntext\n")), Position::Dummy);
    assert_eq!(d.display(None), "DUMMY_SPAN");
    assert_eq!(d.display(Some(b"some\ntext\n")), "DUMMY_SPAN");
}

#[test]
fn only_the_dummy_span_shows_as_dummy() {
    let named = Span::new("a", u32::MAX as usize..u32::MAX as usize);
    assert_eq!(named.position(None), Position::File);
    assert_eq!(named.display(Some(b"text")), "a");
    let nameless = Span::new("", 0..1);
    assert_eq!(nameless.position(None), Position::File);
    assert_eq!(nameless.position(Some(b"text")), Position::LineColumn { line: 1, column: 1 });
    assert_eq!(nameless.display(Some(b"text")), ":1:1");
    assert_eq!(nameless.display(None), "");
}

#[test]
fn spans_are_equal_when_file_and_range_are() {
    assert_eq!(Span::new("a", 1..2), Span::new("a", 1..2));
    assert_ne!(Span::new("a", 1..2), Span::new("b", 1..2));
    assert_ne!(Span::new("a", 1..2), Span::new("a", 0..2));
    assert_ne!(Span::new("a", 1..2), Span::new("a", 1..3));
}

#[test]
fn spans_order_by_file_then_start_then_end() {
    let a = Span::new("a", 5..9);
    assert_eq!(a.order(&Span::new("b", 0..0)), Order::Before);
    assert_eq!(a.order(&Span::new("a", 6..6)), Order::Before);
    assert_eq!(a.order(&Span::new("a", 5..10)), Order::Before);
    assert_eq!(a.order(&Span::new("a", 5..9)), Order::Same);
    assert_eq!(a.order(&Span::new("a", 5..8)), Order::After);
    assert_eq!(a.order(&Span::new("a", 4..20)), Order::After);
    assert_eq!(a.order(&Span::new("", 9..9)), Order::After);
    assert_eq!(Span::new("ab", 0..0).order(&Span::new("abc", 0..0)), Order::Before);
    assert_eq!(Span::new("é", 0..0).order(&Span::new("z", 0..0)), Order::After);
}

#[test]
fn operators_follow_the_order() {
    let mut spans = vec![
        Span::new("b", 0..1),
        Span::new("a", 5..9),
        Span::new("a", 5..6),
        Span::new("a", 0..100),
        Span::new("", 3..3),
    ];
    for x in &spans {
        for y in &spans {
            let expected = match x.order(y) {
                Order::Before => Ordering::Less,
                Order::Same => Ordering::Equal,
                Order::After => Ordering::Greater,
            };
            assert_eq!(x.partial_cmp(y), Some(expected));
            assert_eq!(x.cmp(y), expected);
            assert_eq!(x < y, expected == Ordering::Less);
            assert_eq!(x == y, expected == Ordering::Equal);
        }
    }
    spans.sort();
    let sorted: Vec<(String, usize, usize)> =
        spans.iter().map(|s| (String::from(s.file()), s.bytes().start, s.bytes().end)).collect();
    assert_eq!(
        sorted,
        vec![
            (String::from(""), 3, 3),
            (String::from("a"), 0, 100),
            (String::from("a"), 5, 6),
            (String::from("a"), 5, 9),
            (String::from("b"), 0, 1),
        ]
    );
}

const FILE: &[u8] = "first line\nsécond\r\n\nlast".as_bytes();

#[test]
fn position_finds_line_and_column() {
    assert_eq!(
        Span::new("f", 0..1).position(Some(FILE)),
        Position::LineColumn { line: 1, column: 1 }
    );
    assert_eq!(
        Span::new("f", 6..10).position(Some(FILE)),
        Position::LineColumn { line: 1, column: 7 }
    );
    assert_eq!(
        Span::new("f", 11..12).position(Some(FILE)),
        Position::LineColumn { line: 2, column: 1 }
    );
    assert_eq!(
        Span::new("f", 14..15).position(Some(FILE)),
        Position::LineColumn { line: 2, column: 3 }
    );
    assert_eq!(
        Span::new("f", 21..25).position(Some(FILE)),
        Position::LineColumn { line: 4, column: 1 }
    );
}

#[test]
fn position_inside_a_character_has_no_column() {
    assert_eq!(Span::new("f", 13..14).position(Some(FILE)), Position::Line { line: 2 });
}

#[test]
fn position_on_a_line_that_is_no_text_has_no_column() {
    let bytes: &[u8] = b"ok\nb\xffd\n";
    assert_eq!(Span::new("f", 4..5).position(Some(bytes)), Position::Line { line: 2 });
    assert_eq!(
        Span::new("f", 1..2).position(Some(bytes)),
        Position::LineColumn { line: 1, column: 2 }
    );
}

#[test]
fn position_outside_every_line_is_the_file_alone() {
    assert_eq!(Span::new("f", 10..10).position(Some(FILE)), Position::File);
    assert_eq!(Span::new("f", 20..20).position(Some(FILE)), Position::File);
    assert_eq!(Span::new("f", 25..25).position(Some(FILE)), Position::File);
    assert_eq!(Span::new("f", 400..401).position(Some(FILE)), Position::File);
    assert_eq!(Span::new("f", 0..0).position(Some(b"")), Position::File);
    assert_eq!(Span::new("f", 0..1).position(None), Position::File);
}

#[test]
fn display_writes_file_line_and_column() {
    assert_eq!(Span::new("src/a.rs", 14..15).display(Some(FILE)), "src/a.rs:2:3");
    assert_eq!(Span::new("src/a.rs", 13..15).display(Some(FILE)), "src/a.rs:2");
    assert_eq!(Span::new("src/a.rs", 400..401).display(Some(FILE)), "src/a.rs");
    assert_eq!(Span::new("src/a.rs", 0..1).display(None), "src/a.rs");
    let long: Vec<u8> = "x\n".repeat(11).into_bytes();
    assert_eq!(Span::new("f", 20..21).display(Some(&long)), "f:11:1");
}

#[test]
fn here_points_from_the_column_to_the_end_of_the_line() {
    let s = Span::here("src/main.rs", Some(FILE), 2, 3);
    assert_eq!(s.file(), "src/main.rs");
    assert_eq!(s.bytes(), 14..18);
    let s = Span::here("src/main.rs", Some(FILE), 1, 1);
    assert_eq!(s.bytes(), 0..10);
    let s = Span::here("src/main.rs", Some(FILE), 4, 4);
    assert_eq!(s.bytes(), 24..25);
}

#[test]
fn here_falls_back_to_the_line_or_the_start_of_the_file() {
    assert_eq!(Span::here("m", None, 1, 1).bytes(), 0..0);
    assert_eq!(Span::here("m", None, 1, 1).file(), "m");
    assert_eq!(Span::here("m", Some(FILE), 5, 1).bytes(), 0..0);
    assert_eq!(Span::here("m", Some(FILE), 0, 1).bytes(), 0..0);
    assert_eq!(Span::here("m", Some(FILE), 2, 7).bytes(), 11..18);
    assert_eq!(Span::here("m", Some(FILE), 2, 0).bytes(), 11..18);
    assert_eq!(Span::here("m", Some(FILE), 3, 1).bytes(), 20..20);
    assert_eq!(Span::here("m", Some(b"ok\nb\xffd\n"), 2, 1).bytes(), 3..6);
}

#[test]
fn decimal_text_writes_the_digits() {
    for n in [0usize, 1, 9, 10, 11, 99, 100, 101, 4096, 1_000_000, usize::MAX] {
        assert_eq!(spanned::position::decimal_text(n), n.to_string());
    }
}
