use bstr::ByteSlice;
use spanned::{Span, Spanned};

fn located<'a>(content: &'a [u8], file: &str, start: usize) -> Spanned<&'a [u8]> {
    Spanned::new(content, Span::new(file, start..start + content.len()))
}

fn ranges(lines: &[Spanned<&[u8]>]) -> Vec<(String, usize, usize)> {
    lines
        .iter()
        .map(|l| {
            (String::from_utf8_lossy(l.content).into_owned(), l.span.bytes().start, l.span.bytes().end)
        })
        .collect()
}

fn line(text: &str, start: usize, end: usize) -> (String, usize, usize) {
    (String::from(text), start, end)
}

const TEXTS: [&[u8]; 12] = [
    b"",
    b"\n",
    b"\r\n",
    b"\r",
    b"one",
    b"one\n",
    b"one\ntwo",
    b"foo\n\nbar\r\nbaz\n\n\nquux",
    b"a\r\r\nb\rc\n\r\n",
    b"\n\nx",
    b"tail\r",
    b"bad \xff byte\nnext\xf1\x80",
];

#[test]
fn lines_carry_the_range_of_each_line() {
    let s = located(b"foo\n\nbar\r\nbaz\n\n\nquux", "poem", 0);
    assert_eq!(
        ranges(&s.lines()),
        vec![
            line("foo", 0, 3),
            line("", 4, 4),
            line("bar", 5, 8),
            line("baz", 10, 13),
            line("", 14, 14),
            line("", 15, 15),
            line("quux", 16, 20),
        ]
    );
}

#[test]
fn lines_start_from_the_start_of_the_span() {
    let s = located(b"ab\ncd\r\n", "f", 50);
    assert_eq!(ranges(&s.lines()), vec![line("ab", 50, 52), line("cd", 53, 55)]);
}

#[test]
fn lines_keep_a_carriage_return_that_ends_no_line() {
    let s = located(b"a\r\r\nb\rc\ntail\r", "f", 0);
    assert_eq!(
        ranges(&s.lines()),
        vec![line("a\r", 0, 2), line("b\rc", 4, 7), line("tail\r", 8, 13)]
    );
}

#[test]
fn lines_of_nothing_are_none() {
    assert!(located(b"", "f", 3).lines().is_empty());
    assert_eq!(ranges(&located(b"\n", "f", 3).lines()), vec![line("", 3, 3)]);
}

#[test]
fn lines_agree_with_bstr_and_lie_where_they_say() {
    for text in TEXTS {
        let s = located(text, "f", 7);
        let ours = s.lines();
        let theirs: Vec<&[u8]> = text.lines().collect();
        assert_eq!(ours.len(), theirs.len());
        for (l, t) in ours.iter().zip(theirs) {
            assert_eq!(l.content, t);
            let r = l.span.bytes();
            assert_eq!(&text[r.start - 7..r.end - 7], t);
            assert_eq!(l.span.file(), "f");
        }
    }
}

#[test]
fn split_once_str_leaves_out_the_splitter() {
    let s = located(b"key: value: more", "conf", 30);
    let (left, right) = s.split_once_str(": ").unwrap();
    assert_eq!(left.content, b"key");
    assert_eq!(left.span.bytes(), 30..33);
    assert_eq!(right.content, b"value: more");
    assert_eq!(right.span.bytes(), 35..46);
    assert!(s.split_once_str("=").is_none());
}

#[test]
fn split_once_str_at_either_end() {
    let s = located(b",foo,", "f", 0);
    let (left, right) = s.split_once_str(",").unwrap();
    assert_eq!(left.content, b"");
    assert_eq!(left.span.bytes(), 0..0);
    assert_eq!(right.content, b"foo,");
    assert_eq!(right.span.bytes(), 1..5);
    let s = located(b"foo,", "f", 0);
    let (left, right) = s.split_once_str(",").unwrap();
    assert_eq!(left.content, b"foo");
    assert_eq!(right.content, b"");
    assert_eq!(right.span.bytes(), 4..4);
}

#[test]
fn split_once_str_works_on_bytes_that_are_no_text() {
    let s = located(b"\xff\xfe=\xc3", "f", 2);
    let (left, right) = s.split_once_str("=").unwrap();
    assert_eq!(left.content, b"\xff\xfe");
    assert_eq!(left.span.bytes(), 2..4);
    assert_eq!(right.content, b"\xc3");
    assert_eq!(right.span.bytes(), 5..6);
}

#[test]
fn strip_prefix_of_bytes_moves_the_start() {
    let s = located(b"\x89PNG rest", "img", 0);
    let t = s.strip_prefix(b"\x89PNG").unwrap();
    assert_eq!(t.content, b" rest");
    assert_eq!(t.span.bytes(), 4..9);
    assert!(s.strip_prefix(b"GIF").is_none());
    assert!(s.strip_prefix(b"\x89PNG rest and more").is_none());
    let t = s.strip_prefix(b"").unwrap();
    assert_eq!(t.content, s.content);
    assert_eq!(t.span.bytes(), 0..9);
}

#[test]
fn to_str_keeps_the_span_of_valid_text() {
    let s = located("né".as_bytes(), "f", 3);
    let text = s.to_str().unwrap();
    assert_eq!(text.content, "né");
    assert_eq!(text.span.bytes(), 3..6);
}

#[test]
fn to_str_says_where_the_text_stops_being_utf8() {
    let s = located(b"foobar\xF1\x80\x80quux", "f", 3);
    let err = s.to_str().unwrap_err();
    assert_eq!(err.span.bytes(), 3..16);
    assert_eq!(err.content.valid_up_to, 6);
    assert_eq!(err.content.error_len, Some(3));
    let err = located(b"foobar\xFF", "f", 0).to_str().unwrap_err();
    assert_eq!(err.content.valid_up_to, 6);
    assert_eq!(err.content.error_len, Some(1));
    let err = located(b"ab\xe6\x97", "f", 0).to_str().unwrap_err();
    assert_eq!(err.content.valid_up_to, 2);
    assert_eq!(err.content.error_len, None);
}

#[test]
fn lines_of_owned_contents_are_the_lines_of_their_bytes() {
    let owned = Spanned::new(b"ab\r\ncd".to_vec(), Span::new("f", 10..16));
    assert_eq!(ranges(&owned.lines()), vec![line("ab", 10, 12), line("cd", 14, 16)]);
    assert_eq!(owned.as_bytes().content, b"ab\r\ncd");
    assert_eq!(owned.as_bytes().span, owned.span);
    let text = Spanned::new(String::from("é\nx"), Span::new("f", 0..4));
    assert_eq!(ranges(&text.lines()), vec![line("é", 0, 2), line("x", 3, 4)]);
    assert_eq!(text.as_bytes().content, "é\nx".as_bytes());
    let borrowed = Spanned::new("é\nx", Span::new("f", 0..4));
    assert_eq!(ranges(&borrowed.lines()), vec![line("é", 0, 2), line("x", 3, 4)]);
    assert_eq!(borrowed.as_bytes().content, "é\nx".as_bytes());
    assert_eq!(borrowed.as_bytes().span.bytes(), 0..4);
}
