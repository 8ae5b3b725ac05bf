use spanned::{Annotation, Context, Document, Error, Severity, Snippet, SourceFile, Span, Spanned};

fn source(path: &str, contents: &str) -> SourceFile {
    SourceFile { path: String::from(path), contents: String::from(contents) }
}

fn frames(chain: &Error) -> Vec<(String, usize, usize, String)> {
    chain
        .links()
        .iter()
        .map(|e| {
            let bytes = e.span().bytes();
            (String::from(e.span().file()), bytes.start, bytes.end, String::from(e.message()))
        })
        .collect()
}

fn frame(file: &str, start: usize, end: usize, message: &str) -> (String, usize, usize, String) {
    (String::from(file), start, end, String::from(message))
}

fn mark(start: usize, end: usize, label: Option<&str>) -> Annotation {
    Annotation {
        start,
        end,
        severity: if label.is_some() { Severity::Note } else { Severity::Primary },
        label: label.map(String::from),
    }
}

fn three_frames() -> Error {
    Error::str("kaboom", Span::new("a.txt", 4..7))
        .wrap_str(Spanned::new("kawoosh", Span::new("a.txt", 0..3)))
        .wrap_str(Spanned::new("outer", Span::new("b.txt", 6..9)))
}

fn three_sources() -> Vec<SourceFile> {
    vec![source("a.txt", "foo=bar\nsecond line\n"), source("b.txt", "hello world\n")]
}

#[test]
fn a_leaf_has_one_frame() {
    let leaf = Error::str("kaboom", Span::new("a.txt", 4..7));
    assert_eq!(frames(&leaf), vec![frame("a.txt", 4, 7, "kaboom")]);
    assert!(leaf.source().is_none());
    let leaf = Error::here(String::from("boom"), Span::new("b", 0..1));
    assert_eq!(frames(&leaf), vec![frame("b", 0, 1, "boom")]);
    let leaf = Error::new(Spanned::new(17, Span::new("c", 2..2)));
    assert_eq!(frames(&leaf), vec![frame("c", 2, 2, "17")]);
    let leaf = Error::new_str(Spanned::new('x', Span::new("d", 3..4)));
    assert_eq!(frames(&leaf), vec![frame("d", 3, 4, "x")]);
}

fn question_mark(input: Spanned<std::num::ParseIntError>) -> Result<(), Error> {
    Err(input)?;
    Ok(())
}

#[test]
fn a_located_failure_converts_into_a_leaf() {
    let why = "x".parse::<u8>().unwrap_err();
    let text = why.to_string();
    let leaf = Error::from(Spanned::new(why.clone(), Span::new("in", 2..3)));
    assert_eq!(frames(&leaf), vec![frame("in", 2, 3, &text)]);
    let leaf: Error = Spanned::new("plain", Span::new("in", 0..5)).into();
    assert_eq!(frames(&leaf), vec![frame("in", 0, 5, "plain")]);
    let leaf = question_mark(Spanned::new(why, Span::new("in", 7..8))).unwrap_err();
    assert_eq!(frames(&leaf), vec![frame("in", 7, 8, &text)]);
}

#[test]
fn frames_of_plain_text_hold_the_text() {
    let chain = Error::leaf(Span::new("a", 1..2), String::from("cause"))
        .within(Span::new("b", 3..4), String::from("context"));
    assert_eq!(frames(&chain), vec![frame("b", 3, 4, "context"), frame("a", 1, 2, "cause")]);
}

#[test]
fn each_wrap_adds_one_frame_in_front() {
    let mut chain = Error::str("cause", Span::new("f0", 0..0));
    let mut expected = vec![frame("f0", 0, 0, "cause")];
    for n in 1..6usize {
        let file = format!("f{}", n % 3);
        let message = format!("context {}", n);
        chain = if n % 2 == 0 {
            chain.wrap(Spanned::new(message.clone(), Span::new(&file, n..2 * n)))
        } else {
            chain.wrap_str(Spanned::new(message.clone(), Span::new(&file, n..2 * n)))
        };
        expected.insert(0, frame(&file, n, 2 * n, &message));
        assert_eq!(chain.links().len(), n + 1);
        assert_eq!(frames(&chain), expected);
    }
    assert_eq!(chain.span().bytes(), 5..10);
    assert_eq!(chain.message(), "context 5");
    assert_eq!(chain.source().unwrap().message(), "context 4");
}

#[test]
fn a_wrapped_leaf_reports_the_context_as_title_and_the_cause_as_note() {
    let chain = Error::str("kaboom", Span::new("a.txt", 4..7))
        .wrap_str(Spanned::new("kawoosh", Span::new("a.txt", 0..3)));
    let doc = chain.document(&vec![source("a.txt", "foo=bar\n")]);
    assert_eq!(doc.title, "kawoosh");
    assert_eq!(doc.snippets.len(), 1);
    assert_eq!(doc.snippets[0].origin, "a.txt");
    assert_eq!(doc.snippets[0].source, "foo=bar\n");
    assert!(doc.snippets[0].fold);
    assert_eq!(doc.snippets[0].annotations, vec![mark(0, 3, None), mark(4, 7, Some("kaboom"))]);
    let text = chain.render(&vec![source("a.txt", "foo=bar\n")], false).unwrap();
    assert_eq!(
        text,
        "error: kawoosh\n --> a.txt:1:1\n  |\n1 | foo=bar\n  | ^^^ ^^^ kaboom\n  |"
    );
}

#[test]
fn frames_of_one_file_share_one_block() {
    let doc = three_frames().document(&three_sources());
    assert_eq!(
        doc,
        Document {
            title: String::from("outer"),
            snippets: vec![
                Snippet {
                    source: String::from("hello world\n"),
                    origin: String::from("b.txt"),
                    fold: true,
                    annotations: vec![mark(6, 9, None)],
                },
                Snippet {
                    source: String::from("foo=bar\nsecond line\n"),
                    origin: String::from("a.txt"),
                    fold: true,
                    annotations: vec![mark(0, 3, Some("kawoosh")), mark(4, 7, Some("kaboom"))],
                },
            ],
        }
    );
}

#[test]
fn a_report_marks_every_frame_once() {
    let mut chain = Error::str("cause", Span::new("f0", 0..1));
    for n in 1..9usize {
        let file = format!("f{}", (n * n) % 4);
        chain = chain.wrap_str(Spanned::new(n, Span::new(&file, n..n + 1)));
        let sources: Vec<SourceFile> =
            (0..4).map(|k| source(&format!("f{}", k), "0123456789")).collect();
        let doc = chain.document(&sources);
        assert!(doc.is_renderable());
        assert_eq!(chain.document(&vec![]).snippets.len(), doc.snippets.len());
        let unplaced: usize = chain.document(&vec![]).snippets.iter().map(|s| s.annotations.len()).sum();
        assert_eq!(unplaced, n + 1);
        let marks: usize = doc.snippets.iter().map(|s| s.annotations.len()).sum();
        assert_eq!(marks, n + 1);
        let mut origins: Vec<&String> = doc.snippets.iter().map(|s| &s.origin).collect();
        assert_eq!(origins[0], &file);
        origins.sort();
        origins.dedup();
        assert_eq!(origins.len(), doc.snippets.len());
        assert_eq!(doc.snippets[0].annotations[0], mark(n, n + 1, None));
        let primaries = doc
            .snippets
            .iter()
            .flat_map(|s| s.annotations.iter())
            .filter(|a| a.severity == Severity::Primary)
            .count();
        assert_eq!(primaries, 1);
    }
}

#[test]
fn files_lists_each_file_once_in_order() {
    assert_eq!(three_frames().files(), vec![String::from("b.txt"), String::from("a.txt")]);
    let chain = Error::str("x", Span::new("one", 0..0))
        .wrap_str(Spanned::new("y", Span::new("two", 0..0)))
        .wrap_str(Spanned::new("z", Span::new("one", 0..0)));
    assert_eq!(chain.files(), vec![String::from("one"), String::from("two")]);
}

#[test]
fn the_plain_report_shows_every_block() {
    let text = three_frames().render(&three_sources(), false).unwrap();
    assert_eq!(
        text,
        "error: outer\n --> b.txt:1:7\n  |\n1 | hello world\n  |       ^^^\n  |\n ::: a.txt:1:1\n  |\n1 | foo=bar\n  | ^^^ ^^^ kaboom\n  | |\n  | kawoosh\n  |"
    );
}

#[test]
fn the_report_folds_lines_that_hold_no_mark() {
    let contents = "one\ntwo\nthree\nfour\nfive\nsix\nseven\neight\nnine\n";
    let chain = Error::str("here", Span::new("n.txt", 24..27));
    let text = chain.render(&vec![source("n.txt", contents)], false).unwrap();
    assert_eq!(text, "error: here\n --> n.txt:6:1\n  |\n6 | six\n  | ^^^\n  |");
}

#[test]
fn the_styled_report_says_the_same_with_colour_codes() {
    let text = three_frames().render(&three_sources(), true).unwrap();
    assert!(text.contains("outer"));
    assert!(text.contains("kaboom"));
    assert!(text.contains("kawoosh"));
    assert!(text.contains("\u{1b}["));
    assert!(three_frames().report(&three_sources()).is_some());
}

#[test]
fn the_first_source_of_a_path_is_the_one_shown() {
    let chain = Error::str("x", Span::new("f", 0..1));
    let doc = chain.document(&vec![source("g", "gg"), source("f", "first"), source("f", "second")]);
    assert_eq!(doc.snippets[0].source, "first");
}

#[test]
fn a_file_without_source_has_a_block_that_says_so() {
    let chain = three_frames();
    let doc = chain.document(&vec![source("b.txt", "hello world\n")]);
    assert_eq!(doc.snippets[0].source, "hello world\n");
    assert_eq!(doc.snippets[0].annotations, vec![mark(6, 9, None)]);
    assert_eq!(doc.snippets[1].origin, "a.txt");
    assert_eq!(doc.snippets[1].source, "(the text of this file could not be read)");
    assert_eq!(
        doc.snippets[1].annotations,
        vec![mark(0, 0, Some("kawoosh")), mark(0, 0, Some("kaboom"))]
    );
    assert!(doc.is_renderable());
    let text = chain.render(&vec![source("b.txt", "hello world\n")], false).unwrap();
    assert_eq!(
        text,
        "error: outer\n --> b.txt:1:7\n  |\n1 | hello world\n  |       ^^^\n  |\n ::: a.txt:1:1\n  |\n1 | (the text of this file could not be read)\n  | ^\n  | |\n  | kawoosh\n  | kaboom\n  |"
    );
}

#[test]
fn a_chain_without_any_source_is_still_reported() {
    let chain = three_frames();
    let doc = chain.document(&vec![]);
    assert_eq!(doc.snippets.len(), 2);
    assert_eq!(doc.snippets[0].annotations, vec![mark(0, 0, None)]);
    assert!(doc.try_render(false).is_some());
    assert!(chain.report(&vec![]).is_some());
    let nowhere = Error::str("nowhere", Span::default());
    assert!(nowhere.render(&vec![], false).is_some());
}

#[test]
fn a_source_that_the_marks_do_not_fit_is_not_drawn() {
    let chain = three_frames();
    let sources = vec![source("a.txt", "foo"), source("b.txt", "hello world\n")];
    let doc = chain.document(&sources);
    assert_eq!(doc.snippets[1].source, "foo");
    assert_eq!(doc.snippets[1].annotations, vec![mark(0, 3, Some("kawoosh")), mark(4, 7, Some("kaboom"))]);
    assert!(!doc.is_renderable());
    assert_eq!(chain.render(&sources, false), None);
    assert_eq!(chain.report(&sources), None);
}

#[test]
fn a_mark_must_fit_the_text_of_its_block() {
    let fits = |start: usize, end: usize, text: &str| {
        let doc = Document {
            title: String::from("t"),
            snippets: vec![Snippet {
                source: String::from(text),
                origin: String::from("f"),
                fold: true,
                annotations: vec![mark(start, end, None)],
            }],
        };
        assert_eq!(doc.is_renderable(), doc.snippets[0].is_renderable());
        assert_eq!(doc.try_render(false).is_some(), doc.is_renderable());
        doc.is_renderable()
    };
    assert!(fits(0, 0, ""));
    assert!(fits(0, 3, "abc"));
    assert!(fits(3, 3, "abc"));
    assert!(fits(1, 3, "aé"));
    assert!(!fits(0, 4, "abc"));
    assert!(!fits(4, 4, "abc"));
    assert!(!fits(2, 1, "abc"));
    assert!(!fits(2, 3, "aé"));
    assert!(!fits(0, 2, "aé"));
    assert!(!fits(u32::MAX as usize, u32::MAX as usize, "abc"));
}

#[test]
fn the_dummy_span_cannot_be_drawn() {
    let chain = Error::str("nowhere", Span::default());
    assert_eq!(chain.files(), vec![String::new()]);
    assert_eq!(chain.render(&vec![source("", "text")], false), None);
}

#[test]
fn a_document_without_blocks_is_its_title() {
    let doc = Document { title: String::from("only"), snippets: vec![] };
    assert!(doc.is_renderable());
    assert_eq!(doc.render(false), "error: only");
}

#[test]
fn a_located_value_reports_its_own_place() {
    let value = Spanned::new(5u8, Span::new("a.txt", 4..7));
    let doc = value.document(String::from("5"), String::from("foo=bar\n"));
    assert_eq!(
        doc,
        Document {
            title: String::from("5"),
            snippets: vec![Snippet {
                source: String::from("foo=bar\n"),
                origin: String::from("a.txt"),
                fold: true,
                annotations: vec![mark(4, 7, None)],
            }],
        }
    );
    assert_eq!(
        doc.try_render(false).unwrap(),
        "error: 5\n --> a.txt:1:5\n  |\n1 | foo=bar\n  |     ^^^\n  |"
    );
    let doc = value.document(String::from("5"), String::new());
    assert!(doc.snippets[0].annotations.is_empty());
    assert_eq!(doc.snippets[0].source, "");
    assert!(doc.try_render(false).is_some());
}

#[test]
fn context_leaves_success_alone() {
    let ok: Result<u8, std::fmt::Error> = Ok(3);
    assert_eq!(ok.with_str_context("ctx", Span::new("m", 0..1)).unwrap(), 3);
    let ok: Result<u8, std::fmt::Error> = Ok(4);
    assert_eq!(ok.with_path_context("p", "ctx", Span::new("m", 0..1)).unwrap(), 4);
    let ok: Result<u8, std::fmt::Error> = Ok(5);
    let got = ok.with_context(|| Spanned::new("ctx", Span::new("c", 1..2)), Span::new("m", 0..1));
    assert_eq!(got.unwrap(), 5);
}

#[test]
fn context_goes_around_the_failure() {
    let why = "12a".parse::<i32>().unwrap_err();
    let text = why.to_string();
    let failed: Result<i32, std::num::ParseIntError> = Err(why.clone());
    let chain = failed
        .with_context(|| Spanned::new("reading the count", Span::new("c", 1..4)), Span::new("m", 8..9))
        .unwrap_err();
    assert_eq!(frames(&chain), vec![frame("c", 1, 4, "reading the count"), frame("m", 8, 9, &text)]);
    let failed: Result<i32, std::num::ParseIntError> = Err(why.clone());
    let chain = failed.with_path_context("conf.toml", "loading", Span::new("m", 8..9)).unwrap_err();
    assert_eq!(frames(&chain), vec![frame("conf.toml", 0, 0, "loading"), frame("m", 8, 9, &text)]);
    let failed: Result<i32, std::num::ParseIntError> = Err(why);
    let chain = failed.with_str_context("starting", Span::new("m", 8..9)).unwrap_err();
    assert_eq!(frames(&chain), vec![frame("m", 8, 9, "starting"), frame("m", 8, 9, &text)]);
}
