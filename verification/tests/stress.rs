use spanned::{Annotation, Document, Severity, Snippet};

fn mark(start: usize, end: usize, label: Option<&str>) -> Annotation {
    Annotation {
        start,
        end,
        severity: if label.is_some() { Severity::Note } else { Severity::Primary },
        label: label.map(String::from),
    }
}

fn block(source: &str, annotations: Vec<Annotation>) -> Snippet {
    Snippet { source: String::from(source), origin: String::from("f"), fold: true, annotations }
}

const SOURCES: [&str; 9] = [
    "",
    "x",
    "\n",
    "one line",
    "one line\n",
    "first\nsécond\r\n\nlast",
    "日本語\n\n\ttab\tbed\n",
    "a\nb\nc\nd\ne\nf\ng\nh\ni\nj\nk\nl\n",
    "\r\n\r\nx\r\n",
];

fn boundaries(source: &str) -> Vec<usize> {
    (0..=source.len()).filter(|&i| source.is_char_boundary(i)).collect()
}

#[test]
fn every_mark_that_fits_is_drawn() {
    for source in SOURCES {
        let at = boundaries(source);
        for &start in &at {
            for &end in &at {
                if start <= end {
                    for label in [None, Some("note"), Some("")] {
                        let doc = Document {
                            title: String::from("title"),
                            snippets: vec![block(source, vec![mark(start, end, label)])],
                        };
                        assert!(doc.is_renderable());
                        let text = doc.try_render(false).unwrap();
                        assert!(text.starts_with("error: title"));
                        assert!(doc.try_render(true).is_some());
                    }
                }
            }
        }
    }
}

#[test]
fn every_pair_of_marks_that_fit_is_drawn() {
    for source in ["ab\ncd", "é\n\nx\r\ny", "one\ntwo\nthree\nfour\nfive", "ab\ncdé", "é\né\né"] {
        let at = boundaries(source);
        for &a in &at {
            for &b in &at {
                for &c in &at {
                    for &d in &at {
                        if a <= b && c <= d {
                            let doc = Document {
                                title: String::from("t"),
                                snippets: vec![
                                    block(source, vec![mark(a, b, None), mark(c, d, Some("why"))]),
                                    block(source, vec![mark(c, d, Some("why")), mark(a, b, Some("and"))]),
                                ],
                            };
                            let repeats = a == c && b == d;
                            let crosses = source[a..b].lines().count() > 1;
                            let inside = b > 0 && !source.is_char_boundary(b - 1);
                            assert_eq!(
                                doc.try_render(false).is_some(),
                                !(repeats && crosses && inside)
                            );
                        }
                    }
                }
            }
        }
    }
}

#[test]
fn marks_that_repeat_are_drawn_or_refused() {
    for source in ["ab\ncdé", "é\né", "x\n\n日本", "a\nb\n", "\n\n\n"] {
        let at = boundaries(source);
        for &a in &at {
            for &b in &at {
                if a <= b {
                    for n in 2..5usize {
                        let marks: Vec<Annotation> = (0..n).map(|_| mark(a, b, Some("same"))).collect();
                        let doc = Document {
                            title: String::from("t"),
                            snippets: vec![block(source, marks)],
                        };
                        let crosses = source[a..b].lines().count() > 1;
                        let inside = b > 0 && !source.is_char_boundary(b - 1);
                        assert_eq!(doc.is_renderable(), !(crosses && inside));
                        assert_eq!(doc.try_render(false).is_some(), doc.is_renderable());
                    }
                }
            }
        }
    }
}

#[test]
fn a_mark_that_repeats_inside_a_wide_character_is_refused() {
    let doc = Document {
        title: String::from("t"),
        snippets: vec![block("ab\ncdé", vec![mark(0, 7, None), mark(0, 7, Some("again"))])],
    };
    assert!(!doc.is_renderable());
    assert_eq!(doc.try_render(false), None);
    let doc = Document {
        title: String::from("t"),
        snippets: vec![block("ab\ncde", vec![mark(0, 6, None), mark(0, 6, Some("again"))])],
    };
    assert!(doc.try_render(false).is_some());
}

fn long_line(indent: &str, length: usize) -> String {
    let mut line = String::from(indent);
    while line.len() < length {
        line.push(if line.len() % 7 == 3 && line.len() > indent.len() { 'é' } else { 'x' });
    }
    line
}

#[test]
fn long_lines_are_drawn_where_they_are_indented_little() {
    for length in [100usize, 117, 119, 130, 141, 200, 400] {
        for spaces in [0usize, 1, 6, 12, 13, 20, 40] {
            for tabs in [0usize, 1, 3, 4] {
                let indent = format!("{}{}", "\t".repeat(tabs), " ".repeat(spaces));
                let line = long_line(&indent, length);
                let source = format!("short\n{}\nlast\n", line);
                let begin = 6;
                let at = boundaries(&source);
                let wide = spaces + 4 * tabs > 12;
                let long = line.len() > 117;
                for &start in at.iter().step_by(11) {
                    for &end in at.iter().step_by(17) {
                        if start <= end {
                            for fold in [true, false] {
                                let mut only = block(&source, vec![mark(start, end, Some("l"))]);
                                only.fold = fold;
                                let doc = Document { title: String::from("t"), snippets: vec![only] };
                                let drawn = !fold
                                    || (start < begin + line.len() + 1 && end >= begin)
                                    || false;
                                let refused = long && wide && drawn;
                                assert_eq!(doc.is_renderable(), !refused, "{:?} {} {} {}", indent, length, start, end);
                                assert_eq!(doc.try_render(false).is_some(), !refused);
                                assert_eq!(doc.try_render(true).is_some(), !refused);
                            }
                        }
                    }
                }
            }
        }
    }
}

#[test]
fn a_long_line_outside_the_part_that_is_drawn_does_no_harm() {
    let source = format!("{}{}\nnear\nfar\n", " ".repeat(40), "x".repeat(200));
    let doc = Document { title: String::from("t"), snippets: vec![block(&source, vec![mark(241, 245, None)])] };
    assert!(doc.try_render(false).is_some());
    let doc = Document { title: String::from("t"), snippets: vec![block(&source, vec![mark(0, 0, Some("l"))])] };
    assert_eq!(doc.try_render(false), None);
    let doc = Document { title: String::from("t"), snippets: vec![block(&source, vec![])] };
    assert_eq!(doc.try_render(false), None);
}

#[test]
fn many_marks_on_one_block_are_drawn() {
    let source = "alpha beta gamma\ndelta epsilon\nzeta eta theta iota\n";
    let at = boundaries(source);
    let mut marks = Vec::new();
    for (i, &start) in at.iter().enumerate() {
        let end = at[(i * 7 + 3) % at.len()];
        if start <= end {
            marks.push(mark(start, end, Some("l")));
        }
    }
    let doc = Document { title: String::from("t"), snippets: vec![block(source, marks)] };
    assert!(doc.try_render(false).is_some());
    assert!(doc.try_render(true).is_some());
}

#[test]
fn pairs_of_marks_on_long_lines_are_drawn() {
    for indent in ["", "    ", "\t\t\t", "            "] {
        for length in [118usize, 150, 290] {
            let source = format!(
                "{}\n{}\n\n{}\n",
                long_line(indent, length),
                long_line("  ", 30),
                long_line(indent, length + 40)
            );
            let at = boundaries(&source);
            for &a in at.iter().step_by(53) {
                for &b in at.iter().step_by(59) {
                    for &c in at.iter().step_by(61) {
                        for &d in at.iter().step_by(67) {
                            if a <= b && c <= d {
                                let doc = Document {
                                    title: String::from("t"),
                                    snippets: vec![block(
                                        &source,
                                        vec![mark(a, b, None), mark(c, d, Some("a label that is not short"))],
                                    )],
                                };
                                assert!(doc.is_renderable());
                                assert!(doc.try_render(false).is_some());
                            }
                        }
                    }
                }
            }
        }
    }
}

#[test]
fn deep_indentation_of_short_lines_is_drawn() {
    for spaces in [0usize, 13, 21, 27, 60, 100] {
        let source = format!("{}one\n{}two words\n", " ".repeat(spaces), " ".repeat(spaces + 3));
        let at = boundaries(&source);
        for &a in at.iter().step_by(3) {
            for &b in at.iter().step_by(5) {
                if a <= b {
                    let doc = Document {
                        title: String::from("t"),
                        snippets: vec![block(&source, vec![mark(a, b, Some("l")), mark(a, a, None)])],
                    };
                    assert!(doc.try_render(false).is_some());
                }
            }
        }
    }
}

#[test]
fn labels_and_titles_of_any_shape_are_drawn() {
    let labels = [
        "",
        "plain",
        "two\nlines",
        "ends with a line feed\n",
        "wide 日本語 and é",
        "\ttabs\tinside",
        "\r\n",
    ];
    let long = "long ".repeat(60);
    let source = "first line\n  second line\n\nfourth é line\n";
    let at = boundaries(source);
    for title in ["", "t", "two\nlines", "日本語"] {
        for label in labels.iter().copied().chain([long.as_str()]) {
            for &a in at.iter().step_by(4) {
                for &b in at.iter().step_by(7) {
                    if a <= b {
                        let doc = Document {
                            title: String::from(title),
                            snippets: vec![
                                block(source, vec![mark(a, b, Some(label)), mark(a, a, Some(label))]),
                                Snippet {
                                    source: String::from(source),
                                    origin: String::new(),
                                    fold: false,
                                    annotations: vec![mark(b, b, None), mark(a, b, Some(label))],
                                },
                            ],
                        };
                        assert!(doc.try_render(false).is_some());
                        assert!(doc.try_render(true).is_some());
                    }
                }
            }
        }
    }
}
