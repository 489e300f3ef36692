use mm0_rs::elab::{DiagnosticSeverity, ElabError, ElabErrorKind, ErrorLevel};
use mm0_rs::lined_string::{FileRef, FileSpan, LinedString, Position, Range, Span};

fn file() -> FileRef {
    FileRef { path: "/src/a.mm1".to_owned(), url: "file:///src/a.mm1".to_owned() }
}

#[test]
fn positions_count_lines_and_columns() {
    let text = LinedString::new("ab\ncd\n\nefg".to_owned());
    assert_eq!(text.to_pos(0), Position { line: 0, character: 0 });
    assert_eq!(text.to_pos(2), Position { line: 0, character: 2 });
    assert_eq!(text.to_pos(3), Position { line: 1, character: 0 });
    assert_eq!(text.to_pos(5), Position { line: 1, character: 2 });
    assert_eq!(text.to_pos(6), Position { line: 2, character: 0 });
    assert_eq!(text.to_pos(7), Position { line: 3, character: 0 });
    assert_eq!(text.to_pos(9), Position { line: 3, character: 2 });
    let empty = LinedString::new(String::new());
    assert_eq!(empty.to_pos(4), Position { line: 0, character: 4 });
    assert_eq!(
        text.to_range(Span { start: 1, end: 8 }),
        Range {
            start: Position { line: 0, character: 1 },
            end: Position { line: 3, character: 1 },
        }
    );
}

#[test]
fn message_of_an_error() {
    let kind = ElabErrorKind::Boxed("bad sort".to_owned(), None);
    assert_eq!(kind.msg(), "bad sort");
    let kind = ElabErrorKind::from("worse".to_owned());
    assert_eq!(kind.msg(), "worse");
    assert!(matches!(kind, ElabErrorKind::Boxed(_, None)));
}

#[test]
fn constructors_make_errors() {
    let e = ElabError::new(Span { start: 1, end: 2 }, ElabErrorKind::from("x".to_owned()));
    assert_eq!(e.pos, Span { start: 1, end: 2 });
    assert_eq!(e.level, ErrorLevel::Error);
    assert_eq!(e.kind.msg(), "x");
    let e = ElabError::new_e(Span { start: 3, end: 4 }, "unimplemented".to_owned());
    assert_eq!(e.pos, Span { start: 3, end: 4 });
    assert_eq!(e.level, ErrorLevel::Error);
    assert!(matches!(&e.kind, ElabErrorKind::Boxed(m, None) if m == "unimplemented"));
    let info = vec![(FileSpan { file: file(), span: Span { start: 0, end: 1 } }, "here".to_owned())];
    let e = ElabError::with_info(Span { start: 5, end: 6 }, "twice".to_owned(), info);
    assert_eq!(e.pos, Span { start: 5, end: 6 });
    assert!(matches!(&e.kind, ElabErrorKind::Boxed(m, Some(v)) if m == "twice" && v.len() == 1));
}

#[test]
fn related_information_keeps_order_and_places() {
    let text = LinedString::new("one\ntwo\nthree".to_owned());
    let none = ElabErrorKind::Boxed("m".to_owned(), None);
    assert!(none.to_related_info(&text).is_none());
    let kind = ElabErrorKind::Boxed(
        "m".to_owned(),
        Some(vec![
            (FileSpan { file: file(), span: Span { start: 4, end: 7 } }, "first".to_owned()),
            (FileSpan { file: file(), span: Span { start: 9, end: 13 } }, "second".to_owned()),
        ]),
    );
    let info = kind.to_related_info(&text).unwrap();
    assert_eq!(info.len(), 2);
    assert_eq!(info[0].message, "first");
    assert_eq!(info[0].location.uri, "file:///src/a.mm1");
    assert_eq!(
        info[0].location.range,
        Range {
            start: Position { line: 1, character: 0 },
            end: Position { line: 1, character: 3 },
        }
    );
    assert_eq!(info[1].message, "second");
    assert_eq!(
        info[1].location.range,
        Range {
            start: Position { line: 2, character: 1 },
            end: Position { line: 2, character: 5 },
        }
    );
    let empty = ElabErrorKind::Boxed("m".to_owned(), Some(vec![]));
    assert_eq!(empty.to_related_info(&text).unwrap().len(), 0);
}

#[test]
fn diagnostic_of_an_error() {
    let text = LinedString::new("sort a;\nsort a;\n".to_owned());
    let e = ElabError::with_info(
        Span { start: 13, end: 14 },
        "sort redeclared".to_owned(),
        vec![(FileSpan { file: file(), span: Span { start: 5, end: 6 } }, "earlier".to_owned())],
    );
    let d = e.to_diag(&text);
    assert_eq!(
        d.range,
        Range {
            start: Position { line: 1, character: 5 },
            end: Position { line: 1, character: 6 },
        }
    );
    assert_eq!(d.severity, Some(DiagnosticSeverity::Error));
    assert_eq!(d.code, None);
    assert_eq!(d.source.as_deref(), Some("mm0-rs"));
    assert_eq!(d.message, "sort redeclared");
    let related = d.related_information.unwrap();
    assert_eq!(related.len(), 1);
    assert_eq!(related[0].message, "earlier");
    assert_eq!(related[0].location.range.start, Position { line: 0, character: 5 });
    let mut w = ElabError::new_e(Span { start: 0, end: 4 }, "odd".to_owned());
    w.level = ErrorLevel::Warning;
    let d = w.to_diag(&text);
    assert_eq!(d.severity, Some(DiagnosticSeverity::Warning));
    assert!(d.related_information.is_none());
    assert_eq!(ErrorLevel::Error.to_diag_severity(), DiagnosticSeverity::Error);
}
