use mm0_rs::ast::{Decl, Delimiter, Modifiers, SimpleNota, Stmt, StmtKind, AST};
use mm0_rs::elab::{elaborate, merge_env, ElabError, ElabErrorKind, Elaborator, ErrorLevel, FileServer};
use mm0_rs::environment::Environment;
use mm0_rs::lined_string::{FileRef, FileSpan, Span};
use std::sync::Arc;

fn source_file(name: &str) -> FileRef {
    FileRef { path: format!("/src/{}", name), url: format!("file:///src/{}", name) }
}

fn sp(start: usize, end: usize) -> Span {
    Span { start, end }
}

/// A file server that knows one library file, which declares the sort
/// `nat` with modifiers 1 and the delimiters `(` and `)`.
struct Server;

impl FileServer for Server {
    type WaitToken = u32;

    fn request_elab(&self, path: String) -> Result<(FileRef, u32), String> {
        if path == "/src/lib.mm1" {
            Ok((source_file("lib.mm1"), 17))
        } else {
            Err(format!("no such file: {}", path))
        }
    }

    fn get_elab(&self, tok: &u32) -> Arc<Environment> {
        assert_eq!(*tok, 17);
        let mut env = Environment::new();
        let at = FileSpan { file: source_file("lib.mm1"), span: sp(5, 8) };
        env.add_sort(b"nat".to_vec(), at, Modifiers(1));
        env.add_delimiters(b"(", b")");
        Arc::new(env)
    }
}

fn message(e: &ElabError) -> String {
    e.kind.msg()
}

#[test]
fn sorts_are_declared_once() {
    let mut env = Environment::new();
    let a = FileSpan { file: source_file("a.mm1"), span: sp(0, 1) };
    let b = FileSpan { file: source_file("a.mm1"), span: sp(10, 11) };
    let c = FileSpan { file: source_file("a.mm1"), span: sp(20, 21) };
    let d = FileSpan { file: source_file("a.mm1"), span: sp(30, 31) };
    assert!(matches!(env.add_sort(b"s".to_vec(), a, Modifiers(2)), (0, Ok(()))));
    assert!(matches!(env.add_sort(b"t".to_vec(), b, Modifiers(0)), (1, Ok(()))));
    assert!(matches!(env.add_sort(b"s".to_vec(), c, Modifiers(2)), (0, Ok(()))));
    let (id, r) = env.add_sort(b"s".to_vec(), d, Modifiers(3));
    assert_eq!(id, 0);
    let e = r.unwrap_err();
    assert_eq!(e.msg, "sort redeclared");
    assert_eq!(e.othermsg, "previously declared here");
    assert_eq!(e.other.span, sp(0, 1));
    assert_eq!(env.sorts().len(), 2);
    assert_eq!(env.sorts()[0].name, b"s".to_vec());
    assert_eq!(env.sorts()[0].mods, Modifiers(2));
    assert_eq!(env.sorts()[1].name, b"t".to_vec());
}

#[test]
fn delimiters_accumulate() {
    let mut env = Environment::new();
    assert!(!env.is_left_delimiter(b'('));
    env.add_delimiters(b"([", b")]");
    env.add_delimiters(b"{", b"");
    assert!(env.is_left_delimiter(b'('));
    assert!(env.is_left_delimiter(b'['));
    assert!(env.is_left_delimiter(b'{'));
    assert!(!env.is_left_delimiter(b')'));
    assert!(env.is_right_delimiter(b')'));
    assert!(env.is_right_delimiter(b']'));
    assert!(!env.is_right_delimiter(b'}'));
}

#[test]
fn merging_reports_conflicts_at_the_import() {
    let mut env = Environment::new();
    let here = FileSpan { file: source_file("a.mm1"), span: sp(0, 3) };
    env.add_sort(b"nat".to_vec(), here, Modifiers(4));
    let other = Server.get_elab(&17);
    let mut errors: Vec<ElabError> = Vec::new();
    merge_env(&mut env, &other, sp(40, 50), &mut errors);
    assert_eq!(env.sorts().len(), 1);
    assert!(env.is_left_delimiter(b'('));
    assert!(env.is_right_delimiter(b')'));
    assert_eq!(errors.len(), 1);
    assert_eq!(errors[0].pos, sp(40, 50));
    assert_eq!(errors[0].level, ErrorLevel::Error);
    match &errors[0].kind {
        ElabErrorKind::Boxed(m, Some(info)) => {
            assert_eq!(m, "sort redeclared");
            assert_eq!(info.len(), 1);
            assert_eq!(info[0].0.span, sp(0, 3));
            assert_eq!(info[0].1, "previously declared here");
        }
        _ => panic!("expected related information"),
    }
    // Merging into an empty environment takes the sorts over.
    let mut fresh = Environment::new();
    let mut none: Vec<ElabError> = Vec::new();
    merge_env(&mut fresh, &other, sp(0, 0), &mut none);
    assert!(none.is_empty());
    assert_eq!(fresh.sorts().len(), 1);
    assert_eq!(fresh.sorts()[0].name, b"nat".to_vec());
    assert_eq!(fresh.sorts()[0].span.span, sp(5, 8));
}

fn source() -> AST {
    // sort foo; sort foo; with the second declaration under other modifiers
    AST {
        source: b"sort foo; pure sort foo; import \"lib.mm1\";".to_vec(),
        imports: vec![(sp(32, 41), "lib.mm1".to_owned()), (sp(50, 60), "gone.mm1".to_owned())],
        stmts: vec![
            Stmt { span: sp(0, 9), k: StmtKind::Sort(sp(5, 8), Modifiers(0)) },
            Stmt { span: sp(10, 24), k: StmtKind::Sort(sp(20, 23), Modifiers(1)) },
            Stmt { span: sp(25, 42), k: StmtKind::Import(sp(32, 41), "lib.mm1".to_owned()) },
            Stmt { span: sp(43, 44), k: StmtKind::Decl(Decl { id: sp(43, 44) }) },
            Stmt { span: sp(45, 46), k: StmtKind::SimpleNota(SimpleNota { id: sp(45, 46) }) },
            Stmt { span: sp(47, 48), k: StmtKind::Delimiter(Delimiter::Both(b"$".to_vec())) },
            Stmt {
                span: sp(48, 49),
                k: StmtKind::Delimiter(Delimiter::LeftRight(b"<".to_vec(), b">".to_vec())),
            },
            Stmt { span: sp(49, 50), k: StmtKind::Coercion },
            Stmt { span: sp(50, 60), k: StmtKind::Import(sp(50, 60), "gone.mm1".to_owned()) },
            Stmt { span: sp(61, 62), k: StmtKind::Import(sp(61, 62), "unknown.mm1".to_owned()) },
        ],
    }
}

#[test]
fn elaboration_of_a_file() {
    let ast = source();
    assert!(ast.check());
    let resolved = vec![Ok("/src/lib.mm1".to_owned()), Ok("/src/gone.mm1".to_owned())];
    let (errors, env, deps) = elaborate(&Server, source_file("a.mm1"), &ast, resolved, None);
    assert_eq!(deps.len(), 1);
    assert_eq!(deps[0].path, "/src/lib.mm1");
    let got: Vec<(Span, String)> = errors.iter().map(|e| (e.pos, message(e))).collect();
    assert_eq!(
        got,
        vec![
            (sp(50, 60), "no such file: /src/gone.mm1".to_owned()),
            (sp(20, 23), "sort redeclared".to_owned()),
            (sp(43, 44), "unimplemented".to_owned()),
            (sp(45, 46), "unimplemented".to_owned()),
            (sp(49, 50), "unimplemented".to_owned()),
        ]
    );
    match &errors[1].kind {
        ElabErrorKind::Boxed(_, Some(info)) => {
            assert_eq!(info[0].0.span, sp(5, 8));
            assert_eq!(info[0].0.file.path, "/src/a.mm1");
        }
        _ => panic!("expected related information"),
    }
    assert_eq!(env.sorts().len(), 2);
    assert_eq!(env.sorts()[0].name, b"foo".to_vec());
    assert_eq!(env.sorts()[0].mods, Modifiers(0));
    assert_eq!(env.sorts()[1].name, b"nat".to_vec());
    assert!(env.is_left_delimiter(b'('));
    assert!(env.is_left_delimiter(b'$'));
    assert!(env.is_right_delimiter(b'$'));
    assert!(env.is_left_delimiter(b'<'));
    assert!(!env.is_right_delimiter(b'<'));
    assert!(env.is_right_delimiter(b'>'));
}

#[test]
fn import_without_a_path_is_an_error() {
    let ast = AST {
        source: Vec::new(),
        imports: vec![(sp(1, 2), "x.mm1".to_owned())],
        stmts: vec![Stmt { span: sp(0, 3), k: StmtKind::Import(sp(1, 2), "x.mm1".to_owned()) }],
    };
    let resolved = vec![Err("not found".to_owned())];
    let (errors, env, deps) = elaborate(&Server, source_file("a.mm1"), &ast, resolved, None);
    assert!(deps.is_empty());
    assert_eq!(errors.len(), 1);
    assert_eq!(errors[0].pos, sp(1, 2));
    assert_eq!(message(&errors[0]), "not found");
    assert!(env.sorts().is_empty());
}

#[test]
fn statements_one_by_one() {
    let ast = source();
    let server = Server;
    let mut elab = Elaborator::new(&ast, source_file("a.mm1"), &server);
    assert_eq!(elab.span(sp(5, 8)), b"foo".to_vec());
    let fs = elab.fspan(sp(1, 2));
    assert_eq!(fs.file.path, "/src/a.mm1");
    assert_eq!(fs.span, sp(1, 2));
    elab.elaborate_decl(&Decl { id: sp(3, 4) });
    elab.add_simple_nota(&SimpleNota { id: sp(5, 6) });
    elab.report(ElabError::new_e(sp(7, 8), "odd".to_owned()));
    for stmt in &ast.stmts {
        elab.elaborate_stmt(stmt);
    }
}

#[test]
fn text_outside_the_source_is_found_by_the_check() {
    let mut ast = source();
    assert_eq!(ast.span(sp(0, 4)), b"sort".to_vec());
    assert_eq!(ast.span(sp(4, 4)), Vec::<u8>::new());
    ast.stmts.push(Stmt { span: sp(0, 1), k: StmtKind::Sort(sp(40, 400), Modifiers(0)) });
    assert!(!ast.check());
    let mut ast = source();
    ast.stmts.push(Stmt { span: sp(0, 1), k: StmtKind::Sort(sp(9, 8), Modifiers(0)) });
    assert!(!ast.check());
}
