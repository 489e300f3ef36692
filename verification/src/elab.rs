//! Errors of elaboration and the diagnostics that report them.

use crate::ast::{Decl, Delimiter, SimpleNota, Stmt, StmtKind, AST};
use crate::environment::{dup_file_span, EnvView, Environment, SortView};
use crate::lined_string::{pos_of, FileRef, FileSpan, LinedString, Location, Range, Span};
use std::sync::Arc;
use vstd::prelude::*;

verus! {

/// How serious a reported problem is.
#[derive(Clone, Copy, Debug, PartialEq, Eq, Structural)]
pub enum ErrorLevel {
    Warning,
    Error,
}

/// The severity of a diagnostic, as an editor shows it.
#[derive(Clone, Copy, Debug, PartialEq, Eq, Structural)]
pub enum DiagnosticSeverity {
    Error,
    Warning,
    Information,
    Hint,
}

impl ErrorLevel {
    pub open spec fn spec_to_diag_severity(self) -> DiagnosticSeverity {
        match self {
            ErrorLevel::Warning => DiagnosticSeverity::Warning,
            ErrorLevel::Error => DiagnosticSeverity::Error,
        }
    }

    /// The severity under which an editor shows a problem of this level.
    #[verifier::when_used_as_spec(spec_to_diag_severity)]
    pub fn to_diag_severity(self) -> (r: DiagnosticSeverity)
        ensures
            r == self.spec_to_diag_severity(),
    {
        match self {
            ErrorLevel::Warning => DiagnosticSeverity::Warning,
            ErrorLevel::Error => DiagnosticSeverity::Error,
        }
    }
}

/// A message that points to another place in the sources, attached to a
/// diagnostic.
#[derive(Debug)]
pub struct DiagnosticRelatedInformation {
    pub location: Location,
    pub message: String,
}

/// A problem found in a source file, as an editor shows it.
#[derive(Debug)]
pub struct Diagnostic {
    pub range: Range,
    pub severity: Option<DiagnosticSeverity>,
    pub code: Option<i32>,
    pub source: Option<String>,
    pub message: String,
    pub related_information: Option<Vec<DiagnosticRelatedInformation>>,
}

/// What went wrong: a message, and optionally further messages at other
/// places in the sources.
#[derive(Debug)]
pub enum ElabErrorKind {
    Boxed(String, Option<Vec<(FileSpan, String)>>),
}

/// What the related information at `i` says: the place `info[i].0`, with
/// positions by the lines `lines`, and the message `info[i].1`.
pub open spec fn related_matches(
    lines: Seq<usize>,
    info: Seq<(FileSpan, String)>,
    out: Seq<DiagnosticRelatedInformation>,
    i: int,
) -> bool {
    &&& out[i].message == info[i].1
    &&& out[i].location.uri == info[i].0.file.url
    &&& out[i].location.range == (Range {
        start: pos_of(lines, info[i].0.span.start),
        end: pos_of(lines, info[i].0.span.end),
    })
}

impl ElabErrorKind {
    /// The message.
    pub open spec fn spec_msg(&self) -> String {
        self->Boxed_0
    }

    /// The further messages, if any.
    pub open spec fn info(&self) -> Option<Vec<(FileSpan, String)>> {
        self->Boxed_1
    }

    /// The message.
    pub fn msg(&self) -> (r: String)
        ensures
            r == self.spec_msg(),
    {
        match self {
            ElabErrorKind::Boxed(e, _) => e.clone(),
        }
    }

    /// The further messages as related information of a diagnostic, one
    /// for one and in order, with positions by the lines of `file`; `None`
    /// where the error has none.
    pub fn to_related_info(&self, file: &LinedString) -> (r: Option<
        Vec<DiagnosticRelatedInformation>,
    >)
        ensures
            self.info() is None ==> r is None,
            self.info() matches Some(info) ==> r matches Some(out) && out.len() == info.len()
                && forall|i: int|
                0 <= i < info.len() ==> related_matches(file.lines(), info@, out@, i),
    {
        match self {
            ElabErrorKind::Boxed(_, Some(info)) => {
                let mut out: Vec<DiagnosticRelatedInformation> = Vec::new();
                let mut i: usize = 0;
                while i < info.len()
                    invariant
                        i <= info.len(),
                        out.len() == i,
                        forall|j: int| 0 <= j < i ==> related_matches(file.lines(), info@, out@, j),
                    decreases info.len() - i,
                {
                    let entry = &info[i];
                    let ghost before = out@;
                    let item = DiagnosticRelatedInformation {
                        location: file.to_loc(&entry.0),
                        message: entry.1.clone(),
                    };
                    out.push(item);
                    proof {
                        assert forall|j: int| 0 <= j < i + 1 implies related_matches(
                            file.lines(),
                            info@,
                            out@,
                            j,
                        ) by {
                            if j < i {
                                assert(out@[j] == before[j]);
                                assert(related_matches(file.lines(), info@, before, j));
                            }
                        }
                    }
                    i += 1;
                }
                Some(out)
            },
            _ => None,
        }
    }
}

impl From<String> for ElabErrorKind {
    /// The error that says `e` and no more.
    fn from(e: String) -> (r: ElabErrorKind) {
        ElabErrorKind::Boxed(e, None)
    }
}

impl vstd::std_specs::convert::FromSpecImpl<String> for ElabErrorKind {
    open spec fn obeys_from_spec() -> bool {
        true
    }

    open spec fn from_spec(e: String) -> ElabErrorKind {
        ElabErrorKind::Boxed(e, None)
    }
}

/// An error of elaboration: where it is, how serious it is, and what went
/// wrong.
#[derive(Debug)]
pub struct ElabError {
    pub pos: Span,
    pub level: ErrorLevel,
    pub kind: ElabErrorKind,
}

impl ElabError {
    /// An error of kind `kind` at `pos`.
    pub fn new(pos: Span, kind: ElabErrorKind) -> (r: ElabError)
        ensures
            r == (ElabError { pos, level: ErrorLevel::Error, kind }),
    {
        ElabError { pos, level: ErrorLevel::Error, kind }
    }

    /// An error at `pos` that says `e` and no more.
    pub fn new_e(pos: Span, e: String) -> (r: ElabError)
        ensures
            r == (ElabError {
                pos,
                level: ErrorLevel::Error,
                kind: ElabErrorKind::Boxed(e, None),
            }),
    {
        ElabError::new(pos, ElabErrorKind::Boxed(e, None))
    }

    /// An error at `pos` that says `msg`, with the further messages `v` at
    /// other places.
    pub fn with_info(pos: Span, msg: String, v: Vec<(FileSpan, String)>) -> (r: ElabError)
        ensures
            r == (ElabError {
                pos,
                level: ErrorLevel::Error,
                kind: ElabErrorKind::Boxed(msg, Some(v)),
            }),
    {
        ElabError::new(pos, ElabErrorKind::Boxed(msg, Some(v)))
    }

    /// The diagnostic that reports this error in `file`: at the range of
    /// `pos`, with the severity of its level, no code, the source
    /// `"mm0-rs"`, the error's message and its related information.
    pub fn to_diag(&self, file: &LinedString) -> (r: Diagnostic)
        ensures
            r.range == (Range {
                start: pos_of(file.lines(), self.pos.start),
                end: pos_of(file.lines(), self.pos.end),
            }),
            r.severity == Some(self.level.to_diag_severity()),
            r.code is None,
            r.source matches Some(src) && src@ == "mm0-rs"@,
            r.message == self.kind.spec_msg(),
            self.kind.info() is None ==> r.related_information is None,
            self.kind.info() matches Some(info) ==> r.related_information matches Some(out)
                && out.len() == info.len() && forall|i: int|
                0 <= i < info.len() ==> related_matches(file.lines(), info@, out@, i),
    {
        Diagnostic {
            range: file.to_range(self.pos),
            severity: Some(self.level.to_diag_severity()),
            code: None,
            source: Some("mm0-rs".to_owned()),
            message: self.kind.msg(),
            related_information: self.kind.to_related_info(file),
        }
    }
}

/// The mathematical value of an [`ElabError`].
pub struct ElabErrorView {
    pub pos: Span,
    pub level: ErrorLevel,
    pub msg: Seq<char>,
    pub info: Option<Seq<(FileSpan, Seq<char>)>>,
}

impl View for ElabError {
    type V = ElabErrorView;

    open spec fn view(&self) -> ElabErrorView {
        ElabErrorView {
            pos: self.pos,
            level: self.level,
            msg: self.kind.spec_msg()@,
            info: match self.kind.info() {
                None => None,
                Some(v) => Some(Seq::new(v@.len(), |i: int| (v@[i].0, v@[i].1@))),
            },
        }
    }
}

/// The values of a list of errors, one for one.
pub open spec fn errors_view(es: Seq<ElabError>) -> Seq<ElabErrorView> {
    Seq::new(es.len(), |i: int| es[i]@)
}

/// The error at `pos` that says `msg` and no more.
pub open spec fn simple_error(pos: Span, msg: Seq<char>) -> ElabErrorView {
    ElabErrorView { pos, level: ErrorLevel::Error, msg, info: None }
}

/// The error at `pos` that says that a sort is declared again, and points
/// to the earlier declaration at `other`.
pub open spec fn redeclared(pos: Span, other: FileSpan) -> ElabErrorView {
    ElabErrorView {
        pos,
        level: ErrorLevel::Error,
        msg: "sort redeclared"@,
        info: Some(seq![(other, "previously declared here"@)]),
    }
}

/// The state of an elaboration as far as statements change it: what is
/// declared, and the errors reported.
pub struct ElabView {
    pub env: EnvView,
    pub errors: Seq<ElabErrorView>,
}

/// The result of declaring, in turn, the sorts `other[i..]` in `st`; a
/// sort that is declared again with other modifiers is reported at `sp`.
pub open spec fn merge_sorts(st: ElabView, other: Seq<SortView>, sp: Span, i: nat) -> ElabView
    decreases other.len() - i,
{
    if i >= other.len() {
        st
    } else {
        let s = other[i as int];
        let (env, _, red) = st.env.add_sort(s.name, s.span, s.mods);
        let errors = match red {
            None => st.errors,
            Some(prev) => st.errors.push(redeclared(sp, prev)),
        };
        merge_sorts(ElabView { env, errors }, other, sp, i + 1)
    }
}

/// The result of importing the environment `other` at `sp`: its sorts are
/// declared in turn, and its delimiters are added.
pub open spec fn merge(st: ElabView, other: EnvView, sp: Span) -> ElabView {
    let st1 = merge_sorts(st, other.sorts, sp, 0);
    ElabView {
        env: EnvView {
            delims_l: st1.env.delims_l.union(other.delims_l),
            delims_r: st1.env.delims_r.union(other.delims_r),
            ..st1.env
        },
        ..st1
    }
}

/// Whether the import at `sp` was found: the last of the first `n`
/// entries of `toks` for `sp`, if there is one.
pub open spec fn lookup_tok(toks: Seq<(Span, bool)>, sp: Span, n: nat) -> Option<bool>
    decreases n,
{
    if n == 0 {
        None
    } else if toks[n - 1].0 == sp {
        Some(toks[n - 1].1)
    } else {
        lookup_tok(toks, sp, (n - 1) as nat)
    }
}

/// What the statement `stmt` of the file `path` with the text `source`
/// does to the state `a`, giving `b`. A sort is declared under the name
/// that stands at its span. Delimiters are added. An import that was found
/// merges some environment, the one that the file server hands out for it;
/// an import that was not found does nothing. Any other statement is
/// reported as not implemented.
pub open spec fn stmt_rel(
    path: FileRef,
    source: Seq<u8>,
    toks: Seq<(Span, bool)>,
    a: ElabView,
    stmt: Stmt,
    b: ElabView,
) -> bool {
    match stmt.k {
        StmtKind::Sort(sp, sd) => {
            let (env, _, red) = a.env.add_sort(
                source.subrange(sp.start as int, sp.end as int),
                FileSpan { file: path, span: sp },
                sd,
            );
            b == (ElabView {
                env,
                errors: match red {
                    None => a.errors,
                    Some(prev) => a.errors.push(redeclared(sp, prev)),
                },
            })
        },
        StmtKind::Decl(d) => b == (ElabView {
            errors: a.errors.push(simple_error(d.id, "unimplemented"@)),
            ..a
        }),
        StmtKind::Delimiter(Delimiter::Both(f)) => b == (ElabView {
            env: a.env.add_delimiters(f@, f@),
            ..a
        }),
        StmtKind::Delimiter(Delimiter::LeftRight(ls, rs)) => b == (ElabView {
            env: a.env.add_delimiters(ls@, rs@),
            ..a
        }),
        StmtKind::SimpleNota(n) => b == (ElabView {
            errors: a.errors.push(simple_error(n.id, "unimplemented"@)),
            ..a
        }),
        StmtKind::Import(sp, _) => match lookup_tok(toks, sp, toks.len()) {
            Some(true) => exists|other: EnvView| b == #[trigger] merge(a, other, sp),
            _ => b == a,
        },
        _ => b == (ElabView {
            errors: a.errors.push(simple_error(stmt.span, "unimplemented"@)),
            ..a
        }),
    }
}

/// `b` results from `a` by the first `n` of the statements `stmts`, in
/// order.
pub open spec fn runs(
    path: FileRef,
    source: Seq<u8>,
    toks: Seq<(Span, bool)>,
    a: ElabView,
    stmts: Seq<Stmt>,
    n: nat,
    b: ElabView,
) -> bool
    decreases n,
{
    if n == 0 {
        a == b
    } else {
        exists|mid: ElabView|
            runs(path, source, toks, a, stmts, (n - 1) as nat, mid) && #[trigger] stmt_rel(
                path,
                source,
                toks,
                mid,
                stmts[n - 1],
                b,
            )
    }
}

/// A copy of the byte string.
pub fn dup_bytes(a: &Vec<u8>) -> (r: Vec<u8>)
    ensures
        r@ == a@,
{
    let mut out: Vec<u8> = Vec::new();
    let mut i: usize = 0;
    while i < a.len()
        invariant
            i <= a.len(),
            out@ == a@.subrange(0, i as int),
        decreases a.len() - i,
    {
        out.push(a[i]);
        assert(a@.subrange(0, i + 1) =~= a@.subrange(0, i as int).push(a@[i as int]));
        i += 1;
    }
    assert(a@.subrange(0, a@.len() as int) =~= a@);
    out
}

/// Appending an error appends its value.
pub proof fn lemma_errors_push(es: Seq<ElabError>, e: ElabError)
    ensures
        errors_view(es.push(e)) == errors_view(es).push(e@),
{
    assert(errors_view(es.push(e)) =~= errors_view(es).push(e@));
}

/// Imports the environment `other` into `env` at `sp`: its sorts are
/// declared in turn, a sort that is declared again with other modifiers is
/// reported in `errors`, and its delimiters are added.
pub fn merge_env(env: &mut Environment, other: &Environment, sp: Span, errors: &mut Vec<ElabError>)
    ensures
        (ElabView { env: final(env)@, errors: errors_view(final(errors)@) }) == merge(
            ElabView { env: old(env)@, errors: errors_view(old(errors)@) },
            other@,
            sp,
        ),
{
    let ghost st0 = ElabView { env: env@, errors: errors_view(errors@) };
    let sorts = other.sorts();
    let mut i: usize = 0;
    while i < sorts.len()
        invariant
            i <= sorts.len(),
            sorts@.len() == other@.sorts.len(),
            forall|j: int| 0 <= j < sorts@.len() ==> sorts@[j]@ == other@.sorts[j],
            merge_sorts(st0, other@.sorts, sp, 0) == merge_sorts(
                ElabView { env: env@, errors: errors_view(errors@) },
                other@.sorts,
                sp,
                i as nat,
            ),
        decreases sorts.len() - i,
    {
        let sort = &sorts[i];
        let ghost before = errors@;
        let (_, r) = env.add_sort(dup_bytes(&sort.name), dup_file_span(&sort.span), sort.mods);
        match r {
            Ok(()) => {},
            Err(e) => {
                let info = vec![(e.other, e.othermsg)];
                let err = ElabError::with_info(sp, e.msg, info);
                proof {
                    lemma_errors_push(before, err);
                    assert(err@.info->Some_0 =~= seq![(e.other, e.othermsg@)]);
                }
                errors.push(err);
            },
        }
        i += 1;
    }
    env.add_delimiters_of(other);
}

/// How the request for an imported file ended: the file that was found,
/// or the message that says why it cannot be had.
pub enum ImportOutcome {
    Found(FileRef),
    Failed(Seq<char>),
}

/// The errors of the first `n` imports: one for each that failed, at the
/// place of the import, in order.
pub open spec fn import_errors(
    imports: Seq<(Span, String)>,
    out: Seq<ImportOutcome>,
    n: nat,
) -> Seq<ElabErrorView>
    decreases n,
{
    if n == 0 {
        Seq::empty()
    } else {
        let before = import_errors(imports, out, (n - 1) as nat);
        match out[n - 1] {
            ImportOutcome::Failed(m) => before.push(simple_error(imports[n - 1].0, m)),
            ImportOutcome::Found(_) => before,
        }
    }
}

/// The files of the first `n` imports that were found, in order.
pub open spec fn import_deps(out: Seq<ImportOutcome>, n: nat) -> Seq<FileRef>
    decreases n,
{
    if n == 0 {
        Seq::empty()
    } else {
        let before = import_deps(out, (n - 1) as nat);
        match out[n - 1] {
            ImportOutcome::Found(f) => before.push(f),
            ImportOutcome::Failed(_) => before,
        }
    }
}

/// For each of the first `n` imports, where it stands and whether it was
/// found.
pub open spec fn import_toks(imports: Seq<(Span, String)>, out: Seq<ImportOutcome>, n: nat) -> Seq<
    (Span, bool),
> {
    Seq::new(n, |i: int| (imports[i].0, out[i] is Found))
}

/// What the first `n` imports yield does not depend on later imports.
pub proof fn lemma_import_prefix(
    imports: Seq<(Span, String)>,
    out: Seq<ImportOutcome>,
    x: ImportOutcome,
    n: nat,
)
    requires
        n <= out.len(),
    ensures
        import_errors(imports, out.push(x), n) == import_errors(imports, out, n),
        import_deps(out.push(x), n) == import_deps(out, n),
    decreases n,
{
    if n > 0 {
        lemma_import_prefix(imports, out, x, (n - 1) as nat);
        assert(out.push(x)[n - 1] == out[n - 1]);
    }
}

/// What an elaboration of the file `path`, parsed as `ast`, yields, where
/// `resolved` holds for each import the path of the imported file or the
/// reason why it has none. Each import ends in some way: one that has no
/// path fails with that reason, another as the file server decides. The
/// dependencies are the files that were found. The statements run, in
/// order, from the empty environment and the errors of the failed imports.
pub open spec fn elaborated(
    path: FileRef,
    ast: AST,
    resolved: Seq<Result<String, String>>,
    errors: Seq<ElabErrorView>,
    env: EnvView,
    deps: Seq<FileRef>,
) -> bool {
    exists|out: Seq<ImportOutcome>|
        #![trigger import_deps(out, ast.imports@.len())]
        {
            &&& out.len() == ast.imports@.len()
            &&& forall|i: int|
                0 <= i < ast.imports@.len() ==> (#[trigger] resolved[i] matches Err(m) ==> out[i]
                    == ImportOutcome::Failed(m@))
            &&& deps == import_deps(out, ast.imports@.len())
            &&& runs(
                path,
                ast.source@,
                import_toks(ast.imports@, out, ast.imports@.len()),
                ElabView {
                    env: EnvView::empty(),
                    errors: import_errors(ast.imports@, out, ast.imports@.len()),
                },
                ast.stmts@,
                ast.stmts@.len(),
                ElabView { env, errors },
            )
        }
}

/// A service that finds and elaborates the files that a file imports.
pub trait FileServer {
    /// A handle on a file whose elaboration was requested.
    type WaitToken: Clone;

    /// Requests the elaboration of the file at `path`. Returns the file and
    /// a handle on its elaboration, or a message that says why the file
    /// cannot be had.
    fn request_elab(&self, path: String) -> Result<(FileRef, Self::WaitToken), String>;

    /// The environment that the elaboration behind `tok` has produced.
    fn get_elab(&self, tok: &Self::WaitToken) -> Arc<Environment>;
}

/// The elaboration of one file in progress.
pub struct Elaborator<'a, T: FileServer + ?Sized> {
    ast: &'a AST,
    fs: &'a T,
    path: FileRef,
    errors: Vec<ElabError>,
    toks: Vec<(Span, Option<T::WaitToken>)>,
    env: Environment,
}

impl<'a, T: FileServer + ?Sized> Elaborator<'a, T> {
    /// What is declared and reported so far.
    pub closed spec fn view(&self) -> ElabView {
        ElabView { env: self.env@, errors: errors_view(self.errors@) }
    }

    /// For each import, where it stands and whether it was found.
    pub closed spec fn toks(&self) -> Seq<(Span, bool)> {
        Seq::new(self.toks@.len(), |i: int| (self.toks@[i].0, self.toks@[i].1 is Some))
    }

    /// The file that is elaborated.
    pub closed spec fn path(&self) -> FileRef {
        self.path
    }

    /// The parsed file.
    pub closed spec fn ast(&self) -> &AST {
        self.ast
    }

    /// An elaboration of `ast`, the file at `path`, with nothing declared,
    /// nothing reported and no import requested.
    pub fn new(ast: &'a AST, path: FileRef, fs: &'a T) -> (r: Elaborator<'a, T>)
        ensures
            r.view() == (ElabView { env: EnvView::empty(), errors: Seq::empty() }),
            r.toks() == Seq::<(Span, bool)>::empty(),
            r.path() == path,
            r.ast() == ast,
    {
        let r = Elaborator {
            ast,
            fs,
            path,
            errors: Vec::new(),
            toks: Vec::new(),
            env: Environment::default(),
        };
        proof {
            assert(r.view().errors =~= Seq::<ElabErrorView>::empty());
            assert(r.toks() =~= Seq::<(Span, bool)>::empty());
        }
        r
    }

    /// The text at the span `s`.
    pub fn span(&self, s: Span) -> (r: Vec<u8>)
        requires
            self.ast().in_source(s),
        ensures
            r@ == self.ast().source@.subrange(s.start as int, s.end as int),
    {
        self.ast.span(s)
    }

    /// The span `span` of the file that is elaborated.
    pub fn fspan(&self, span: Span) -> (r: FileSpan)
        ensures
            r == (FileSpan { file: self.path(), span }),
    {
        FileSpan { file: self.path.dup(), span }
    }

    /// Reports the error `e`.
    pub fn report(&mut self, e: ElabError)
        ensures
            final(self).view() == (ElabView {
                errors: old(self).view().errors.push(e@),
                ..old(self).view()
            }),
            final(self).toks() == old(self).toks(),
            final(self).path() == old(self).path(),
            final(self).ast() == old(self).ast(),
    {
        proof {
            lemma_errors_push(self.errors@, e);
        }
        self.errors.push(e);
    }

    /// Elaborates a declaration: it is reported as not implemented.
    pub fn elaborate_decl(&mut self, d: &Decl)
        ensures
            final(self).view() == (ElabView {
                errors: old(self).view().errors.push(simple_error(d.id, "unimplemented"@)),
                ..old(self).view()
            }),
            final(self).toks() == old(self).toks(),
            final(self).path() == old(self).path(),
            final(self).ast() == old(self).ast(),
    {
        self.report(ElabError::new_e(d.id, "unimplemented".to_owned()))
    }

    /// Elaborates a simple notation: it is reported as not implemented.
    pub fn add_simple_nota(&mut self, n: &SimpleNota)
        ensures
            final(self).view() == (ElabView {
                errors: old(self).view().errors.push(simple_error(n.id, "unimplemented"@)),
                ..old(self).view()
            }),
            final(self).toks() == old(self).toks(),
            final(self).path() == old(self).path(),
            final(self).ast() == old(self).ast(),
    {
        self.report(ElabError::new_e(n.id, "unimplemented".to_owned()))
    }

    /// The index of the last entry for the import at `sp`.
    fn find_tok(&self, sp: Span) -> (r: Option<usize>)
        ensures
            match r {
                Some(i) => i < self.toks@.len() && self.toks@[i as int].0 == sp && lookup_tok(
                    self.toks(),
                    sp,
                    self.toks().len(),
                ) == Some(self.toks@[i as int].1 is Some),
                None => lookup_tok(self.toks(), sp, self.toks().len()) is None,
            },
    {
        let mut n: usize = self.toks.len();
        while n > 0
            invariant
                n <= self.toks@.len(),
                self.toks().len() == self.toks@.len(),
                lookup_tok(self.toks(), sp, self.toks().len()) == lookup_tok(
                    self.toks(),
                    sp,
                    n as nat,
                ),
            decreases n,
        {
            if self.toks[n - 1].0 == sp {
                return Some(n - 1);
            }
            n -= 1;
        }
        None
    }

    /// Elaborates the statement `stmt`.
    pub fn elaborate_stmt(&mut self, stmt: &Stmt)
        requires
            stmt.k matches StmtKind::Sort(sp, _) ==> old(self).ast().in_source(sp),
        ensures
            stmt_rel(
                old(self).path(),
                old(self).ast().source@,
                old(self).toks(),
                old(self).view(),
                *stmt,
                final(self).view(),
            ),
            final(self).toks() == old(self).toks(),
            final(self).path() == old(self).path(),
            final(self).ast() == old(self).ast(),
    {
        match &stmt.k {
            StmtKind::Sort(sp, sd) => {
                let s = self.span(*sp);
                let fsp = self.fspan(*sp);
                let (_, r) = self.env.add_sort(s, fsp, *sd);
                match r {
                    Ok(()) => {},
                    Err(r) => {
                        let info = vec![(r.other, r.othermsg)];
                        let err = ElabError::with_info(*sp, r.msg, info);
                        proof {
                            assert(err@.info->Some_0 =~= seq![(r.other, r.othermsg@)]);
                        }
                        self.report(err);
                    },
                }
            },
            StmtKind::Decl(d) => self.elaborate_decl(d),
            StmtKind::Delimiter(Delimiter::Both(f)) => self.env.add_delimiters(
                f.as_slice(),
                f.as_slice(),
            ),
            StmtKind::Delimiter(Delimiter::LeftRight(ls, rs)) => self.env.add_delimiters(
                ls.as_slice(),
                rs.as_slice(),
            ),
            StmtKind::SimpleNota(n) => self.add_simple_nota(n),
            StmtKind::Import(sp, _) => {
                match self.find_tok(*sp) {
                    Some(i) => {
                        match &self.toks[i].1 {
                            Some(tok) => {
                                let env = self.fs.get_elab(tok);
                                merge_env(&mut self.env, &*env, *sp, &mut self.errors);
                            },
                            None => {},
                        }
                    },
                    None => {},
                }
            },
            _ => self.report(ElabError::new_e(stmt.span, "unimplemented".to_owned())),
        }
    }
}

/// Elaborates the file `path`, parsed as `ast`, with the file server `fs`:
/// requests each import that has a path in `resolved`, then elaborates the
/// statements in order. Returns the errors, the environment and the files
/// that the file depends on.
pub fn elaborate<T: FileServer + ?Sized>(
    fs: &T,
    path: FileRef,
    ast: &AST,
    resolved: Vec<Result<String, String>>,
    _old: Option<(usize, Vec<ElabError>, Arc<Environment>)>,
) -> (r: (Vec<ElabError>, Environment, Vec<FileRef>))
    requires
        ast.wf(),
        resolved@.len() == ast.imports@.len(),
    ensures
        elaborated(path, *ast, resolved@, errors_view(r.0@), r.1@, r.2@),
{
    let mut elab = Elaborator::new(ast, path, fs);
    let mut deps: Vec<FileRef> = Vec::new();
    let ghost mut out: Seq<ImportOutcome> = Seq::empty();
    let n: usize = ast.imports.len();
    let mut i: usize = 0;
    while i < n
        invariant
            i <= n,
            n == ast.imports@.len(),
            resolved@.len() == n,
            out.len() == i,
            elab.path() == path,
            elab.ast() == ast,
            elab.view() == (ElabView {
                env: EnvView::empty(),
                errors: import_errors(ast.imports@, out, i as nat),
            }),
            elab.toks() == import_toks(ast.imports@, out, i as nat),
            deps@ == import_deps(out, i as nat),
            forall|j: int|
                0 <= j < i ==> (#[trigger] resolved@[j] matches Err(m) ==> out[j]
                    == ImportOutcome::Failed(m@)),
        decreases n - i,
    {
        let sp: Span = ast.imports[i].0;
        let res: Result<(FileRef, T::WaitToken), String> = match &resolved[i] {
            Ok(p) => fs.request_elab(p.clone()),
            Err(m) => Err(m.clone()),
        };
        let ghost prev = out;
        let ghost toks_before = elab.toks();
        let ghost raw_before = elab.toks@;
        proof {
            assert(toks_before.len() == i);
            assert(raw_before.len() == toks_before.len());
        }
        match res {
            Ok((buf, tok)) => {
                proof {
                    out = prev.push(ImportOutcome::Found(buf));
                    lemma_import_prefix(ast.imports@, prev, ImportOutcome::Found(buf), i as nat);
                }
                deps.push(buf);
                elab.toks.push((sp, Some(tok)));
            },
            Err(e) => {
                proof {
                    out = prev.push(ImportOutcome::Failed(e@));
                    lemma_import_prefix(ast.imports@, prev, ImportOutcome::Failed(e@), i as nat);
                }
                let err = ElabError::new_e(sp, e);
                proof {
                    lemma_errors_push(elab.errors@, err);
                }
                elab.errors.push(err);
                elab.toks.push((sp, None));
            },
        }
        proof {
            let now = elab.toks();
            let want = import_toks(ast.imports@, out, (i + 1) as nat);
            assert(elab.toks@.len() == raw_before.len() + 1);
            assert forall|j: int| 0 <= j < now.len() implies now[j] == want[j] by {
                if j < i {
                    assert(now[j] == toks_before[j]);
                    assert(out[j] == prev[j]);
                }
            }
            assert(now =~= want);
        }
        i += 1;
    }
    let ghost st0 = elab.view();
    let ghost toks = elab.toks();
    let m: usize = ast.stmts.len();
    let mut k: usize = 0;
    while k < m
        invariant
            k <= m,
            m == ast.stmts@.len(),
            ast.wf(),
            elab.path() == path,
            elab.ast() == ast,
            elab.toks() == toks,
            runs(path, ast.source@, toks, st0, ast.stmts@, k as nat, elab.view()),
        decreases m - k,
    {
        let ghost mid = elab.view();
        elab.elaborate_stmt(&ast.stmts[k]);
        proof {
            // `mid` is the state between the first `k` statements and the next one.
            assert(stmt_rel(path, ast.source@, toks, mid, ast.stmts@[k + 1 - 1], elab.view()));
            assert(runs(path, ast.source@, toks, st0, ast.stmts@, (k + 1) as nat, elab.view()));
        }
        k += 1;
    }
    proof {
        assert(deps@ == import_deps(out, n as nat));
    }
    (elab.errors, elab.env, deps)
}

} // verus!
