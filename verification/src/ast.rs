//! The statements of a source file, as far as elaboration reads them.

use crate::lined_string::Span;
use vstd::prelude::*;

verus! {

/// The modifiers of a sort declaration, as a set of bits.
#[derive(Clone, Copy, Debug, PartialEq, Eq, Structural)]
pub struct Modifiers(pub u8);

/// A declaration of delimiter characters.
#[derive(Debug)]
pub enum Delimiter {
    /// Characters that delimit on both sides.
    Both(Vec<u8>),
    /// Characters that delimit on the left, and characters that delimit on
    /// the right.
    LeftRight(Vec<u8>, Vec<u8>),
}

/// A declaration of a term, a definition, an axiom or a theorem.
#[derive(Debug)]
pub struct Decl {
    /// Where its name stands.
    pub id: Span,
}

/// A prefix, infix or similar notation.
#[derive(Debug)]
pub struct SimpleNota {
    /// Where the name of the term stands.
    pub id: Span,
}

/// What a statement is.
#[derive(Debug)]
pub enum StmtKind {
    /// A sort declaration: where its name stands, and its modifiers.
    Sort(Span, Modifiers),
    Decl(Decl),
    Delimiter(Delimiter),
    SimpleNota(SimpleNota),
    Coercion,
    Notation,
    Inout,
    Annot,
    Do,
    /// An import: where the file name stands, and the file name.
    Import(Span, String),
}

/// A statement and where it stands.
#[derive(Debug)]
pub struct Stmt {
    pub span: Span,
    pub k: StmtKind,
}

/// A parsed source file: its text, the imports found in it, and its
/// statements in order.
#[derive(Debug)]
pub struct AST {
    pub source: Vec<u8>,
    pub imports: Vec<(Span, String)>,
    pub stmts: Vec<Stmt>,
}

impl AST {
    /// The span lies in the source text.
    pub open spec fn in_source(&self, s: Span) -> bool {
        s.start <= s.end <= self.source@.len()
    }

    /// The name of every sort declaration lies in the source text.
    pub open spec fn wf(&self) -> bool {
        forall|i: int|
            0 <= i < self.stmts@.len() ==> ((#[trigger] self.stmts@[i]).k matches StmtKind::Sort(
                sp,
                _,
            ) ==> self.in_source(sp))
    }

    /// Whether the name of every sort declaration lies in the source text.
    pub fn check(&self) -> (r: bool)
        ensures
            r == self.wf(),
    {
        let mut i: usize = 0;
        while i < self.stmts.len()
            invariant
                i <= self.stmts.len(),
                forall|j: int|
                    0 <= j < i ==> ((#[trigger] self.stmts@[j]).k matches StmtKind::Sort(sp, _)
                        ==> self.in_source(sp)),
            decreases self.stmts.len() - i,
        {
            match &self.stmts[i].k {
                StmtKind::Sort(sp, _) => {
                    if !(sp.start <= sp.end && sp.end <= self.source.len()) {
                        return false;
                    }
                },
                _ => {},
            }
            i += 1;
        }
        true
    }

    /// The text at the span `s`.
    pub fn span(&self, s: Span) -> (r: Vec<u8>)
        requires
            self.in_source(s),
        ensures
            r@ == self.source@.subrange(s.start as int, s.end as int),
    {
        let mut out: Vec<u8> = Vec::new();
        let mut i: usize = s.start;
        while i < s.end
            invariant
                s.start <= i <= s.end <= self.source.len(),
                out@ == self.source@.subrange(s.start as int, i as int),
            decreases s.end - i,
        {
            out.push(self.source[i]);
            assert(self.source@.subrange(s.start as int, i + 1) =~= self.source@.subrange(
                s.start as int,
                i as int,
            ).push(self.source@[i as int]));
            i += 1;
        }
        out
    }
}

} // verus!
