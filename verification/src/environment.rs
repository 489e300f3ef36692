//! What elaboration has declared so far: the sorts and the delimiter
//! characters.

use crate::ast::Modifiers;
use crate::lined_string::FileSpan;
use vstd::prelude::*;

verus! {

/// A declared sort.
#[derive(Debug)]
pub struct Sort {
    pub name: Vec<u8>,
    /// Where it was declared.
    pub span: FileSpan,
    pub mods: Modifiers,
}

/// The mathematical value of a [`Sort`].
pub struct SortView {
    pub name: Seq<u8>,
    pub span: FileSpan,
    pub mods: Modifiers,
}

impl View for Sort {
    type V = SortView;

    open spec fn view(&self) -> SortView {
        SortView { name: self.name@, span: self.span, mods: self.mods }
    }
}

/// A sort was declared again, with other modifiers.
#[derive(Debug)]
pub struct RedeclarationError {
    /// What is wrong.
    pub msg: String,
    /// What to say at the earlier declaration.
    pub othermsg: String,
    /// Where the earlier declaration stands.
    pub other: FileSpan,
}

/// The sorts and delimiter characters declared so far.
pub struct Environment {
    sorts: Vec<Sort>,
    delims_l: Vec<u8>,
    delims_r: Vec<u8>,
}

/// The mathematical value of an [`Environment`].
pub struct EnvView {
    /// The sorts, in the order of their declaration.
    pub sorts: Seq<SortView>,
    /// The characters that delimit on the left.
    pub delims_l: Set<u8>,
    /// The characters that delimit on the right.
    pub delims_r: Set<u8>,
}

/// The index of the first of the sorts `sorts[i..]` that is named `name`.
pub open spec fn find_sort(sorts: Seq<SortView>, name: Seq<u8>, i: nat) -> Option<nat>
    decreases sorts.len() - i,
{
    if i >= sorts.len() {
        None
    } else if sorts[i as int].name == name {
        Some(i)
    } else {
        find_sort(sorts, name, i + 1)
    }
}

impl EnvView {
    /// The environment with nothing declared.
    pub open spec fn empty() -> EnvView {
        EnvView { sorts: Seq::empty(), delims_l: Set::empty(), delims_r: Set::empty() }
    }

    /// The result of declaring the sort `name` at `span` with the modifiers
    /// `mods`: the environment after, the index of the sort, and, where a
    /// sort of that name was declared before with other modifiers, the
    /// place of that declaration. A new name is added at the end; a known
    /// name changes nothing.
    pub open spec fn add_sort(self, name: Seq<u8>, span: FileSpan, mods: Modifiers) -> (
        EnvView,
        nat,
        Option<FileSpan>,
    ) {
        match find_sort(self.sorts, name, 0) {
            None => (
                EnvView { sorts: self.sorts.push(SortView { name, span, mods }), ..self },
                self.sorts.len(),
                None,
            ),
            Some(i) => (
                self,
                i,
                if self.sorts[i as int].mods == mods {
                    None
                } else {
                    Some(self.sorts[i as int].span)
                },
            ),
        }
    }

    /// The environment with the characters `ls` delimiting on the left and
    /// `rs` on the right, besides those that did so before.
    pub open spec fn add_delimiters(self, ls: Seq<u8>, rs: Seq<u8>) -> EnvView {
        EnvView {
            delims_l: self.delims_l.union(ls.to_set()),
            delims_r: self.delims_r.union(rs.to_set()),
            ..self
        }
    }
}

impl Environment {
    /// An environment with nothing declared.
    pub fn new() -> (r: Environment)
        ensures
            r@ == EnvView::empty(),
    {
        let env = Environment { sorts: Vec::new(), delims_l: Vec::new(), delims_r: Vec::new() };
        proof {
            assert(env@.sorts =~= Seq::<SortView>::empty());
            assert(env@.delims_l =~= Set::<u8>::empty());
            assert(env@.delims_r =~= Set::<u8>::empty());
        }
        env
    }

    /// The declared sorts, in the order of their declaration.
    pub fn sorts(&self) -> (r: &Vec<Sort>)
        ensures
            r@.len() == self@.sorts.len(),
            forall|i: int| 0 <= i < r@.len() ==> r@[i]@ == self@.sorts[i],
    {
        &self.sorts
    }

    /// Whether the character `c` delimits on the left.
    pub fn is_left_delimiter(&self, c: u8) -> (r: bool)
        ensures
            r == self@.delims_l.contains(c),
    {
        contains_byte(&self.delims_l, c)
    }

    /// Whether the character `c` delimits on the right.
    pub fn is_right_delimiter(&self, c: u8) -> (r: bool)
        ensures
            r == self@.delims_r.contains(c),
    {
        contains_byte(&self.delims_r, c)
    }

    /// Declares the sort `s` at `fsp` with the modifiers `sd` and returns
    /// its index: a new name is added; a known name with the same
    /// modifiers is accepted; a known name with other modifiers is an
    /// error that points to the earlier declaration.
    pub fn add_sort(&mut self, s: Vec<u8>, fsp: FileSpan, sd: Modifiers) -> (r: (
        usize,
        Result<(), RedeclarationError>,
    ))
        ensures
            final(self)@ == old(self)@.add_sort(s@, fsp, sd).0,
            r.0 == old(self)@.add_sort(s@, fsp, sd).1,
            match old(self)@.add_sort(s@, fsp, sd).2 {
                None => r.1 is Ok,
                Some(other) => r.1 matches Err(e) && e.other == other && e.msg@
                    == "sort redeclared"@ && e.othermsg@ == "previously declared here"@,
            },
    {
        let ghost sorts = self@.sorts;
        let mut i: usize = 0;
        while i < self.sorts.len()
            invariant
                i <= self.sorts.len(),
                sorts == self@.sorts,
                *self == *old(self),
                find_sort(sorts, s@, 0) == find_sort(sorts, s@, i as nat),
            decreases self.sorts.len() - i,
        {
            if same_bytes(&self.sorts[i].name, &s) {
                assert(sorts[i as int].name == s@);
                let sort = &self.sorts[i];
                if sort.mods == sd {
                    return (i, Ok(()));
                } else {
                    let e = RedeclarationError {
                        msg: "sort redeclared".to_owned(),
                        othermsg: "previously declared here".to_owned(),
                        other: dup_file_span(&sort.span),
                    };
                    return (i, Err(e));
                }
            }
            assert(sorts[i as int].name != s@);
            i += 1;
        }
        let id: usize = self.sorts.len();
        self.sorts.push(Sort { name: s, span: fsp, mods: sd });
        proof {
            assert(self@.sorts =~= sorts.push(SortView { name: s@, span: fsp, mods: sd }));
        }
        (id, Ok(()))
    }

    /// Adds the delimiters of `other`.
    pub fn add_delimiters_of(&mut self, other: &Environment)
        ensures
            final(self)@ == (EnvView {
                delims_l: old(self)@.delims_l.union(other@.delims_l),
                delims_r: old(self)@.delims_r.union(other@.delims_r),
                ..old(self)@
            }),
    {
        self.delims_l.extend_from_slice(other.delims_l.as_slice());
        self.delims_r.extend_from_slice(other.delims_r.as_slice());
        proof {
            assert(self.delims_l@ =~= old(self).delims_l@ + other.delims_l@);
            assert(self.delims_r@ =~= old(self).delims_r@ + other.delims_r@);
            vstd::seq_lib::seq_to_set_distributes_over_add(old(self).delims_l@, other.delims_l@);
            vstd::seq_lib::seq_to_set_distributes_over_add(old(self).delims_r@, other.delims_r@);
            assert(self@.sorts =~= old(self)@.sorts);
        }
    }

    /// Makes the characters `ls` delimit on the left and `rs` on the right.
    pub fn add_delimiters(&mut self, ls: &[u8], rs: &[u8])
        ensures
            final(self)@ == old(self)@.add_delimiters(ls@, rs@),
    {
        self.delims_l.extend_from_slice(ls);
        self.delims_r.extend_from_slice(rs);
        proof {
            assert(self.delims_l@ =~= old(self).delims_l@ + ls@);
            assert(self.delims_r@ =~= old(self).delims_r@ + rs@);
            vstd::seq_lib::seq_to_set_distributes_over_add(old(self).delims_l@, ls@);
            vstd::seq_lib::seq_to_set_distributes_over_add(old(self).delims_r@, rs@);
            assert(self@.sorts =~= old(self)@.sorts);
        }
    }
}

impl Default for Environment {
    /// An environment with nothing declared.
    fn default() -> (r: Environment)
        ensures
            r@ == EnvView::empty(),
    {
        Environment::new()
    }
}

impl View for Environment {
    type V = EnvView;

    closed spec fn view(&self) -> EnvView {
        EnvView {
            sorts: Seq::new(self.sorts@.len(), |i: int| self.sorts@[i]@),
            delims_l: self.delims_l@.to_set(),
            delims_r: self.delims_r@.to_set(),
        }
    }
}

/// Whether the two byte strings are the same.
pub fn same_bytes(a: &Vec<u8>, b: &Vec<u8>) -> (r: bool)
    ensures
        r == (a@ == b@),
{
    if a.len() != b.len() {
        return false;
    }
    let mut i: usize = 0;
    while i < a.len()
        invariant
            a.len() == b.len(),
            i <= a.len(),
            forall|j: int| 0 <= j < i ==> a@[j] == b@[j],
        decreases a.len() - i,
    {
        if a[i] != b[i] {
            return false;
        }
        i += 1;
    }
    assert(a@ =~= b@);
    true
}

/// A copy of the file span.
pub fn dup_file_span(fs: &FileSpan) -> (r: FileSpan)
    ensures
        r == *fs,
{
    FileSpan { file: fs.file.dup(), span: fs.span }
}

/// Whether `c` occurs among `cs`.
pub fn contains_byte(cs: &Vec<u8>, c: u8) -> (r: bool)
    ensures
        r == cs@.to_set().contains(c),
{
    let mut i: usize = 0;
    while i < cs.len()
        invariant
            i <= cs.len(),
            forall|j: int| 0 <= j < i ==> cs@[j] != c,
        decreases cs.len() - i,
    {
        if cs[i] == c {
            assert(cs@.contains(c));
            return true;
        }
        i += 1;
    }
    assert(!cs@.contains(c));
    false
}

} // verus!
