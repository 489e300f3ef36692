//! The data that the linker reads and produces: symbols, identities,
//! integer types, types with type variables, constant expressions, entities
//! and procedure bodies.

use vstd::prelude::*;

verus! {

/// An interned name of a procedure, a global or a constant.
pub type Symbol = u32;

/// The identity of a collected procedure: its position in discovery order.
#[derive(Clone, Copy, Debug, PartialEq, Eq, Structural)]
pub struct ProcId(pub u32);

/// The identity of a collected global: its position in discovery order.
#[derive(Clone, Copy, Debug, PartialEq, Eq, Structural)]
pub struct GlobalId(pub u32);

/// A resolved constant: an immediate, or the offset of its bytes in the
/// read-only data arena.
#[derive(Clone, Copy, Debug, PartialEq, Eq, Structural)]
pub enum ConstRef {
    Value(u64),
    Ptr(u32),
}

/// A resolved constant together with its width in bytes.
pub type ConstVal = (u32, ConstRef);

/// Why a linking run stopped.
#[derive(Clone, Copy, Debug, PartialEq, Eq, Structural)]
pub enum LinkError {
    /// The procedure was requested at a non-empty list of type arguments,
    /// which is not supported.
    TypeArgs(Symbol),
    /// The procedure was reached again while its deferred calls were still
    /// being collected.
    Cycle(Symbol),
    /// The constant has no checked definition, its definition is built from
    /// a form that cannot be evaluated, or it depends on itself.
    Unresolvable(Symbol),
    /// The read-only data would outgrow what a 32-bit offset can address.
    ArenaOverflow,
}

/// The width of a machine integer, or `Inf` for an unbounded integer.
#[derive(Clone, Copy, Debug, PartialEq, Eq, Structural)]
pub enum Size {
    S8,
    S16,
    S32,
    S64,
    Inf,
}

impl Size {
    /// The number of bits, `None` for `Inf`.
    pub open spec fn spec_bits(self) -> Option<u8> {
        match self {
            Size::S8 => Some(8u8),
            Size::S16 => Some(16u8),
            Size::S32 => Some(32u8),
            Size::S64 => Some(64u8),
            Size::Inf => None,
        }
    }

    /// The number of bytes, `None` for `Inf`.
    pub open spec fn spec_bytes(self) -> Option<u8> {
        match self {
            Size::S8 => Some(1u8),
            Size::S16 => Some(2u8),
            Size::S32 => Some(4u8),
            Size::S64 => Some(8u8),
            Size::Inf => None,
        }
    }

    /// The number of values of an integer of this width: two to the power
    /// of the number of bits.
    pub open spec fn modulus(self) -> Option<int> {
        match self {
            Size::S8 => Some(0x100int),
            Size::S16 => Some(0x1_0000int),
            Size::S32 => Some(0x1_0000_0000int),
            Size::S64 => Some(0x1_0000_0000_0000_0000int),
            Size::Inf => None,
        }
    }

    #[verifier::when_used_as_spec(spec_bits)]
    pub fn bits(self) -> (r: Option<u8>)
        ensures
            r == self.spec_bits(),
    {
        match self {
            Size::S8 => Some(8),
            Size::S16 => Some(16),
            Size::S32 => Some(32),
            Size::S64 => Some(64),
            Size::Inf => None,
        }
    }

    #[verifier::when_used_as_spec(spec_bytes)]
    pub fn bytes(self) -> (r: Option<u8>)
        ensures
            r == self.spec_bytes(),
    {
        match self {
            Size::S8 => Some(1),
            Size::S16 => Some(2),
            Size::S32 => Some(4),
            Size::S64 => Some(8),
            Size::Inf => None,
        }
    }
}

/// A signed or unsigned integer type of a given width.
#[derive(Clone, Copy, Debug, PartialEq, Eq, Structural)]
pub enum IntTy {
    Int(Size),
    UInt(Size),
}

impl IntTy {
    pub open spec fn spec_size(self) -> Size {
        match self {
            IntTy::Int(sz) => sz,
            IntTy::UInt(sz) => sz,
        }
    }

    pub open spec fn spec_signed(self) -> bool {
        self is Int
    }

    /// The representation of the mathematical integer `n` in this type,
    /// read as an unsigned 64-bit number: `n` itself where it is not
    /// negative, its two's complement at the type's width where it is.
    /// `None` where the type is unbounded or `n` is out of its range.
    pub open spec fn repr(self, n: int) -> Option<u64> {
        match self.spec_size().modulus() {
            None => None,
            Some(m) => if self.spec_signed() {
                if -(m / 2) <= n < m / 2 {
                    Some((if n < 0 { n + m } else { n }) as u64)
                } else {
                    None
                }
            } else {
                if 0 <= n < m {
                    Some(n as u64)
                } else {
                    None
                }
            },
        }
    }

    #[verifier::when_used_as_spec(spec_size)]
    pub fn size(self) -> (r: Size)
        ensures
            r == self.spec_size(),
    {
        match self {
            IntTy::Int(sz) => sz,
            IntTy::UInt(sz) => sz,
        }
    }

    #[verifier::when_used_as_spec(spec_signed)]
    pub fn signed(self) -> (r: bool)
        ensures
            r == self.spec_signed(),
    {
        match self {
            IntTy::Int(_) => true,
            IntTy::UInt(_) => false,
        }
    }

    /// The literal `n` as a value of this type, zero-extended to 64 bits.
    pub fn zero_extend_as_u64(self, n: i128) -> (r: Option<u64>)
        ensures
            r == self.repr(n as int),
    {
        let m: i128 = match self.size() {
            Size::S8 => 0x100,
            Size::S16 => 0x1_0000,
            Size::S32 => 0x1_0000_0000,
            Size::S64 => 0x1_0000_0000_0000_0000,
            Size::Inf => {
                return None;
            },
        };
        if self.signed() {
            if -(m / 2) <= n && n < m / 2 {
                if n < 0 {
                    Some((n + m) as u64)
                } else {
                    Some(n as u64)
                }
            } else {
                None
            }
        } else {
            if 0 <= n && n < m {
                Some(n as u64)
            } else {
                None
            }
        }
    }
}

/// A type. `Var(i)` stands for the `i`-th type parameter of the enclosing
/// procedure.
#[derive(Debug)]
pub enum Ty {
    Unit,
    Bool,
    Int(IntTy),
    Var(u32),
    /// A singleton type over the given type; it has the representation of
    /// that type.
    Sn(Box<Ty>),
    /// A heterogeneous list of types.
    List(Vec<Ty>),
    /// A structure: its fields' types, in declared order.
    Struct(Vec<Ty>),
    /// An array of the given element type and length.
    Array(Box<Ty>, u32),
}

/// The mathematical value of a [`Ty`].
pub enum TyView {
    Unit,
    Bool,
    Int(IntTy),
    Var(u32),
    Sn(Box<TyView>),
    List(Seq<TyView>),
    Struct(Seq<TyView>),
    Array(Box<TyView>, u32),
}

/// The value of a type; `t@` is short for it.
pub open spec fn ty_view(t: Ty) -> TyView
    decreases t,
{
    match t {
        Ty::Unit => TyView::Unit,
        Ty::Bool => TyView::Bool,
        Ty::Int(ity) => TyView::Int(ity),
        Ty::Var(i) => TyView::Var(i),
        Ty::Sn(t) => TyView::Sn(Box::new(ty_view(*t))),
        Ty::List(ts) => TyView::List(
            Seq::new(
                ts.len() as nat,
                |i: int|
                    if 0 <= i < ts.len() {
                        ty_view(ts[i])
                    } else {
                        TyView::Unit
                    },
            ),
        ),
        Ty::Struct(ts) => TyView::Struct(
            Seq::new(
                ts.len() as nat,
                |i: int|
                    if 0 <= i < ts.len() {
                        ty_view(ts[i])
                    } else {
                        TyView::Unit
                    },
            ),
        ),
        Ty::Array(t, n) => TyView::Array(Box::new(ty_view(*t)), n),
    }
}

impl View for Ty {
    type V = TyView;

    open spec fn view(&self) -> TyView {
        ty_view(*self)
    }
}

/// The values of a sequence of types, one for one.
pub open spec fn tys_view(ts: Seq<Ty>) -> Seq<TyView> {
    Seq::new(ts.len(), |i: int| ts[i]@)
}

impl TyView {
    /// Whether the type mentions a type variable.
    pub open spec fn has_tyvar(self) -> bool
        decreases self,
    {
        match self {
            TyView::Unit => false,
            TyView::Bool => false,
            TyView::Int(_) => false,
            TyView::Var(_) => true,
            TyView::Sn(t) => t.has_tyvar(),
            TyView::List(ts) => exists|i: int| 0 <= i < ts.len() && (#[trigger] ts[i]).has_tyvar(),
            TyView::Struct(ts) => exists|i: int|
                0 <= i < ts.len() && (#[trigger] ts[i]).has_tyvar(),
            TyView::Array(t, _) => t.has_tyvar(),
        }
    }

    /// The type with `args[i]` in place of each `Var(i)`; a variable that
    /// `args` does not reach stays as it is.
    pub open spec fn subst(self, args: Seq<TyView>) -> TyView
        decreases self,
    {
        match self {
            TyView::Unit => TyView::Unit,
            TyView::Bool => TyView::Bool,
            TyView::Int(ity) => TyView::Int(ity),
            TyView::Var(i) => if i < args.len() {
                args[i as int]
            } else {
                TyView::Var(i)
            },
            TyView::Sn(t) => TyView::Sn(Box::new(t.subst(args))),
            TyView::List(ts) => TyView::List(
                Seq::new(
                    ts.len(),
                    |i: int|
                        if 0 <= i < ts.len() {
                            ts[i].subst(args)
                        } else {
                            TyView::Unit
                        },
                ),
            ),
            TyView::Struct(ts) => TyView::Struct(
                Seq::new(
                    ts.len(),
                    |i: int|
                        if 0 <= i < ts.len() {
                            ts[i].subst(args)
                        } else {
                            TyView::Unit
                        },
                ),
            ),
            TyView::Array(t, n) => TyView::Array(Box::new(t.subst(args)), n),
        }
    }
}

/// Whether some type of the sequence mentions a type variable.
pub open spec fn any_tyvar(ts: Seq<TyView>) -> bool {
    exists|i: int| 0 <= i < ts.len() && (#[trigger] ts[i]).has_tyvar()
}

/// Each type of the sequence with `args` substituted into it.
pub open spec fn subst_all(ts: Seq<TyView>, args: Seq<TyView>) -> Seq<TyView> {
    Seq::new(ts.len(), |i: int| ts[i].subst(args))
}

/// A list or structure mentions a type variable where one of its members
/// does.
pub proof fn lemma_has_tyvar_elem(ts: Seq<TyView>, i: int)
    requires
        0 <= i < ts.len(),
        ts[i].has_tyvar(),
    ensures
        TyView::List(ts).has_tyvar(),
        TyView::Struct(ts).has_tyvar(),
        any_tyvar(ts),
{
    let l = TyView::List(ts);
    assert(l.has_tyvar() == (exists|j: int|
        0 <= j < l->List_0.len() && (#[trigger] l->List_0[j]).has_tyvar()));
    let s = TyView::Struct(ts);
    assert(s.has_tyvar() == (exists|j: int|
        0 <= j < s->Struct_0.len() && (#[trigger] s->Struct_0[j]).has_tyvar()));
}

/// A list or structure mentions a type variable only where one of its
/// members does.
pub proof fn lemma_has_tyvar_none(ts: Seq<TyView>)
    requires
        !any_tyvar(ts),
    ensures
        !TyView::List(ts).has_tyvar(),
        !TyView::Struct(ts).has_tyvar(),
{
    let l = TyView::List(ts);
    assert(l.has_tyvar() == (exists|j: int|
        0 <= j < l->List_0.len() && (#[trigger] l->List_0[j]).has_tyvar()));
    let s = TyView::Struct(ts);
    assert(s.has_tyvar() == (exists|j: int|
        0 <= j < s->Struct_0.len() && (#[trigger] s->Struct_0[j]).has_tyvar()));
}

/// The value of a vector of types is the sequence of its elements' values.
pub proof fn lemma_view_list(ts: Vec<Ty>)
    ensures
        Ty::List(ts)@ == TyView::List(tys_view(ts@)),
        Ty::Struct(ts)@ == TyView::Struct(tys_view(ts@)),
{
    assert(Ty::List(ts)@->List_0 =~= tys_view(ts@));
    assert(Ty::Struct(ts)@->Struct_0 =~= tys_view(ts@));
}

impl Ty {
    /// A copy of the type.
    pub fn dup(&self) -> (r: Ty)
        ensures
            r@ == self@,
        decreases self,
    {
        match self {
            Ty::Unit => Ty::Unit,
            Ty::Bool => Ty::Bool,
            Ty::Int(ity) => Ty::Int(*ity),
            Ty::Var(i) => Ty::Var(*i),
            Ty::Sn(t) => Ty::Sn(Box::new(t.dup())),
            Ty::List(ts) => {
                let mut out: Vec<Ty> = Vec::new();
                let mut i: usize = 0;
                while i < ts.len()
                    invariant
                        *self == Ty::List(*ts),
                        i <= ts.len(),
                        out.len() == i,
                        forall|j: int| 0 <= j < i ==> out[j]@ == ts[j]@,
                    decreases ts.len() - i,
                {
                    proof {
                        assert(decreases_to!(*self => self->List_0));
                        assert(decreases_to!(*ts => ts[i as int]));
                    }
                    out.push(ts[i].dup());
                    i += 1;
                }
                proof {
                    lemma_view_list(out);
                    lemma_view_list(*ts);
                    assert(tys_view(out@) =~= tys_view(ts@));
                }
                Ty::List(out)
            },
            Ty::Struct(ts) => {
                let mut out: Vec<Ty> = Vec::new();
                let mut i: usize = 0;
                while i < ts.len()
                    invariant
                        *self == Ty::Struct(*ts),
                        i <= ts.len(),
                        out.len() == i,
                        forall|j: int| 0 <= j < i ==> out[j]@ == ts[j]@,
                    decreases ts.len() - i,
                {
                    proof {
                        assert(decreases_to!(*self => self->Struct_0));
                        assert(decreases_to!(*ts => ts[i as int]));
                    }
                    out.push(ts[i].dup());
                    i += 1;
                }
                proof {
                    lemma_view_list(out);
                    lemma_view_list(*ts);
                    assert(tys_view(out@) =~= tys_view(ts@));
                }
                Ty::Struct(out)
            },
            Ty::Array(t, n) => Ty::Array(Box::new(t.dup()), *n),
        }
    }
}

impl Ty {
    /// Whether the type mentions a type variable.
    pub fn has_tyvar(&self) -> (r: bool)
        ensures
            r == self@.has_tyvar(),
        decreases self,
    {
        match self {
            Ty::Unit => false,
            Ty::Bool => false,
            Ty::Int(_) => false,
            Ty::Var(_) => true,
            Ty::Sn(t) => t.has_tyvar(),
            Ty::List(ts) => {
                proof {
                    lemma_view_list(*ts);
                }
                let mut i: usize = 0;
                while i < ts.len()
                    invariant
                        *self == Ty::List(*ts),
                        self@ == TyView::List(tys_view(ts@)),
                        i <= ts.len(),
                        forall|j: int| 0 <= j < i ==> !(#[trigger] tys_view(ts@)[j]).has_tyvar(),
                    decreases ts.len() - i,
                {
                    proof {
                        assert(decreases_to!(*self => self->List_0));
                        assert(decreases_to!(*ts => ts[i as int]));
                    }
                    if ts[i].has_tyvar() {
                        proof {
                            lemma_has_tyvar_elem(tys_view(ts@), i as int);
                        }
                        return true;
                    }
                    i += 1;
                }
                proof {
                    lemma_has_tyvar_none(tys_view(ts@));
                }
                false
            },
            Ty::Struct(ts) => {
                proof {
                    lemma_view_list(*ts);
                }
                let mut i: usize = 0;
                while i < ts.len()
                    invariant
                        *self == Ty::Struct(*ts),
                        self@ == TyView::Struct(tys_view(ts@)),
                        i <= ts.len(),
                        forall|j: int| 0 <= j < i ==> !(#[trigger] tys_view(ts@)[j]).has_tyvar(),
                    decreases ts.len() - i,
                {
                    proof {
                        assert(decreases_to!(*self => self->Struct_0));
                        assert(decreases_to!(*ts => ts[i as int]));
                    }
                    if ts[i].has_tyvar() {
                        proof {
                            lemma_has_tyvar_elem(tys_view(ts@), i as int);
                        }
                        return true;
                    }
                    i += 1;
                }
                proof {
                    lemma_has_tyvar_none(tys_view(ts@));
                }
                false
            },
            Ty::Array(t, _) => t.has_tyvar(),
        }
    }

    /// The type with `args[i]` in place of each `Var(i)`; a variable that
    /// `args` does not reach stays as it is.
    pub fn subst(&self, args: &[Ty]) -> (r: Ty)
        ensures
            r@ == self@.subst(tys_view(args@)),
        decreases self,
    {
        match self {
            Ty::Unit => Ty::Unit,
            Ty::Bool => Ty::Bool,
            Ty::Int(ity) => Ty::Int(*ity),
            Ty::Var(i) => {
                let k: usize = *i as usize;
                if k < args.len() {
                    args[k].dup()
                } else {
                    Ty::Var(*i)
                }
            },
            Ty::Sn(t) => Ty::Sn(Box::new(t.subst(args))),
            Ty::List(ts) => {
                let mut out: Vec<Ty> = Vec::new();
                let mut i: usize = 0;
                while i < ts.len()
                    invariant
                        *self == Ty::List(*ts),
                        i <= ts.len(),
                        out.len() == i,
                        forall|j: int| 0 <= j < i ==> out[j]@ == ts[j]@.subst(tys_view(args@)),
                    decreases ts.len() - i,
                {
                    proof {
                        assert(decreases_to!(*self => self->List_0));
                        assert(decreases_to!(*ts => ts[i as int]));
                    }
                    out.push(ts[i].subst(args));
                    i += 1;
                }
                proof {
                    lemma_view_list(out);
                    lemma_view_list(*ts);
                    assert(tys_view(out@) =~= self@.subst(tys_view(args@))->List_0);
                }
                Ty::List(out)
            },
            Ty::Struct(ts) => {
                let mut out: Vec<Ty> = Vec::new();
                let mut i: usize = 0;
                while i < ts.len()
                    invariant
                        *self == Ty::Struct(*ts),
                        i <= ts.len(),
                        out.len() == i,
                        forall|j: int| 0 <= j < i ==> out[j]@ == ts[j]@.subst(tys_view(args@)),
                    decreases ts.len() - i,
                {
                    proof {
                        assert(decreases_to!(*self => self->Struct_0));
                        assert(decreases_to!(*ts => ts[i as int]));
                    }
                    out.push(ts[i].subst(args));
                    i += 1;
                }
                proof {
                    lemma_view_list(out);
                    lemma_view_list(*ts);
                    assert(tys_view(out@) =~= self@.subst(tys_view(args@))->Struct_0);
                }
                Ty::Struct(out)
            },
            Ty::Array(t, n) => Ty::Array(Box::new(t.subst(args)), *n),
        }
    }
}

impl Ty {
    /// Whether the two types are the same type.
    pub fn same(&self, other: &Ty) -> (r: bool)
        ensures
            r == (self@ == other@),
        decreases self,
    {
        match self {
            Ty::Unit => match other {
                Ty::Unit => true,
                _ => false,
            },
            Ty::Bool => match other {
                Ty::Bool => true,
                _ => false,
            },
            Ty::Int(a) => match other {
                Ty::Int(b) => *a == *b,
                _ => false,
            },
            Ty::Var(i) => match other {
                Ty::Var(j) => *i == *j,
                _ => false,
            },
            Ty::Sn(a) => match other {
                Ty::Sn(b) => a.same(b),
                _ => false,
            },
            Ty::List(a) => match other {
                Ty::List(b) => {
                    proof {
                        lemma_view_list(*a);
                        lemma_view_list(*b);
                        assert(decreases_to!(*self => self->List_0));
                    }
                    same_all(a, b)
                },
                _ => false,
            },
            Ty::Struct(a) => match other {
                Ty::Struct(b) => {
                    proof {
                        lemma_view_list(*a);
                        lemma_view_list(*b);
                        assert(decreases_to!(*self => self->Struct_0));
                    }
                    same_all(a, b)
                },
                _ => false,
            },
            Ty::Array(a, n) => match other {
                Ty::Array(b, m) => *n == *m && a.same(b),
                _ => false,
            },
        }
    }
}

/// Whether the two lists hold the same types in the same order.
pub fn same_all(a: &Vec<Ty>, b: &Vec<Ty>) -> (r: bool)
    ensures
        r == (tys_view(a@) == tys_view(b@)),
    decreases a,
{
    if a.len() != b.len() {
        assert(tys_view(a@).len() != tys_view(b@).len());
        return false;
    }
    let mut i: usize = 0;
    while i < a.len()
        invariant
            a.len() == b.len(),
            i <= a.len(),
            forall|j: int| 0 <= j < i ==> a[j]@ == b[j]@,
        decreases a.len() - i,
    {
        proof {
            assert(decreases_to!(*a => a[i as int]));
        }
        if !a[i].same(&b[i]) {
            assert(tys_view(a@)[i as int] != tys_view(b@)[i as int]);
            return false;
        }
        i += 1;
    }
    assert(tys_view(a@) =~= tys_view(b@));
    true
}

/// A copy of the list of types.
pub fn dup_all(tys: &Vec<Ty>) -> (r: Vec<Ty>)
    ensures
        tys_view(r@) == tys_view(tys@),
{
    let mut out: Vec<Ty> = Vec::new();
    let mut i: usize = 0;
    while i < tys.len()
        invariant
            i <= tys.len(),
            out.len() == i,
            forall|j: int| 0 <= j < i ==> out[j]@ == tys[j]@,
        decreases tys.len() - i,
    {
        out.push(tys[i].dup());
        i += 1;
    }
    assert(tys_view(out@) =~= tys_view(tys@));
    out
}

/// Whether some type of `tys` mentions a type variable.
pub fn has_tyvar_any(tys: &Vec<Ty>) -> (r: bool)
    ensures
        r == any_tyvar(tys_view(tys@)),
{
    let mut i: usize = 0;
    while i < tys.len()
        invariant
            i <= tys.len(),
            forall|j: int| 0 <= j < i ==> !(#[trigger] tys_view(tys@)[j]).has_tyvar(),
        decreases tys.len() - i,
    {
        if tys[i].has_tyvar() {
            assert(tys_view(tys@)[i as int].has_tyvar());
            return true;
        }
        i += 1;
    }
    false
}

/// Each type of `tys` with `args` substituted into it.
pub fn subst_list(tys: &Vec<Ty>, args: &[Ty]) -> (r: Vec<Ty>)
    ensures
        tys_view(r@) == subst_all(tys_view(tys@), tys_view(args@)),
{
    let mut out: Vec<Ty> = Vec::new();
    let mut i: usize = 0;
    while i < tys.len()
        invariant
            i <= tys.len(),
            out.len() == i,
            forall|j: int| 0 <= j < i ==> out[j]@ == tys[j]@.subst(tys_view(args@)),
        decreases tys.len() - i,
    {
        out.push(tys[i].subst(args));
        i += 1;
    }
    assert(tys_view(out@) =~= subst_all(tys_view(tys@), tys_view(args@)));
    out
}

/// A constant expression in normal form.
#[derive(Debug)]
pub enum Expr {
    /// The unit value.
    Unit,
    /// A reference to a named constant.
    Const(Symbol),
    /// A boolean literal.
    Bool(bool),
    /// An integer literal.
    Int(i128),
    /// A list or structure literal.
    List(Vec<Expr>),
    /// An array literal.
    Array(Vec<Expr>),
    /// A variable reference.
    Var,
    /// A unary operation.
    Unop,
    /// A binary operation.
    Binop,
    /// An index operation.
    Index,
    /// A slice operation.
    Slice,
    /// A projection.
    Proj,
    /// An update of an index in place.
    UpdateIndex,
    /// An update of a slice in place.
    UpdateSlice,
    /// An update of a projection in place.
    UpdateProj,
    /// The size of a type.
    Sizeof,
    /// The address of a place.
    Ref,
    /// A term of the embedded logic.
    Mm0,
    /// A function call.
    Call,
    /// A conditional.
    If,
    /// A placeholder left by an earlier error.
    Error,
}

/// What the type checker knows of a constant.
#[derive(Debug)]
pub enum ConstTc {
    /// Declared, not yet checked.
    Unchecked,
    /// Checked: its type and its defining expression in normal form.
    Checked { ty: Ty, whnf: Expr },
}

/// A declared item.
#[derive(Debug)]
pub enum Entity {
    /// A primitive of the language.
    Prim,
    /// A named type.
    Type,
    /// A procedure or operator.
    Op,
    /// A global variable.
    Global,
    /// A named constant.
    Const(ConstTc),
}

/// The kind of a constant operand in a procedure body.
#[derive(Clone, Copy, Debug, PartialEq, Eq, Structural)]
pub enum ConstKind {
    Unit,
    Bool,
    Int,
    Uninit,
    /// A reference to a named constant.
    Const(Symbol),
    Sizeof,
}

/// A constant operand in a procedure body.
#[derive(Clone, Copy, Debug, PartialEq, Eq, Structural)]
pub struct Constant {
    pub k: ConstKind,
}

/// How a basic block ends.
#[derive(Debug)]
pub enum Terminator {
    /// A jump to another block.
    Jump,
    /// A return from the procedure.
    Return,
    /// A point that is never reached.
    Unreachable,
    /// A conditional branch.
    If,
    /// A call of the procedure `f` at the type arguments `tys`.
    Call { f: Symbol, tys: Vec<Ty> },
}

/// A basic block: the constant operands that occur in it, in the order in
/// which a walk of the block meets them, and its terminator.
#[derive(Debug)]
pub struct BasicBlock {
    pub constants: Vec<Constant>,
    pub term: Terminator,
}

/// A procedure body: its basic blocks in declaration order.
#[derive(Debug)]
pub struct Proc {
    pub blocks: Vec<BasicBlock>,
}

} // verus!
