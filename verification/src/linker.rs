//! Layout of procedures, globals and constants in the whole program.

use crate::bytes::{from_le_bytes, le_bytes, le_value, lemma_pow256_8, pow256, to_le_bytes};
use crate::model::{
    fuel, id_of, lemma_procs_bounded, lemma_unvisited_decreases, push_unique, unvisited, CallView,
    LinkState, Program,
};
use crate::progress::lemma_id_of;
use crate::types::{
    dup_all, has_tyvar_any, same_all, subst_list, tys_view, BasicBlock, ConstKind, ConstRef,
    ConstTc, ConstVal, Constant, Entity, Expr, GlobalId, LinkError, Proc, ProcId, Size, Symbol,
    Terminator, Ty,
};
use std::collections::{HashMap, HashSet};
use vstd::prelude::*;

verus! {

/// The resolved constants and the read-only data that holds those too wide
/// for an immediate.
pub struct ConstData {
    map: HashMap<Symbol, ConstVal>,
    rodata: Vec<u8>,
}

/// The mathematical value of a [`ConstData`].
pub struct ConstDataView {
    /// The constants resolved so far.
    pub map: Map<Symbol, ConstVal>,
    /// The bytes of the arena.
    pub rodata: Seq<u8>,
}

impl ConstDataView {
    /// The bytes that a resolved constant stands for: its immediate, least
    /// significant byte first, or the bytes that it points to.
    pub open spec fn bytes_of(self, v: ConstVal) -> Seq<u8> {
        match v.1 {
            ConstRef::Value(x) => le_bytes(x as nat, v.0 as nat),
            ConstRef::Ptr(a) => self.rodata.subrange(a as int, a + v.0),
        }
    }

    /// A resolved constant makes sense in this arena: an immediate has at
    /// most 8 bytes and fits in its width, a pointer's bytes lie in the
    /// arena.
    pub open spec fn valid(self, v: ConstVal) -> bool {
        match v.1 {
            ConstRef::Value(x) => v.0 <= 8 && x < pow256(v.0 as nat),
            ConstRef::Ptr(a) => a + v.0 <= self.rodata.len(),
        }
    }

    /// The arena is addressable by 32-bit offsets and every resolved
    /// constant is valid in it.
    pub open spec fn wf(self) -> bool {
        &&& self.rodata.len() <= u32::MAX
        &&& forall|s: Symbol| #[trigger] self.map.contains_key(s) ==> self.valid(self.map[s])
    }

    /// What holds of a value `v` that an evaluation from this arena to
    /// `after` has resolved: `v` is valid in `after`; an immediate leaves the
    /// bytes as they were; a pointer either leaves them as they were or
    /// points to the bytes that the evaluation has appended, all of them.
    pub open spec fn resolved_to(self, after: ConstDataView, v: ConstVal) -> bool {
        &&& after.valid(v)
        &&& match v.1 {
            ConstRef::Value(_) => after.rodata == self.rodata,
            ConstRef::Ptr(a) => after.rodata == self.rodata || (a == self.rodata.len()
                && after.rodata.len() == a + v.0),
        }
    }

    /// `other` holds all of this arena, at the same offsets, and all of its
    /// resolved constants.
    pub open spec fn extended_by(self, other: ConstDataView) -> bool {
        &&& self.rodata.is_prefix_of(other.rodata)
        &&& forall|s: Symbol| #[trigger]
            self.map.contains_key(s) ==> other.map.contains_key(s) && other.map[s] == self.map[s]
    }
}

/// An extension of an extension is an extension.
pub proof fn lemma_extended_trans(a: ConstDataView, b: ConstDataView, c: ConstDataView)
    requires
        a.extended_by(b),
        b.extended_by(c),
    ensures
        a.extended_by(c),
{
    assert forall|k: Symbol| #[trigger] a.map.contains_key(k) implies c.map.contains_key(k)
        && c.map[k] == a.map[k] by {
        assert(b.map.contains_key(k));
    }
    assert(a.rodata =~= c.rodata.subrange(0, a.rodata.len() as int)) by {
        assert forall|i: int| 0 <= i < a.rodata.len() implies a.rodata[i] == c.rodata[i] by {
            assert(a.rodata[i] == b.rodata.subrange(0, a.rodata.len() as int)[i]);
            assert(b.rodata[i] == c.rodata.subrange(0, b.rodata.len() as int)[i]);
        }
    }
}

impl View for ConstData {
    type V = ConstDataView;

    closed spec fn view(&self) -> ConstDataView {
        ConstDataView { map: self.map@, rodata: self.rodata@ }
    }
}

impl Default for ConstData {
    /// An empty arena with no constant resolved.
    fn default() -> (r: ConstData)
        ensures
            r@.map == Map::<Symbol, ConstVal>::empty(),
            r@.rodata == Seq::<u8>::empty(),
            r@.wf(),
    {
        ConstData::new()
    }
}

impl ConstData {
    /// An empty arena with no constant resolved.
    pub fn new() -> (r: ConstData)
        ensures
            r@.map == Map::<Symbol, ConstVal>::empty(),
            r@.rodata == Seq::<u8>::empty(),
            r@.wf(),
    {
        ConstData { map: HashMap::new(), rodata: Vec::new() }
    }

    /// The resolved constant `s`, if it has been resolved.
    pub fn get(&self, s: Symbol) -> (r: Option<ConstVal>)
        ensures
            r == if self@.map.contains_key(s) {
                Some(self@.map[s])
            } else {
                None
            },
    {
        match self.map.get(&s) {
            Some(v) => Some(*v),
            None => None,
        }
    }

    /// The resolved constant `s`.
    pub fn index(&self, s: Symbol) -> (r: ConstVal)
        requires
            self@.map.contains_key(s),
        ensures
            r == self@.map[s],
    {
        match self.map.get(&s) {
            Some(v) => *v,
            None => (0, ConstRef::Value(0)),
        }
    }

    /// The bytes of the arena.
    pub fn rodata(&self) -> (r: &Vec<u8>)
        ensures
            r@ == self@.rodata,
    {
        &self.rodata
    }

    /// The `sz` bytes at offset `addr`, read as a little-endian number.
    pub fn load_mem(&self, sz: Size, addr: u32) -> (r: u64)
        requires
            sz.bytes() is Some,
            addr + sz.bytes().unwrap() <= self@.rodata.len(),
        ensures
            r == le_value(self@.rodata.subrange(addr as int, addr + sz.bytes().unwrap())),
    {
        let len: usize = match sz.bytes() {
            Some(n) => n as usize,
            None => 0,
        };
        from_le_bytes(&self.rodata, addr as usize, len)
    }

    /// The number that a resolved constant of at most 8 bytes stands for:
    /// the immediate itself, or the bytes that it points to, read as a
    /// little-endian number.
    pub fn value(&self, v: ConstVal) -> (r: u64)
        requires
            v.1 is Ptr ==> v.0 <= 8 && v.1->Ptr_0 + v.0 <= self@.rodata.len(),
        ensures
            r == match v.1 {
                ConstRef::Value(x) => x as nat,
                ConstRef::Ptr(a) => le_value(self@.rodata.subrange(a as int, a + v.0)),
            },
    {
        match v.1 {
            ConstRef::Value(val) => val,
            ConstRef::Ptr(addr) => from_le_bytes(&self.rodata, addr as usize, v.0 as usize),
        }
    }

    /// The offset at which the next allocation will begin.
    pub fn here(&self) -> (r: u32)
        requires
            self@.rodata.len() <= u32::MAX,
        ensures
            r == self@.rodata.len(),
    {
        self.rodata.len() as u32
    }

    /// A copy of the `len` bytes at offset `addr`.
    pub fn copy_range(&self, addr: u32, len: u32) -> (out: Vec<u8>)
        requires
            addr + len <= self@.rodata.len(),
        ensures
            out@ == self@.rodata.subrange(addr as int, addr + len),
    {
        let mut out: Vec<u8> = Vec::new();
        let start: usize = addr as usize;
        let n: usize = len as usize;
        let mut i: usize = 0;
        while i < n
            invariant
                i <= n,
                start + n <= self.rodata.len(),
                out@ == self.rodata@.subrange(start as int, start + i),
            decreases n - i,
        {
            out.push(self.rodata[start + i]);
            assert(self.rodata@.subrange(start as int, start + i + 1) =~= self.rodata@.subrange(
                start as int,
                start + i,
            ).push(self.rodata@[start + i]));
            i += 1;
        }
        out
    }

    /// Appends `buf` to the arena and returns the offset at which it begins.
    pub fn allocate(&mut self, buf: &[u8]) -> (addr: u32)
        requires
            old(self)@.rodata.len() <= u32::MAX,
        ensures
            addr == old(self)@.rodata.len(),
            final(self)@.rodata == old(self)@.rodata + buf@,
            final(self)@.map == old(self)@.map,
    {
        let addr: u32 = self.here();
        self.rodata.extend_from_slice(buf);
        assert(self.rodata@ =~= old(self).rodata@ + buf@);
        addr
    }
}

/// A call that waits for its type arguments: the procedure called and the
/// type arguments at the call site.
pub type GenericCall = (Symbol, Vec<Ty>);

/// The types at which the members of a literal are evaluated.
enum Elems<'a> {
    /// Member `i` at the `i`-th of these types.
    Each(&'a Vec<Ty>),
    /// Every member at this type.
    All(&'a Ty),
}

impl<'a> Elems<'a> {
    /// The types of the first `n` members, as far as there are types.
    spec fn tys(self, n: nat) -> Seq<Ty> {
        match self {
            Elems::Each(tys) => tys@,
            Elems::All(t) => Seq::new(n, |i: int| *t),
        }
    }
}

/// One linking run: the program, the identities handed out, the deferred
/// calls, and the constants resolved so far.
pub struct Collector<'a> {
    /// The declared names.
    names: &'a HashMap<Symbol, Entity>,
    /// The procedure bodies.
    mir: &'a HashMap<Symbol, Proc>,
    /// The deferred calls of each scanned procedure, in the order in which
    /// the scan met them; `None` while they are being collected.
    implications: HashMap<Symbol, Option<Vec<GenericCall>>>,
    /// The identity of each collected procedure.
    func_ids: HashMap<Symbol, ProcId>,
    /// The collected procedures, each at the index that is its identity.
    func_names: Vec<Symbol>,
    /// The identity of each collected global.
    global_ids: HashMap<Symbol, GlobalId>,
    /// The collected globals, each at the index that is its identity.
    global_names: Ghost<Seq<Symbol>>,
    /// The sizes in bytes of the collected globals, by identity.
    global_sizes: Vec<u32>,
    /// The resolved constants and the read-only data.
    consts: ConstData,
    /// The constants that are being evaluated. A constant that is met
    /// again while it is evaluated depends on itself.
    visiting: HashSet<Symbol>,
}

/// The values of a list of deferred calls, one for one.
pub open spec fn calls_view(calls: Seq<GenericCall>) -> Seq<CallView> {
    Seq::new(calls.len(), |i: int| (calls[i].0, tys_view(calls[i].1@)))
}

/// The value of the table of deferred calls.
pub open spec fn deferred_view(m: Map<Symbol, Option<Vec<GenericCall>>>) -> Map<
    Symbol,
    Option<Seq<CallView>>,
> {
    Map::new(
        |s: Symbol| m.contains_key(s),
        |s: Symbol|
            match m[s] {
                Some(calls) => Some(calls_view(calls@)),
                None => None,
            },
    )
}

impl<'a> View for Collector<'a> {
    type V = LinkState;

    closed spec fn view(&self) -> LinkState {
        LinkState {
            procs: self.func_names@,
            globals: Seq::new(
                self.global_sizes@.len(),
                |i: int| (self.global_names@[i], self.global_sizes@[i]),
            ),
            deferred: deferred_view(self.implications@),
            consts: self.consts@,
            visiting: self.visiting@,
        }
    }
}

impl<'a> Collector<'a> {
    /// The program that this run links.
    pub closed spec fn program(&self) -> Program {
        Program { names: self.names@, mir: self.mir@ }
    }

    /// The tables agree with each other: each collected symbol is mapped to
    /// its index, and nothing else is mapped.
    pub closed spec fn wf(&self) -> bool {
        &&& self@.wf()
        &&& self.func_ids@.dom() == self.func_names@.to_set()
        &&& forall|i: int|
            0 <= i < self.func_names@.len() ==> (#[trigger] self.func_ids@[self.func_names@[i]]).0
                == i
        &&& self.global_names@.len() == self.global_sizes@.len()
        &&& self.global_ids@.dom() == self.global_names@.to_set()
        &&& forall|i: int|
            0 <= i < self.global_names@.len() ==> (
            #[trigger] self.global_ids@[self.global_names@[i]]).0 == i
    }

    /// A well-formed run is in a well-formed state, over a program that
    /// declares finitely many names: what the laws of collection ask for.
    pub proof fn lemma_wf(&self)
        requires
            self.wf(),
        ensures
            self@.wf(),
            self.program().names.dom().finite(),
            self.program().mir.dom().finite(),
    {
    }

    /// A run over the program `names`, `mir` with nothing collected yet.
    pub fn new(names: &'a HashMap<Symbol, Entity>, mir: &'a HashMap<Symbol, Proc>) -> (r: Self)
        ensures
            r.wf(),
            r.program() == (Program { names: names@, mir: mir@ }),
            r@.procs == Seq::<Symbol>::empty(),
            r@.globals == Seq::<(Symbol, u32)>::empty(),
            r@.deferred == Map::<Symbol, Option<Seq<CallView>>>::empty(),
            r@.consts.map == Map::<Symbol, ConstVal>::empty(),
            r@.consts.rodata == Seq::<u8>::empty(),
            r@.visiting == Set::<Symbol>::empty(),
    {
        let r = Collector {
            names,
            mir,
            implications: HashMap::new(),
            func_ids: HashMap::new(),
            func_names: Vec::new(),
            global_ids: HashMap::new(),
            global_names: Ghost(Seq::empty()),
            global_sizes: Vec::new(),
            consts: ConstData::new(),
            visiting: HashSet::new(),
        };
        proof {
            assert(r@.globals =~= Seq::<(Symbol, u32)>::empty());
            assert(r@.global_names() =~= Seq::<Symbol>::empty());
            assert(r@.deferred =~= Map::<Symbol, Option<Seq<CallView>>>::empty());
            assert(r.func_ids@.dom() =~= r.func_names@.to_set());
            assert(r.global_ids@.dom() =~= r.global_names@.to_set());
        }
        r
    }
}

impl<'a> Collector<'a> {
    /// What every step of constant evaluation keeps: the run stays well
    /// formed over the same program, only the constants change, to `cd`,
    /// and what was resolved or written before stays as it was.
    pub open spec fn const_step(&self, before: &Self, cd: ConstDataView) -> bool {
        &&& self.wf()
        &&& self.program() == before.program()
        &&& self@ == (LinkState { consts: cd, ..before@ })
        &&& before@.consts.extended_by(cd)
    }

    /// Appends `buf` to the arena unless it would outgrow 32-bit offsets.
    fn put(&mut self, buf: &Vec<u8>) -> (r: Result<u32, LinkError>)
        requires
            old(self).wf(),
        ensures
            final(self).const_step(old(self), crate::model::append(old(self)@.consts, buf@).0),
            r == crate::model::append(old(self)@.consts, buf@).1,
    {
        let len: usize = self.consts.rodata.len();
        if buf.len() > 0xffff_ffff - len {
            return Err(LinkError::ArenaOverflow);
        }
        let addr: u32 = self.consts.allocate(buf.as_slice());
        Ok(addr)
    }

    /// Resolves the constant `c`: its memoized value where it has one, else
    /// the value of its checked definition, which is then memoized.
    pub fn collect_const(&mut self, c: Symbol) -> (r: Result<ConstVal, LinkError>)
        requires
            old(self).wf(),
        ensures
            final(self).const_step(
                old(self),
                crate::model::collect_const(
                    old(self).program().names,
                    old(self)@.visiting,
                    old(self)@.consts,
                    c,
                ).0,
            ),
            r == crate::model::collect_const(
                old(self).program().names,
                old(self)@.visiting,
                old(self)@.consts,
                c,
            ).1,
            r matches Ok(v) ==> old(self)@.consts.resolved_to(final(self)@.consts, v)
                && final(self)@.consts.map.contains_key(c) && final(self)@.consts.map[c] == v,
        decreases unvisited(old(self).program().names, old(self)@.visiting), 0nat, Expr::Unit, 0nat,
    {
        if let Some(v) = self.consts.get(c) {
            return Ok(v);
        }
        if self.visiting.contains(&c) {
            return Err(LinkError::Unresolvable(c));
        }
        let names: &'a HashMap<Symbol, Entity> = self.names;
        match names.get(&c) {
            Some(Entity::Const(ConstTc::Checked { ty, whnf })) => {
                proof {
                    lemma_unvisited_decreases(names@, self@.visiting, c);
                }
                self.visiting.insert(c);
                let r = self.eval_const(ty, whnf);
                self.visiting.remove(&c);
                assert(self.visiting@ =~= old(self).visiting@);
                match r {
                    Ok(Some(v)) => {
                        self.consts.map.insert(c, v);
                        Ok(v)
                    },
                    Ok(None) => Err(LinkError::Unresolvable(c)),
                    Err(e) => Err(e),
                }
            },
            _ => Err(LinkError::Unresolvable(c)),
        }
    }

    /// Evaluates the expression `e` at the type `ty`. `Ok(None)` where the
    /// expression is of a form that cannot be evaluated.
    pub fn eval_const(&mut self, ty: &Ty, e: &Expr) -> (r: Result<Option<ConstVal>, LinkError>)
        requires
            old(self).wf(),
        ensures
            final(self).const_step(
                old(self),
                crate::model::eval_const(
                    old(self).program().names,
                    old(self)@.visiting,
                    old(self)@.consts,
                    *ty,
                    *e,
                ).0,
            ),
            r == crate::model::eval_const(
                old(self).program().names,
                old(self)@.visiting,
                old(self)@.consts,
                *ty,
                *e,
            ).1,
            r matches Ok(Some(v)) ==> old(self)@.consts.resolved_to(final(self)@.consts, v),
        decreases unvisited(old(self).program().names, old(self)@.visiting), 1nat, *e, 0nat,
    {
        proof {
            lemma_pow256_8();
        }
        match e {
            Expr::Unit => Ok(Some((0, ConstRef::Value(0)))),
            Expr::Const(s) => match self.collect_const(*s) {
                Ok(v) => Ok(Some(v)),
                Err(e) => Err(e),
            },
            Expr::Bool(b) => Ok(Some((1, ConstRef::Value(if *b { 1 } else { 0 })))),
            Expr::Int(n) => match ty {
                Ty::Int(ity) => match ity.size().bytes() {
                    Some(w) => match ity.zero_extend_as_u64(*n) {
                        Some(v) => Ok(Some((w as u32, ConstRef::Value(v)))),
                        None => Ok(None),
                    },
                    None => Ok(None),
                },
                _ => Ok(None),
            },
            Expr::List(es) => match ty {
                Ty::Sn(t) => if es.len() >= 1 {
                    proof {
                        assert(decreases_to!(*e => e->List_0));
                        assert(decreases_to!(*es => es[0]));
                    }
                    self.eval_const(&**t, &es[0])
                } else {
                    Ok(None)
                },
                Ty::List(tys) => {
                    proof {
                        assert(decreases_to!(*e => e->List_0));
                    }
                    self.alloc_region(Elems::Each(tys), es)
                },
                Ty::Struct(tys) => {
                    proof {
                        assert(decreases_to!(*e => e->List_0));
                    }
                    self.alloc_region(Elems::Each(tys), es)
                },
                _ => Ok(None),
            },
            Expr::Array(es) => match ty {
                Ty::Array(t, _) => {
                    proof {
                        assert(decreases_to!(*e => e->Array_0));
                    }
                    self.alloc_region(Elems::All(&**t), es)
                },
                _ => Ok(None),
            },
            _ => Ok(None),
        }
    }

    /// Lays out the members `es` of a literal one after the other from the
    /// end of the arena on, each at its type, and returns a pointer to
    /// where they begin. `Ok(None)` where a member cannot be evaluated.
    fn alloc_region(&mut self, tys: Elems<'_>, es: &Vec<Expr>) -> (r: Result<
        Option<ConstVal>,
        LinkError,
    >)
        requires
            old(self).wf(),
        ensures
            final(self).const_step(
                old(self),
                crate::model::region(
                    old(self)@.consts,
                    crate::model::alloc_elems(
                        old(self).program().names,
                        old(self)@.visiting,
                        old(self)@.consts,
                        tys.tys(es.len() as nat),
                        *es,
                        0,
                    ),
                ).0,
            ),
            r == crate::model::region(
                old(self)@.consts,
                crate::model::alloc_elems(
                    old(self).program().names,
                    old(self)@.visiting,
                    old(self)@.consts,
                    tys.tys(es.len() as nat),
                    *es,
                    0,
                ),
            ).1,
            r matches Ok(Some(v)) ==> old(self)@.consts.resolved_to(final(self)@.consts, v),
        decreases unvisited(old(self).program().names, old(self)@.visiting), 1nat, *es, 0nat,
    {
        let ghost st0 = self@;
        let ghost prog = self.program();
        let ghost tyseq = tys.tys(es.len() as nat);
        let start: u32 = self.consts.here();
        let n: usize = match tys {
            Elems::Each(v) => if v.len() < es.len() {
                v.len()
            } else {
                es.len()
            },
            Elems::All(_) => es.len(),
        };
        let mut i: usize = 0;
        while i < n
            invariant
                self.wf(),
                self.program() == prog,
                prog == old(self).program(),
                st0 == old(self)@,
                prog.names.dom().finite(),
                self@ == (LinkState { consts: self@.consts, ..st0 }),
                st0.consts.extended_by(self@.consts),
                start == st0.consts.rodata.len(),
                tyseq == tys.tys(es.len() as nat),
                i <= n,
                n <= es.len(),
                n <= tyseq.len(),
                n == es.len() || n == tyseq.len(),
                crate::model::alloc_elems(prog.names, st0.visiting, st0.consts, tyseq, *es, 0)
                    == crate::model::alloc_elems(
                    prog.names,
                    st0.visiting,
                    self@.consts,
                    tyseq,
                    *es,
                    i as nat,
                ),
            decreases n - i,
        {
            let ty_i: &Ty = match tys {
                Elems::Each(v) => &v[i],
                Elems::All(t) => t,
            };
            let ghost cur = self@.consts;
            let ghost step = crate::model::alloc_const(
                prog.names,
                st0.visiting,
                cur,
                tyseq[i as int],
                es[i as int],
            );
            proof {
                assert(decreases_to!(*es => es[i as int]));
                assert(*ty_i == tyseq[i as int]);
                assert(crate::model::alloc_elems(
                    prog.names,
                    st0.visiting,
                    cur,
                    tyseq,
                    *es,
                    i as nat,
                ) == match step.1 {
                    Ok(Some(_)) => crate::model::alloc_elems(
                        prog.names,
                        st0.visiting,
                        step.0,
                        tyseq,
                        *es,
                        (i + 1) as nat,
                    ),
                    Ok(None) => (step.0, Ok(false)),
                    Err(e) => (step.0, Err(e)),
                });
            }
            match self.alloc_const(ty_i, &es[i]) {
                Err(e) => {
                    proof {
                        lemma_extended_trans(st0.consts, cur, self@.consts);
                    }
                    return Err(e);
                },
                Ok(None) => {
                    proof {
                        lemma_extended_trans(st0.consts, cur, self@.consts);
                    }
                    return Ok(None);
                },
                Ok(Some(_)) => {
                    proof {
                        lemma_extended_trans(st0.consts, cur, self@.consts);
                    }
                },
            }
            i += 1;
        }
        let end: u32 = self.consts.here();
        Ok(Some((end - start, ConstRef::Ptr(start))))
    }

    /// Evaluates `e` at `ty` and makes its bytes the last bytes of the
    /// arena: an immediate is written out, and so are bytes that lie
    /// elsewhere in the arena. Returns the width and the offset of the
    /// bytes.
    pub fn alloc_const(&mut self, ty: &Ty, e: &Expr) -> (r: Result<Option<(u32, u32)>, LinkError>)
        requires
            old(self).wf(),
        ensures
            final(self).const_step(
                old(self),
                crate::model::alloc_const(
                    old(self).program().names,
                    old(self)@.visiting,
                    old(self)@.consts,
                    *ty,
                    *e,
                ).0,
            ),
            r == crate::model::alloc_const(
                old(self).program().names,
                old(self)@.visiting,
                old(self)@.consts,
                *ty,
                *e,
            ).1,
            r matches Ok(Some(wa)) ==> wa.1 == old(self)@.consts.rodata.len()
                && final(self)@.consts.rodata.len() == wa.1 + wa.0,
        decreases unvisited(old(self).program().names, old(self)@.visiting), 1nat, *e, 1nat,
    {
        let start: u32 = self.consts.here();
        let ghost cd0 = self@.consts;
        match self.eval_const(ty, e) {
            Err(e) => Err(e),
            Ok(None) => Ok(None),
            Ok(Some((sz, ConstRef::Ptr(addr)))) => {
                if self.consts.here() == start {
                    let ghost cd1 = self@.consts;
                    let buf = self.consts.copy_range(addr, sz);
                    match self.put(&buf) {
                        Ok(a) => {
                            proof {
                                lemma_extended_trans(cd0, cd1, self@.consts);
                            }
                            Ok(Some((sz, a)))
                        },
                        Err(e) => Err(e),
                    }
                } else {
                    Ok(Some((sz, addr)))
                }
            },
            Ok(Some((sz, ConstRef::Value(val)))) => {
                let ghost cd1 = self@.consts;
                let buf = to_le_bytes(val, sz as usize);
                proof {
                    crate::bytes::lemma_le_bytes_len(val as nat, sz as nat);
                }
                match self.put(&buf) {
                    Ok(a) => {
                        proof {
                            lemma_extended_trans(cd0, cd1, self@.consts);
                        }
                        Ok(Some((sz, a)))
                    },
                    Err(e) => Err(e),
                }
            },
        }
    }
}

/// A prefix of a prefix is a prefix.
pub proof fn lemma_prefix_trans(a: Seq<Symbol>, b: Seq<Symbol>, c: Seq<Symbol>)
    requires
        a.is_prefix_of(b),
        b.is_prefix_of(c),
    ensures
        a.is_prefix_of(c),
{
    assert(a =~= c.subrange(0, a.len() as int)) by {
        assert forall|i: int| 0 <= i < a.len() implies a[i] == c[i] by {
            assert(a[i] == b.subrange(0, a.len() as int)[i]);
            assert(b[i] == c.subrange(0, b.len() as int)[i]);
        }
    }
}

/// Records the deferred call of `g` at `tys` in `calls`, unless it is
/// recorded already.
pub fn push_call(calls: &mut Vec<GenericCall>, g: Symbol, tys: &Vec<Ty>)
    ensures
        calls_view(final(calls)@) == push_unique(calls_view(old(calls)@), (g, tys_view(tys@))),
{
    let ghost cv = calls_view(calls@);
    let ghost c = (g, tys_view(tys@));
    let mut i: usize = 0;
    while i < calls.len()
        invariant
            i <= calls.len(),
            calls@ == old(calls)@,
            cv == calls_view(calls@),
            c == (g, tys_view(tys@)),
            forall|j: int| 0 <= j < i ==> cv[j] != c,
        decreases calls.len() - i,
    {
        if calls[i].0 == g && same_all(&calls[i].1, tys) {
            assert(cv[i as int] == c);
            return ;
        }
        i += 1;
    }
    let copy = dup_all(tys);
    calls.push((g, copy));
    assert(calls_view(calls@) =~= cv.push(c));
}

impl<'a> Collector<'a> {
    /// What every step of procedure collection keeps: the run stays well
    /// formed over the same program, the state is now `st`, no identity was
    /// taken back or changed, what was resolved or written before stays as
    /// it was, and globals and the constants under evaluation are as before.
    pub open spec fn func_step(&self, before: &Self, st: LinkState) -> bool {
        &&& self.wf()
        &&& self.program() == before.program()
        &&& self@ == st
        &&& before@.procs.is_prefix_of(st.procs)
        &&& before@.consts.extended_by(st.consts)
        &&& st.globals == before@.globals
        &&& st.visiting == before@.visiting
    }

    /// Resolves, in turn, the named constants among `cs`.
    fn collect_consts(&mut self, cs: &Vec<Constant>) -> (r: Result<(), LinkError>)
        requires
            old(self).wf(),
        ensures
            final(self).const_step(
                old(self),
                crate::model::collect_consts(
                    old(self).program().names,
                    old(self)@.visiting,
                    old(self)@.consts,
                    cs@,
                    0,
                ).0,
            ),
            r == crate::model::collect_consts(
                old(self).program().names,
                old(self)@.visiting,
                old(self)@.consts,
                cs@,
                0,
            ).1,
    {
        let ghost st0 = self@;
        let ghost prog = self.program();
        let mut i: usize = 0;
        while i < cs.len()
            invariant
                self.wf(),
                self.program() == prog,
                prog == old(self).program(),
                st0 == old(self)@,
                self@ == (LinkState { consts: self@.consts, ..st0 }),
                st0.consts.extended_by(self@.consts),
                i <= cs.len(),
                crate::model::collect_consts(prog.names, st0.visiting, st0.consts, cs@, 0)
                    == crate::model::collect_consts(
                    prog.names,
                    st0.visiting,
                    self@.consts,
                    cs@,
                    i as nat,
                ),
            decreases cs.len() - i,
        {
            let ghost cur = self@.consts;
            match cs[i].k {
                ConstKind::Const(s) => {
                    match self.collect_const(s) {
                        Ok(_) => {
                            proof {
                                lemma_extended_trans(st0.consts, cur, self@.consts);
                            }
                        },
                        Err(e) => {
                            proof {
                                lemma_extended_trans(st0.consts, cur, self@.consts);
                            }
                            return Err(e);
                        },
                    }
                },
                _ => {},
            }
            i += 1;
        }
        Ok(())
    }

    /// Collects the procedure `f` at the type arguments `args` and returns
    /// its identity.
    ///
    /// A non-empty `args` is refused with `LinkError::TypeArgs` and nothing
    /// changes. A procedure that has an identity keeps it and nothing
    /// changes. Otherwise `f` receives the next identity, its body is
    /// scanned, and every procedure that it calls and every constant that
    /// it names is collected in turn.
    pub fn collect_func(&mut self, f: Symbol, args: &[Ty]) -> (r: Result<ProcId, LinkError>)
        requires
            old(self).wf(),
        ensures
            final(self).func_step(
                old(self),
                crate::model::collect_func(old(self).program(), old(self)@, f, tys_view(args@)).0,
            ),
            r == crate::model::collect_func(old(self).program(), old(self)@, f, tys_view(args@)).1,
            args@.len() != 0 ==> r == Err::<ProcId, LinkError>(LinkError::TypeArgs(f))
                && final(self)@ == old(self)@,
            args@.len() == 0 && old(self)@.procs.contains(f) ==> r == Ok::<ProcId, LinkError>(
                id_of(old(self)@.procs, f),
            ) && final(self)@ == old(self)@,
            args@.len() == 0 && !old(self)@.procs.contains(f) ==> final(self)@.procs.len()
                > old(self)@.procs.len() && final(self)@.procs[old(self)@.procs.len() as int] == f,
            r matches Ok(id) ==> id.0 < final(self)@.procs.len() && final(self)@.procs[id.0 as int]
                == f,
        decreases fuel(old(self)@), 0nat, 0nat,
    {
        if args.len() != 0 {
            return Err(LinkError::TypeArgs(f));
        }
        if let Some(id) = self.func_ids.get(&f) {
            proof {
                let i = choose|i: int| 0 <= i < self.func_names@.len() && self.func_names@[i] == f;
                lemma_id_of(self.func_names@, f, i);
            }
            return Ok(*id);
        }
        proof {
            lemma_procs_bounded(self.func_names@, f);
        }
        let id = ProcId(self.func_names.len() as u32);
        self.func_names.push(f);
        self.func_ids.insert(f, id);
        let ghost st1 = self@;
        proof {
            old(self).func_names@.lemma_push_to_set_commute(f);
            assert(self.func_ids@.dom() =~= self.func_names@.to_set());
            assert(self@.procs == old(self)@.procs.push(f));
            assert(st1 == (LinkState { procs: old(self)@.procs.push(f), ..old(self)@ }));
        }
        let ghost prog = self.program();
        let ghost av = tys_view(args@);
        proof {
            assert(old(self)@.procs.is_prefix_of(st1.procs));
            assert(st1.procs[old(self)@.procs.len() as int] == f);
        }
        let pending: Option<Option<Vec<GenericCall>>> = self.implications.remove(&f);
        match pending {
            Some(None) => {
                self.implications.insert(f, None);
                proof {
                    assert(self.implications@ =~= old(self).implications@);
                    assert(self@ == st1);
                }
                Err(LinkError::Cycle(f))
            },
            Some(Some(calls)) => {
                let ghost st1x = self@;
                proof {
                    assert(st1.deferred[f] == Some(calls_view(calls@)));
                    assert(st1x.deferred.insert(f, None) =~= st1.deferred.insert(f, None));
                    assert(crate::model::finish(prog, st1x, f, id, av, calls_view(calls@))
                        == crate::model::finish(prog, st1, f, id, av, calls_view(calls@)));
                }
                let r = self.finish(f, id, args, calls);
                proof {
                    lemma_prefix_trans(old(self)@.procs, st1x.procs, self@.procs);
                    lemma_extended_trans(old(self)@.consts, st1x.consts, self@.consts);
                }
                r
            },
            None => {
                proof {
                    assert(self.implications@ =~= old(self).implications@);
                    assert(self@ == st1);
                }
                let mir: &'a HashMap<Symbol, Proc> = self.mir;
                match mir.get(&f) {
                    Some(proc) => {
                        match self.scan(&proc.blocks) {
                            Ok(calls) => {
                                let ghost st2 = self@;
                                proof {
                                    lemma_prefix_trans(old(self)@.procs, st1.procs, st2.procs);
                                    lemma_extended_trans(
                                        old(self)@.consts,
                                        st1.consts,
                                        st2.consts,
                                    );
                                }
                                let r = self.finish(f, id, args, calls);
                                proof {
                                    lemma_prefix_trans(old(self)@.procs, st2.procs, self@.procs);
                                    lemma_extended_trans(
                                        old(self)@.consts,
                                        st2.consts,
                                        self@.consts,
                                    );
                                }
                                r
                            },
                            Err(e) => {
                                proof {
                                    lemma_prefix_trans(old(self)@.procs, st1.procs, self@.procs);
                                    lemma_extended_trans(
                                        old(self)@.consts,
                                        st1.consts,
                                        self@.consts,
                                    );
                                }
                                Err(e)
                            },
                        }
                    },
                    None => Ok(id),
                }
            },
        }
    }

    /// Collects the deferred calls `calls` of `f`, whose identity is `id`:
    /// marks the record of `f` as being computed, collects the calls, and
    /// sets the record to `calls`.
    fn finish(&mut self, f: Symbol, id: ProcId, args: &[Ty], calls: Vec<GenericCall>) -> (r: Result<
        ProcId,
        LinkError,
    >)
        requires
            old(self).wf(),
        ensures
            final(self).func_step(
                old(self),
                crate::model::finish(
                    old(self).program(),
                    old(self)@,
                    f,
                    id,
                    tys_view(args@),
                    calls_view(calls@),
                ).0,
            ),
            r == crate::model::finish(
                old(self).program(),
                old(self)@,
                f,
                id,
                tys_view(args@),
                calls_view(calls@),
            ).1,
        decreases fuel(old(self)@), 2nat, 0nat,
    {
        self.implications.insert(f, None);
        proof {
            assert(self@.deferred =~= old(self)@.deferred.insert(f, None));
        }
        let ghost st1 = self@;
        match self.collect_generics(f, args, &calls) {
            Ok(()) => {
                let ghost st2 = self@;
                let ghost cv = calls_view(calls@);
                self.implications.insert(f, Some(calls));
                proof {
                    assert(self@.deferred =~= st2.deferred.insert(f, Some(cv)));
                }
                Ok(id)
            },
            Err(e) => Err(e),
        }
    }

    /// Collects, in turn, the deferred calls `calls` of the procedure `f`
    /// with `args` substituted into their type arguments.
    pub fn collect_generics(&mut self, f: Symbol, args: &[Ty], calls: &Vec<GenericCall>) -> (r:
        Result<(), LinkError>)
        requires
            old(self).wf(),
        ensures
            final(self).func_step(
                old(self),
                crate::model::collect_generics(
                    old(self).program(),
                    old(self)@,
                    tys_view(args@),
                    calls_view(calls@),
                    0,
                ).0,
            ),
            r == crate::model::collect_generics(
                old(self).program(),
                old(self)@,
                tys_view(args@),
                calls_view(calls@),
                0,
            ).1,
        decreases fuel(old(self)@), 1nat, 0nat,
    {
        let ghost st0 = self@;
        let ghost prog = self.program();
        let ghost av = tys_view(args@);
        let ghost cv = calls_view(calls@);
        let mut i: usize = 0;
        while i < calls.len()
            invariant
                self.wf(),
                self.program() == prog,
                prog == old(self).program(),
                st0 == old(self)@,
                av == tys_view(args@),
                cv == calls_view(calls@),
                st0.procs.is_prefix_of(self@.procs),
                st0.consts.extended_by(self@.consts),
                self@.globals == st0.globals,
                self@.visiting == st0.visiting,
                i <= calls.len(),
                crate::model::collect_generics(prog, st0, av, cv, 0)
                    == crate::model::collect_generics(prog, self@, av, cv, i as nat),
            decreases calls.len() - i,
        {
            let ghost cur = self@;
            let subst = subst_list(&calls[i].1, args);
            match self.collect_func(calls[i].0, subst.as_slice()) {
                Ok(_) => {
                    proof {
                        lemma_extended_trans(st0.consts, cur.consts, self@.consts);
                    }
                },
                Err(e) => {
                    proof {
                        lemma_extended_trans(st0.consts, cur.consts, self@.consts);
                    }
                    return Err(e);
                },
            }
            i += 1;
        }
        Ok(())
    }

    /// Scans the blocks of a procedure body: in each block the named
    /// constants are resolved, then a call terminator is followed at once
    /// where none of its type arguments mentions a type variable, and
    /// deferred where one does. Returns the deferred calls.
    fn scan(&mut self, blocks: &Vec<BasicBlock>) -> (r: Result<Vec<GenericCall>, LinkError>)
        requires
            old(self).wf(),
        ensures
            final(self).func_step(
                old(self),
                crate::model::scan_blocks(
                    old(self).program(),
                    old(self)@,
                    blocks@,
                    0,
                    Seq::empty(),
                ).0,
            ),
            match r {
                Ok(calls) => Ok::<Seq<CallView>, LinkError>(calls_view(calls@)),
                Err(e) => Err(e),
            } == crate::model::scan_blocks(
                old(self).program(),
                old(self)@,
                blocks@,
                0,
                Seq::empty(),
            ).1,
        decreases fuel(old(self)@), 1nat, 0nat,
    {
        let ghost st0 = self@;
        let ghost prog = self.program();
        let mut calls: Vec<GenericCall> = Vec::new();
        proof {
            assert(calls_view(calls@) =~= Seq::<CallView>::empty());
        }
        let mut i: usize = 0;
        while i < blocks.len()
            invariant
                self.wf(),
                self.program() == prog,
                prog == old(self).program(),
                st0 == old(self)@,
                st0.procs.is_prefix_of(self@.procs),
                st0.consts.extended_by(self@.consts),
                self@.globals == st0.globals,
                self@.visiting == st0.visiting,
                i <= blocks.len(),
                crate::model::scan_blocks(prog, st0, blocks@, 0, Seq::empty())
                    == crate::model::scan_blocks(
                    prog,
                    self@,
                    blocks@,
                    i as nat,
                    calls_view(calls@),
                ),
            decreases blocks.len() - i,
        {
            let ghost cur = self@;
            let bl = &blocks[i];
            match self.collect_consts(&bl.constants) {
                Ok(()) => {},
                Err(e) => {
                    proof {
                        lemma_extended_trans(st0.consts, cur.consts, self@.consts);
                    }
                    return Err(e);
                },
            }
            let ghost mid = self@;
            proof {
                lemma_extended_trans(st0.consts, cur.consts, mid.consts);
            }
            match &bl.term {
                Terminator::Call { f: g, tys } => {
                    if has_tyvar_any(tys) {
                        push_call(&mut calls, *g, tys);
                    } else {
                        match self.collect_func(*g, tys.as_slice()) {
                            Ok(_) => {
                                proof {
                                    lemma_extended_trans(st0.consts, mid.consts, self@.consts);
                                }
                            },
                            Err(e) => {
                                proof {
                                    lemma_extended_trans(st0.consts, mid.consts, self@.consts);
                                }
                                return Err(e);
                            },
                        }
                    }
                },
                _ => {},
            }
            i += 1;
        }
        Ok(calls)
    }

    /// Collects the global `g` of `size` bytes and returns its identity: a
    /// global that has an identity keeps it, another receives the next one.
    pub fn collect_global(&mut self, g: Symbol, size: u32) -> (r: GlobalId)
        requires
            old(self).wf(),
        ensures
            final(self).wf(),
            final(self).program() == old(self).program(),
            final(self)@ == crate::model::collect_global(old(self)@, g, size).0,
            r == crate::model::collect_global(old(self)@, g, size).1,
    {
        proof {
            assert(self@.global_names() =~= self.global_names@);
        }
        if let Some(id) = self.global_ids.get(&g) {
            proof {
                let i = choose|i: int|
                    0 <= i < self.global_names@.len() && self.global_names@[i] == g;
                lemma_id_of(self.global_names@, g, i);
            }
            return *id;
        }
        proof {
            lemma_procs_bounded(self.global_names@, g);
        }
        let id = GlobalId(self.global_sizes.len() as u32);
        self.global_sizes.push(size);
        self.global_ids.insert(g, id);
        proof {
            self.global_names@ = self.global_names@.push(g);
            old(self).global_names@.lemma_push_to_set_commute(g);
            assert(self.global_ids@.dom() =~= self.global_names@.to_set());
            assert(self@.globals =~= old(self)@.globals.push((g, size)));
            assert(self@.global_names() =~= self.global_names@);
        }
        id
    }
}

impl<'a> Collector<'a> {
    /// The collected procedures, each at the index that is its identity.
    pub fn procs(&self) -> (r: &Vec<Symbol>)
        ensures
            r@ == self@.procs,
    {
        &self.func_names
    }

    /// The identity of the procedure `f`, if it has been collected.
    pub fn proc_id(&self, f: Symbol) -> (r: Option<ProcId>)
        requires
            self.wf(),
        ensures
            r == if self@.procs.contains(f) {
                Some(id_of(self@.procs, f))
            } else {
                None
            },
    {
        match self.func_ids.get(&f) {
            Some(id) => {
                proof {
                    let i = choose|i: int|
                        0 <= i < self.func_names@.len() && self.func_names@[i] == f;
                    lemma_id_of(self.func_names@, f, i);
                }
                Some(*id)
            },
            None => None,
        }
    }

    /// The identity of the global `g`, if it has been collected.
    pub fn global_id(&self, g: Symbol) -> (r: Option<GlobalId>)
        requires
            self.wf(),
        ensures
            r == if self@.global_names().contains(g) {
                Some(GlobalId(self@.global_names().index_of(g) as u32))
            } else {
                None
            },
    {
        proof {
            assert(self@.global_names() =~= self.global_names@);
        }
        match self.global_ids.get(&g) {
            Some(id) => {
                proof {
                    let i = choose|i: int|
                        0 <= i < self.global_names@.len() && self.global_names@[i] == g;
                    lemma_id_of(self.global_names@, g, i);
                }
                Some(*id)
            },
            None => None,
        }
    }

    /// The sizes in bytes of the collected globals, each at the index that
    /// is its identity.
    pub fn global_sizes(&self) -> (r: &Vec<u32>)
        ensures
            r@.len() == self@.globals.len(),
            forall|i: int| 0 <= i < r@.len() ==> r@[i] == self@.globals[i].1,
    {
        &self.global_sizes
    }

    /// The resolved constants and the read-only data.
    pub fn consts(&self) -> (r: &ConstData)
        ensures
            r@ == self@.consts,
    {
        &self.consts
    }

    /// The record of deferred calls of the procedure `f`: `None` where `f`
    /// has none, `Some(None)` where it is being computed.
    pub fn deferred(&self, f: Symbol) -> (r: Option<&Option<Vec<GenericCall>>>)
        ensures
            r is None <==> !self@.deferred.contains_key(f),
            r matches Some(rec) ==> self@.deferred[f] == match *rec {
                Some(calls) => Some(calls_view(calls@)),
                None => None,
            },
    {
        self.implications.get(&f)
    }
}

} // verus!
