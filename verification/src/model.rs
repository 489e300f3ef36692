//! What constant evaluation and procedure collection compute, as
//! mathematical functions of the program and of the state before.

use crate::bytes::le_bytes;
use crate::linker::ConstDataView;
use crate::types::{
    any_tyvar, subst_all, tys_view, BasicBlock, ConstKind, ConstRef, ConstTc, ConstVal, Constant,
    Entity, Expr, GlobalId, LinkError, Proc, ProcId, Symbol, Terminator, Ty, TyView,
};
use vstd::set_lib::FiniteRange;
use vstd::prelude::*;

verus! {

/// The program that is linked: its declared names and its procedure bodies.
pub struct Program {
    pub names: Map<Symbol, Entity>,
    pub mir: Map<Symbol, Proc>,
}

/// A call that waits for its type arguments: the procedure called and the
/// type arguments at the call site.
pub type CallView = (Symbol, Seq<TyView>);

/// The state of a linking run.
pub struct LinkState {
    /// The collected procedures, each at the index that is its identity.
    pub procs: Seq<Symbol>,
    /// The collected globals with their sizes in bytes, each at the index
    /// that is its identity.
    pub globals: Seq<(Symbol, u32)>,
    /// The deferred calls of each scanned procedure, in the order in which
    /// the scan met them; `None` while they are being collected.
    pub deferred: Map<Symbol, Option<Seq<CallView>>>,
    /// The resolved constants and the read-only data.
    pub consts: ConstDataView,
    /// The constants that are being evaluated.
    pub visiting: Set<Symbol>,
}

impl LinkState {
    /// The symbols of the collected globals, in the order of their
    /// identities.
    pub open spec fn global_names(self) -> Seq<Symbol> {
        Seq::new(self.globals.len(), |i: int| self.globals[i].0)
    }

    /// No procedure and no global is listed twice, and the constants are
    /// well formed.
    pub open spec fn wf(self) -> bool {
        &&& self.procs.no_duplicates()
        &&& self.global_names().no_duplicates()
        &&& self.consts.wf()
    }
}

/// The number of declared names that are not being evaluated at present.
pub open spec fn unvisited(names: Map<Symbol, Entity>, visiting: Set<Symbol>) -> nat {
    names.dom().difference(visiting).len()
}

/// Taking up the evaluation of a declared name leaves fewer names that are
/// not being evaluated.
pub proof fn lemma_unvisited_decreases(
    names: Map<Symbol, Entity>,
    visiting: Set<Symbol>,
    c: Symbol,
)
    requires
        names.dom().finite(),
        names.contains_key(c),
        !visiting.contains(c),
    ensures
        unvisited(names, visiting.insert(c)) < unvisited(names, visiting),
{
    let a = names.dom().difference(visiting);
    let b = names.dom().difference(visiting.insert(c));
    vstd::set_lib::lemma_len_subset(a, names.dom());
    assert(b =~= a.remove(c));
    assert(a.contains(c));
}

/// The arena with `bytes` appended, and the offset at which they begin; an
/// error where the arena would outgrow 32-bit offsets.
pub open spec fn append(cd: ConstDataView, bytes: Seq<u8>) -> (ConstDataView, Result<
    u32,
    LinkError,
>) {
    if cd.rodata.len() + bytes.len() > u32::MAX {
        (cd, Err(LinkError::ArenaOverflow))
    } else {
        (
            ConstDataView { rodata: cd.rodata + bytes, ..cd },
            Ok(cd.rodata.len() as u32),
        )
    }
}

/// Makes the bytes of the resolved value `v` the last bytes of the arena,
/// where `start` was the arena's length before `v` was evaluated. An
/// immediate is written out. A pointer to bytes that the evaluation itself
/// has just written is left alone; a pointer to older bytes has them copied
/// to the end. The result is the width and the offset of the bytes.
pub open spec fn place(start: nat, cd: ConstDataView, v: ConstVal) -> (ConstDataView, Result<
    (u32, u32),
    LinkError,
>) {
    match v.1 {
        ConstRef::Value(x) => {
            let (cd1, r) = append(cd, le_bytes(x as nat, v.0 as nat));
            match r {
                Ok(a) => (cd1, Ok((v.0, a))),
                Err(e) => (cd1, Err(e)),
            }
        },
        ConstRef::Ptr(a) => if cd.rodata.len() == start {
            let (cd1, r) = append(cd, cd.rodata.subrange(a as int, a + v.0));
            match r {
                Ok(b) => (cd1, Ok((v.0, b))),
                Err(e) => (cd1, Err(e)),
            }
        } else {
            (cd, Ok((v.0, a)))
        },
    }
}

/// The result of resolving the constant `c`: its memoized value where it
/// has one, else the value of its checked definition, which is then
/// memoized. A constant without a checked definition, one whose definition
/// cannot be evaluated and one that is being evaluated already are
/// unresolvable.
pub open spec fn collect_const(
    names: Map<Symbol, Entity>,
    visiting: Set<Symbol>,
    cd: ConstDataView,
    c: Symbol,
) -> (ConstDataView, Result<ConstVal, LinkError>)
    decreases unvisited(names, visiting), 0nat, Expr::Unit, 0nat,
    when names.dom().finite()
{
    if cd.map.contains_key(c) {
        (cd, Ok(cd.map[c]))
    } else if visiting.contains(c) || !names.contains_key(c) {
        (cd, Err(LinkError::Unresolvable(c)))
    } else {
        match names[c] {
            Entity::Const(ConstTc::Checked { ty, whnf }) => {
                proof {
                    lemma_unvisited_decreases(names, visiting, c);
                }
                let (cd1, r) = eval_const(names, visiting.insert(c), cd, ty, whnf);
                match r {
                    Ok(Some(v)) => (ConstDataView { map: cd1.map.insert(c, v), ..cd1 }, Ok(v)),
                    Ok(None) => (cd1, Err(LinkError::Unresolvable(c))),
                    Err(e) => (cd1, Err(e)),
                }
            },
            _ => (cd, Err(LinkError::Unresolvable(c))),
        }
    }
}

/// The result of evaluating the expression `e` at the type `ty`:
/// `Ok(None)` where the expression is of a form that cannot be evaluated,
/// an error where a constant that it refers to cannot be resolved or the
/// arena overflows.
///
/// - The unit value is the immediate 0 of width 0.
/// - A named constant has the value that it resolves to.
/// - A boolean is the immediate 0 or 1 of width 1.
/// - An integer at an integer type of finite width is the immediate that
///   represents it in that type, as wide as the type; it cannot be
///   evaluated at another type, or where it does not fit.
/// - A list at a singleton type has the value of its first member at the
///   type below; an empty list cannot be evaluated there.
/// - A list at a list or structure type, and an array at an array type,
///   have their members laid out one after the other from the end of the
///   arena on, each at its type, as far as members and types reach; the
///   value is a pointer to where they begin, as wide as all of them.
/// - Nothing else can be evaluated.
pub open spec fn eval_const(
    names: Map<Symbol, Entity>,
    visiting: Set<Symbol>,
    cd: ConstDataView,
    ty: Ty,
    e: Expr,
) -> (ConstDataView, Result<Option<ConstVal>, LinkError>)
    decreases unvisited(names, visiting), 1nat, e, 0nat,
    when names.dom().finite()
{
    match e {
        Expr::Unit => (cd, Ok(Some((0u32, ConstRef::Value(0))))),
        Expr::Const(c) => {
            let (cd1, r) = collect_const(names, visiting, cd, c);
            match r {
                Ok(v) => (cd1, Ok(Some(v))),
                Err(e) => (cd1, Err(e)),
            }
        },
        Expr::Bool(b) => (cd, Ok(Some((1u32, ConstRef::Value(if b { 1u64 } else { 0u64 }))))),
        Expr::Int(n) => match ty {
            Ty::Int(ity) => match (ity.size().bytes(), ity.repr(n as int)) {
                (Some(w), Some(v)) => (cd, Ok(Some((w as u32, ConstRef::Value(v))))),
                _ => (cd, Ok(None)),
            },
            _ => (cd, Ok(None)),
        },
        Expr::List(es) => match ty {
            Ty::Sn(t) => if es.len() >= 1 {
                eval_const(names, visiting, cd, *t, es[0])
            } else {
                (cd, Ok(None))
            },
            Ty::List(tys) => region(cd, alloc_elems(names, visiting, cd, tys@, es, 0)),
            Ty::Struct(tys) => region(cd, alloc_elems(names, visiting, cd, tys@, es, 0)),
            _ => (cd, Ok(None)),
        },
        Expr::Array(es) => match ty {
            Ty::Array(t, _) => region(
                cd,
                alloc_elems(names, visiting, cd, Seq::new(es.len() as nat, |i: int| *t), es, 0),
            ),
            _ => (cd, Ok(None)),
        },
        _ => (cd, Ok(None)),
    }
}

/// The value of a literal whose members were laid out from the end of
/// `before` on: a pointer to where they begin, as wide as all that was
/// written.
pub open spec fn region(
    before: ConstDataView,
    laid: (ConstDataView, Result<bool, LinkError>),
) -> (ConstDataView, Result<Option<ConstVal>, LinkError>) {
    match laid.1 {
        Ok(true) => (
            laid.0,
            Ok(
                Some(
                    (
                        (laid.0.rodata.len() - before.rodata.len()) as u32,
                        ConstRef::Ptr(before.rodata.len() as u32),
                    ),
                ),
            ),
        ),
        Ok(false) => (laid.0, Ok(None)),
        Err(e) => (laid.0, Err(e)),
    }
}

/// The result of evaluating `e` at `ty` and making its bytes the last bytes
/// of the arena: the width and the offset of the bytes.
pub open spec fn alloc_const(
    names: Map<Symbol, Entity>,
    visiting: Set<Symbol>,
    cd: ConstDataView,
    ty: Ty,
    e: Expr,
) -> (ConstDataView, Result<Option<(u32, u32)>, LinkError>)
    decreases unvisited(names, visiting), 1nat, e, 1nat,
    when names.dom().finite()
{
    let (cd1, r) = eval_const(names, visiting, cd, ty, e);
    match r {
        Ok(Some(v)) => {
            let (cd2, p) = place(cd.rodata.len(), cd1, v);
            match p {
                Ok(wa) => (cd2, Ok(Some(wa))),
                Err(e) => (cd2, Err(e)),
            }
        },
        Ok(None) => (cd1, Ok(None)),
        Err(e) => (cd1, Err(e)),
    }
}

/// The result of laying out, one after the other, the members `es[i..]` of
/// a literal at the types `tys[i..]`, as far as both reach. `Ok(false)`
/// where a member cannot be evaluated.
pub open spec fn alloc_elems(
    names: Map<Symbol, Entity>,
    visiting: Set<Symbol>,
    cd: ConstDataView,
    tys: Seq<Ty>,
    es: Vec<Expr>,
    i: nat,
) -> (ConstDataView, Result<bool, LinkError>)
    decreases unvisited(names, visiting), 1nat, es, es.len() - i,
    when names.dom().finite()
{
    if i >= es.len() || i >= tys.len() {
        (cd, Ok(true))
    } else {
        let (cd1, r) = alloc_const(names, visiting, cd, tys[i as int], es[i as int]);
        match r {
            Ok(Some(_)) => alloc_elems(names, visiting, cd1, tys, es, i + 1),
            Ok(None) => (cd1, Ok(false)),
            Err(e) => (cd1, Err(e)),
        }
    }
}

/// The result of resolving, in turn, the named constants among `cs[i..]`.
pub open spec fn collect_consts(
    names: Map<Symbol, Entity>,
    visiting: Set<Symbol>,
    cd: ConstDataView,
    cs: Seq<Constant>,
    i: nat,
) -> (ConstDataView, Result<(), LinkError>)
    decreases cs.len() - i,
{
    if i >= cs.len() {
        (cd, Ok(()))
    } else {
        match cs[i as int].k {
            ConstKind::Const(s) => {
                let (cd1, r) = collect_const(names, visiting, cd, s);
                match r {
                    Ok(_) => collect_consts(names, visiting, cd1, cs, i + 1),
                    Err(e) => (cd1, Err(e)),
                }
            },
            _ => collect_consts(names, visiting, cd, cs, i + 1),
        }
    }
}

/// The number of procedures that can still receive an identity.
pub open spec fn fuel(st: LinkState) -> nat {
    if st.procs.len() <= 0x1_0000_0000 {
        (0x1_0000_0000 - st.procs.len()) as nat
    } else {
        0
    }
}

/// A set of symbols that lacks one symbol has fewer than 2^32 members.
pub proof fn lemma_symbols_bounded(s: Set<Symbol>, f: Symbol)
    requires
        !s.contains(f),
    ensures
        s.finite(),
        s.len() < 0x1_0000_0000,
{
    let below = Set::<u32>::range(0, u32::MAX);
    <u32 as FiniteRange>::range_properties(0, u32::MAX);
    let all = below.insert(u32::MAX);
    assert(all.len() == 0x1_0000_0000);
    let rest = all.remove(f);
    assert(all.contains(f));
    assert(s.subset_of(rest));
    vstd::set_lib::lemma_len_subset(s, rest);
}

/// A list of distinct symbols that lacks one symbol has fewer than 2^32
/// entries.
pub proof fn lemma_procs_bounded(procs: Seq<Symbol>, f: Symbol)
    requires
        procs.no_duplicates(),
        !procs.contains(f),
    ensures
        procs.len() < 0x1_0000_0000,
{
    procs.unique_seq_to_set();
    lemma_symbols_bounded(procs.to_set(), f);
}

/// The identity of the collected procedure `f`.
pub open spec fn id_of(procs: Seq<Symbol>, f: Symbol) -> ProcId {
    ProcId(procs.index_of(f) as u32)
}

/// The deferred calls `calls` with `c` recorded, once.
pub open spec fn push_unique(calls: Seq<CallView>, c: CallView) -> Seq<CallView> {
    if calls.contains(c) {
        calls
    } else {
        calls.push(c)
    }
}

/// The result of collecting the procedure `f` at the type arguments `args`.
///
/// A non-empty `args` is refused and leaves the state as it is. A procedure
/// that has an identity keeps it, and the state stays as it is. Otherwise
/// `f` receives the next identity, and then: where `f` has a record of
/// deferred calls, they are collected again (a record that is still being
/// computed is a cycle); else, where `f` has a body, its blocks are scanned
/// and the calls that the scan deferred are collected and recorded; else
/// nothing more happens.
pub open spec fn collect_func(
    p: Program,
    st: LinkState,
    f: Symbol,
    args: Seq<TyView>,
) -> (LinkState, Result<ProcId, LinkError>)
    decreases fuel(st), 0nat, 0nat,
    when st.procs.no_duplicates()
{
    if args.len() != 0 {
        (st, Err(LinkError::TypeArgs(f)))
    } else if st.procs.contains(f) {
        (st, Ok(id_of(st.procs, f)))
    } else {
        proof {
            lemma_procs_bounded(st.procs, f);
        }
        let id = ProcId(st.procs.len() as u32);
        let st1 = LinkState { procs: st.procs.push(f), ..st };
        if st1.deferred.contains_key(f) {
            match st1.deferred[f] {
                None => (st1, Err(LinkError::Cycle(f))),
                Some(calls) => finish(p, st1, f, id, args, calls),
            }
        } else if p.mir.contains_key(f) {
            let (st2, r) = scan_blocks(p, st1, p.mir[f].blocks@, 0, Seq::empty());
            match r {
                Ok(calls) => if grown(st1, st2) {
                    finish(p, st2, f, id, args, calls)
                } else {
                    (st2, Ok(id))
                },
                Err(e) => (st2, Err(e)),
            }
        } else {
            (st1, Ok(id))
        }
    }
}

/// Collection never takes an identity back. The functions below ask this
/// of each intermediate state before they go on from it, which makes their
/// recursion well founded; it always holds of a well-formed state (see
/// `progress::lemma_collect_func`).
pub open spec fn grown(before: LinkState, after: LinkState) -> bool {
    before.procs.len() <= after.procs.len()
}

/// The result of collecting the deferred calls `calls` of `f`, whose
/// identity is `id`: the record of `f` is marked as being computed, the
/// calls are collected, and the record is set to `calls`.
pub open spec fn finish(
    p: Program,
    st: LinkState,
    f: Symbol,
    id: ProcId,
    args: Seq<TyView>,
    calls: Seq<CallView>,
) -> (LinkState, Result<ProcId, LinkError>)
    decreases fuel(st), 2nat, 0nat,
{
    let st1 = LinkState { deferred: st.deferred.insert(f, None), ..st };
    let (st2, r) = collect_generics(p, st1, args, calls, 0);
    match r {
        Ok(()) => (LinkState { deferred: st2.deferred.insert(f, Some(calls)), ..st2 }, Ok(id)),
        Err(e) => (st2, Err(e)),
    }
}

/// The result of collecting, in turn, the deferred calls `calls[i..]` with
/// `args` substituted into their type arguments.
pub open spec fn collect_generics(
    p: Program,
    st: LinkState,
    args: Seq<TyView>,
    calls: Seq<CallView>,
    i: nat,
) -> (LinkState, Result<(), LinkError>)
    decreases fuel(st), 1nat, calls.len() - i,
{
    if i >= calls.len() {
        (st, Ok(()))
    } else {
        let (st1, r) = collect_func(p, st, calls[i as int].0, subst_all(calls[i as int].1, args));
        match r {
            Ok(_) => if grown(st, st1) {
                collect_generics(p, st1, args, calls, i + 1)
            } else {
                (st1, Ok(()))
            },
            Err(e) => (st1, Err(e)),
        }
    }
}

/// The result of scanning the blocks `blocks[i..]` of a procedure, where
/// `calls` are the calls deferred so far. In each block the named constants
/// are resolved in the order in which they occur; then a call terminator is
/// followed at once where none of its type arguments mentions a type
/// variable, and deferred where one does.
pub open spec fn scan_blocks(
    p: Program,
    st: LinkState,
    blocks: Seq<BasicBlock>,
    i: nat,
    calls: Seq<CallView>,
) -> (LinkState, Result<Seq<CallView>, LinkError>)
    decreases fuel(st), 1nat, blocks.len() - i,
{
    if i >= blocks.len() {
        (st, Ok(calls))
    } else {
        let (cd1, r1) = collect_consts(
            p.names,
            st.visiting,
            st.consts,
            blocks[i as int].constants@,
            0,
        );
        let st1 = LinkState { consts: cd1, ..st };
        match r1 {
            Err(e) => (st1, Err(e)),
            Ok(()) => match blocks[i as int].term {
                Terminator::Call { f: g, tys } => if any_tyvar(tys_view(tys@)) {
                    scan_blocks(p, st1, blocks, i + 1, push_unique(calls, (g, tys_view(tys@))))
                } else {
                    let (st2, r2) = collect_func(p, st1, g, tys_view(tys@));
                    match r2 {
                        Ok(_) => if grown(st1, st2) {
                            scan_blocks(p, st2, blocks, i + 1, calls)
                        } else {
                            (st2, Ok(calls))
                        },
                        Err(e) => (st2, Err(e)),
                    }
                },
                _ => scan_blocks(p, st1, blocks, i + 1, calls),
            },
        }
    }
}

/// The result of collecting the global `g` of `size` bytes: a global that
/// has an identity keeps it, with the size that it was collected with;
/// another receives the next identity.
pub open spec fn collect_global(st: LinkState, g: Symbol, size: u32) -> (LinkState, GlobalId) {
    if st.global_names().contains(g) {
        (st, GlobalId(st.global_names().index_of(g) as u32))
    } else {
        (LinkState { globals: st.globals.push((g, size)), ..st }, GlobalId(st.globals.len() as u32))
    }
}

} // verus!
