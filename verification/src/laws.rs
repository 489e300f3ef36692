//! What holds of every linking run.

use crate::bytes::{le_value, lemma_le_roundtrip};
use crate::closure::{block_done, body_done, closed, complete, finalized, lemma_closure_func};
use crate::encoding::{encoding, encoding_elems, lemma_collect_const, lemma_eval_const};
use crate::linker::{Collector, ConstDataView};
use crate::model::{
    collect_const, collect_consts, collect_func, collect_generics, collect_global, eval_const,
    finish, id_of, scan_blocks, CallView, LinkState, Program,
};
use crate::progress::{
    keeps, lemma_collect_func, lemma_id_of, lemma_len_bounded, lemma_prefix_keeps_index, settled,
};
use crate::types::{
    tys_view, BasicBlock, ConstRef, ConstTc, ConstVal, Constant, Entity, Expr, GlobalId, LinkError,
    ProcId, Symbol, Terminator, Ty, TyView,
};
use vstd::prelude::*;

verus! {

/// Collection is a function of the program and of the state before it: two
/// runs over the same program that are in the same state and collect the
/// same procedure end in the same state, with the same identities, the same
/// arena byte for byte, and the same result.
pub proof fn law_collect_func_deterministic(
    a0: Collector<'_>,
    a1: Collector<'_>,
    ra: Result<ProcId, LinkError>,
    b0: Collector<'_>,
    b1: Collector<'_>,
    rb: Result<ProcId, LinkError>,
    f: Symbol,
    args: Seq<Ty>,
)
    requires
        a0.program() == b0.program(),
        a0@ == b0@,
        a1.func_step(&a0, collect_func(a0.program(), a0@, f, tys_view(args)).0),
        ra == collect_func(a0.program(), a0@, f, tys_view(args)).1,
        b1.func_step(&b0, collect_func(b0.program(), b0@, f, tys_view(args)).0),
        rb == collect_func(b0.program(), b0@, f, tys_view(args)).1,
    ensures
        a1@ == b1@,
        a1@.procs == b1@.procs,
        a1@.consts.rodata == b1@.consts.rodata,
        ra == rb,
{
}

/// Resolving a constant is a function of the program and of the state
/// before it.
pub proof fn law_collect_const_deterministic(
    a0: Collector<'_>,
    a1: Collector<'_>,
    ra: Result<ConstVal, LinkError>,
    b0: Collector<'_>,
    b1: Collector<'_>,
    rb: Result<ConstVal, LinkError>,
    c: Symbol,
)
    requires
        a0.program() == b0.program(),
        a0@ == b0@,
        a1.const_step(&a0, collect_const(a0.program().names, a0@.visiting, a0@.consts, c).0),
        ra == collect_const(a0.program().names, a0@.visiting, a0@.consts, c).1,
        b1.const_step(&b0, collect_const(b0.program().names, b0@.visiting, b0@.consts, c).0),
        rb == collect_const(b0.program().names, b0@.visiting, b0@.consts, c).1,
    ensures
        a1@ == b1@,
        ra == rb,
{
}

/// What the laws below ask of a state holds of every run: a run that the
/// library has made and worked on is in a well-formed state, over a
/// program that declares finitely many names; and a fresh run is settled.
pub proof fn law_runs_are_well_formed(c: Collector<'_>)
    requires
        c.wf(),
    ensures
        c@.wf(),
        c.program().names.dom().finite(),
        c@.deferred == Map::<Symbol, Option<Seq<CallView>>>::empty() ==> settled(c@),
{
    c.lemma_wf();
}

/// Collecting a procedure twice gives the same identity both times, and
/// the second collection changes nothing: neither the tables nor the arena.
pub proof fn law_collect_func_idempotent(p: Program, st: LinkState, f: Symbol)
    requires
        p.names.dom().finite(),
        st.wf(),
        collect_func(p, st, f, Seq::empty()).1 is Ok,
    ensures
        ({
            let (st1, r) = collect_func(p, st, f, Seq::empty());
            collect_func(p, st1, f, Seq::empty()) == (st1, r)
        }),
{
    lemma_collect_func(p, st, f, Seq::empty());
}

/// Whatever the outcome of a collection, every procedure that had an
/// identity keeps it, the state stays well formed, the arena only grows,
/// and every offset and every resolved constant stays as it was.
pub proof fn law_collection_keeps(
    p: Program,
    st: LinkState,
    f: Symbol,
    args: Seq<TyView>,
    g: Symbol,
)
    requires
        p.names.dom().finite(),
        st.wf(),
    ensures
        ({
            let (st1, r) = collect_func(p, st, f, args);
            &&& st1.wf()
            &&& st.procs.is_prefix_of(st1.procs)
            &&& st.consts.extended_by(st1.consts)
            &&& st.procs.contains(g) ==> st1.procs.contains(g) && id_of(st1.procs, g) == id_of(
                st.procs,
                g,
            )
        }),
{
    lemma_collect_func(p, st, f, args);
    let st1 = collect_func(p, st, f, args).0;
    if st.procs.contains(g) {
        let i = st.procs.index_of(g);
        lemma_prefix_keeps_index(st.procs, st1.procs, i);
        lemma_id_of(st1.procs, g, i);
    }
}

/// A run that started with nothing collected never meets a cycle among
/// deferred calls: from a settled state, collection reports no cycle and
/// leaves a settled state.
pub proof fn law_no_cycle(p: Program, st: LinkState, f: Symbol, args: Seq<TyView>)
    requires
        p.names.dom().finite(),
        st.wf(),
        settled(st),
    ensures
        !(collect_func(p, st, f, args).1 matches Err(LinkError::Cycle(_))),
        settled(collect_func(p, st, f, args).0),
{
    lemma_collect_func(p, st, f, args);
}

/// A fresh run, with no procedure collected and no record of deferred
/// calls, is settled, closed and complete.
pub proof fn law_fresh_is_settled(p: Program, st: LinkState)
    requires
        st.procs == Seq::<Symbol>::empty(),
        st.deferred == Map::<Symbol, Option<Seq<CallView>>>::empty(),
    ensures
        settled(st),
        closed(p, st),
        complete(p, st),
{
}

/// A successful collection collects all that is reachable. From a state in
/// which every collected procedure with a body has been scanned to the end,
/// a successful collection of `f` leads to such a state again, `f` is
/// collected, and every block of every collected procedure has what it
/// asks for: each constant that it names is resolved, and where it ends in
/// a call, the procedure called is collected. So the collected procedures
/// hold `f` and, with each procedure, every procedure that it calls.
pub proof fn law_collects_all_reachable(p: Program, st: LinkState, f: Symbol)
    requires
        p.names.dom().finite(),
        st.wf(),
        settled(st),
        closed(p, st),
        complete(p, st),
        collect_func(p, st, f, Seq::empty()).1 is Ok,
    ensures
        ({
            let st1 = collect_func(p, st, f, Seq::empty()).0;
            &&& settled(st1)
            &&& closed(p, st1)
            &&& complete(p, st1)
            &&& st1.procs.contains(f)
            &&& forall|g: Symbol, i: int|
                st1.procs.contains(g) && p.mir.contains_key(g) && 0 <= i < p.mir[g].blocks@.len()
                    ==> block_done(st1, #[trigger] p.mir[g].blocks@[i])
        }),
{
    lemma_collect_func(p, st, f, Seq::empty());
    lemma_closure_func(p, st, f, Seq::empty());
    let st1 = collect_func(p, st, f, Seq::empty()).0;
    assert forall|g: Symbol| #[trigger] st1.procs.contains(g) && p.mir.contains_key(
        g,
    ) implies finalized(st1, g) by {
        if st.procs.contains(g) {
            assert(finalized(st, g));
            assert(st1.deferred.contains_key(g) == st.deferred.contains_key(g));
        }
    }
    assert forall|g: Symbol, i: int|
        st1.procs.contains(g) && p.mir.contains_key(g) && 0 <= i
            < p.mir[g].blocks@.len() implies block_done(st1, #[trigger] p.mir[g].blocks@[i]) by {
        assert(finalized(st1, g));
        assert(body_done(p, st1, g));
    }
}

/// The same holds of a procedure that is reached from two call sites: once
/// it has an identity, every later collection of it, from whatever state
/// that still lists it, returns that identity and changes nothing.
pub proof fn law_collected_stays(p: Program, st: LinkState, f: Symbol, i: int)
    requires
        st.wf(),
        0 <= i < st.procs.len(),
        st.procs[i] == f,
    ensures
        collect_func(p, st, f, Seq::empty()) == (st, Ok::<ProcId, LinkError>(ProcId(i as u32))),
{
    lemma_id_of(st.procs, f, i);
}

/// A request with type arguments is refused and changes nothing.
pub proof fn law_type_args_refused(
    p: Program,
    st: LinkState,
    f: Symbol,
    args: Seq<TyView>,
)
    requires
        st.wf(),
        args.len() > 0,
    ensures
        collect_func(p, st, f, args) == (st, Err::<ProcId, LinkError>(LinkError::TypeArgs(f))),
{
}

/// The identities of the collected procedures are dense: with `n`
/// procedures collected, the procedure at index `i` has the identity `i`
/// for every `i` below `n`, no two procedures share an identity, and no
/// identity is `n` or more.
pub proof fn law_dense_proc_identities(st: LinkState)
    requires
        st.wf(),
    ensures
        st.procs.len() <= 0x1_0000_0000,
        forall|i: int|
            0 <= i < st.procs.len() ==> id_of(st.procs, #[trigger] st.procs[i]) == ProcId(i as u32),
        forall|f: Symbol| #[trigger]
            st.procs.contains(f) ==> id_of(st.procs, f).0 < st.procs.len() && st.procs[id_of(
                st.procs,
                f,
            ).0 as int] == f,
        forall|f: Symbol, g: Symbol|
            st.procs.contains(f) && st.procs.contains(g) && f != g ==> #[trigger] id_of(st.procs, f)
                != #[trigger] id_of(st.procs, g),
{
    lemma_len_bounded(st.procs);
    assert forall|i: int| 0 <= i < st.procs.len() implies id_of(st.procs, #[trigger] st.procs[i])
        == ProcId(i as u32) by {
        lemma_id_of(st.procs, st.procs[i], i);
    }
}

/// The identities of the collected globals are dense in the same way, and
/// collecting a global again returns its identity and changes nothing.
pub proof fn law_dense_global_identities(st: LinkState, g: Symbol, size: u32)
    requires
        st.wf(),
    ensures
        st.globals.len() <= 0x1_0000_0000,
        forall|i: int|
            0 <= i < st.globals.len() ==> collect_global(st, #[trigger] st.globals[i].0, size) == (
                st,
                GlobalId(i as u32),
            ),
        !st.global_names().contains(g) ==> collect_global(st, g, size).1 == GlobalId(
            st.globals.len() as u32,
        ) && collect_global(st, g, size).0.globals == st.globals.push((g, size)),
        collect_global(collect_global(st, g, size).0, g, size) == collect_global(st, g, size),
{
    let names = st.global_names();
    lemma_len_bounded(names);
    assert forall|i: int| 0 <= i < st.globals.len() implies collect_global(
        st,
        #[trigger] st.globals[i].0,
        size,
    ) == (st, GlobalId(i as u32)) by {
        assert(names[i] == st.globals[i].0);
        lemma_id_of(names, st.globals[i].0, i);
    }
    if !names.contains(g) {
        let st1 = collect_global(st, g, size).0;
        assert(st1.global_names() =~= names.push(g));
        lemma_id_of(st1.global_names(), g, names.len() as int);
    } else {
        let i = names.index_of(g);
        lemma_id_of(names, g, i);
    }
}

/// A constant is evaluated at most once: resolving it again, from the
/// state that a successful resolution left or from any later one that
/// still holds it, returns the same value and changes nothing, so nothing
/// is written to the arena a second time.
pub proof fn law_collect_const_memoized(
    names: Map<Symbol, Entity>,
    visiting: Set<Symbol>,
    cd: ConstDataView,
    c: Symbol,
)
    requires
        names.dom().finite(),
        cd.map.contains_key(c),
    ensures
        collect_const(names, visiting, cd, c) == (cd, Ok::<ConstVal, LinkError>(cd.map[c])),
{
}

/// Resolving a constant twice gives the same value both times, and the
/// second resolution changes nothing: the constant is evaluated, and its
/// bytes are written to the arena, at most once.
pub proof fn law_collect_const_twice(
    names: Map<Symbol, Entity>,
    visiting: Set<Symbol>,
    cd: ConstDataView,
    c: Symbol,
)
    requires
        names.dom().finite(),
        cd.wf(),
        collect_const(names, visiting, cd, c).1 is Ok,
    ensures
        ({
            let (cd1, r) = collect_const(names, visiting, cd, c);
            collect_const(names, visiting, cd1, c) == (cd1, r)
        }),
{
    lemma_collect_const(names, visiting, cd, c);
}

/// A boolean constant is an immediate of one byte, 1 for `true` and 0 for
/// `false`, and evaluating it leaves the arena as it is.
pub proof fn law_bool_is_immediate(
    names: Map<Symbol, Entity>,
    visiting: Set<Symbol>,
    cd: ConstDataView,
    ty: Ty,
    b: bool,
)
    requires
        names.dom().finite(),
    ensures
        eval_const(names, visiting, cd, ty, Expr::Bool(b)) == (
            cd,
            Ok::<Option<ConstVal>, LinkError>(
                Some((1u32, ConstRef::Value(if b { 1u64 } else { 0u64 }))),
            ),
        ),
{
}

/// The value that a successful evaluation returns stands for the bytes of
/// the expression: an immediate holds them as a little-endian number, a
/// pointer points to them in the arena.
pub proof fn law_eval_const_encoding(
    names: Map<Symbol, Entity>,
    visiting: Set<Symbol>,
    cd: ConstDataView,
    ty: Ty,
    e: Expr,
)
    requires
        names.dom().finite(),
        cd.wf(),
        eval_const(names, visiting, cd, ty, e).1 matches Ok(Some(_)),
    ensures
        ({
            let (cd1, r) = eval_const(names, visiting, cd, ty, e);
            let v = r->Ok_0->Some_0;
            &&& cd1.wf()
            &&& cd.extended_by(cd1)
            &&& cd1.valid(v)
            &&& cd1.bytes_of(v) == encoding(cd1, ty, e)
        }),
{
    lemma_eval_const(names, visiting, cd, ty, e);
}

/// A list or structure literal at a list or structure type, and an array
/// literal at an array type, evaluate to a pointer to the place where the
/// arena ended before, and the bytes behind it are the bytes of the
/// members one after the other, in declared order.
pub proof fn law_aggregate_is_pointer(
    names: Map<Symbol, Entity>,
    visiting: Set<Symbol>,
    cd: ConstDataView,
    ty: Ty,
    e: Expr,
)
    requires
        names.dom().finite(),
        cd.wf(),
        eval_const(names, visiting, cd, ty, e).1 matches Ok(Some(_)),
        (e is List && (ty is List || ty is Struct)) || (e is Array && ty is Array),
    ensures
        ({
            let (cd1, r) = eval_const(names, visiting, cd, ty, e);
            let v = r->Ok_0->Some_0;
            let members = match e {
                Expr::List(es) => match ty {
                    Ty::List(tys) => encoding_elems(cd1, tys@, es, 0),
                    Ty::Struct(tys) => encoding_elems(cd1, tys@, es, 0),
                    _ => Seq::empty(),
                },
                Expr::Array(es) => match ty {
                    Ty::Array(t, _) => encoding_elems(
                        cd1,
                        Seq::new(es.len() as nat, |i: int| *t),
                        es,
                        0,
                    ),
                    _ => Seq::empty(),
                },
                _ => Seq::empty(),
            };
            &&& v.1 == ConstRef::Ptr(cd.rodata.len() as u32)
            &&& cd1.rodata.len() == cd.rodata.len() + v.0
            &&& cd1.rodata.subrange(cd.rodata.len() as int, cd1.rodata.len() as int) == members
        }),
{
    lemma_eval_const(names, visiting, cd, ty, e);
}

/// A constant that is resolved for the first time receives a value that
/// stands for the bytes of its checked definition.
pub proof fn law_collect_const_encoding(
    names: Map<Symbol, Entity>,
    visiting: Set<Symbol>,
    cd: ConstDataView,
    c: Symbol,
)
    requires
        names.dom().finite(),
        cd.wf(),
        !cd.map.contains_key(c),
        collect_const(names, visiting, cd, c).1 is Ok,
    ensures
        ({
            let (cd1, r) = collect_const(names, visiting, cd, c);
            let v = r->Ok_0;
            &&& cd1.wf()
            &&& cd.extended_by(cd1)
            &&& cd1.map.contains_key(c) && cd1.map[c] == v
            &&& names.contains_key(c)
            &&& names[c] matches Entity::Const(ConstTc::Checked { ty, whnf }) && cd1.bytes_of(v)
                == encoding(cd1, ty, whnf)
        }),
{
    lemma_collect_const(names, visiting, cd, c);
}

/// An immediate is the number that its bytes stand for: reading the bytes
/// of a valid immediate back as a little-endian number gives the immediate.
pub proof fn law_immediate_is_its_bytes(cd: ConstDataView, w: u32, x: u64)
    requires
        cd.valid((w, ConstRef::Value(x))),
    ensures
        le_value(cd.bytes_of((w, ConstRef::Value(x)))) == x,
{
    lemma_le_roundtrip(x as nat, w as nat);
}

/// Constants that name no constant leave the constants as they are.
proof fn lemma_no_named_constants(
    names: Map<Symbol, Entity>,
    visiting: Set<Symbol>,
    cd: ConstDataView,
    cs: Seq<Constant>,
    i: nat,
)
    requires
        forall|j: int| 0 <= j < cs.len() ==> !((#[trigger] cs[j]).k is Const),
    ensures
        collect_consts(names, visiting, cd, cs, i) == (cd, Ok::<(), LinkError>(())),
    decreases cs.len() - i,
{
    if i < cs.len() {
        lemma_no_named_constants(names, visiting, cd, cs, i + 1);
    }
}

/// A block of a procedure that, at most, calls the procedure `f` itself at
/// no type arguments, and names no constant.
pub open spec fn calls_only(bl: BasicBlock, f: Symbol) -> bool {
    &&& forall|j: int| 0 <= j < bl.constants@.len() ==> !((#[trigger] bl.constants@[j]).k is Const)
    &&& bl.term matches Terminator::Call { f: g, tys } ==> g == f && tys@.len() == 0
}

/// The scan of blocks that at most call `f`, which is collected, changes
/// nothing and defers nothing.
proof fn lemma_scan_self_calls(
    p: Program,
    st: LinkState,
    f: Symbol,
    blocks: Seq<BasicBlock>,
    i: nat,
    calls: Seq<CallView>,
)
    requires
        st.wf(),
        st.procs.contains(f),
        forall|j: int| 0 <= j < blocks.len() ==> calls_only(#[trigger] blocks[j], f),
    ensures
        scan_blocks(p, st, blocks, i, calls) == (st, Ok::<Seq<CallView>, LinkError>(calls)),
    decreases blocks.len() - i,
{
    if i < blocks.len() {
        let bl = blocks[i as int];
        assert(calls_only(bl, f));
        lemma_no_named_constants(p.names, st.visiting, st.consts, bl.constants@, 0);
        let st1 = LinkState { consts: st.consts, ..st };
        assert(st1 == st);
        lemma_scan_self_calls(p, st, f, blocks, i + 1, calls);
        match bl.term {
            Terminator::Call { f: g, tys } => {
                assert(tys_view(tys@) =~= Seq::<TyView>::empty());
                assert(!crate::types::any_tyvar(tys_view(tys@)));
                assert(collect_func(p, st, f, tys_view(tys@)) == (
                    st,
                    Ok::<ProcId, LinkError>(id_of(st.procs, f)),
                ));
            },
            _ => {},
        }
    }
}

/// Recursion is safe: a procedure whose body at most calls the procedure
/// itself, at no type arguments, is collected successfully, and exactly
/// one identity, the next one, is handed out for it; its record of
/// deferred calls is empty and the constants stay as they are.
pub proof fn law_self_call_collects(p: Program, st: LinkState, f: Symbol)
    requires
        st.wf(),
        !st.procs.contains(f),
        !st.deferred.contains_key(f),
        p.mir.contains_key(f),
        forall|j: int|
            0 <= j < p.mir[f].blocks@.len() ==> calls_only(#[trigger] p.mir[f].blocks@[j], f),
    ensures
        collect_func(p, st, f, Seq::empty()) == (
            LinkState {
                procs: st.procs.push(f),
                deferred: st.deferred.insert(f, Some(Seq::empty())),
                ..st
            },
            Ok::<ProcId, LinkError>(ProcId(st.procs.len() as u32)),
        ),
{
    let st1 = LinkState { procs: st.procs.push(f), ..st };
    assert(st1.procs[st.procs.len() as int] == f);
    assert(st1.procs.no_duplicates());
    lemma_scan_self_calls(p, st1, f, p.mir[f].blocks@, 0, Seq::empty());
    let id = ProcId(st.procs.len() as u32);
    let st2 = LinkState { deferred: st1.deferred.insert(f, None), ..st1 };
    assert(collect_generics(p, st2, Seq::empty(), Seq::empty(), 0) == (
        st2,
        Ok::<(), LinkError>(()),
    ));
    assert(st2.deferred.insert(f, Some(Seq::<CallView>::empty())) =~= st.deferred.insert(
        f,
        Some(Seq::<CallView>::empty()),
    ));
    assert(finish(p, st1, f, id, Seq::empty(), Seq::empty()) == (
        LinkState {
            procs: st.procs.push(f),
            deferred: st.deferred.insert(f, Some(Seq::empty())),
            ..st
        },
        Ok::<ProcId, LinkError>(id),
    ));
}

} // verus!
