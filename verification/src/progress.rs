//! What collection keeps, whatever its outcome: identities that were handed
//! out stay, the tables stay well formed, and nothing resolved or written is
//! lost.

use crate::encoding::{evaluated, lemma_collect_const};
use crate::linker::{lemma_extended_trans, lemma_prefix_trans, ConstDataView};
use crate::model::{
    collect_const, collect_consts, collect_func, collect_generics, finish, fuel, grown, id_of,
    lemma_procs_bounded, scan_blocks, CallView, LinkState, Program,
};
use crate::types::{
    any_tyvar, subst_all, tys_view, BasicBlock, ConstKind, Constant, Entity, LinkError, ProcId,
    Symbol, Terminator, TyView,
};
use vstd::prelude::*;

verus! {

/// Every procedure that has a record of deferred calls has an identity.
/// This holds of a fresh run, and collection keeps it.
pub open spec fn settled(st: LinkState) -> bool {
    forall|f: Symbol| #[trigger] st.deferred.contains_key(f) ==> st.procs.contains(f)
}

/// What a step of collection from `a` to `b` keeps: the procedures of `a`
/// keep their identities, `b` is well formed, nothing resolved or written
/// is lost, globals and the constants under evaluation are as before, and
/// `b` is settled where `a` is.
pub open spec fn keeps(a: LinkState, b: LinkState) -> bool {
    &&& a.procs.is_prefix_of(b.procs)
    &&& b.wf()
    &&& a.consts.extended_by(b.consts)
    &&& b.globals == a.globals
    &&& b.visiting == a.visiting
    &&& settled(a) ==> settled(b)
}

/// `keeps` composes.
pub proof fn lemma_keeps_trans(a: LinkState, b: LinkState, c: LinkState)
    requires
        keeps(a, b),
        keeps(b, c),
    ensures
        keeps(a, c),
{
    lemma_prefix_trans(a.procs, b.procs, c.procs);
    lemma_extended_trans(a.consts, b.consts, c.consts);
}

/// A procedure stays collected, at its index, when the list grows.
pub proof fn lemma_prefix_keeps_index(a: Seq<Symbol>, b: Seq<Symbol>, i: int)
    requires
        a.is_prefix_of(b),
        0 <= i < a.len(),
    ensures
        b[i] == a[i],
        b.contains(a[i]),
{
    assert(a[i] == b.subrange(0, a.len() as int)[i]);
}

/// In a list without duplicates, the identity of an entry is its index.
pub proof fn lemma_id_of(s: Seq<Symbol>, f: Symbol, i: int)
    requires
        s.no_duplicates(),
        0 <= i < s.len(),
        s[i] == f,
    ensures
        s.contains(f),
        s.index_of(f) == i,
{
}

/// Resolving the named constants of a block keeps the constants well
/// formed and loses nothing.
pub proof fn lemma_collect_consts(
    names: Map<Symbol, Entity>,
    visiting: Set<Symbol>,
    cd: ConstDataView,
    cs: Seq<Constant>,
    i: nat,
)
    requires
        names.dom().finite(),
        cd.wf(),
    ensures
        evaluated(cd, collect_consts(names, visiting, cd, cs, i).0, visiting),
    decreases cs.len() - i,
{
    if i < cs.len() {
        match cs[i as int].k {
            ConstKind::Const(s) => {
                lemma_collect_const(names, visiting, cd, s);
                let (cd1, r) = collect_const(names, visiting, cd, s);
                if r is Ok {
                    lemma_collect_consts(names, visiting, cd1, cs, i + 1);
                    let cd2 = collect_consts(names, visiting, cd1, cs, i + 1).0;
                    crate::encoding::lemma_evaluated_trans(cd, cd1, cd2, visiting);
                }
            },
            _ => {
                lemma_collect_consts(names, visiting, cd, cs, i + 1);
            },
        }
    }
}

/// What collecting a procedure yields. Whatever the outcome, the step
/// keeps what `keeps` says. On success `f` is collected and the result is
/// its identity. A cycle is reported only from a state that is not settled.
pub proof fn lemma_collect_func(p: Program, st: LinkState, f: Symbol, args: Seq<TyView>)
    requires
        p.names.dom().finite(),
        st.wf(),
    ensures
        ({
            let (st1, r) = collect_func(p, st, f, args);
            &&& keeps(st, st1)
            &&& r matches Ok(id) ==> st1.procs.contains(f) && id == id_of(st1.procs, f) && id.0
                < st1.procs.len() && st1.procs[id.0 as int] == f
            &&& r matches Err(LinkError::Cycle(_)) ==> !settled(st)
        }),
    decreases fuel(st), 0nat, 0nat,
{
    if args.len() != 0 {
    } else if st.procs.contains(f) {
        let i = st.procs.index_of(f);
        lemma_len_bounded(st.procs);
    } else {
        lemma_procs_bounded(st.procs, f);
        let n = st.procs.len() as int;
        let id = ProcId(st.procs.len() as u32);
        let st1 = LinkState { procs: st.procs.push(f), ..st };
        assert(st1.procs[n] == f);
        assert(st1.procs.no_duplicates());
        assert(st.procs.is_prefix_of(st1.procs));
        assert(settled(st) ==> settled(st1)) by {
            if settled(st) {
                assert forall|g: Symbol| #[trigger] st1.deferred.contains_key(
                    g,
                ) implies st1.procs.contains(g) by {
                    let j = st.procs.index_of(g);
                    assert(st1.procs[j] == g);
                }
            }
        }
        assert(keeps(st, st1));
        if st1.deferred.contains_key(f) {
            match st1.deferred[f] {
                None => {},
                Some(calls) => {
                    lemma_finish(p, st1, f, n, args, calls);
                    let (st2, r) = finish(p, st1, f, id, args, calls);
                    lemma_keeps_trans(st, st1, st2);
                },
            }
        } else if p.mir.contains_key(f) {
            lemma_scan_blocks(p, st1, p.mir[f].blocks@, 0, Seq::empty());
            let (st2, r) = scan_blocks(p, st1, p.mir[f].blocks@, 0, Seq::empty());
            lemma_keeps_trans(st, st1, st2);
            if r is Ok {
                lemma_prefix_keeps_index(st1.procs, st2.procs, n);
                lemma_finish(p, st2, f, n, args, r->Ok_0);
                let (st3, r3) = finish(p, st2, f, id, args, r->Ok_0);
                lemma_keeps_trans(st, st2, st3);
            }
        } else {
            lemma_id_of(st1.procs, f, n);
        }
    }
}

/// A list of distinct symbols has at most 2^32 entries.
pub proof fn lemma_len_bounded(s: Seq<Symbol>)
    requires
        s.no_duplicates(),
    ensures
        s.len() <= 0x1_0000_0000,
{
    if s.len() > 0 {
        let t = s.drop_last();
        assert(t.no_duplicates());
        assert(!t.contains(s.last())) by {
            if t.contains(s.last()) {
                let i = choose|i: int| 0 <= i < t.len() && t[i] == s.last();
                assert(s[i] == s[s.len() - 1]);
            }
        }
        lemma_procs_bounded(t, s.last());
    }
}

/// What collecting the deferred calls of `f`, which stands at index `n`,
/// yields.
pub proof fn lemma_finish(
    p: Program,
    st: LinkState,
    f: Symbol,
    n: int,
    args: Seq<TyView>,
    calls: Seq<CallView>,
)
    requires
        p.names.dom().finite(),
        st.wf(),
        0 <= n < st.procs.len(),
        st.procs[n] == f,
    ensures
        ({
            let (st1, r) = finish(p, st, f, ProcId(n as u32), args, calls);
            &&& keeps(st, st1)
            &&& r matches Ok(id) ==> st1.procs.contains(f) && id == id_of(st1.procs, f) && id.0
                < st1.procs.len() && st1.procs[id.0 as int] == f
            &&& r matches Err(LinkError::Cycle(_)) ==> !settled(st)
        }),
    decreases fuel(st), 2nat, 0nat,
{
    lemma_len_bounded(st.procs);
    let st1 = LinkState { deferred: st.deferred.insert(f, None), ..st };
    assert(settled(st) ==> settled(st1));
    assert(st.procs.is_prefix_of(st1.procs));
    assert(keeps(st, st1));
    lemma_collect_generics(p, st1, args, calls, 0);
    let (st2, r) = collect_generics(p, st1, args, calls, 0);
    lemma_keeps_trans(st, st1, st2);
    lemma_prefix_keeps_index(st.procs, st2.procs, n);
    if r is Ok {
        let st3 = LinkState { deferred: st2.deferred.insert(f, Some(calls)), ..st2 };
        assert(settled(st2) ==> settled(st3));
        assert(st2.procs.is_prefix_of(st3.procs));
        assert(keeps(st2, st3));
        lemma_keeps_trans(st, st2, st3);
        lemma_id_of(st3.procs, f, n);
    }
}

/// What collecting the deferred calls `calls[i..]` yields.
pub proof fn lemma_collect_generics(
    p: Program,
    st: LinkState,
    args: Seq<TyView>,
    calls: Seq<CallView>,
    i: nat,
)
    requires
        p.names.dom().finite(),
        st.wf(),
    ensures
        ({
            let (st1, r) = collect_generics(p, st, args, calls, i);
            &&& keeps(st, st1)
            &&& r matches Err(LinkError::Cycle(_)) ==> !settled(st)
        }),
    decreases fuel(st), 1nat, calls.len() - i,
{
    if i >= calls.len() {
        assert(st.procs.is_prefix_of(st.procs));
        crate::encoding::lemma_evaluated_refl(st.consts);
    } else {
        let g = calls[i as int].0;
        let targs = subst_all(calls[i as int].1, args);
        lemma_collect_func(p, st, g, targs);
        let (st1, r) = collect_func(p, st, g, targs);
        if r is Ok {
            assert(grown(st, st1));
            lemma_collect_generics(p, st1, args, calls, i + 1);
            let (st2, r2) = collect_generics(p, st1, args, calls, i + 1);
            lemma_keeps_trans(st, st1, st2);
        }
    }
}

/// What scanning the blocks `blocks[i..]` yields.
pub proof fn lemma_scan_blocks(
    p: Program,
    st: LinkState,
    blocks: Seq<BasicBlock>,
    i: nat,
    calls: Seq<CallView>,
)
    requires
        p.names.dom().finite(),
        st.wf(),
    ensures
        ({
            let (st1, r) = scan_blocks(p, st, blocks, i, calls);
            &&& keeps(st, st1)
            &&& r matches Err(LinkError::Cycle(_)) ==> !settled(st)
        }),
    decreases fuel(st), 1nat, blocks.len() - i,
{
    if i >= blocks.len() {
        assert(st.procs.is_prefix_of(st.procs));
        crate::encoding::lemma_evaluated_refl(st.consts);
    } else {
        let bl = blocks[i as int];
        lemma_collect_consts(p.names, st.visiting, st.consts, bl.constants@, 0);
        lemma_collect_const_errors(p.names, st.visiting, st.consts, bl.constants@, 0);
        let (cd1, r1) = collect_consts(p.names, st.visiting, st.consts, bl.constants@, 0);
        let st1 = LinkState { consts: cd1, ..st };
        assert(st.procs.is_prefix_of(st1.procs));
        assert(settled(st) ==> settled(st1));
        assert(keeps(st, st1));
        if r1 is Ok {
            match bl.term {
                Terminator::Call { f: g, tys } => {
                    if any_tyvar(tys_view(tys@)) {
                        let calls1 = crate::model::push_unique(calls, (g, tys_view(tys@)));
                        lemma_scan_blocks(p, st1, blocks, i + 1, calls1);
                        let (st2, r2) = scan_blocks(p, st1, blocks, i + 1, calls1);
                        lemma_keeps_trans(st, st1, st2);
                    } else {
                        lemma_collect_func(p, st1, g, tys_view(tys@));
                        let (st2, r2) = collect_func(p, st1, g, tys_view(tys@));
                        lemma_keeps_trans(st, st1, st2);
                        if r2 is Ok {
                            assert(grown(st1, st2));
                            lemma_scan_blocks(p, st2, blocks, i + 1, calls);
                            let (st3, r3) = scan_blocks(p, st2, blocks, i + 1, calls);
                            lemma_keeps_trans(st, st2, st3);
                        }
                    }
                },
                _ => {
                    lemma_scan_blocks(p, st1, blocks, i + 1, calls);
                    let (st2, r2) = scan_blocks(p, st1, blocks, i + 1, calls);
                    lemma_keeps_trans(st, st1, st2);
                },
            }
        }
    }
}

/// Resolving constants reports no error but an unresolvable constant or an
/// overflow of the arena.
pub proof fn lemma_collect_const_errors(
    names: Map<Symbol, Entity>,
    visiting: Set<Symbol>,
    cd: ConstDataView,
    cs: Seq<Constant>,
    i: nat,
)
    requires
        names.dom().finite(),
    ensures
        collect_consts(names, visiting, cd, cs, i).1 matches Err(e) ==> e is Unresolvable || e
            is ArenaOverflow,
    decreases cs.len() - i,
{
    if i < cs.len() {
        match cs[i as int].k {
            ConstKind::Const(s) => {
                crate::encoding::lemma_const_errors(names, visiting, cd, s);
                let (cd1, r) = collect_const(names, visiting, cd, s);
                if r is Ok {
                    lemma_collect_const_errors(names, visiting, cd1, cs, i + 1);
                }
            },
            _ => {
                lemma_collect_const_errors(names, visiting, cd, cs, i + 1);
            },
        }
    }
}

} // verus!
