//! A successful collection collects all that is reachable: once a
//! procedure's body has been scanned to the end, every procedure that it
//! calls has an identity and every constant that it names is resolved.

use crate::encoding::lemma_collect_const;
use crate::linker::ConstDataView;
use crate::model::{
    collect_const, collect_consts, collect_func, collect_generics, fuel, grown,
    lemma_procs_bounded, push_unique, scan_blocks, CallView, LinkState, Program,
};
use crate::progress::{
    keeps, lemma_collect_consts, lemma_collect_func, lemma_keeps_trans, lemma_prefix_keeps_index,
    lemma_scan_blocks, settled,
};
use crate::types::{
    any_tyvar, subst_all, tys_view, BasicBlock, ConstKind, Constant, Entity, LinkError, ProcId,
    Symbol, Terminator, TyView,
};
use vstd::prelude::*;

verus! {

/// The body of `f` has been scanned to the end and its deferred calls have
/// been collected: its record of deferred calls is final.
pub open spec fn finalized(st: LinkState, f: Symbol) -> bool {
    st.deferred.contains_key(f) && st.deferred[f] is Some
}

/// Every constant that the constants `cs[i..]` name is resolved.
pub open spec fn consts_done(cd: ConstDataView, cs: Seq<Constant>, i: int) -> bool {
    forall|j: int|
        i <= j < cs.len() ==> ((#[trigger] cs[j]).k matches ConstKind::Const(c)
            ==> cd.map.contains_key(c))
}

/// All that the block asks for is there: every constant that it names is
/// resolved, and where it ends in a call, the call has no type arguments
/// and the procedure called has an identity.
pub open spec fn block_done(st: LinkState, bl: BasicBlock) -> bool {
    &&& consts_done(st.consts, bl.constants@, 0)
    &&& bl.term matches Terminator::Call { f: g, tys } ==> st.procs.contains(g) && tys@.len() == 0
}

/// All that the body of `f` asks for is there.
pub open spec fn body_done(p: Program, st: LinkState, f: Symbol) -> bool {
    p.mir.contains_key(f) ==> forall|i: int|
        0 <= i < p.mir[f].blocks@.len() ==> block_done(st, #[trigger] p.mir[f].blocks@[i])
}

/// All that the bodies of the finalized procedures ask for is there.
pub open spec fn closed(p: Program, st: LinkState) -> bool {
    forall|f: Symbol| #[trigger] finalized(st, f) ==> body_done(p, st, f)
}

/// Every collected procedure that has a body is finalized. This holds of a
/// fresh run, and between collections that succeed.
pub open spec fn complete(p: Program, st: LinkState) -> bool {
    forall|g: Symbol| #[trigger] st.procs.contains(g) && p.mir.contains_key(g) ==> finalized(st, g)
}

/// The step from `a` to `b` leaves the records of the procedures of `a`
/// as they are.
pub open spec fn frame(a: LinkState, b: LinkState) -> bool {
    forall|g: Symbol|
        a.procs.contains(g) ==> (#[trigger] b.deferred.contains_key(g))
            == a.deferred.contains_key(g) && (a.deferred.contains_key(g) ==> b.deferred[g]
            == a.deferred[g])
}

/// Every procedure with a body that the step from `a` to `b` has collected
/// is finalized.
pub open spec fn done_since(p: Program, a: LinkState, b: LinkState) -> bool {
    forall|g: Symbol|
        #[trigger] b.procs.contains(g) && !a.procs.contains(g) && p.mir.contains_key(g)
            ==> finalized(b, g)
}

/// What a step of collection from `a` to `b` achieves: the records of the
/// procedures of `a` stay, closedness stays, and where the step succeeds,
/// every procedure with a body that it has collected is finalized.
pub open spec fn advances(p: Program, a: LinkState, b: LinkState, ok: bool) -> bool {
    &&& frame(a, b)
    &&& closed(p, a) ==> closed(p, b)
    &&& ok ==> done_since(p, a, b)
}

/// Constants that are resolved stay resolved.
pub proof fn lemma_consts_done_kept(a: ConstDataView, b: ConstDataView, cs: Seq<Constant>)
    requires
        consts_done(a, cs, 0),
        a.extended_by(b),
    ensures
        consts_done(b, cs, 0),
{
    assert forall|j: int| 0 <= j < cs.len() implies ((#[trigger] cs[j]).k matches ConstKind::Const(
        c,
    ) ==> b.map.contains_key(c)) by {
        if let ConstKind::Const(c) = cs[j].k {
            assert(a.map.contains_key(c));
        }
    }
}

/// What is there for a block stays there.
pub proof fn lemma_block_done_kept(a: LinkState, b: LinkState, bl: BasicBlock)
    requires
        block_done(a, bl),
        a.procs.is_prefix_of(b.procs),
        a.consts.extended_by(b.consts),
    ensures
        block_done(b, bl),
{
    lemma_consts_done_kept(a.consts, b.consts, bl.constants@);
    if let Terminator::Call { f: g, tys } = bl.term {
        let i = a.procs.index_of(g);
        lemma_prefix_keeps_index(a.procs, b.procs, i);
    }
}

/// Closedness stays where the records stay and nothing is lost.
pub proof fn lemma_closed_kept(p: Program, a: LinkState, b: LinkState)
    requires
        closed(p, a),
        a.procs.is_prefix_of(b.procs),
        a.consts.extended_by(b.consts),
        forall|g: Symbol| #[trigger] finalized(b, g) ==> finalized(a, g),
    ensures
        closed(p, b),
{
    assert forall|f: Symbol| #[trigger] finalized(b, f) implies body_done(p, b, f) by {
        assert(finalized(a, f));
        assert(body_done(p, a, f));
        if p.mir.contains_key(f) {
            assert forall|i: int| 0 <= i < p.mir[f].blocks@.len() implies block_done(
                b,
                #[trigger] p.mir[f].blocks@[i],
            ) by {
                lemma_block_done_kept(a, b, p.mir[f].blocks@[i]);
            }
        }
    }
}

/// `advances` composes along steps that keep what `keeps` says.
pub proof fn lemma_advances_trans(
    p: Program,
    a: LinkState,
    b: LinkState,
    c: LinkState,
    ok1: bool,
    ok2: bool,
)
    requires
        advances(p, a, b, ok1),
        advances(p, b, c, ok2),
        a.procs.is_prefix_of(b.procs),
    ensures
        advances(p, a, c, ok1 && ok2),
{
    assert forall|g: Symbol| a.procs.contains(g) implies (#[trigger] c.deferred.contains_key(g))
        == a.deferred.contains_key(g) && (a.deferred.contains_key(g) ==> c.deferred[g]
        == a.deferred[g]) by {
        let i = a.procs.index_of(g);
        lemma_prefix_keeps_index(a.procs, b.procs, i);
        assert(b.procs.contains(g));
        assert(b.deferred.contains_key(g) == a.deferred.contains_key(g));
        assert(c.deferred.contains_key(g) == b.deferred.contains_key(g));
    }
    if ok1 && ok2 {
        assert forall|g: Symbol|
            #[trigger] c.procs.contains(g) && !a.procs.contains(g) && p.mir.contains_key(
                g,
            ) implies finalized(c, g) by {
            if b.procs.contains(g) {
                assert(finalized(b, g));
                assert(c.deferred.contains_key(g) == b.deferred.contains_key(g));
            }
        }
    }
}

/// A record set for a procedure that `a` has not collected leaves the
/// records of the procedures of `a` as they are.
pub proof fn lemma_frame_insert(
    a: LinkState,
    b: LinkState,
    f: Symbol,
    record: Option<Seq<CallView>>,
)
    requires
        frame(a, b),
        !a.procs.contains(f),
    ensures
        frame(a, LinkState { deferred: b.deferred.insert(f, record), ..b }),
{
    let c = LinkState { deferred: b.deferred.insert(f, record), ..b };
    assert forall|g: Symbol| a.procs.contains(g) implies (#[trigger] c.deferred.contains_key(g))
        == a.deferred.contains_key(g) && (a.deferred.contains_key(g) ==> c.deferred[g]
        == a.deferred[g]) by {
        assert(g != f);
        assert(b.deferred.contains_key(g) == a.deferred.contains_key(g));
    }
}

/// Nothing done achieves `advances`.
pub proof fn lemma_advances_refl(p: Program, a: LinkState, ok: bool)
    ensures
        advances(p, a, a, ok),
{
}

/// After the named constants among `cs[i..]` have been resolved, they are
/// all resolved.
pub proof fn lemma_consts_done(
    names: Map<Symbol, Entity>,
    visiting: Set<Symbol>,
    cd: ConstDataView,
    cs: Seq<Constant>,
    i: nat,
)
    requires
        names.dom().finite(),
        cd.wf(),
        collect_consts(names, visiting, cd, cs, i).1 is Ok,
    ensures
        consts_done(collect_consts(names, visiting, cd, cs, i).0, cs, i as int),
    decreases cs.len() - i,
{
    if i < cs.len() {
        let cd2 = collect_consts(names, visiting, cd, cs, i).0;
        match cs[i as int].k {
            ConstKind::Const(s) => {
                lemma_collect_const(names, visiting, cd, s);
                let (cd1, r) = collect_const(names, visiting, cd, s);
                lemma_consts_done(names, visiting, cd1, cs, i + 1);
                lemma_collect_consts(names, visiting, cd1, cs, i + 1);
                assert(cd2.map.contains_key(s));
            },
            _ => {
                lemma_consts_done(names, visiting, cd, cs, i + 1);
            },
        }
    }
}

/// Every deferred call has type arguments.
pub open spec fn all_generic(calls: Seq<CallView>) -> bool {
    forall|k: int| 0 <= k < calls.len() ==> (#[trigger] calls[k]).1.len() > 0
}

/// What the scan has done with a block, where `out` are the calls that it
/// deferred: every constant that the block names is resolved; a call with a
/// type variable among its type arguments is deferred; any other call has
/// no type arguments, and the procedure called has an identity.
pub open spec fn block_scanned(st: LinkState, bl: BasicBlock, out: Seq<CallView>) -> bool {
    &&& consts_done(st.consts, bl.constants@, 0)
    &&& bl.term matches Terminator::Call { f: g, tys } ==> if any_tyvar(tys_view(tys@)) {
        out.contains((g, tys_view(tys@)))
    } else {
        st.procs.contains(g) && tys@.len() == 0
    }
}

/// What was done with a block stays done.
pub proof fn lemma_block_scanned_kept(
    a: LinkState,
    b: LinkState,
    bl: BasicBlock,
    out: Seq<CallView>,
    out2: Seq<CallView>,
)
    requires
        block_scanned(a, bl, out),
        a.procs.is_prefix_of(b.procs),
        a.consts.extended_by(b.consts),
        forall|c: CallView| out.contains(c) ==> out2.contains(c),
    ensures
        block_scanned(b, bl, out2),
{
    lemma_consts_done_kept(a.consts, b.consts, bl.constants@);
    if let Terminator::Call { f: g, tys } = bl.term {
        if !any_tyvar(tys_view(tys@)) {
            let i = a.procs.index_of(g);
            lemma_prefix_keeps_index(a.procs, b.procs, i);
        }
    }
}

/// What the scan of the blocks `blocks[i..]` achieves.
pub proof fn lemma_closure_scan(
    p: Program,
    st: LinkState,
    blocks: Seq<BasicBlock>,
    i: nat,
    calls: Seq<CallView>,
)
    requires
        p.names.dom().finite(),
        st.wf(),
        settled(st),
        all_generic(calls),
    ensures
        ({
            let (st1, r) = scan_blocks(p, st, blocks, i, calls);
            &&& advances(p, st, st1, r is Ok)
            &&& r matches Ok(out) ==> {
                &&& all_generic(out)
                &&& forall|c: CallView| calls.contains(c) ==> out.contains(c)
                &&& forall|k: int|
                    i <= k < blocks.len() ==> block_scanned(st1, #[trigger] blocks[k], out)
            }
        }),
    decreases fuel(st), 1nat, blocks.len() - i,
{
    if i >= blocks.len() {
    } else {
        let bl = blocks[i as int];
        lemma_collect_consts(p.names, st.visiting, st.consts, bl.constants@, 0);
        let (cd1, r1) = collect_consts(p.names, st.visiting, st.consts, bl.constants@, 0);
        let st1 = LinkState { consts: cd1, ..st };
        assert(st.procs.is_prefix_of(st1.procs));
        assert(keeps(st, st1));
        assert(advances(p, st, st1, true)) by {
            if closed(p, st) {
                lemma_closed_kept(p, st, st1);
            }
        }
        if r1 is Ok {
            lemma_consts_done(p.names, st.visiting, st.consts, bl.constants@, 0);
            match bl.term {
                Terminator::Call { f: g, tys } => {
                    let targs = tys_view(tys@);
                    if any_tyvar(targs) {
                        let c = (g, targs);
                        let calls1 = push_unique(calls, c);
                        assert(all_generic(calls1)) by {
                            let w = choose|k: int|
                                0 <= k < targs.len() && (#[trigger] targs[k]).has_tyvar();
                            assert forall|k: int| 0 <= k < calls1.len() implies (
                            #[trigger] calls1[k]).1.len() > 0 by {
                                if k < calls.len() {
                                    assert(calls1[k] == calls[k]);
                                }
                            }
                        }
                        assert(calls1.contains(c)) by {
                            if !calls.contains(c) {
                                assert(calls1[calls.len() as int] == c);
                            }
                        }
                        assert forall|d: CallView| calls.contains(d) implies calls1.contains(d) by {
                            let k = choose|k: int| 0 <= k < calls.len() && calls[k] == d;
                            assert(calls1[k] == d);
                        }
                        lemma_closure_scan(p, st1, blocks, i + 1, calls1);
                        lemma_scan_blocks(p, st1, blocks, i + 1, calls1);
                        let (st2, r2) = scan_blocks(p, st1, blocks, i + 1, calls1);
                        lemma_advances_trans(p, st, st1, st2, true, r2 is Ok);
                        if r2 is Ok {
                            let out = r2->Ok_0;
                            assert(block_scanned(st1, bl, calls1));
                            lemma_block_scanned_kept(st1, st2, bl, calls1, out);
                            assert forall|k: int| i <= k < blocks.len() implies block_scanned(
                                st2,
                                #[trigger] blocks[k],
                                out,
                            ) by {
                                if k == i {
                                }
                            }
                        }
                    } else {
                        lemma_closure_func(p, st1, g, targs);
                        lemma_collect_func(p, st1, g, targs);
                        let (st2, r2) = collect_func(p, st1, g, targs);
                        lemma_advances_trans(p, st, st1, st2, true, r2 is Ok);
                        if r2 is Ok {
                            assert(targs.len() == 0);
                            assert(tys@.len() == 0);
                            assert(grown(st1, st2));
                            lemma_closure_scan(p, st2, blocks, i + 1, calls);
                            lemma_scan_blocks(p, st2, blocks, i + 1, calls);
                            let (st3, r3) = scan_blocks(p, st2, blocks, i + 1, calls);
                            lemma_keeps_trans(st, st1, st2);
                            lemma_advances_trans(p, st, st2, st3, true, r3 is Ok);
                            if r3 is Ok {
                                let out = r3->Ok_0;
                                assert(block_scanned(st2, bl, calls)) by {
                                    lemma_consts_done_kept(st1.consts, st2.consts, bl.constants@);
                                }
                                lemma_block_scanned_kept(st2, st3, bl, calls, out);
                            }
                        }
                    }
                },
                _ => {
                    lemma_closure_scan(p, st1, blocks, i + 1, calls);
                    lemma_scan_blocks(p, st1, blocks, i + 1, calls);
                    let (st2, r2) = scan_blocks(p, st1, blocks, i + 1, calls);
                    lemma_advances_trans(p, st, st1, st2, true, r2 is Ok);
                    if r2 is Ok {
                        let out = r2->Ok_0;
                        assert(block_scanned(st1, bl, calls));
                        lemma_block_scanned_kept(st1, st2, bl, calls, out);
                    }
                },
            }
        }
    }
}

/// What collecting a procedure achieves.
pub proof fn lemma_closure_func(p: Program, st: LinkState, f: Symbol, args: Seq<TyView>)
    requires
        p.names.dom().finite(),
        st.wf(),
        settled(st),
    ensures
        ({
            let (st1, r) = collect_func(p, st, f, args);
            advances(p, st, st1, r is Ok)
        }),
    decreases fuel(st), 0nat, 0nat,
{
    if args.len() != 0 {
    } else if st.procs.contains(f) {
    } else {
        lemma_procs_bounded(st.procs, f);
        let n = st.procs.len() as int;
        let id = ProcId(st.procs.len() as u32);
        let st1 = LinkState { procs: st.procs.push(f), ..st };
        assert(st1.procs[n] == f);
        assert(st1.procs.no_duplicates());
        assert(st.procs.is_prefix_of(st1.procs));
        assert(!st.deferred.contains_key(f));
        assert(settled(st1)) by {
            assert forall|g: Symbol| #[trigger] st1.deferred.contains_key(
                g,
            ) implies st1.procs.contains(g) by {
                let j = st.procs.index_of(g);
                assert(st1.procs[j] == g);
            }
        }
        crate::encoding::lemma_evaluated_refl(st.consts);
        assert(advances(p, st, st1, false)) by {
            if closed(p, st) {
                lemma_closed_kept(p, st, st1);
            }
        }
        if p.mir.contains_key(f) {
            let blocks = p.mir[f].blocks@;
            lemma_closure_scan(p, st1, blocks, 0, Seq::empty());
            lemma_scan_blocks(p, st1, blocks, 0, Seq::empty());
            let (st2, r) = scan_blocks(p, st1, blocks, 0, Seq::empty());
            lemma_advances_trans(p, st, st1, st2, false, r is Ok);
            if r is Ok {
                let calls = r->Ok_0;
                lemma_prefix_keeps_index(st1.procs, st2.procs, n);
                let sta = LinkState { deferred: st2.deferred.insert(f, None), ..st2 };
                assert(st2.deferred.contains_key(f) == st1.deferred.contains_key(f));
                lemma_frame_insert(st, st2, f, None);
                assert(closed(p, st) ==> closed(p, sta)) by {
                    if closed(p, st) {
                        assert(closed(p, st2));
                        assert forall|g: Symbol| #[trigger] finalized(sta, g) implies body_done(
                            p,
                            sta,
                            g,
                        ) by {
                            assert(g != f);
                            assert(finalized(st2, g));
                            assert(body_done(p, st2, g));
                        }
                    }
                }
                if calls.len() > 0 {
                    let g0 = calls[0].0;
                    let targs = subst_all(calls[0].1, args);
                    assert(targs.len() > 0);
                    assert(collect_func(p, sta, g0, targs) == (
                        sta,
                        Err::<ProcId, LinkError>(LinkError::TypeArgs(g0)),
                    ));
                    assert(collect_generics(p, sta, args, calls, 0).1 is Err);
                    assert(collect_generics(p, sta, args, calls, 0).0 == sta);
                } else {
                    assert(collect_generics(p, sta, args, calls, 0) == (
                        sta,
                        Ok::<(), LinkError>(()),
                    ));
                    let st3 = LinkState { deferred: sta.deferred.insert(f, Some(calls)), ..sta };
                    lemma_frame_insert(st, sta, f, Some(calls));
                    assert(body_done(p, st3, f)) by {
                        assert forall|k: int| 0 <= k < blocks.len() implies block_done(
                            st3,
                            #[trigger] blocks[k],
                        ) by {
                            assert(block_scanned(st2, blocks[k], calls));
                            if let Terminator::Call { f: g, tys } = blocks[k].term {
                                if any_tyvar(tys_view(tys@)) {
                                    assert(calls.contains((g, tys_view(tys@))));
                                    assert(false);
                                }
                            }
                        }
                    }
                    assert(closed(p, st) ==> closed(p, st3)) by {
                        if closed(p, st) {
                            assert forall|g: Symbol| #[trigger] finalized(st3, g) implies body_done(
                                p,
                                st3,
                                g,
                            ) by {
                                if g != f {
                                    assert(finalized(st2, g));
                                    assert(body_done(p, st2, g));
                                }
                            }
                        }
                    }
                    assert(done_since(p, st, st3)) by {
                        assert forall|g: Symbol|
                            #[trigger] st3.procs.contains(g) && !st.procs.contains(g)
                                && p.mir.contains_key(g) implies finalized(st3, g) by {
                            if g != f {
                                assert(st2.procs.contains(g));
                                if st1.procs.contains(g) {
                                    let j = st1.procs.index_of(g);
                                    if j < n {
                                        assert(st.procs[j] == g);
                                    }
                                }
                                assert(finalized(st2, g));
                            }
                        }
                    }
                }
            }
        } else {
            assert(done_since(p, st, st1)) by {
                assert forall|g: Symbol|
                    #[trigger] st1.procs.contains(g) && !st.procs.contains(g) && p.mir.contains_key(
                        g,
                    ) implies finalized(st1, g) by {
                    let j = st1.procs.index_of(g);
                    if j < n {
                        assert(st.procs[j] == g);
                    }
                }
            }
        }
    }
}

} // verus!
