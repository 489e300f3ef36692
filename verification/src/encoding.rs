//! The bytes that a constant expression stands for, and the proof that
//! evaluation writes exactly those.

use crate::bytes::{le_bytes, lemma_le_bytes_len, lemma_pow256_8};
use crate::linker::{lemma_extended_trans, ConstDataView};
use crate::model::{
    alloc_const, alloc_elems, collect_const, eval_const, lemma_unvisited_decreases, place,
    region, unvisited,
};
use crate::types::{ConstRef, ConstTc, Entity, Expr, Symbol, Ty};
use vstd::prelude::*;

verus! {

/// The bytes that the expression `e` of type `ty` stands for, given the
/// resolved constants and the arena `cd`: nothing for the unit value; one
/// byte for a boolean; the little-endian bytes of an integer at the width
/// of its type; the bytes of a named constant's resolved value; for a
/// singleton, the bytes of its one member; for a list, a structure or an
/// array, the bytes of its members one after the other, in declared order.
pub open spec fn encoding(cd: ConstDataView, ty: Ty, e: Expr) -> Seq<u8>
    decreases e, 0nat,
{
    match e {
        Expr::Unit => Seq::empty(),
        Expr::Const(c) => cd.bytes_of(cd.map[c]),
        Expr::Bool(b) => le_bytes(if b { 1nat } else { 0nat }, 1),
        Expr::Int(n) => match ty {
            Ty::Int(ity) => match (ity.size().bytes(), ity.repr(n as int)) {
                (Some(w), Some(v)) => le_bytes(v as nat, w as nat),
                _ => Seq::empty(),
            },
            _ => Seq::empty(),
        },
        Expr::List(es) => match ty {
            Ty::Sn(t) => if es.len() >= 1 {
                encoding(cd, *t, es[0])
            } else {
                Seq::empty()
            },
            Ty::List(tys) => encoding_elems(cd, tys@, es, 0),
            Ty::Struct(tys) => encoding_elems(cd, tys@, es, 0),
            _ => Seq::empty(),
        },
        Expr::Array(es) => match ty {
            Ty::Array(t, _) => encoding_elems(cd, Seq::new(es.len() as nat, |i: int| *t), es, 0),
            _ => Seq::empty(),
        },
        _ => Seq::empty(),
    }
}

/// The bytes of the members `es[i..]` at the types `tys[i..]`, as far as
/// both reach, one after the other.
pub open spec fn encoding_elems(cd: ConstDataView, tys: Seq<Ty>, es: Vec<Expr>, i: nat) -> Seq<u8>
    decreases es, es.len() - i,
{
    if i >= es.len() || i >= tys.len() {
        Seq::empty()
    } else {
        encoding(cd, tys[i as int], es[i as int]) + encoding_elems(cd, tys, es, i + 1)
    }
}

/// Every named constant that `encoding(cd, ty, e)` reads is resolved in
/// `cd`, to a value that is valid there.
pub open spec fn resolved(cd: ConstDataView, ty: Ty, e: Expr) -> bool
    decreases e, 0nat,
{
    match e {
        Expr::Const(c) => cd.map.contains_key(c) && cd.valid(cd.map[c]),
        Expr::List(es) => match ty {
            Ty::Sn(t) => es.len() >= 1 ==> resolved(cd, *t, es[0]),
            Ty::List(tys) => resolved_elems(cd, tys@, es, 0),
            Ty::Struct(tys) => resolved_elems(cd, tys@, es, 0),
            _ => true,
        },
        Expr::Array(es) => match ty {
            Ty::Array(t, _) => resolved_elems(cd, Seq::new(es.len() as nat, |i: int| *t), es, 0),
            _ => true,
        },
        _ => true,
    }
}

/// `resolved` of each of the members `es[i..]` at the types `tys[i..]`.
pub open spec fn resolved_elems(cd: ConstDataView, tys: Seq<Ty>, es: Vec<Expr>, i: nat) -> bool
    decreases es, es.len() - i,
{
    if i >= es.len() || i >= tys.len() {
        true
    } else {
        resolved(cd, tys[i as int], es[i as int]) && resolved_elems(cd, tys, es, i + 1)
    }
}

/// What an evaluation from `cd` to `cd1` keeps while the constants
/// `visiting` are being evaluated: `cd1` is well formed, it holds all that
/// `cd` held, and it has resolved none of the constants under evaluation.
pub open spec fn evaluated(cd: ConstDataView, cd1: ConstDataView, visiting: Set<Symbol>) -> bool {
    &&& cd1.wf()
    &&& cd.extended_by(cd1)
    &&& forall|k: Symbol|
        visiting.contains(k) && #[trigger] cd1.map.contains_key(k) ==> cd.map.contains_key(k)
}

/// The bytes of an expression stay the same when the arena grows and more
/// constants are resolved.
pub proof fn lemma_encoding_stable(cd: ConstDataView, cd1: ConstDataView, ty: Ty, e: Expr)
    requires
        resolved(cd, ty, e),
        cd.extended_by(cd1),
    ensures
        resolved(cd1, ty, e),
        encoding(cd1, ty, e) == encoding(cd, ty, e),
    decreases e, 0nat,
{
    match e {
        Expr::Const(c) => {
            assert(cd.map.contains_key(c));
            let v = cd.map[c];
            assert(cd1.map[c] == v);
            match v.1 {
                ConstRef::Ptr(a) => {
                    assert(cd1.rodata.subrange(a as int, a + v.0) =~= cd.rodata.subrange(
                        a as int,
                        a + v.0,
                    )) by {
                        assert forall|j: int| a <= j < a + v.0 implies #[trigger] cd1.rodata[j]
                            == cd.rodata[j] by {
                            assert(cd.rodata[j] == cd1.rodata.subrange(
                                0,
                                cd.rodata.len() as int,
                            )[j]);
                        }
                    }
                },
                ConstRef::Value(_) => {},
            }
        },
        Expr::List(es) => match ty {
            Ty::Sn(t) => if es.len() >= 1 {
                lemma_encoding_stable(cd, cd1, *t, es[0]);
            },
            Ty::List(tys) => lemma_encoding_stable_elems(cd, cd1, tys@, es, 0),
            Ty::Struct(tys) => lemma_encoding_stable_elems(cd, cd1, tys@, es, 0),
            _ => {},
        },
        Expr::Array(es) => match ty {
            Ty::Array(t, _) => lemma_encoding_stable_elems(
                cd,
                cd1,
                Seq::new(es.len() as nat, |i: int| *t),
                es,
                0,
            ),
            _ => {},
        },
        _ => {},
    }
}

/// The same of the members of a literal.
pub proof fn lemma_encoding_stable_elems(
    cd: ConstDataView,
    cd1: ConstDataView,
    tys: Seq<Ty>,
    es: Vec<Expr>,
    i: nat,
)
    requires
        resolved_elems(cd, tys, es, i),
        cd.extended_by(cd1),
    ensures
        resolved_elems(cd1, tys, es, i),
        encoding_elems(cd1, tys, es, i) == encoding_elems(cd, tys, es, i),
    decreases es, es.len() - i,
{
    if i >= es.len() || i >= tys.len() {
    } else {
        lemma_encoding_stable(cd, cd1, tys[i as int], es[i as int]);
        lemma_encoding_stable_elems(cd, cd1, tys, es, i + 1);
    }
}

/// Nothing evaluated keeps everything.
pub proof fn lemma_evaluated_refl(cd: ConstDataView)
    requires
        cd.wf(),
    ensures
        cd.extended_by(cd),
{
}

/// `evaluated` composes.
pub proof fn lemma_evaluated_trans(
    a: ConstDataView,
    b: ConstDataView,
    c: ConstDataView,
    visiting: Set<Symbol>,
)
    requires
        evaluated(a, b, visiting),
        evaluated(b, c, visiting),
    ensures
        evaluated(a, c, visiting),
{
    lemma_extended_trans(a, b, c);
    assert forall|k: Symbol| visiting.contains(k) && #[trigger] c.map.contains_key(
        k,
    ) implies a.map.contains_key(k) by {
        assert(b.map.contains_key(k));
    }
}

/// What resolving the constant `c` yields. Whatever the outcome, the
/// constants stay well formed and nothing is lost. On success the value is
/// memoized; and where it was not memoized before, `c` has a checked
/// definition and the value stands for the bytes of that definition.
pub proof fn lemma_collect_const(
    names: Map<Symbol, Entity>,
    visiting: Set<Symbol>,
    cd: ConstDataView,
    c: Symbol,
)
    requires
        names.dom().finite(),
        cd.wf(),
    ensures
        ({
            let (cd1, r) = collect_const(names, visiting, cd, c);
            let v = r->Ok_0;
            &&& evaluated(cd, cd1, visiting)
            &&& r is Ok ==> {
                &&& cd.resolved_to(cd1, v)
                &&& cd1.map.contains_key(c)
                &&& cd1.map[c] == v
                &&& !cd.map.contains_key(c) ==> names.contains_key(c) && (
                names[c] matches Entity::Const(ConstTc::Checked { ty, whnf }) && resolved(
                    cd1,
                    ty,
                    whnf,
                ) && cd1.bytes_of(v) == encoding(cd1, ty, whnf))
            }
        }),
    decreases unvisited(names, visiting), 0nat, Expr::Unit, 0nat,
{
    if cd.map.contains_key(c) {
    } else if visiting.contains(c) || !names.contains_key(c) {
    } else {
        match names[c] {
            Entity::Const(ConstTc::Checked { ty, whnf }) => {
                lemma_unvisited_decreases(names, visiting, c);
                let inner = visiting.insert(c);
                let (cd1, r) = eval_const(names, inner, cd, ty, whnf);
                lemma_eval_const(names, inner, cd, ty, whnf);
                assert forall|k: Symbol| visiting.contains(k) && #[trigger] cd1.map.contains_key(
                    k,
                ) implies cd.map.contains_key(k) by {
                    assert(inner.contains(k));
                }
                if r matches Ok(Some(_)) {
                    let v = r->Ok_0->Some_0;
                    let cd2 = ConstDataView { map: cd1.map.insert(c, v), ..cd1 };
                    assert(inner.contains(c));
                    assert(!cd1.map.contains_key(c));
                    assert(cd1.extended_by(cd2));
                    lemma_extended_trans(cd, cd1, cd2);
                    lemma_encoding_stable(cd1, cd2, ty, whnf);
                    assert(cd2.bytes_of(v) == cd1.bytes_of(v));
                    assert forall|k: Symbol|
                        visiting.contains(k) && #[trigger] cd2.map.contains_key(
                            k,
                        ) implies cd.map.contains_key(k) by {
                        assert(inner.contains(k));
                        assert(cd1.map.contains_key(k));
                    }
                    assert(cd2.wf()) by {
                        assert forall|s: Symbol| #[trigger]
                            cd2.map.contains_key(s) implies cd2.valid(cd2.map[s]) by {
                            if s != c {
                                assert(cd1.map.contains_key(s));
                            }
                        }
                    }
                }
            },
            _ => {},
        }
    }
}

/// What an evaluation yields. Whatever the outcome, the constants stay
/// well formed and nothing is lost. On success the value is valid in the
/// new arena and stands for the bytes of the expression.
pub proof fn lemma_eval_const(
    names: Map<Symbol, Entity>,
    visiting: Set<Symbol>,
    cd: ConstDataView,
    ty: Ty,
    e: Expr,
)
    requires
        names.dom().finite(),
        cd.wf(),
    ensures
        ({
            let (cd1, r) = eval_const(names, visiting, cd, ty, e);
            let v = r->Ok_0->Some_0;
            &&& evaluated(cd, cd1, visiting)
            &&& r matches Ok(Some(_)) ==> {
                &&& cd.resolved_to(cd1, v)
                &&& resolved(cd1, ty, e)
                &&& cd1.bytes_of(v) == encoding(cd1, ty, e)
            }
        }),
    decreases unvisited(names, visiting), 1nat, e, 0nat,
{
    lemma_pow256_8();
    match e {
        Expr::Const(c) => {
            lemma_collect_const(names, visiting, cd, c);
        },
        Expr::List(es) => match ty {
            Ty::Sn(t) => {
                if es.len() >= 1 {
                    lemma_eval_const(names, visiting, cd, *t, es[0]);
                }
            },
            Ty::List(tys) => {
                lemma_region(names, visiting, cd, tys@, es);
            },
            Ty::Struct(tys) => {
                lemma_region(names, visiting, cd, tys@, es);
            },
            _ => {},
        },
        Expr::Array(es) => match ty {
            Ty::Array(t, _) => {
                lemma_region(names, visiting, cd, Seq::new(es.len() as nat, |i: int| *t), es);
            },
            _ => {},
        },
        _ => {},
    }
}

/// What laying out the members of a literal yields: a pointer to the bytes
/// of its members, one after the other.
pub proof fn lemma_region(
    names: Map<Symbol, Entity>,
    visiting: Set<Symbol>,
    cd: ConstDataView,
    tys: Seq<Ty>,
    es: Vec<Expr>,
)
    requires
        names.dom().finite(),
        cd.wf(),
    ensures
        ({
            let (cd1, r) = region(cd, alloc_elems(names, visiting, cd, tys, es, 0));
            let v = r->Ok_0->Some_0;
            &&& evaluated(cd, cd1, visiting)
            &&& r matches Ok(Some(_)) ==> {
                &&& v.1 == ConstRef::Ptr(cd.rodata.len() as u32)
                &&& cd.resolved_to(cd1, v)
                &&& resolved_elems(cd1, tys, es, 0)
                &&& cd1.bytes_of(v) == encoding_elems(cd1, tys, es, 0)
            }
        }),
    decreases unvisited(names, visiting), 1nat, es, es.len() + 1,
{
    lemma_alloc_elems(names, visiting, cd, tys, es, 0);
    let (cd1, r) = alloc_elems(names, visiting, cd, tys, es, 0);
    if r == Ok::<bool, crate::types::LinkError>(true) {
        let enc = encoding_elems(cd1, tys, es, 0);
        assert(cd1.rodata.subrange(cd.rodata.len() as int, cd1.rodata.len() as int) =~= enc);
    }
}

/// What a successful layout of one member yields: its bytes are the last
/// bytes of the arena.
pub proof fn lemma_alloc_const(
    names: Map<Symbol, Entity>,
    visiting: Set<Symbol>,
    cd: ConstDataView,
    ty: Ty,
    e: Expr,
)
    requires
        names.dom().finite(),
        cd.wf(),
    ensures
        ({
            let (cd2, r) = alloc_const(names, visiting, cd, ty, e);
            let wa = r->Ok_0->Some_0;
            &&& evaluated(cd, cd2, visiting)
            &&& r matches Ok(Some(_)) ==> {
                &&& resolved(cd2, ty, e)
                &&& wa.1 == cd.rodata.len()
                &&& wa.0 == encoding(cd2, ty, e).len()
                &&& cd2.rodata == cd.rodata + encoding(cd2, ty, e)
            }
        }),
    decreases unvisited(names, visiting), 1nat, e, 1nat,
{
    let (cd1, r) = eval_const(names, visiting, cd, ty, e);
    lemma_eval_const(names, visiting, cd, ty, e);
    if r matches Ok(Some(_)) {
        let v = r->Ok_0->Some_0;
        let (cd2, p) = place(cd.rodata.len(), cd1, v);
        let bytes = cd1.bytes_of(v);
        assert(bytes.len() == v.0) by {
            lemma_le_bytes_len(v.1->Value_0 as nat, v.0 as nat);
        }
        assert(cd1.rodata.subrange(0, cd.rodata.len() as int) == cd.rodata);
        if p is Ok {
            if v.1 is Ptr && cd1.rodata.len() != cd.rodata.len() {
                assert(cd2 == cd1);
                assert(cd1.rodata =~= cd.rodata + bytes);
            } else {
                assert(cd1.rodata =~= cd.rodata);
                assert(cd2.rodata == cd1.rodata + bytes);
                assert(cd2.map == cd1.map);
                assert(cd1.rodata.is_prefix_of(cd2.rodata));
                assert(cd1.extended_by(cd2));
                assert(cd2.wf()) by {
                    assert forall|s: Symbol| #[trigger] cd2.map.contains_key(s) implies cd2.valid(
                        cd2.map[s],
                    ) by {
                        assert(cd1.map.contains_key(s));
                    }
                }
                assert(evaluated(cd1, cd2, visiting));
                lemma_evaluated_trans(cd, cd1, cd2, visiting);
                lemma_encoding_stable(cd1, cd2, ty, e);
            }
        } else {
            assert(cd2 == cd1);
        }
    }
}

/// What a successful layout of the members `es[i..]` yields: their bytes,
/// one after the other, are the last bytes of the arena.
pub proof fn lemma_alloc_elems(
    names: Map<Symbol, Entity>,
    visiting: Set<Symbol>,
    cd: ConstDataView,
    tys: Seq<Ty>,
    es: Vec<Expr>,
    i: nat,
)
    requires
        names.dom().finite(),
        cd.wf(),
    ensures
        ({
            let (cd1, r) = alloc_elems(names, visiting, cd, tys, es, i);
            &&& evaluated(cd, cd1, visiting)
            &&& r == Ok::<bool, crate::types::LinkError>(true) ==> {
                &&& resolved_elems(cd1, tys, es, i)
                &&& cd1.rodata == cd.rodata + encoding_elems(cd1, tys, es, i)
            }
        }),
    decreases unvisited(names, visiting), 1nat, es, es.len() - i,
{
    if i >= es.len() || i >= tys.len() {
        assert(cd.rodata + Seq::<u8>::empty() =~= cd.rodata);
    } else {
        let (cda, r) = alloc_const(names, visiting, cd, tys[i as int], es[i as int]);
        lemma_alloc_const(names, visiting, cd, tys[i as int], es[i as int]);
        if r matches Ok(Some(_)) {
            let (cd1, r1) = alloc_elems(names, visiting, cda, tys, es, i + 1);
            lemma_alloc_elems(names, visiting, cda, tys, es, i + 1);
            lemma_evaluated_trans(cd, cda, cd1, visiting);
            if r1 == Ok::<bool, crate::types::LinkError>(true) {
                lemma_encoding_stable(cda, cd1, tys[i as int], es[i as int]);
                let head = encoding(cd1, tys[i as int], es[i as int]);
                let tail = encoding_elems(cd1, tys, es, i + 1);
                assert(cd1.rodata =~= cd.rodata + (head + tail));
            }
        }
    }
}

/// The errors of constant evaluation: a constant is unresolvable, or the
/// arena overflows.
pub open spec fn const_error(e: crate::types::LinkError) -> bool {
    e is Unresolvable || e is ArenaOverflow
}

/// Resolving a constant reports no other error.
pub proof fn lemma_const_errors(
    names: Map<Symbol, Entity>,
    visiting: Set<Symbol>,
    cd: ConstDataView,
    c: Symbol,
)
    requires
        names.dom().finite(),
    ensures
        collect_const(names, visiting, cd, c).1 matches Err(e) ==> const_error(e),
    decreases unvisited(names, visiting), 0nat, Expr::Unit, 0nat,
{
    if cd.map.contains_key(c) {
    } else if visiting.contains(c) || !names.contains_key(c) {
    } else {
        match names[c] {
            Entity::Const(ConstTc::Checked { ty, whnf }) => {
                lemma_unvisited_decreases(names, visiting, c);
                lemma_eval_errors(names, visiting.insert(c), cd, ty, whnf);
            },
            _ => {},
        }
    }
}

/// Evaluating an expression reports no other error.
pub proof fn lemma_eval_errors(
    names: Map<Symbol, Entity>,
    visiting: Set<Symbol>,
    cd: ConstDataView,
    ty: Ty,
    e: Expr,
)
    requires
        names.dom().finite(),
    ensures
        eval_const(names, visiting, cd, ty, e).1 matches Err(x) ==> const_error(x),
    decreases unvisited(names, visiting), 1nat, e, 0nat,
{
    match e {
        Expr::Const(c) => {
            lemma_const_errors(names, visiting, cd, c);
        },
        Expr::List(es) => match ty {
            Ty::Sn(t) => {
                if es.len() >= 1 {
                    lemma_eval_errors(names, visiting, cd, *t, es[0]);
                }
            },
            Ty::List(tys) => {
                lemma_elems_errors(names, visiting, cd, tys@, es, 0);
            },
            Ty::Struct(tys) => {
                lemma_elems_errors(names, visiting, cd, tys@, es, 0);
            },
            _ => {},
        },
        Expr::Array(es) => match ty {
            Ty::Array(t, _) => {
                lemma_elems_errors(
                    names,
                    visiting,
                    cd,
                    Seq::new(es.len() as nat, |i: int| *t),
                    es,
                    0,
                );
            },
            _ => {},
        },
        _ => {},
    }
}

/// Laying out the members of a literal reports no other error.
pub proof fn lemma_elems_errors(
    names: Map<Symbol, Entity>,
    visiting: Set<Symbol>,
    cd: ConstDataView,
    tys: Seq<Ty>,
    es: Vec<Expr>,
    i: nat,
)
    requires
        names.dom().finite(),
    ensures
        alloc_elems(names, visiting, cd, tys, es, i).1 matches Err(x) ==> const_error(x),
    decreases unvisited(names, visiting), 1nat, es, es.len() - i,
{
    if i >= es.len() || i >= tys.len() {
    } else {
        lemma_eval_errors(names, visiting, cd, tys[i as int], es[i as int]);
        let (cda, r) = alloc_const(names, visiting, cd, tys[i as int], es[i as int]);
        if r matches Ok(Some(_)) {
            lemma_elems_errors(names, visiting, cda, tys, es, i + 1);
        }
    }
}

} // verus!
