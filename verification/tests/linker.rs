use mm0_rs::linker::Collector;
use mm0_rs::types::{
    BasicBlock, ConstKind, ConstRef, ConstTc, Constant, Entity, Expr, GlobalId, IntTy, LinkError,
    Proc, ProcId, Size, Symbol, Terminator, Ty,
};
use std::collections::HashMap;

const MAIN: Symbol = 7;
const F: Symbol = 1;
const G: Symbol = 2;
const H: Symbol = 3;
const K: Symbol = 50;
const B: Symbol = 51;
const L: Symbol = 52;

fn block(constants: Vec<Symbol>, term: Terminator) -> BasicBlock {
    BasicBlock {
        constants: constants.into_iter().map(|s| Constant { k: ConstKind::Const(s) }).collect(),
        term,
    }
}

fn call(f: Symbol) -> BasicBlock {
    block(vec![], Terminator::Call { f, tys: vec![] })
}

fn u8_ty() -> Ty {
    Ty::Int(IntTy::UInt(Size::S8))
}

fn checked(ty: Ty, whnf: Expr) -> Entity {
    Entity::Const(ConstTc::Checked { ty, whnf })
}

fn array_k() -> Entity {
    checked(
        Ty::Array(Box::new(u8_ty()), 3),
        Expr::Array(vec![Expr::Int(1), Expr::Int(2), Expr::Int(3)]),
    )
}

#[test]
fn main_without_calls_gets_identity_zero() {
    let names: HashMap<Symbol, Entity> = HashMap::new();
    let mut mir: HashMap<Symbol, Proc> = HashMap::new();
    mir.insert(MAIN, Proc { blocks: vec![block(vec![], Terminator::Return)] });
    let mut c = Collector::new(&names, &mir);
    assert_eq!(c.collect_func(MAIN, &[]), Ok(ProcId(0)));
    assert_eq!(c.procs(), &vec![MAIN]);
    assert!(matches!(c.deferred(MAIN), Some(Some(calls)) if calls.is_empty()));
    assert!(c.consts().rodata().is_empty());
}

#[test]
fn recursive_procedure_is_visited_once() {
    let names: HashMap<Symbol, Entity> = HashMap::new();
    let mut mir: HashMap<Symbol, Proc> = HashMap::new();
    mir.insert(F, Proc { blocks: vec![call(F)] });
    mir.insert(G, Proc { blocks: vec![call(F)] });
    let mut c = Collector::new(&names, &mir);
    assert_eq!(c.collect_func(G, &[]), Ok(ProcId(0)));
    assert_eq!(c.procs(), &vec![G, F]);
    assert_eq!(c.proc_id(G), Some(ProcId(0)));
    assert_eq!(c.proc_id(F), Some(ProcId(1)));
}

#[test]
fn self_call_gets_one_identity() {
    let names: HashMap<Symbol, Entity> = HashMap::new();
    let mut mir: HashMap<Symbol, Proc> = HashMap::new();
    mir.insert(F, Proc { blocks: vec![call(F), call(F)] });
    let mut c = Collector::new(&names, &mir);
    assert_eq!(c.collect_func(F, &[]), Ok(ProcId(0)));
    assert_eq!(c.procs(), &vec![F]);
    assert!(matches!(c.deferred(F), Some(Some(calls)) if calls.is_empty()));
}

#[test]
fn mutual_recursion_terminates() {
    let names: HashMap<Symbol, Entity> = HashMap::new();
    let mut mir: HashMap<Symbol, Proc> = HashMap::new();
    mir.insert(F, Proc { blocks: vec![call(G)] });
    mir.insert(G, Proc { blocks: vec![call(F)] });
    let mut c = Collector::new(&names, &mir);
    assert_eq!(c.collect_func(F, &[]), Ok(ProcId(0)));
    assert_eq!(c.procs(), &vec![F, G]);
}

#[test]
fn type_arguments_are_refused() {
    let names: HashMap<Symbol, Entity> = HashMap::new();
    let mut mir: HashMap<Symbol, Proc> = HashMap::new();
    mir.insert(H, Proc { blocks: vec![call(F)] });
    let mut c = Collector::new(&names, &mir);
    assert_eq!(c.collect_func(H, &[Ty::Bool]), Err(LinkError::TypeArgs(H)));
    assert!(c.procs().is_empty());
    assert_eq!(c.proc_id(H), None);
    assert!(c.deferred(H).is_none());
    assert!(c.global_sizes().is_empty());
    assert!(c.consts().rodata().is_empty());
    assert_eq!(c.consts().get(K), None);
}

#[test]
fn identities_follow_depth_first_discovery() {
    // main calls g then h; g calls f. Discovery order: main, g, f, h.
    let names: HashMap<Symbol, Entity> = HashMap::new();
    let mut mir: HashMap<Symbol, Proc> = HashMap::new();
    mir.insert(MAIN, Proc { blocks: vec![call(G), call(H)] });
    mir.insert(G, Proc { blocks: vec![call(F)] });
    mir.insert(H, Proc { blocks: vec![block(vec![], Terminator::Return)] });
    let mut c = Collector::new(&names, &mir);
    assert_eq!(c.collect_func(MAIN, &[]), Ok(ProcId(0)));
    assert_eq!(c.procs(), &vec![MAIN, G, F, H]);
    for (i, f) in c.procs().iter().enumerate() {
        assert_eq!(c.proc_id(*f), Some(ProcId(i as u32)));
    }
    // f has no body: it has an identity and no record of deferred calls.
    assert!(c.deferred(F).is_none());
}

#[test]
fn collection_is_deterministic() {
    let mut names: HashMap<Symbol, Entity> = HashMap::new();
    names.insert(K, array_k());
    names.insert(B, checked(Ty::Bool, Expr::Bool(true)));
    let mut mir: HashMap<Symbol, Proc> = HashMap::new();
    mir.insert(MAIN, Proc { blocks: vec![block(vec![K, B], Terminator::Call { f: G, tys: vec![] })] });
    mir.insert(G, Proc { blocks: vec![block(vec![K], Terminator::Return), call(F)] });
    let mut c1 = Collector::new(&names, &mir);
    let mut c2 = Collector::new(&names, &mir);
    let r1 = c1.collect_func(MAIN, &[]);
    let r2 = c2.collect_func(MAIN, &[]);
    assert_eq!(r1, Ok(ProcId(0)));
    assert_eq!(r1, r2);
    assert_eq!(c1.procs(), c2.procs());
    assert_eq!(c1.procs(), &vec![MAIN, G, F]);
    assert_eq!(c1.consts().rodata(), c2.consts().rodata());
    assert_eq!(c1.consts().rodata(), &vec![1u8, 2, 3]);
    assert_eq!(c1.consts().get(K), c2.consts().get(K));
    assert_eq!(c1.consts().get(B), Some((1, ConstRef::Value(1))));
}

#[test]
fn collecting_twice_returns_the_same_identity() {
    let mut names: HashMap<Symbol, Entity> = HashMap::new();
    names.insert(K, array_k());
    let mut mir: HashMap<Symbol, Proc> = HashMap::new();
    mir.insert(F, Proc { blocks: vec![block(vec![K], Terminator::Return)] });
    mir.insert(G, Proc { blocks: vec![call(F)] });
    let mut c = Collector::new(&names, &mir);
    assert_eq!(c.collect_func(G, &[]), Ok(ProcId(0)));
    let procs = c.procs().clone();
    let bytes = c.consts().rodata().clone();
    assert_eq!(c.collect_func(G, &[]), Ok(ProcId(0)));
    assert_eq!(c.collect_func(F, &[]), Ok(ProcId(1)));
    assert_eq!(c.collect_func(F, &[]), Ok(ProcId(1)));
    assert_eq!(c.procs(), &procs);
    assert_eq!(c.consts().rodata(), &bytes);
}

#[test]
fn constant_is_evaluated_once() {
    let mut names: HashMap<Symbol, Entity> = HashMap::new();
    names.insert(K, array_k());
    let mut mir: HashMap<Symbol, Proc> = HashMap::new();
    mir.insert(F, Proc { blocks: vec![block(vec![K], Terminator::Return)] });
    mir.insert(G, Proc { blocks: vec![block(vec![K, K], Terminator::Call { f: F, tys: vec![] })] });
    let mut c = Collector::new(&names, &mir);
    assert_eq!(c.collect_func(G, &[]), Ok(ProcId(0)));
    assert_eq!(c.consts().rodata(), &vec![1u8, 2, 3]);
    assert_eq!(c.collect_const(K), Ok((3, ConstRef::Ptr(0))));
    assert_eq!(c.collect_const(K), Ok((3, ConstRef::Ptr(0))));
    assert_eq!(c.consts().rodata(), &vec![1u8, 2, 3]);
    assert_eq!(c.consts().index(K), (3, ConstRef::Ptr(0)));
}

#[test]
fn array_constant_is_laid_out() {
    let mut names: HashMap<Symbol, Entity> = HashMap::new();
    names.insert(K, array_k());
    let mir: HashMap<Symbol, Proc> = HashMap::new();
    let mut c = Collector::new(&names, &mir);
    assert_eq!(c.collect_const(K), Ok((3, ConstRef::Ptr(0))));
    assert_eq!(c.consts().rodata(), &vec![0x01u8, 0x02, 0x03]);
}

#[test]
fn boolean_constant_is_an_immediate() {
    let mut names: HashMap<Symbol, Entity> = HashMap::new();
    names.insert(B, checked(Ty::Bool, Expr::Bool(true)));
    names.insert(K, checked(Ty::Bool, Expr::Bool(false)));
    let mir: HashMap<Symbol, Proc> = HashMap::new();
    let mut c = Collector::new(&names, &mir);
    assert_eq!(c.collect_const(B), Ok((1, ConstRef::Value(1))));
    assert_eq!(c.collect_const(K), Ok((1, ConstRef::Value(0))));
    assert!(c.consts().rodata().is_empty());
}

#[test]
fn unit_constant_has_no_width() {
    let mut names: HashMap<Symbol, Entity> = HashMap::new();
    names.insert(B, checked(Ty::Unit, Expr::Unit));
    let mir: HashMap<Symbol, Proc> = HashMap::new();
    let mut c = Collector::new(&names, &mir);
    assert_eq!(c.collect_const(B), Ok((0, ConstRef::Value(0))));
    assert!(c.consts().rodata().is_empty());
}

#[test]
fn structure_members_are_written_in_declared_order() {
    let mut names: HashMap<Symbol, Entity> = HashMap::new();
    names.insert(
        L,
        checked(
            Ty::Struct(vec![
                u8_ty(),
                Ty::Int(IntTy::UInt(Size::S16)),
                Ty::Bool,
                Ty::Int(IntTy::Int(Size::S32)),
                Ty::Unit,
            ]),
            Expr::List(vec![
                Expr::Int(0xab),
                Expr::Int(0x1234),
                Expr::Bool(true),
                Expr::Int(-2),
                Expr::Unit,
            ]),
        ),
    );
    let mir: HashMap<Symbol, Proc> = HashMap::new();
    let mut c = Collector::new(&names, &mir);
    assert_eq!(c.collect_const(L), Ok((8, ConstRef::Ptr(0))));
    assert_eq!(c.consts().rodata(), &vec![0xabu8, 0x34, 0x12, 0x01, 0xfe, 0xff, 0xff, 0xff]);
}

#[test]
fn nested_literals_are_laid_out_inline() {
    let mut names: HashMap<Symbol, Entity> = HashMap::new();
    names.insert(
        L,
        checked(
            Ty::List(vec![u8_ty(), Ty::Array(Box::new(u8_ty()), 2), u8_ty()]),
            Expr::List(vec![
                Expr::Int(9),
                Expr::Array(vec![Expr::Int(7), Expr::Int(8)]),
                Expr::Int(6),
            ]),
        ),
    );
    let mir: HashMap<Symbol, Proc> = HashMap::new();
    let mut c = Collector::new(&names, &mir);
    assert_eq!(c.collect_const(L), Ok((4, ConstRef::Ptr(0))));
    assert_eq!(c.consts().rodata(), &vec![9u8, 7, 8, 6]);
}

#[test]
fn named_members_contribute_their_bytes() {
    // L = [K, B, K] where K is an array constant and B an immediate.
    let mut names: HashMap<Symbol, Entity> = HashMap::new();
    names.insert(K, array_k());
    names.insert(B, checked(u8_ty(), Expr::Int(0x7f)));
    names.insert(
        L,
        checked(
            Ty::List(vec![Ty::Array(Box::new(u8_ty()), 3), u8_ty(), Ty::Array(Box::new(u8_ty()), 3)]),
            Expr::List(vec![Expr::Const(K), Expr::Const(B), Expr::Const(K)]),
        ),
    );
    let mir: HashMap<Symbol, Proc> = HashMap::new();
    let mut c = Collector::new(&names, &mir);
    assert_eq!(c.collect_const(L), Ok((7, ConstRef::Ptr(0))));
    assert_eq!(c.consts().rodata(), &vec![1u8, 2, 3, 0x7f, 1, 2, 3]);
    // K was laid out as the first member of L.
    assert_eq!(c.consts().get(K), Some((3, ConstRef::Ptr(0))));
    assert_eq!(c.consts().get(B), Some((1, ConstRef::Value(0x7f))));
}

#[test]
fn memoized_pointer_member_is_copied() {
    let mut names: HashMap<Symbol, Entity> = HashMap::new();
    names.insert(K, array_k());
    names.insert(
        L,
        checked(
            Ty::List(vec![u8_ty(), Ty::Array(Box::new(u8_ty()), 3)]),
            Expr::List(vec![Expr::Int(5), Expr::Const(K)]),
        ),
    );
    let mir: HashMap<Symbol, Proc> = HashMap::new();
    let mut c = Collector::new(&names, &mir);
    assert_eq!(c.collect_const(K), Ok((3, ConstRef::Ptr(0))));
    assert_eq!(c.collect_const(L), Ok((4, ConstRef::Ptr(3))));
    assert_eq!(c.consts().rodata(), &vec![1u8, 2, 3, 5, 1, 2, 3]);
}

#[test]
fn singleton_has_the_value_of_its_member() {
    let mut names: HashMap<Symbol, Entity> = HashMap::new();
    names.insert(
        B,
        checked(Ty::Sn(Box::new(Ty::Int(IntTy::UInt(Size::S32)))), Expr::List(vec![Expr::Int(77)])),
    );
    names.insert(K, checked(Ty::Sn(Box::new(Ty::Bool)), Expr::List(vec![])));
    let mir: HashMap<Symbol, Proc> = HashMap::new();
    let mut c = Collector::new(&names, &mir);
    assert_eq!(c.collect_const(B), Ok((4, ConstRef::Value(77))));
    assert_eq!(c.collect_const(K), Err(LinkError::Unresolvable(K)));
}

#[test]
fn members_stop_where_types_or_expressions_end() {
    let mut names: HashMap<Symbol, Entity> = HashMap::new();
    names.insert(
        L,
        checked(
            Ty::List(vec![u8_ty()]),
            Expr::List(vec![Expr::Int(4), Expr::Int(5)]),
        ),
    );
    let mir: HashMap<Symbol, Proc> = HashMap::new();
    let mut c = Collector::new(&names, &mir);
    assert_eq!(c.collect_const(L), Ok((1, ConstRef::Ptr(0))));
    assert_eq!(c.consts().rodata(), &vec![4u8]);
}

#[test]
fn empty_literal_is_an_empty_region() {
    let mut names: HashMap<Symbol, Entity> = HashMap::new();
    names.insert(K, array_k());
    names.insert(L, checked(Ty::List(vec![]), Expr::List(vec![])));
    let mir: HashMap<Symbol, Proc> = HashMap::new();
    let mut c = Collector::new(&names, &mir);
    assert_eq!(c.collect_const(K), Ok((3, ConstRef::Ptr(0))));
    assert_eq!(c.collect_const(L), Ok((0, ConstRef::Ptr(3))));
    assert_eq!(c.consts().rodata().len(), 3);
}

#[test]
fn integer_literals_are_extended_by_their_type() {
    let mir: HashMap<Symbol, Proc> = HashMap::new();
    let cases: Vec<(IntTy, i128, Option<(u32, u64)>)> = vec![
        (IntTy::UInt(Size::S8), 255, Some((1, 255))),
        (IntTy::UInt(Size::S8), 256, None),
        (IntTy::UInt(Size::S8), -1, None),
        (IntTy::Int(Size::S8), -1, Some((1, 0xff))),
        (IntTy::Int(Size::S8), -128, Some((1, 0x80))),
        (IntTy::Int(Size::S8), 127, Some((1, 0x7f))),
        (IntTy::Int(Size::S8), 128, None),
        (IntTy::Int(Size::S16), -2, Some((2, 0xfffe))),
        (IntTy::UInt(Size::S16), 0x10000, None),
        (IntTy::Int(Size::S32), -1, Some((4, 0xffff_ffff))),
        (IntTy::UInt(Size::S32), 0xffff_ffff, Some((4, 0xffff_ffff))),
        (IntTy::Int(Size::S64), -1, Some((8, u64::MAX))),
        (IntTy::Int(Size::S64), i64::MIN as i128, Some((8, 1u64 << 63))),
        (IntTy::UInt(Size::S64), u64::MAX as i128, Some((8, u64::MAX))),
        (IntTy::UInt(Size::S64), u64::MAX as i128 + 1, None),
        (IntTy::UInt(Size::Inf), 1, None),
        (IntTy::Int(Size::Inf), 1, None),
    ];
    for (ity, n, expected) in cases {
        let mut names: HashMap<Symbol, Entity> = HashMap::new();
        names.insert(K, checked(Ty::Int(ity), Expr::Int(n)));
        let mut c = Collector::new(&names, &mir);
        let expected = match expected {
            Some((w, v)) => Ok((w, ConstRef::Value(v))),
            None => Err(LinkError::Unresolvable(K)),
        };
        assert_eq!(c.collect_const(K), expected, "{:?} {}", ity, n);
        assert!(c.consts().rodata().is_empty());
    }
}

#[test]
fn integer_at_another_type_is_unresolvable() {
    let mut names: HashMap<Symbol, Entity> = HashMap::new();
    names.insert(K, checked(Ty::Bool, Expr::Int(1)));
    names.insert(B, checked(u8_ty(), Expr::List(vec![Expr::Int(1)])));
    names.insert(L, checked(Ty::List(vec![u8_ty()]), Expr::Array(vec![Expr::Int(1)])));
    let mir: HashMap<Symbol, Proc> = HashMap::new();
    let mut c = Collector::new(&names, &mir);
    assert_eq!(c.collect_const(K), Err(LinkError::Unresolvable(K)));
    assert_eq!(c.collect_const(B), Err(LinkError::Unresolvable(B)));
    assert_eq!(c.collect_const(L), Err(LinkError::Unresolvable(L)));
}

#[test]
fn unsupported_forms_are_unresolvable() {
    let forms = vec![
        Expr::Var,
        Expr::Unop,
        Expr::Binop,
        Expr::Index,
        Expr::Slice,
        Expr::Proj,
        Expr::UpdateIndex,
        Expr::UpdateSlice,
        Expr::UpdateProj,
        Expr::Sizeof,
        Expr::Ref,
        Expr::Mm0,
        Expr::Call,
        Expr::If,
        Expr::Error,
    ];
    let mir: HashMap<Symbol, Proc> = HashMap::new();
    for form in forms {
        let mut names: HashMap<Symbol, Entity> = HashMap::new();
        names.insert(K, checked(u8_ty(), form));
        let mut c = Collector::new(&names, &mir);
        assert_eq!(c.collect_const(K), Err(LinkError::Unresolvable(K)));
        assert_eq!(c.consts().get(K), None);
    }
}

#[test]
fn constants_without_a_checked_definition_are_unresolvable() {
    let mut names: HashMap<Symbol, Entity> = HashMap::new();
    names.insert(K, Entity::Const(ConstTc::Unchecked));
    names.insert(B, Entity::Global);
    let mir: HashMap<Symbol, Proc> = HashMap::new();
    let mut c = Collector::new(&names, &mir);
    assert_eq!(c.collect_const(K), Err(LinkError::Unresolvable(K)));
    assert_eq!(c.collect_const(B), Err(LinkError::Unresolvable(B)));
    assert_eq!(c.collect_const(L), Err(LinkError::Unresolvable(L)));
}

#[test]
fn failing_member_names_the_constant_that_fails() {
    // L = [1, K] where K is built from an unsupported form.
    let mut names: HashMap<Symbol, Entity> = HashMap::new();
    names.insert(K, checked(u8_ty(), Expr::Binop));
    names.insert(
        L,
        checked(Ty::List(vec![u8_ty(), u8_ty()]), Expr::List(vec![Expr::Int(1), Expr::Const(K)])),
    );
    names.insert(
        B,
        checked(Ty::List(vec![u8_ty(), u8_ty()]), Expr::List(vec![Expr::Int(1), Expr::Binop])),
    );
    let mir: HashMap<Symbol, Proc> = HashMap::new();
    let mut c = Collector::new(&names, &mir);
    assert_eq!(c.collect_const(L), Err(LinkError::Unresolvable(K)));
    assert_eq!(c.collect_const(B), Err(LinkError::Unresolvable(B)));
}

#[test]
fn constant_that_depends_on_itself_is_unresolvable() {
    let mut names: HashMap<Symbol, Entity> = HashMap::new();
    names.insert(K, checked(u8_ty(), Expr::Const(B)));
    names.insert(B, checked(u8_ty(), Expr::Const(K)));
    names.insert(L, checked(u8_ty(), Expr::Const(L)));
    let mir: HashMap<Symbol, Proc> = HashMap::new();
    let mut c = Collector::new(&names, &mir);
    assert_eq!(c.collect_const(K), Err(LinkError::Unresolvable(K)));
    assert_eq!(c.collect_const(L), Err(LinkError::Unresolvable(L)));
    assert_eq!(c.consts().get(K), None);
    assert_eq!(c.consts().get(B), None);
}

#[test]
fn constant_reference_reuses_the_value() {
    let mut names: HashMap<Symbol, Entity> = HashMap::new();
    names.insert(K, array_k());
    names.insert(B, checked(Ty::Array(Box::new(u8_ty()), 3), Expr::Const(K)));
    let mir: HashMap<Symbol, Proc> = HashMap::new();
    let mut c = Collector::new(&names, &mir);
    assert_eq!(c.collect_const(B), Ok((3, ConstRef::Ptr(0))));
    assert_eq!(c.consts().get(K), Some((3, ConstRef::Ptr(0))));
    assert_eq!(c.consts().rodata(), &vec![1u8, 2, 3]);
}

#[test]
fn unresolvable_constant_stops_collection() {
    let mut names: HashMap<Symbol, Entity> = HashMap::new();
    names.insert(K, checked(u8_ty(), Expr::If));
    let mut mir: HashMap<Symbol, Proc> = HashMap::new();
    mir.insert(F, Proc { blocks: vec![block(vec![K], Terminator::Call { f: G, tys: vec![] })] });
    let mut c = Collector::new(&names, &mir);
    assert_eq!(c.collect_func(F, &[]), Err(LinkError::Unresolvable(K)));
    // The scan stopped before the call.
    assert_eq!(c.procs(), &vec![F]);
}

#[test]
fn call_with_concrete_type_arguments_is_refused() {
    let names: HashMap<Symbol, Entity> = HashMap::new();
    let mut mir: HashMap<Symbol, Proc> = HashMap::new();
    mir.insert(F, Proc { blocks: vec![block(vec![], Terminator::Call { f: G, tys: vec![Ty::Bool] })] });
    let mut c = Collector::new(&names, &mir);
    assert_eq!(c.collect_func(F, &[]), Err(LinkError::TypeArgs(G)));
    assert_eq!(c.procs(), &vec![F]);
}

#[test]
fn call_with_a_type_variable_is_deferred_until_the_scan_is_done() {
    let names: HashMap<Symbol, Entity> = HashMap::new();
    let mut mir: HashMap<Symbol, Proc> = HashMap::new();
    mir.insert(
        F,
        Proc {
            blocks: vec![
                block(vec![], Terminator::Call { f: G, tys: vec![Ty::Var(0)] }),
                call(H),
            ],
        },
    );
    let mut c = Collector::new(&names, &mir);
    // The deferred call is taken up after the scan, with nothing
    // substituted, and is refused then.
    assert_eq!(c.collect_func(F, &[]), Err(LinkError::TypeArgs(G)));
    assert_eq!(c.procs(), &vec![F, H]);
    assert!(matches!(c.deferred(F), Some(None)));
}

#[test]
fn deferred_calls_are_recorded_once() {
    let mut calls: Vec<(Symbol, Vec<Ty>)> = Vec::new();
    mm0_rs::linker::push_call(&mut calls, G, &vec![Ty::Var(0)]);
    mm0_rs::linker::push_call(&mut calls, G, &vec![Ty::Var(0)]);
    mm0_rs::linker::push_call(&mut calls, G, &vec![Ty::Var(1)]);
    mm0_rs::linker::push_call(&mut calls, H, &vec![Ty::Var(0)]);
    mm0_rs::linker::push_call(&mut calls, G, &vec![Ty::Var(1)]);
    assert_eq!(calls.len(), 3);
    assert_eq!(calls[0].0, G);
    assert!(calls[0].1[0].same(&Ty::Var(0)));
    assert!(calls[1].1[0].same(&Ty::Var(1)));
    assert_eq!(calls[2].0, H);
}

#[test]
fn collect_generics_substitutes_and_collects() {
    let names: HashMap<Symbol, Entity> = HashMap::new();
    let mut mir: HashMap<Symbol, Proc> = HashMap::new();
    mir.insert(G, Proc { blocks: vec![call(H)] });
    let mut c = Collector::new(&names, &mir);
    let calls = vec![(G, vec![]), (F, vec![])];
    assert_eq!(c.collect_generics(MAIN, &[], &calls), Ok(()));
    assert_eq!(c.procs(), &vec![G, H, F]);
    let generic = vec![(MAIN, vec![Ty::Var(0)])];
    assert_eq!(c.collect_generics(MAIN, &[Ty::Bool], &generic), Err(LinkError::TypeArgs(MAIN)));
    assert_eq!(c.procs(), &vec![G, H, F]);
}

#[test]
fn globals_get_dense_identities() {
    let names: HashMap<Symbol, Entity> = HashMap::new();
    let mir: HashMap<Symbol, Proc> = HashMap::new();
    let mut c = Collector::new(&names, &mir);
    assert_eq!(c.collect_global(30, 8), GlobalId(0));
    assert_eq!(c.collect_global(31, 16), GlobalId(1));
    assert_eq!(c.collect_global(30, 4), GlobalId(0));
    assert_eq!(c.collect_global(32, 1), GlobalId(2));
    assert_eq!(c.global_sizes(), &vec![8u32, 16, 1]);
    assert_eq!(c.global_id(31), Some(GlobalId(1)));
    assert_eq!(c.global_id(33), None);
    assert!(c.procs().is_empty());
}

#[test]
fn alloc_const_returns_width_and_offset() {
    let mut names: HashMap<Symbol, Entity> = HashMap::new();
    names.insert(K, array_k());
    let mir: HashMap<Symbol, Proc> = HashMap::new();
    let mut c = Collector::new(&names, &mir);
    let u16_ty = Ty::Int(IntTy::UInt(Size::S16));
    assert_eq!(c.alloc_const(&u16_ty, &Expr::Int(0x0102)), Ok(Some((2, 0))));
    assert_eq!(c.alloc_const(&Ty::Bool, &Expr::Bool(true)), Ok(Some((1, 2))));
    assert_eq!(c.alloc_const(&Ty::Unit, &Expr::Unit), Ok(Some((0, 3))));
    assert_eq!(c.alloc_const(&Ty::Unit, &Expr::Const(K)), Ok(Some((3, 3))));
    assert_eq!(c.alloc_const(&Ty::Unit, &Expr::Const(K)), Ok(Some((3, 6))));
    assert_eq!(c.alloc_const(&Ty::Bool, &Expr::Var), Ok(None));
    assert_eq!(c.consts().rodata(), &vec![2u8, 1, 1, 1, 2, 3, 1, 2, 3]);
}

#[test]
fn eval_const_leaves_immediates_out_of_the_arena() {
    let names: HashMap<Symbol, Entity> = HashMap::new();
    let mir: HashMap<Symbol, Proc> = HashMap::new();
    let mut c = Collector::new(&names, &mir);
    let i16_ty = Ty::Int(IntTy::Int(Size::S16));
    assert_eq!(c.eval_const(&i16_ty, &Expr::Int(-1)), Ok(Some((2, ConstRef::Value(0xffff)))));
    assert_eq!(c.eval_const(&i16_ty, &Expr::Int(40000)), Ok(None));
    assert_eq!(c.eval_const(&i16_ty, &Expr::Const(K)), Err(LinkError::Unresolvable(K)));
    assert!(c.consts().rodata().is_empty());
}
