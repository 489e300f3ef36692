use mm0_rs::bytes::{from_le_bytes, to_le_bytes};
use mm0_rs::linker::ConstData;
use mm0_rs::types::{ConstRef, IntTy, Size, Ty};

#[test]
fn allocate_returns_the_offset_and_appends() {
    let mut cd = ConstData::new();
    assert_eq!(cd.here(), 0);
    assert_eq!(cd.allocate(&[1, 2, 3]), 0);
    assert_eq!(cd.here(), 3);
    assert_eq!(cd.allocate(&[]), 3);
    assert_eq!(cd.allocate(&[4, 5]), 3);
    assert_eq!(cd.rodata(), &vec![1u8, 2, 3, 4, 5]);
    assert_eq!(cd.copy_range(1, 3), vec![2u8, 3, 4]);
}

#[test]
fn load_mem_reads_little_endian() {
    let mut cd = ConstData::new();
    cd.allocate(&[0x11, 0x22, 0x33, 0x44, 0x55, 0x66, 0x77, 0x88, 0x99]);
    assert_eq!(cd.load_mem(Size::S8, 0), 0x11);
    assert_eq!(cd.load_mem(Size::S16, 0), 0x2211);
    assert_eq!(cd.load_mem(Size::S16, 1), 0x3322);
    assert_eq!(cd.load_mem(Size::S32, 2), 0x6655_4433);
    assert_eq!(cd.load_mem(Size::S64, 0), 0x8877_6655_4433_2211);
    assert_eq!(cd.load_mem(Size::S64, 1), 0x9988_7766_5544_3322);
}

#[test]
fn value_resolves_immediates_and_pointers() {
    let mut cd = ConstData::new();
    cd.allocate(&[0xfe, 0xff, 0x01]);
    assert_eq!(cd.value((2, ConstRef::Value(0xbeef))), 0xbeef);
    assert_eq!(cd.value((0, ConstRef::Value(0))), 0);
    assert_eq!(cd.value((2, ConstRef::Ptr(0))), 0xfffe);
    assert_eq!(cd.value((3, ConstRef::Ptr(0))), 0x01fffe);
    assert_eq!(cd.value((1, ConstRef::Ptr(2))), 1);
    assert_eq!(cd.value((0, ConstRef::Ptr(3))), 0);
}

#[test]
fn little_endian_bytes_round_trip() {
    assert_eq!(to_le_bytes(0x0102_0304_0506_0708, 8), vec![8u8, 7, 6, 5, 4, 3, 2, 1]);
    assert_eq!(to_le_bytes(0x0102_0304_0506_0708, 3), vec![8u8, 7, 6]);
    assert_eq!(to_le_bytes(0xff, 0), Vec::<u8>::new());
    assert_eq!(to_le_bytes(1, 4), vec![1u8, 0, 0, 0]);
    let data = vec![0u8, 8, 7, 6, 5, 4, 3, 2, 1, 0];
    assert_eq!(from_le_bytes(&data, 1, 8), 0x0102_0304_0506_0708);
    assert_eq!(from_le_bytes(&data, 1, 2), 0x0708);
    assert_eq!(from_le_bytes(&data, 4, 0), 0);
    assert_eq!(from_le_bytes(&vec![0xff; 8], 0, 8), u64::MAX);
}

#[test]
fn sizes_in_bits_and_bytes() {
    assert_eq!(Size::S8.bits(), Some(8));
    assert_eq!(Size::S16.bits(), Some(16));
    assert_eq!(Size::S32.bits(), Some(32));
    assert_eq!(Size::S64.bits(), Some(64));
    assert_eq!(Size::Inf.bits(), None);
    assert_eq!(Size::S8.bytes(), Some(1));
    assert_eq!(Size::S16.bytes(), Some(2));
    assert_eq!(Size::S32.bytes(), Some(4));
    assert_eq!(Size::S64.bytes(), Some(8));
    assert_eq!(Size::Inf.bytes(), None);
    assert_eq!(IntTy::Int(Size::S16).size(), Size::S16);
    assert!(IntTy::Int(Size::S16).signed());
    assert!(!IntTy::UInt(Size::S16).signed());
}

#[test]
fn zero_extension_of_literals() {
    assert_eq!(IntTy::Int(Size::S8).zero_extend_as_u64(-1), Some(0xff));
    assert_eq!(IntTy::Int(Size::S16).zero_extend_as_u64(-32768), Some(0x8000));
    assert_eq!(IntTy::Int(Size::S16).zero_extend_as_u64(-32769), None);
    assert_eq!(IntTy::UInt(Size::S32).zero_extend_as_u64(1 << 32), None);
    assert_eq!(IntTy::UInt(Size::S32).zero_extend_as_u64((1 << 32) - 1), Some(0xffff_ffff));
    assert_eq!(IntTy::Int(Size::S64).zero_extend_as_u64(i128::MIN), None);
    assert_eq!(IntTy::UInt(Size::Inf).zero_extend_as_u64(0), None);
}

#[test]
fn type_variables_are_found_and_replaced() {
    let t = Ty::List(vec![
        Ty::Bool,
        Ty::Sn(Box::new(Ty::Var(1))),
        Ty::Struct(vec![Ty::Array(Box::new(Ty::Var(0)), 4), Ty::Var(2)]),
    ]);
    assert!(t.has_tyvar());
    assert!(!Ty::List(vec![Ty::Bool, Ty::Unit]).has_tyvar());
    assert!(!Ty::Int(IntTy::Int(Size::S8)).has_tyvar());
    assert!(Ty::Array(Box::new(Ty::Var(3)), 1).has_tyvar());
    let args = vec![Ty::Unit, Ty::Int(IntTy::UInt(Size::S8))];
    let s = t.subst(&args);
    let expected = Ty::List(vec![
        Ty::Bool,
        Ty::Sn(Box::new(Ty::Int(IntTy::UInt(Size::S8)))),
        Ty::Struct(vec![Ty::Array(Box::new(Ty::Unit), 4), Ty::Var(2)]),
    ]);
    assert!(s.same(&expected));
    assert!(!s.same(&t));
    // With nothing to substitute the type stays as it is.
    assert!(t.subst(&[]).same(&t));
    assert!(t.dup().same(&t));
    assert!(!Ty::List(vec![Ty::Bool]).same(&Ty::Struct(vec![Ty::Bool])));
    assert!(!Ty::Array(Box::new(Ty::Bool), 1).same(&Ty::Array(Box::new(Ty::Bool), 2)));
    assert!(!Ty::List(vec![Ty::Bool]).same(&Ty::List(vec![Ty::Bool, Ty::Bool])));
}
