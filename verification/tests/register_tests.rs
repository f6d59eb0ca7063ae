use strata::adt::{AdtKind, VariantFields};
use strata::ast::{EnumDef, Item, StructDef};
use strata::checker::{TypeChecker, TypeError};
use strata::parser::parse_str;
use strata::ty::{Ty, TyConst, TypeVarId};

fn struct_def(src: &str) -> StructDef {
    let mut m = parse_str("<test>", src).expect("parse ok");
    match m.items.remove(0) {
        Item::Struct(s) => s,
        _ => panic!("expected struct"),
    }
}

fn enum_def(src: &str) -> EnumDef {
    let mut m = parse_str("<test>", src).expect("parse ok");
    match m.items.remove(0) {
        Item::Enum(e) => e,
        _ => panic!("expected enum"),
    }
}

#[test]
fn struct_fields_are_converted_in_order() {
    let mut tc = TypeChecker::new();
    tc.register_struct(&struct_def("struct Point { x: Int, y: Bool }")).unwrap();
    let def = tc.adt_registry().get("Point").expect("registered");
    let AdtKind::Struct(fields) = &def.kind else {
        panic!("expected struct");
    };
    assert_eq!(fields.len(), 2);
    assert_eq!(fields[0].name, "x");
    assert!(matches!(fields[0].ty, Ty::Const(TyConst::Int)));
    assert_eq!(fields[1].name, "y");
    assert!(matches!(fields[1].ty, Ty::Const(TyConst::Bool)));
}

#[test]
fn type_parameters_become_variables() {
    let mut tc = TypeChecker::new();
    tc.register_struct(&struct_def("struct Pair<A, B> { fst: A, snd: B }")).unwrap();
    let def = tc.adt_registry().get("Pair").expect("registered");
    assert_eq!(def.type_params, vec!["A".to_string(), "B".to_string()]);
    let AdtKind::Struct(fields) = &def.kind else {
        panic!("expected struct");
    };
    assert!(matches!(fields[0].ty, Ty::Var(TypeVarId(0))));
    assert!(matches!(fields[1].ty, Ty::Var(TypeVarId(1))));
}

#[test]
fn capability_in_struct_field_is_refused() {
    let mut tc = TypeChecker::new();
    let r = tc.register_struct(&struct_def("struct Holder { name: String, fs: FsCap }"));
    match r {
        Err(TypeError::CapabilityInAdt { field, cap_type, .. }) => {
            assert_eq!(field, "fs");
            assert_eq!(cap_type, "FsCap");
        },
        _ => panic!("expected CapabilityInAdt"),
    }
    assert!(tc.adt_registry().get("Holder").is_none());
}

#[test]
fn capability_nested_in_struct_field_is_refused() {
    let mut tc = TypeChecker::new();
    let r = tc.register_struct(&struct_def("struct Holder { f: fn(NetCap) -> Int }"));
    assert!(matches!(r, Err(TypeError::CapabilityInAdt { ref cap_type, .. }) if cap_type == "NetCap"));
}

#[test]
fn duplicate_type_is_refused() {
    let mut tc = TypeChecker::new();
    tc.register_struct(&struct_def("struct P { x: Int }")).unwrap();
    let r = tc.register_struct(&struct_def("struct P { y: Int }"));
    assert!(matches!(r, Err(TypeError::DuplicateType { ref name, .. }) if name == "P"));
    let r = tc.register_struct(&struct_def("struct Tuple2 { y: Int }"));
    assert!(matches!(r, Err(TypeError::DuplicateType { .. })));
}

#[test]
fn unknown_field_type_is_refused() {
    let mut tc = TypeChecker::new();
    let r = tc.register_struct(&struct_def("struct S { f: Missing }"));
    assert!(matches!(r, Err(TypeError::UnknownType { ref name, .. }) if name == "Missing"));
    assert!(tc.adt_registry().get("S").is_none());
}

#[test]
fn enum_variants_are_converted() {
    let mut tc = TypeChecker::new();
    tc.register_enum(&enum_def("enum Option<T> { Some(T), None }")).unwrap();
    let def = tc.adt_registry().get("Option").expect("registered");
    let AdtKind::Enum(variants) = &def.kind else {
        panic!("expected enum");
    };
    assert_eq!(variants.len(), 2);
    assert_eq!(variants[0].name, "Some");
    assert!(matches!(&variants[0].fields, VariantFields::Tuple(tys) if tys.len() == 1 && matches!(tys[0], Ty::Var(TypeVarId(0)))));
    assert_eq!(variants[1].name, "None");
    assert!(matches!(variants[1].fields, VariantFields::Unit));
    let ty = tc.ty_from_type_expr(&parse_type("Option<Int>")).unwrap();
    assert!(matches!(ty, Ty::Adt { ref name, ref args } if name == "Option" && args.len() == 1));
}

#[test]
fn capability_in_enum_payload_is_refused() {
    let mut tc = TypeChecker::new();
    let r = tc.register_enum(&enum_def("enum E { A(Int), B(Bool, NetCap) }"));
    match r {
        Err(TypeError::CapabilityInAdt { field, cap_type, .. }) => {
            assert_eq!(field, "E::B.1");
            assert_eq!(cap_type, "NetCap");
        },
        _ => panic!("expected CapabilityInAdt"),
    }
    assert!(tc.adt_registry().get("E").is_none());
}

fn parse_type(src: &str) -> strata::ast::TypeExpr {
    let mut m = parse_str("<test>", &format!("let x: {src} = 0;")).expect("parse ok");
    match m.items.remove(0) {
        Item::Let(d) => d.ty.expect("annotated"),
        _ => panic!("expected let"),
    }
}
