use strata::adt::{contains_capability, find_capability_name, is_capability_type, AdtDef, AdtRegistry, FieldDef, VariantDef};
use strata::ast::{Ident, Span, TypeExpr};
use strata::checker::{TypeChecker, TypeError};
use strata::ty::{Ty, TypeVarId};

fn sp() -> Span {
    Span { start: 0, end: 0 }
}

fn ident(s: &str) -> Ident {
    Ident { text: s.to_string(), span: sp() }
}

fn ty_int() -> TypeExpr {
    TypeExpr::Path(vec![ident("Int")], sp())
}

fn ty_bool() -> TypeExpr {
    TypeExpr::Path(vec![ident("Bool")], sp())
}

#[test]
fn test_adt_def_struct() {
    let def = AdtDef::new_struct(
        "Point",
        vec![],
        vec![FieldDef { name: "x".into(), ty: Ty::int_() }, FieldDef { name: "y".into(), ty: Ty::int_() }],
    );
    assert_eq!(def.name, "Point");
    assert!(def.is_struct());
    assert!(!def.is_enum());
    assert_eq!(def.arity(), 0);
    assert_eq!(def.fields().unwrap().len(), 2);
}

#[test]
fn test_adt_def_enum() {
    let def = AdtDef::new_enum(
        "Option",
        vec!["T".into()],
        vec![VariantDef::tuple("Some", vec![Ty::Var(TypeVarId(0))]), VariantDef::unit("None")],
    );
    assert_eq!(def.name, "Option");
    assert!(!def.is_struct());
    assert!(def.is_enum());
    assert_eq!(def.arity(), 1);
    assert_eq!(def.variants().unwrap().len(), 2);
    assert!(def.find_variant("Some").is_some());
    assert!(def.find_variant("None").is_some());
    assert!(def.find_variant("Missing").is_none());
}

#[test]
fn test_variant_arity() {
    let unit = VariantDef::unit("None");
    let tuple = VariantDef::tuple("Some", vec![Ty::int_()]);
    let tuple2 = VariantDef::tuple("Pair", vec![Ty::int_(), Ty::string()]);
    assert_eq!(unit.arity(), 0);
    assert_eq!(tuple.arity(), 1);
    assert_eq!(tuple2.arity(), 2);
}

#[test]
fn test_registry_register() {
    let mut reg = AdtRegistry::new();
    let def = AdtDef::new_struct("Point", vec![], vec![]);
    assert!(reg.register(def.copy()).is_ok());
    assert!(reg.register(def).is_err());
}

#[test]
fn test_registry_lookup() {
    let mut reg = AdtRegistry::new();
    reg.register(AdtDef::new_struct("Point", vec![], vec![])).unwrap();
    assert!(reg.get("Point").is_some());
    assert!(reg.get("Missing").is_none());
    assert!(reg.contains("Point"));
    assert!(!reg.contains("Missing"));
}

#[test]
fn test_registry_builtins() {
    let reg = AdtRegistry::with_builtins();
    assert!(reg.contains("Tuple2"));
    assert!(reg.contains("Tuple3"));
    assert!(reg.contains("Tuple4"));
    assert!(reg.contains("Tuple5"));
    assert!(reg.contains("Tuple6"));
    assert!(reg.contains("Tuple7"));
    assert!(reg.contains("Tuple8"));
    assert!(!reg.contains("Tuple1"));
    assert!(!reg.contains("Tuple9"));

    let tuple2 = reg.get("Tuple2").unwrap();
    assert_eq!(tuple2.arity(), 2);
    assert!(tuple2.is_struct());
    let fields = tuple2.fields().unwrap();
    assert_eq!(fields.len(), 2);
    assert_eq!(fields[0].name, "_0");
    assert_eq!(fields[1].name, "_1");
}

#[test]
fn test_is_capability_type() {
    assert!(is_capability_type("NetCap"));
    assert!(is_capability_type("FsCap"));
    assert!(is_capability_type("TimeCap"));
    assert!(is_capability_type("RandCap"));
    assert!(is_capability_type("AiCap"));
    assert!(!is_capability_type("Int"));
    assert!(!is_capability_type("Option"));
}

#[test]
fn test_contains_capability() {
    assert!(!contains_capability(&Ty::int_()));
    assert!(!contains_capability(&Ty::string()));
    assert!(contains_capability(&Ty::adt0("NetCap")));
    assert!(contains_capability(&Ty::adt("Option", vec![Ty::adt0("FsCap")])));
    assert!(!contains_capability(&Ty::adt("Option", vec![Ty::int_()])));
    assert!(contains_capability(&Ty::tuple(vec![Ty::int_(), Ty::adt0("TimeCap")])));
    assert!(contains_capability(&Ty::arrow(vec![Ty::adt0("NetCap")], Ty::unit())));
}

#[test]
fn registry_counts_and_names_definitions() {
    let mut reg = AdtRegistry::new();
    assert!(reg.is_empty());
    reg.register(AdtDef::new_struct("Point", vec![], vec![])).unwrap();
    reg.register(AdtDef::new_enum("Color", vec![], vec![VariantDef::unit("Red")])).unwrap();
    assert_eq!(reg.len(), 2);
    assert!(!reg.is_empty());
    let names = reg.names();
    assert_eq!(names.len(), 2);
    assert!(names.contains(&"Point".to_string()));
    assert!(names.contains(&"Color".to_string()));
}

#[test]
fn registering_a_duplicate_names_it_in_the_error() {
    let mut reg = AdtRegistry::new();
    reg.register(AdtDef::new_struct("Point", vec![], vec![])).unwrap();
    let err = reg.register(AdtDef::new_struct("Point", vec![], vec![])).unwrap_err();
    assert_eq!(err, "Duplicate type definition: Point");
    assert_eq!(reg.len(), 1);
}

#[test]
fn capability_name_is_the_first_found() {
    assert_eq!(find_capability_name(&Ty::int_()), None);
    assert_eq!(find_capability_name(&Ty::adt("Pair", vec![Ty::adt0("NetCap"), Ty::adt0("FsCap")])), Some("NetCap".to_string()));
    assert_eq!(find_capability_name(&Ty::fs_cap()), Some("FsCap".to_string()));
}

#[test]
fn test_adt_ty_from_type_expr_builtin() {
    let tc = TypeChecker::new();
    let ty = tc.ty_from_type_expr(&TypeExpr::Path(vec![ident("Int")], sp())).unwrap();
    assert_eq!(ty, Ty::int_());
}

#[test]
fn test_adt_ty_from_type_expr_unknown_type_error() {
    let tc = TypeChecker::new();
    let result = tc.ty_from_type_expr(&TypeExpr::Path(vec![ident("Unknown")], sp()));
    assert!(result.is_err());
    assert!(matches!(result.unwrap_err(), TypeError::UnknownType { .. }));
}

#[test]
fn test_adt_ty_from_type_expr_tuple() {
    let tc = TypeChecker::new();
    let ty = tc.ty_from_type_expr(&TypeExpr::Tuple(vec![ty_int(), ty_bool()], sp())).unwrap();
    assert_eq!(ty, Ty::tuple(vec![Ty::int_(), Ty::bool_()]));
}

#[test]
fn test_adt_ty_from_type_expr_empty_tuple_is_unit() {
    let tc = TypeChecker::new();
    let ty = tc.ty_from_type_expr(&TypeExpr::Tuple(vec![], sp())).unwrap();
    assert_eq!(ty, Ty::unit());
}

#[test]
fn test_adt_ty_from_type_expr_single_element_unwrapped() {
    let tc = TypeChecker::new();
    let ty = tc.ty_from_type_expr(&TypeExpr::Tuple(vec![ty_int()], sp())).unwrap();
    assert_eq!(ty, Ty::int_());
}

#[test]
fn builtin_tuple_type_of_a_registered_arity() {
    let tc = TypeChecker::new();
    let ty = tc
        .ty_from_type_expr(&TypeExpr::App { base: vec![ident("Tuple2")], args: vec![ty_int(), ty_bool()], span: sp() })
        .unwrap();
    assert_eq!(ty, Ty::adt("Tuple2", vec![Ty::int_(), Ty::bool_()]));
}

#[test]
fn capability_type_names_are_types() {
    let tc = TypeChecker::new();
    let ty = tc.ty_from_type_expr(&TypeExpr::Path(vec![ident("FsCap")], sp())).unwrap();
    assert_eq!(ty, Ty::adt0("FsCap"));
}

#[test]
fn function_type_expression() {
    let tc = TypeChecker::new();
    let ty = tc
        .ty_from_type_expr(&TypeExpr::Arrow { params: vec![ty_int()], ret: Box::new(ty_bool()), effects: None, span: sp() })
        .unwrap();
    assert_eq!(ty, Ty::arrow(vec![Ty::int_()], Ty::bool_()));
}
