use strata::assoc::AssocMap;
use strata::ast::{Expr, Ident, Lit, Pat, Path, Span, TypeExpr, join_idents};
use strata::constraint::{free_effect_vars_env, free_vars_env, CheckContext};
use strata::ctx::TypeCtx;
use strata::effects::{EffectRow, EffectVarId};
use strata::subst::Subst;
use strata::text::decimal_string;
use strata::ty::{free_effect_vars, free_vars, free_vars_scheme, Scheme, Ty, TypeVarId};
use strata::types::{PrimType, Type};
use strata::unifier::Unifier;

fn sp(a: u32, b: u32) -> Span {
    Span { start: a, end: b }
}

fn ident(s: &str, a: u32) -> Ident {
    Ident { text: s.to_string(), span: sp(a, a + s.len() as u32) }
}

#[test]
fn decimal_strings() {
    assert_eq!(decimal_string(0), "0");
    assert_eq!(decimal_string(907), "907");
    assert_eq!(decimal_string(u64::MAX), "18446744073709551615");
}

#[test]
fn nominal_types() {
    assert!(matches!(Type::f64_(), Type::Prim(PrimType::F64)));
    assert!(matches!(Type::str_(), Type::Prim(PrimType::Str)));
    assert!(matches!(Type::bool(), Type::Prim(PrimType::Bool)));
    assert!(matches!(Type::unit(), Type::Prim(PrimType::Unit)));
}

#[test]
fn thunks_take_no_parameters() {
    assert_eq!(Ty::thunk(Ty::int_()), Ty::arrow(vec![], Ty::int_()));
    assert_eq!(Ty::thunk(Ty::int_()).display(), "() -> Int");
}

#[test]
fn free_variables_of_types_and_schemes() {
    let t = Ty::arrow_eff(
        vec![Ty::var(TypeVarId(1)), Ty::tuple(vec![Ty::var(TypeVarId(2)), Ty::var(TypeVarId(1))])],
        Ty::var(TypeVarId(3)),
        EffectRow::open(0, EffectVarId(4)),
    );
    let mut vs = free_vars(&t);
    vs.sort();
    assert_eq!(vs, vec![TypeVarId(1), TypeVarId(2), TypeVarId(3)]);
    assert_eq!(free_effect_vars(&t), vec![EffectVarId(4)]);
    let s = Scheme { type_vars: vec![TypeVarId(1), TypeVarId(3)], effect_vars: vec![], ty: t };
    assert_eq!(free_vars_scheme(&s), vec![TypeVarId(2)]);
}

#[test]
fn free_variables_of_an_environment() {
    let mut env: AssocMap<String, Scheme> = AssocMap::new();
    env.insert("f".to_string(), Scheme::mono(Ty::arrow(vec![Ty::var(TypeVarId(5))], Ty::var(TypeVarId(6)))));
    env.insert(
        "g".to_string(),
        Scheme {
            type_vars: vec![TypeVarId(7)],
            effect_vars: vec![EffectVarId(1)],
            ty: Ty::arrow_eff(vec![Ty::var(TypeVarId(7))], Ty::var(TypeVarId(5)), EffectRow::open(0, EffectVarId(1))),
        },
    );
    let mut vs = free_vars_env(&env);
    vs.sort();
    assert_eq!(vs, vec![TypeVarId(5), TypeVarId(6)]);
    assert!(free_effect_vars_env(&env).is_empty());
}

#[test]
fn check_contexts_scope_their_bindings() {
    let mut env: AssocMap<String, Scheme> = AssocMap::new();
    env.insert("x".to_string(), Scheme::mono(Ty::int_()));
    let mut ctx = CheckContext::from_env(env);
    assert_eq!(ctx.is_mutable("x"), None);
    ctx.bind("y".to_string(), Scheme::mono(Ty::bool_()), true);
    let child = ctx.child();
    assert_eq!(child.is_mutable("y"), Some(true));
    assert!(child.env.contains_key(&"x".to_string()));
    assert!(child.expected_return.is_none());
    let mut inner = child.child();
    inner.bind("x".to_string(), Scheme::mono(Ty::string()), false);
    assert_eq!(inner.env.get(&"x".to_string()).unwrap().ty, Ty::string());
    assert_eq!(ctx.env.get(&"x".to_string()).unwrap().ty, Ty::int_());
    assert_eq!(CheckContext::new().env.len(), 0);
}

#[test]
fn type_contexts_hand_out_fresh_variables() {
    let mut tc = TypeCtx::new();
    assert_eq!(tc.fresh_var(), Ty::var(TypeVarId(0)));
    assert_eq!(tc.fresh_var(), Ty::var(TypeVarId(1)));
    tc.register("n", Ty::int_());
    assert_eq!(tc.lookup("n"), Some(&Ty::int_()));
    assert_eq!(tc.lookup("m"), None);
    tc.register("n", Ty::bool_());
    assert_eq!(tc.lookup("n"), Some(&Ty::bool_()));
}

#[test]
fn substitution_basics_and_composition() {
    let mut s = Subst::new();
    assert!(s.is_empty());
    s.insert(TypeVarId(0), Ty::int_());
    assert!(!s.is_empty());
    assert_eq!(s.get(&TypeVarId(0)), Some(&Ty::int_()));
    assert_eq!(s.get(&TypeVarId(1)), None);
    s.insert_effect(EffectVarId(0), EffectRow::pure());
    assert_eq!(s.get_effect(&EffectVarId(0)), Some(&EffectRow::pure()));

    let mut o = Subst::new();
    o.insert(TypeVarId(1), Ty::list(Ty::var(TypeVarId(0))));
    let c = s.compose(&o).unwrap();
    assert_eq!(c.get(&TypeVarId(1)), Some(&Ty::list(Ty::int_())));
    assert_eq!(c.get(&TypeVarId(0)), Some(&Ty::int_()));
    let t = Ty::tuple(vec![Ty::var(TypeVarId(1)), Ty::var(TypeVarId(2))]);
    assert_eq!(c.apply(&t).unwrap(), s.apply(&o.apply(&t).unwrap()).unwrap());

    let d = s.copy();
    assert_eq!(d.get(&TypeVarId(0)), Some(&Ty::int_()));
}

#[test]
fn unifier_hands_over_its_substitution() {
    let mut u = Unifier::new();
    u.unify(&Ty::var(TypeVarId(3)), &Ty::bool_()).unwrap();
    u.subst_mut().insert(TypeVarId(4), Ty::int_());
    let s = u.into_subst();
    assert_eq!(s.apply(&Ty::var(TypeVarId(3))).unwrap(), Ty::bool_());
    assert_eq!(s.apply(&Ty::var(TypeVarId(4))).unwrap(), Ty::int_());
}

#[test]
fn unifying_a_variable_with_a_type_it_occurs_in_fails() {
    let mut u = Unifier::new();
    let v = Ty::var(TypeVarId(0));
    assert!(u.unify(&v, &Ty::tuple(vec![Ty::int_(), Ty::var(TypeVarId(0))])).is_err());
    assert!(u.unify(&Ty::arrow(vec![v.copy()], Ty::int_()), &v).is_err());
    assert!(u.unify(&v, &v).is_ok());
    assert!(u.unify(&v, &Ty::list(Ty::var(TypeVarId(1)))).is_ok());
}

#[test]
fn paths_and_spans() {
    let segs = vec![ident("Option", 0), ident("Some", 8)];
    assert_eq!(join_idents(&segs), "Option::Some");
    let p = Path { segments: segs, span: sp(0, 12) };
    assert_eq!(p.as_str(), "Option::Some");
    let single = Path::single(ident("x", 3));
    assert_eq!(single.as_str(), "x");
    assert_eq!(single.span, sp(3, 4));
    assert_eq!(Expr::PathExpr(p).span(), sp(0, 12));
    assert_eq!(Expr::Var(ident("y", 5)).span(), sp(5, 6));
    assert_eq!(Pat::Literal(Lit::Int(1), sp(9, 10)).span(), sp(9, 10));
    assert_eq!(TypeExpr::Path(vec![ident("Int", 2)], sp(2, 5)).span(), sp(2, 5));
}
