use strata::ast::Span;
use strata::constraint::InferCtx;
use strata::effects::{Effect, EffectRow, EffectVarId};
use strata::solver::Solver;
use strata::subst::{Subst, SubstError};
use strata::ty::{Constraint, Scheme, Ty, TyConst, TypeVarId};
use strata::types::Type;
use strata::unifier::{TypeError, Unifier};

fn sp() -> Span {
    Span { start: 0, end: 0 }
}

#[test]
fn visibility_and_basic_unify() {
    let mut u = Unifier::new();
    let a = Ty::var(TypeVarId(0));
    let b = Ty::int_();
    u.unify(&a, &b).unwrap();
    assert_eq!(u.subst().apply(&a).unwrap(), Ty::int_());
}

#[test]
fn fun_type_compiles() {
    let eff = EffectRow::singleton(Effect::Fs);
    let t = Type::fun(vec![Type::i64()], Type::unit(), eff);
    let _ = t;
}

#[test]
fn unify_tuples_same_arity_elementwise() {
    let mut u = Unifier::new();
    let a = Ty::tuple(vec![Ty::int_(), Ty::bool_()]);
    let b = Ty::tuple(vec![Ty::int_(), Ty::bool_()]);
    u.unify(&a, &b).unwrap();
}

#[test]
fn unify_tuples_mismatched_arity_errors() {
    let mut u = Unifier::new();
    let a = Ty::tuple(vec![Ty::int_(), Ty::bool_()]);
    let b = Ty::tuple(vec![Ty::int_()]);
    let err = u.unify(&a, &b).unwrap_err();
    assert!(matches!(err, TypeError::Arity { .. }));
}

#[test]
fn unify_tuples_propagates_vars() {
    let mut u = Unifier::new();
    let v0 = Ty::var(TypeVarId(0));
    let v1 = Ty::var(TypeVarId(1));
    let a = Ty::tuple(vec![v0.copy(), Ty::int_(), v1.copy()]);
    let b = Ty::tuple(vec![Ty::bool_(), Ty::int_(), Ty::bool_()]);
    u.unify(&a, &b).unwrap();

    let s = u.subst();
    assert_eq!(s.apply(&v0).unwrap(), Ty::bool_());
    assert_eq!(s.apply(&v1).unwrap(), Ty::bool_());
}

#[test]
fn unify_lists_element_type() {
    let mut u = Unifier::new();
    let x = Ty::list(Ty::var(TypeVarId(0)));
    let y = Ty::list(Ty::int_());
    u.unify(&x, &y).unwrap();
    let t0 = u.subst().apply(&Ty::var(TypeVarId(0))).unwrap();
    assert_eq!(t0, Ty::int_());
}

#[test]
fn occurs_in_list_blocks_infinite() {
    let mut u = Unifier::new();
    let v = Ty::var(TypeVarId(0));
    let list_v = Ty::list(v.copy());
    let res = u.unify(&v, &list_v);
    assert!(matches!(res, Err(TypeError::Occurs { .. })));
}

#[test]
fn unify_tuple_of_list_with_vars() {
    let mut u = Unifier::new();
    let a = Ty::tuple(vec![Ty::list(Ty::var(TypeVarId(0))), Ty::int_()]);
    let b = Ty::tuple(vec![Ty::list(Ty::bool_()), Ty::var(TypeVarId(1))]);
    u.unify(&a, &b).unwrap();
    assert_eq!(u.subst().apply(&Ty::var(TypeVarId(0))).unwrap(), Ty::bool_());
    assert_eq!(u.subst().apply(&Ty::var(TypeVarId(1))).unwrap(), Ty::int_());
}

#[test]
fn test_new_type_constants() {
    let float_ty = Ty::float();
    let string_ty = Ty::string();

    assert_eq!(float_ty.display(), "Float");
    assert_eq!(string_ty.display(), "String");

    match float_ty {
        Ty::Const(TyConst::Float) => {}
        _ => panic!("Expected Float constant"),
    }

    match string_ty {
        Ty::Const(TyConst::String) => {}
        _ => panic!("Expected String constant"),
    }
}

#[test]
fn test_never_display() {
    assert_eq!(Ty::Never.display(), "!");
}

#[test]
fn test_never_does_not_unify_with_int() {
    let mut u = Unifier::new();
    assert!(u.unify(&Ty::Never, &Ty::int_()).is_err());
}

#[test]
fn test_int_does_not_unify_with_never() {
    let mut u = Unifier::new();
    assert!(u.unify(&Ty::int_(), &Ty::Never).is_err());
}

#[test]
fn test_never_unifies_with_var_binds_to_never() {
    let mut u = Unifier::new();
    let v = Ty::var(TypeVarId(0));
    u.unify(&Ty::Never, &v).unwrap();
    assert_eq!(u.subst().apply(&v).unwrap(), Ty::Never);
}

#[test]
fn test_never_does_not_unify_with_function() {
    let mut u = Unifier::new();
    let fn_ty = Ty::arrow(vec![Ty::int_()], Ty::bool_());
    assert!(u.unify(&Ty::Never, &fn_ty).is_err());
}

#[test]
fn test_never_unifies_with_never() {
    let mut u = Unifier::new();
    u.unify(&Ty::Never, &Ty::Never).unwrap();
}

#[test]
fn solve_simple_equality() {
    let mut solver = Solver::new();
    let constraints = vec![Constraint::Equal(Ty::Var(TypeVarId(0)), Ty::int_(), sp())];
    let subst = solver.solve(constraints).unwrap();
    let t0 = Ty::Var(TypeVarId(0));
    assert_eq!(subst.apply(&t0).unwrap(), Ty::int_());
}

#[test]
fn solve_transitive() {
    let mut solver = Solver::new();
    let constraints = vec![
        Constraint::Equal(Ty::Var(TypeVarId(0)), Ty::Var(TypeVarId(1)), sp()),
        Constraint::Equal(Ty::Var(TypeVarId(1)), Ty::int_(), sp()),
    ];
    let subst = solver.solve(constraints).unwrap();
    assert_eq!(subst.apply(&Ty::Var(TypeVarId(0))).unwrap(), Ty::int_());
    assert_eq!(subst.apply(&Ty::Var(TypeVarId(1))).unwrap(), Ty::int_());
}

#[test]
fn solve_fails_on_mismatch() {
    let mut solver = Solver::new();
    let constraints = vec![Constraint::Equal(Ty::int_(), Ty::bool_(), sp())];
    let result = solver.solve(constraints);
    assert!(result.is_err());
}

#[test]
fn effect_occurs_check_detects_direct_cycle() {
    let subst = Subst::new();
    let row = EffectRow::open(0, EffectVarId(0));
    assert!(subst.effect_var_occurs_in(EffectVarId(0), &row));
}

#[test]
fn effect_occurs_check_detects_indirect_cycle() {
    let mut subst = Subst::new();
    subst.insert_effect(EffectVarId(1), EffectRow::open(0, EffectVarId(0)));
    let row = EffectRow::open(0, EffectVarId(1));
    assert!(subst.effect_var_occurs_in(EffectVarId(0), &row));
}

#[test]
fn effect_occurs_check_no_cycle_for_closed_row() {
    let subst = Subst::new();
    let row = EffectRow::closed(0);
    assert!(!subst.effect_var_occurs_in(EffectVarId(0), &row));
}

#[test]
fn effect_occurs_check_no_cycle_for_different_var() {
    let subst = Subst::new();
    let row = EffectRow::open(0, EffectVarId(1));
    assert!(!subst.effect_var_occurs_in(EffectVarId(0), &row));
}

#[test]
fn apply_effect_row_detects_cycle() {
    let mut subst = Subst::new();
    subst.insert_effect(EffectVarId(0), EffectRow::open(0, EffectVarId(1)));
    subst.insert_effect(EffectVarId(1), EffectRow::open(0, EffectVarId(0)));
    let row = EffectRow::open(0, EffectVarId(0));
    let result = subst.apply_effect_row(&row);
    assert!(matches!(result, Err(SubstError::EffectCycle { .. })));
}

#[test]
fn instantiate_monomorphic() {
    let scheme = Scheme::mono(Ty::int_());
    let ty = scheme.instantiate(&[], &[]).unwrap();
    assert_eq!(ty, Ty::int_());
}

#[test]
fn instantiate_polymorphic() {
    let scheme = Scheme {
        type_vars: vec![TypeVarId(0)],
        effect_vars: vec![],
        ty: Ty::arrow1(Ty::Var(TypeVarId(0)), Ty::Var(TypeVarId(0))),
    };
    let fresh_types = vec![Ty::Var(TypeVarId(100))];
    let ty = scheme.instantiate(&fresh_types, &[]).unwrap();
    assert_eq!(ty, Ty::arrow1(Ty::Var(TypeVarId(100)), Ty::Var(TypeVarId(100))));
}

#[test]
fn instantiate_effect_vars() {
    let scheme = Scheme {
        type_vars: vec![TypeVarId(0)],
        effect_vars: vec![EffectVarId(0)],
        ty: Ty::arrow_eff(vec![Ty::Var(TypeVarId(0))], Ty::Var(TypeVarId(0)), EffectRow::open(0, EffectVarId(0))),
    };
    let fresh_types = vec![Ty::Var(TypeVarId(50))];
    let fresh_effects = vec![EffectVarId(51)];
    let ty = scheme.instantiate(&fresh_types, &fresh_effects).unwrap();
    assert_eq!(
        ty,
        Ty::arrow_eff(vec![Ty::Var(TypeVarId(50))], Ty::Var(TypeVarId(50)), EffectRow::open(0, EffectVarId(51)))
    );
}

#[test]
fn instantiate_arity_mismatch_returns_error() {
    let scheme = Scheme {
        type_vars: vec![TypeVarId(0)],
        effect_vars: vec![],
        ty: Ty::arrow1(Ty::Var(TypeVarId(0)), Ty::Var(TypeVarId(0))),
    };
    let result = scheme.instantiate(&[], &[]);
    assert!(matches!(result, Err(SubstError::InstantiationArityMismatch { .. })));
    let result = scheme.instantiate(&[Ty::Var(TypeVarId(10)), Ty::Var(TypeVarId(11))], &[]);
    assert!(matches!(result, Err(SubstError::InstantiationArityMismatch { .. })));
}

#[test]
fn fresh_vars_are_unique() {
    let mut ctx = InferCtx::new();
    let v1 = ctx.fresh_var();
    let v2 = ctx.fresh_var();
    let v3 = ctx.fresh_var();
    assert_eq!(v1, Ty::Var(TypeVarId(0)));
    assert_eq!(v2, Ty::Var(TypeVarId(1)));
    assert_eq!(v3, Ty::Var(TypeVarId(2)));
}

#[test]
fn can_collect_constraints() {
    let mut ctx = InferCtx::new();
    let t1 = Ty::int_();
    let t2 = Ty::bool_();
    ctx.add_constraint(Constraint::Equal(t1.copy(), t2.copy(), sp()));
    ctx.add_constraint(Constraint::Equal(t2.copy(), t1.copy(), sp()));
    let constraints = ctx.take_constraints();
    assert_eq!(constraints.len(), 2);
}

#[test]
fn generalize_no_free_vars() {
    let ctx = InferCtx::new();
    let ty = Ty::int_();
    let env_vars: Vec<TypeVarId> = Vec::new();
    let scheme = ctx.generalize(ty.copy(), &env_vars);
    assert_eq!(scheme.type_vars.len(), 0);
    assert_eq!(scheme.ty, ty);
}

#[test]
fn generalize_all_free() {
    let ctx = InferCtx::new();
    let ty = Ty::arrow1(Ty::Var(TypeVarId(0)), Ty::Var(TypeVarId(0)));
    let env_vars: Vec<TypeVarId> = Vec::new();
    let scheme = ctx.generalize(ty.copy(), &env_vars);
    assert_eq!(scheme.type_vars, vec![TypeVarId(0)]);
    assert_eq!(scheme.ty, ty);
}

#[test]
fn generalize_some_in_env() {
    let ctx = InferCtx::new();
    let ty = Ty::arrow1(Ty::Var(TypeVarId(0)), Ty::Var(TypeVarId(1)));
    let env_vars = vec![TypeVarId(0)];
    let scheme = ctx.generalize(ty.copy(), &env_vars);
    assert_eq!(scheme.type_vars, vec![TypeVarId(1)]);
    assert_eq!(scheme.ty, ty);
}

#[test]
fn open_rows_over_different_tails_resolve_alike() {
    let mut u = Unifier::new();
    let a = EffectRow::open(Effect::Fs.bit(), EffectVarId(0));
    let b = EffectRow::open(Effect::Net.bit(), EffectVarId(1));
    assert!(u.unify_effect_rows(&a, &b).is_ok());
    let ra = u.subst().apply_effect_row(&a).unwrap();
    let rb = u.subst().apply_effect_row(&b).unwrap();
    assert_eq!(ra, rb);
    assert_eq!(ra.concrete, Effect::Fs.bit() | Effect::Net.bit());
    assert!(ra.tail.is_some());
    assert_ne!(ra.tail, Some(EffectVarId(0)));
    assert_ne!(ra.tail, Some(EffectVarId(1)));
}

#[test]
fn open_row_against_closed_row_binds_the_rest() {
    let mut u = Unifier::new();
    let closed = EffectRow::closed(Effect::Fs.bit() | Effect::Net.bit());
    let open = EffectRow::open(Effect::Fs.bit(), EffectVarId(3));
    assert!(u.unify_effect_rows(&closed, &open).is_ok());
    assert_eq!(u.subst().apply_effect_row(&open).unwrap(), closed);
    let mut u2 = Unifier::new();
    let small = EffectRow::closed(Effect::Fs.bit());
    let big = EffectRow::open(Effect::Net.bit(), EffectVarId(3));
    assert!(matches!(u2.unify_effect_rows(&small, &big), Err(TypeError::EffectMismatch { .. })));
}

#[test]
fn function_types_with_open_rows_unify_their_rows() {
    let mut u = Unifier::new();
    let a = EffectRow::open(Effect::Fs.bit(), EffectVarId(0));
    let b = EffectRow::open(Effect::Net.bit(), EffectVarId(1));
    let f = Ty::arrow_eff(vec![Ty::int_()], Ty::bool_(), a);
    let g = Ty::arrow_eff(vec![Ty::int_()], Ty::bool_(), b);
    u.unify(&f, &g).unwrap();
    assert_eq!(u.subst().apply(&f).unwrap(), u.subst().apply(&g).unwrap());
}

#[test]
fn unify_errors_carry_their_parts() {
    let mut u = Unifier::new();
    let r = u.unify(&Ty::tuple(vec![Ty::int_(), Ty::bool_()]), &Ty::tuple(vec![Ty::int_()]));
    assert!(matches!(r, Err(TypeError::Arity { left: 2, right: 1 })));
    let mut u = Unifier::new();
    let t0 = Ty::var(TypeVarId(0));
    let r = u.unify(&t0, &Ty::list(t0.clone()));
    match r {
        Err(TypeError::Occurs { var, ty }) => {
            assert_eq!(var, TypeVarId(0));
            assert_eq!(ty, Ty::list(t0.clone()));
        }
        _ => panic!("expected an occurs error"),
    }
    let mut u = Unifier::new();
    let r = u.unify(&Ty::int_(), &Ty::bool_());
    match r {
        Err(TypeError::Mismatch(x, y)) => {
            assert_eq!(x, Ty::int_());
            assert_eq!(y, Ty::bool_());
        }
        _ => panic!("expected a mismatch"),
    }
    let mut u = Unifier::new();
    assert!(u.unify(&Ty::int_(), &Ty::int_()).is_ok());
    assert!(u.unify(&Ty::Never, &Ty::Never).is_ok());
}

#[test]
fn solve_closed_inclusions_fail_at_the_first_failing_one() {
    let ok = Constraint::EffectSubset(EffectRow::closed(Effect::Fs.bit()), EffectRow::closed(Effect::Fs.bit() | Effect::Net.bit()), sp());
    let bad_span = Span { start: 3, end: 9 };
    let bad = Constraint::EffectSubset(EffectRow::closed(Effect::Fs.bit()), EffectRow::pure(), bad_span);
    let later = Constraint::EffectSubset(EffectRow::closed(Effect::Net.bit()), EffectRow::pure(), sp());
    let mut solver = Solver::new();
    match solver.solve(vec![ok, bad, later]) {
        Err(e) => {
            assert_eq!(e.span, bad_span);
            match e.error {
                TypeError::EffectMismatch { expected, found } => {
                    assert_eq!(expected, EffectRow::pure());
                    assert_eq!(found, EffectRow::closed(Effect::Fs.bit()));
                }
                _ => panic!("expected an effect mismatch"),
            }
        }
        Ok(_) => panic!("expected an error"),
    }
    let mut solver = Solver::new();
    let fine = Constraint::EffectSubset(EffectRow::closed(Effect::Net.bit()), EffectRow::closed(Effect::Net.bit()), sp());
    assert!(solver.solve(vec![fine]).is_ok());
}

#[test]
fn solve_closes_an_unbound_tail_over_what_it_must_hold() {
    let row = EffectRow::open(0, EffectVarId(0));
    let need = EffectRow::closed(Effect::Fs.bit() | Effect::Net.bit());
    let mut solver = Solver::new();
    let s = solver.solve(vec![Constraint::EffectSubset(need, row, sp())]).unwrap();
    assert_eq!(s.apply_effect_row(&row).unwrap(), need);
}

#[test]
fn a_type_unifies_with_itself_without_new_bindings() {
    let mut u = Unifier::new();
    let t = Ty::arrow_eff(
        vec![Ty::var(TypeVarId(0)), Ty::tuple(vec![Ty::int_(), Ty::list(Ty::var(TypeVarId(1)))])],
        Ty::bool_(),
        EffectRow::open(Effect::Fs.bit(), EffectVarId(2)),
    );
    assert!(u.unify(&t, &t).is_ok());
    assert_eq!(u.subst().apply(&Ty::var(TypeVarId(0))).unwrap(), Ty::var(TypeVarId(0)));
    assert_eq!(u.subst().apply(&t).unwrap(), t);
}

fn nested_nots(levels: usize) -> strata::ast::Expr {
    let mut expr = strata::ast::Expr::Lit(strata::ast::Lit::Bool(true), Span { start: 0, end: 4 });
    for i in 0..levels {
        expr = strata::ast::Expr::Unary {
            op: strata::ast::UnOp::Not,
            expr: Box::new(expr),
            span: Span { start: i as u32, end: i as u32 + 1 },
        };
    }
    expr
}

#[test]
fn depth_limit_triggers_on_deeply_nested_expr() {
    let mut ctx = InferCtx::new();
    let env = strata::assoc::AssocMap::new();
    let expr = nested_nots(600);
    let result = ctx.infer_expr(&env, &expr);
    assert!(matches!(result, Err(strata::infer::InferError::DepthLimitExceeded { .. })));
}

#[test]
fn normal_nesting_works() {
    let mut ctx = InferCtx::new();
    let env = strata::assoc::AssocMap::new();
    let expr = nested_nots(100);
    let result = ctx.infer_expr(&env, &expr);
    assert!(result.is_ok());
}

#[test]
fn solve_binds_a_variable_standing_on_either_side() {
    let mut solver = Solver::new();
    let constraints = vec![
        Constraint::Equal(Ty::int_(), Ty::Var(TypeVarId(0)), sp()),
        Constraint::Equal(Ty::Var(TypeVarId(1)), Ty::list(Ty::Var(TypeVarId(0))), sp()),
    ];
    let subst = solver.solve(constraints).unwrap();
    assert_eq!(subst.apply(&Ty::Var(TypeVarId(0))).unwrap(), Ty::int_());
    assert_eq!(subst.apply(&Ty::Var(TypeVarId(1))).unwrap(), Ty::list(Ty::int_()));
    assert_eq!(subst.apply(&Ty::Var(TypeVarId(2))).unwrap(), Ty::Var(TypeVarId(2)));
}

#[test]
fn solve_binds_an_open_tail_to_just_the_missing_effects() {
    let sup = EffectRow::open(Effect::Fs.bit(), EffectVarId(0));
    let sub = EffectRow::closed(Effect::Fs.bit() | Effect::Net.bit());
    let mut solver = Solver::new();
    let s = solver.solve(vec![Constraint::EffectSubset(sub, sup, sp())]).unwrap();
    assert_eq!(s.apply_effect_row(&EffectRow::open(0, EffectVarId(0))).unwrap(), EffectRow::closed(Effect::Net.bit()));
    assert_eq!(s.apply_effect_row(&sup).unwrap(), sub);
}

#[test]
fn solve_leaves_an_open_tail_unbound_when_nothing_is_missing() {
    let sup = EffectRow::open(Effect::Fs.bit() | Effect::Net.bit(), EffectVarId(0));
    let sub = EffectRow::closed(Effect::Fs.bit());
    let mut solver = Solver::new();
    let s = solver.solve(vec![Constraint::EffectSubset(sub, sup, sp())]).unwrap();
    assert_eq!(s.apply_effect_row(&sup).unwrap(), sup);
}

#[test]
fn unify_binds_each_variable_of_a_pattern_to_its_part() {
    let mut u = Unifier::new();
    let pattern = Ty::tuple(vec![Ty::var(TypeVarId(0)), Ty::list(Ty::var(TypeVarId(1))), Ty::int_()]);
    let concrete = Ty::tuple(vec![Ty::bool_(), Ty::list(Ty::tuple(vec![Ty::int_(), Ty::bool_()])), Ty::int_()]);
    assert!(u.unify(&pattern, &concrete).is_ok());
    assert_eq!(u.subst().apply(&Ty::var(TypeVarId(0))).unwrap(), Ty::bool_());
    assert_eq!(u.subst().apply(&Ty::var(TypeVarId(1))).unwrap(), Ty::tuple(vec![Ty::int_(), Ty::bool_()]));
    assert_eq!(u.subst().apply(&pattern).unwrap(), concrete);
}
