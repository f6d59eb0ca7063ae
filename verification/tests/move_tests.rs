use strata::assoc::AssocMap;
use strata::ast::{Block, Expr, Ident, Lit, MatchArm, Pat, Span, Stmt};
use strata::effects::CapKind;
use strata::move_check::{check_function_body, Kind, MoveError};
use strata::ty::{Scheme, Ty, TypeVarId};

fn sp(a: u32) -> Span {
    Span { start: a, end: a + 1 }
}

fn ident(s: &str, at: u32) -> Ident {
    Ident { text: s.to_string(), span: sp(at) }
}

fn var(s: &str, at: u32) -> Expr {
    Expr::Var(ident(s, at))
}

fn call(f: &str, args: Vec<Expr>, at: u32) -> Expr {
    Expr::Call { callee: Box::new(var(f, at)), args, span: sp(at) }
}

fn stmt(e: Expr) -> Stmt {
    Stmt::Expr { expr: e, span: sp(0) }
}

fn block(stmts: Vec<Stmt>, tail: Option<Expr>) -> Block {
    Block { stmts, tail: tail.map(Box::new), span: sp(0) }
}

fn fs_param() -> Vec<(String, Ty, Span)> {
    vec![("fs".to_string(), Ty::adt0("FsCap"), sp(1))]
}

fn no_env() -> AssocMap<String, Scheme> {
    AssocMap::new()
}

#[test]
fn kinds_of_types() {
    assert_eq!(Ty::fs_cap().kind(), Kind::Affine);
    assert_eq!(Ty::adt0("NetCap").kind(), Kind::Affine);
    assert_eq!(Ty::adt("Option", vec![Ty::adt0("FsCap")]).kind(), Kind::Affine);
    assert_eq!(Ty::tuple(vec![Ty::int_(), Ty::cap(CapKind::Time)]).kind(), Kind::Affine);
    assert_eq!(Ty::list(Ty::net_cap()).kind(), Kind::Affine);
    assert_eq!(Ty::int_().kind(), Kind::Unrestricted);
    assert_eq!(Ty::adt("Option", vec![Ty::int_()]).kind(), Kind::Unrestricted);
    assert_eq!(Ty::arrow(vec![Ty::fs_cap()], Ty::unit()).kind(), Kind::Unrestricted);
    assert_eq!(Ty::var(TypeVarId(0)).kind(), Kind::Unrestricted);
}

#[test]
fn single_use_passes() {
    let body = block(vec![], Some(call("use_cap", vec![var("fs", 10)], 5)));
    assert!(check_function_body(&fs_param(), &body, &no_env()).is_ok());
}

#[test]
fn unused_capability_passes() {
    let body = block(vec![], Some(Expr::Lit(Lit::Int(1), sp(3))));
    assert!(check_function_body(&fs_param(), &body, &no_env()).is_ok());
}

#[test]
fn double_use_names_both_uses() {
    let body = block(
        vec![stmt(call("use_cap", vec![var("fs", 10)], 5))],
        Some(call("use_cap", vec![var("fs", 20)], 15)),
    );
    let err = check_function_body(&fs_param(), &body, &no_env()).unwrap_err();
    match err {
        MoveError::AlreadyUsed { name, used_at, previous_use } => {
            assert_eq!(name, "fs");
            assert_eq!(used_at, sp(20));
            assert_eq!(previous_use, sp(10));
        }
        other => panic!("unexpected {:?}", other),
    }
}

#[test]
fn double_use_in_one_call() {
    let body = block(vec![], Some(call("both", vec![var("fs", 10), var("fs", 12)], 5)));
    let err = check_function_body(&fs_param(), &body, &no_env()).unwrap_err();
    assert!(matches!(err, MoveError::AlreadyUsed { used_at, previous_use, .. } if used_at == sp(12) && previous_use == sp(10)));
}

#[test]
fn use_in_loop_is_refused() {
    let loop_body = block(vec![stmt(call("use_cap", vec![var("fs", 30)], 25))], None);
    let body = block(
        vec![stmt(Expr::While { cond: Box::new(Expr::Lit(Lit::Bool(true), sp(21))), body: loop_body, span: sp(20) })],
        None,
    );
    let err = check_function_body(&fs_param(), &body, &no_env()).unwrap_err();
    match err {
        MoveError::UsedInLoop { name, used_at } => {
            assert_eq!(name, "fs");
            assert_eq!(used_at, sp(30));
        }
        other => panic!("unexpected {:?}", other),
    }
}

#[test]
fn one_use_per_branch_passes() {
    let then_ = block(vec![], Some(call("a", vec![var("fs", 10)], 9)));
    let else_ = Expr::Block(block(vec![], Some(call("b", vec![var("fs", 20)], 19))));
    let body = block(
        vec![],
        Some(Expr::If { cond: Box::new(Expr::Lit(Lit::Bool(true), sp(2))), then_, else_: Some(Box::new(else_)), span: sp(1) }),
    );
    assert!(check_function_body(&fs_param(), &body, &no_env()).is_ok());
}

#[test]
fn use_after_a_consuming_branch_is_refused() {
    let then_ = block(vec![], Some(call("a", vec![var("fs", 10)], 9)));
    let iff = Expr::If { cond: Box::new(Expr::Lit(Lit::Bool(true), sp(2))), then_, else_: None, span: sp(1) };
    let body = block(vec![stmt(iff)], Some(call("b", vec![var("fs", 40)], 39)));
    let err = check_function_body(&fs_param(), &body, &no_env()).unwrap_err();
    assert!(matches!(err, MoveError::AlreadyUsed { used_at, previous_use, .. } if used_at == sp(40) && previous_use == sp(10)));
}

#[test]
fn let_moves_the_capability() {
    let body = block(
        vec![Stmt::Let { mutable: false, pat: Pat::Ident(ident("g", 5)), ty: None, value: var("fs", 6), span: sp(4) }],
        Some(call("use", vec![var("fs", 30)], 29)),
    );
    let err = check_function_body(&fs_param(), &body, &no_env()).unwrap_err();
    assert!(matches!(err, MoveError::AlreadyUsed { used_at, previous_use, .. } if used_at == sp(30) && previous_use == sp(6)));

    let body = block(
        vec![Stmt::Let { mutable: false, pat: Pat::Ident(ident("g", 5)), ty: None, value: var("fs", 6), span: sp(4) }],
        Some(call("use", vec![var("g", 30)], 29)),
    );
    assert!(check_function_body(&fs_param(), &body, &no_env()).is_ok());
}

#[test]
fn shadowing_starts_a_new_binding() {
    let body = block(
        vec![
            stmt(call("use", vec![var("fs", 10)], 9)),
            Stmt::Let { mutable: false, pat: Pat::Ident(ident("fs", 15)), ty: None, value: Expr::Lit(Lit::Int(1), sp(16)), span: sp(14) },
        ],
        Some(call("use", vec![var("fs", 30)], 29)),
    );
    assert!(check_function_body(&fs_param(), &body, &no_env()).is_ok());
}

#[test]
fn match_arms_each_use_once() {
    let arms = vec![
        MatchArm { pat: Pat::Literal(Lit::Bool(true), sp(3)), body: call("a", vec![var("fs", 10)], 9), span: sp(3) },
        MatchArm { pat: Pat::Wildcard(sp(4)), body: call("b", vec![var("fs", 20)], 19), span: sp(4) },
    ];
    let m = Expr::Match { scrutinee: Box::new(Expr::Lit(Lit::Bool(true), sp(2))), arms, span: sp(1) };
    let body = block(vec![stmt(m)], None);
    assert!(check_function_body(&fs_param(), &body, &no_env()).is_ok());
}

#[test]
fn polymorphic_call_result_is_tracked() {
    let mut env = AssocMap::new();
    env.insert(
        "id".to_string(),
        Scheme { type_vars: vec![TypeVarId(0)], effect_vars: vec![], ty: Ty::arrow1(Ty::var(TypeVarId(0)), Ty::var(TypeVarId(0))) },
    );
    let body = block(
        vec![Stmt::Let { mutable: false, pat: Pat::Ident(ident("g", 5)), ty: None, value: call("id", vec![var("fs", 6)], 7), span: sp(4) }],
        Some(call("pair", vec![var("g", 30), var("g", 32)], 29)),
    );
    let err = check_function_body(&fs_param(), &body, &env).unwrap_err();
    assert!(matches!(err, MoveError::AlreadyUsed { used_at, previous_use, .. } if used_at == sp(32) && previous_use == sp(30)));
}

#[test]
fn unrestricted_values_may_be_reused() {
    let params = vec![("n".to_string(), Ty::int_(), sp(1))];
    let body = block(vec![stmt(call("f", vec![var("n", 10)], 9))], Some(call("g", vec![var("n", 20), var("n", 22)], 19)));
    assert!(check_function_body(&params, &body, &no_env()).is_ok());
}

#[test]
fn move_error_messages() {
    let e = MoveError::AlreadyUsed { name: "fs".into(), used_at: Span { start: 4, end: 6 }, previous_use: Span { start: 1, end: 3 } };
    assert_eq!(
        e.message(),
        "capability 'fs' has already been used at Span { start: 4, end: 6 }; permission was transferred at Span { start: 1, end: 3 }; 'fs' is no longer available"
    );
    let e = MoveError::UsedInLoop { name: "net".into(), used_at: Span { start: 7, end: 9 } };
    assert_eq!(
        e.message(),
        "cannot use single-use capability 'net' inside loop at Span { start: 7, end: 9 }; 'net' would be used on every iteration"
    );
}
