use strata::ast::{
    BinOp, Block, EnumDef, Expr, FieldInit, FnDecl, Ident, Item, LetDecl, Lit, MatchArm, Module, Param, Pat,
    PatField, Path, Span, Stmt, StructDef, Field, TypeExpr, Variant, VariantFields, VariantFields as VF,
};
use strata::checker::{TypeChecker, TypeError};
use strata::ty::Ty;

fn sp() -> Span {
    Span { start: 0, end: 0 }
}

fn ident(name: &str) -> Ident {
    Ident {
        text: name.to_string(),
        span: sp(),
    }
}

fn ty_int() -> TypeExpr {
    TypeExpr::Path(vec![ident("Int")], sp())
}

fn ty_bool() -> TypeExpr {
    TypeExpr::Path(vec![ident("Bool")], sp())
}

fn ty_string() -> TypeExpr {
    TypeExpr::Path(vec![ident("String")], sp())
}

fn make_struct(name: &str, type_params: &[&str], fields: Vec<Field>) -> StructDef {
    StructDef {
        name: ident(name),
        type_params: type_params.iter().map(|s| ident(s)).collect(),
        fields,
        span: sp(),
    }
}

fn make_field(name: &str, ty: TypeExpr) -> Field {
    Field {
        name: ident(name),
        ty,
        span: sp(),
    }
}

fn make_enum(name: &str, type_params: &[&str], variants: Vec<Variant>) -> EnumDef {
    EnumDef {
        name: ident(name),
        type_params: type_params.iter().map(|s| ident(s)).collect(),
        variants,
        span: sp(),
    }
}

fn make_unit_variant(name: &str) -> Variant {
    Variant {
        name: ident(name),
        fields: VariantFields::Unit,
        span: sp(),
    }
}

fn make_tuple_variant(name: &str, fields: Vec<TypeExpr>) -> Variant {
    Variant {
        name: ident(name),
        fields: VariantFields::Tuple(fields),
        span: sp(),
    }
}

fn ty_adt(name: &str) -> TypeExpr {
    TypeExpr::Path(vec![ident(name)], sp())
}

fn ty_generic(name: &str, args: Vec<TypeExpr>) -> TypeExpr {
    TypeExpr::App {
        base: vec![ident(name)],
        args,
        span: sp(),
    }
}

fn pat_ident(name: &str) -> Pat {
    Pat::Ident(ident(name))
}

fn pat_wildcard() -> Pat {
    Pat::Wildcard(sp())
}

fn pat_tuple(pats: Vec<Pat>) -> Pat {
    Pat::Tuple(pats, sp())
}

fn pat_variant(enum_name: &str, variant_name: &str, pats: Vec<Pat>) -> Pat {
    Pat::Variant {
        path: Path {
            segments: vec![ident(enum_name), ident(variant_name)],
            span: sp(),
        },
        fields: pats,
        span: sp(),
    }
}

fn pat_unit_variant(enum_name: &str, variant_name: &str) -> Pat {
    Pat::Variant {
        path: Path {
            segments: vec![ident(enum_name), ident(variant_name)],
            span: sp(),
        },
        fields: vec![],
        span: sp(),
    }
}

fn pat_struct(enum_name: &str, fields: Vec<(&str, Pat)>) -> Pat {
    Pat::Struct {
        path: Path {
            segments: vec![ident(enum_name)],
            span: sp(),
        },
        fields: fields
            .into_iter()
            .map(|(name, pat)| PatField {
                name: ident(name),
                pat,
                span: sp(),
            })
            .collect(),
        span: sp(),
    }
}

fn make_arm(pat: Pat, body: Expr) -> MatchArm {
    MatchArm {
        pat,
        body,
        span: sp(),
    }
}

fn expr_tuple(elems: Vec<Expr>) -> Expr {
    Expr::Tuple { elems, span: sp() }
}

fn expr_struct(enum_name: &str, fields: Vec<(&str, Expr)>) -> Expr {
    Expr::StructExpr {
        path: Path {
            segments: vec![ident(enum_name)],
            span: sp(),
        },
        fields: fields
            .into_iter()
            .map(|(name, value)| FieldInit {
                name: ident(name),
                value,
                span: sp(),
            })
            .collect(),
        span: sp(),
    }
}

fn expr_variant_call(enum_name: &str, variant_name: &str, args: Vec<Expr>) -> Expr {
    Expr::Call {
        callee: Box::new(Expr::PathExpr(Path {
            segments: vec![ident(enum_name), ident(variant_name)],
            span: sp(),
        })),
        args,
        span: sp(),
    }
}

fn expr_unit_variant(enum_name: &str, variant_name: &str) -> Expr {
    Expr::PathExpr(Path {
        segments: vec![ident(enum_name), ident(variant_name)],
        span: sp(),
    })
}

fn expr_match(scrutinee: Expr, arms: Vec<MatchArm>) -> Expr {
    Expr::Match {
        scrutinee: Box::new(scrutinee),
        arms,
        span: sp(),
    }
}

fn ty_nested_generic(
    name: &str,
    args: Vec<strata::ast::TypeExpr>,
) -> strata::ast::TypeExpr {
    strata::ast::TypeExpr::App {
        base: vec![ident(name)],
        args,
        span: sp(),
    }
}

#[test]
fn test_let_without_annotation() {
    let mut tc = TypeChecker::new();
    let module = Module {
        items: vec![Item::Let(LetDecl {
            name: ident("x"),
            ty: None,
            value: Expr::Lit(Lit::Int(42), sp()),
            span: sp(),
        })],
        span: sp(),
    };
    assert!(tc.check_module(&module).is_ok());
}

#[test]
fn test_let_with_matching_annotation() {
    let mut tc = TypeChecker::new();
    let module = Module {
        items: vec![Item::Let(LetDecl {
            name: ident("x"),
            ty: Some(ty_int()),
            value: Expr::Lit(Lit::Int(42), sp()),
            span: sp(),
        })],
        span: sp(),
    };
    assert!(tc.check_module(&module).is_ok());
}

#[test]
fn test_variable_reference() {
    let mut tc = TypeChecker::new();
    let module = Module {
        items: vec![
            Item::Let(LetDecl {
                name: ident("x"),
                ty: None,
                value: Expr::Lit(Lit::Int(42), sp()),
                span: sp(),
            }),
            Item::Let(LetDecl {
                name: ident("y"),
                ty: None,
                value: Expr::Var(ident("x")),
                span: sp(),
            }),
        ],
        span: sp(),
    };
    assert!(tc.check_module(&module).is_ok());
}

#[test]
fn test_multiple_lets() {
    let mut tc = TypeChecker::new();
    let module = Module {
        items: vec![
            Item::Let(LetDecl {
                name: ident("x"),
                ty: Some(ty_int()),
                value: Expr::Lit(Lit::Int(1), sp()),
                span: sp(),
            }),
            Item::Let(LetDecl {
                name: ident("y"),
                ty: None,
                value: Expr::Binary {
                    lhs: Box::new(Expr::Lit(Lit::Int(2), sp())),
                    op: BinOp::Add,
                    rhs: Box::new(Expr::Lit(Lit::Int(3), sp())),
                    span: sp(),
                },
                span: sp(),
            }),
            Item::Let(LetDecl {
                name: ident("z"),
                ty: None,
                value: Expr::Binary {
                    lhs: Box::new(Expr::Lit(Lit::Bool(true), sp())),
                    op: BinOp::And,
                    rhs: Box::new(Expr::Lit(Lit::Bool(false), sp())),
                    span: sp(),
                },
                span: sp(),
            }),
        ],
        span: sp(),
    };
    assert!(tc.check_module(&module).is_ok());
}

#[test]
fn test_annotation_mismatch() {
    let mut tc = TypeChecker::new();
    let module = Module {
        items: vec![Item::Let(LetDecl {
            name: ident("x"),
            ty: Some(ty_bool()),
            value: Expr::Lit(Lit::Int(123), sp()),
            span: sp(),
        })],
        span: sp(),
    };
    let result = tc.check_module(&module);
    assert!(result.is_err());
    assert!(matches!(result.unwrap_err(), TypeError::Mismatch { .. }));
}

#[test]
fn test_adt_register_simple_struct() {
    // struct Point { x: Int, y: Int }
    let mut tc = TypeChecker::new();
    let module = Module {
        items: vec![Item::Struct(make_struct(
            "Point",
            &[],
            vec![make_field("x", ty_int()), make_field("y", ty_int())],
        ))],
        span: sp(),
    };
    assert!(tc.check_module(&module).is_ok());
    assert!(tc.adt_registry().contains("Point"));
}

#[test]
fn test_adt_register_generic_struct() {
    // struct Pair<T, U> { first: T, second: U }
    let mut tc = TypeChecker::new();
    let module = Module {
        items: vec![Item::Struct(make_struct(
            "Pair",
            &["T", "U"],
            vec![
                make_field("first", ty_adt("T")),
                make_field("second", ty_adt("U")),
            ],
        ))],
        span: sp(),
    };
    assert!(tc.check_module(&module).is_ok());
    let adt = tc.adt_registry().get("Pair").unwrap();
    assert_eq!(adt.arity(), 2);
}

#[test]
fn test_adt_register_simple_enum() {
    // enum Status { Active, Inactive }
    let mut tc = TypeChecker::new();
    let module = Module {
        items: vec![Item::Enum(make_enum(
            "Status",
            &[],
            vec![make_unit_variant("Active"), make_unit_variant("Inactive")],
        ))],
        span: sp(),
    };
    assert!(tc.check_module(&module).is_ok());
    assert!(tc.adt_registry().contains("Status"));
}

#[test]
fn test_adt_register_option_enum() {
    // enum Option<T> { Some(T), None }
    let mut tc = TypeChecker::new();
    let module = Module {
        items: vec![Item::Enum(make_enum(
            "Option",
            &["T"],
            vec![
                make_tuple_variant("Some", vec![ty_adt("T")]),
                make_unit_variant("None"),
            ],
        ))],
        span: sp(),
    };
    assert!(tc.check_module(&module).is_ok());
    let adt = tc.adt_registry().get("Option").unwrap();
    assert_eq!(adt.arity(), 1);
    assert!(adt.is_enum());
}

#[test]
fn test_adt_duplicate_type_error() {
    // struct Point {}
    // struct Point {} // duplicate!
    let mut tc = TypeChecker::new();
    let module = Module {
        items: vec![
            Item::Struct(make_struct("Point", &[], vec![])),
            Item::Struct(make_struct("Point", &[], vec![])),
        ],
        span: sp(),
    };
    let result = tc.check_module(&module);
    assert!(result.is_err());
    assert!(matches!(
        result.unwrap_err(),
        TypeError::DuplicateType { .. }
    ));
}

#[test]
fn test_adt_duplicate_struct_enum_error() {
    // struct Foo {}
    // enum Foo { A } // duplicate!
    let mut tc = TypeChecker::new();
    let module = Module {
        items: vec![
            Item::Struct(make_struct("Foo", &[], vec![])),
            Item::Enum(make_enum("Foo", &[], vec![make_unit_variant("A")])),
        ],
        span: sp(),
    };
    let result = tc.check_module(&module);
    assert!(result.is_err());
    assert!(matches!(
        result.unwrap_err(),
        TypeError::DuplicateType { .. }
    ));
}

#[test]
fn test_adt_capability_in_struct_field_error() {
    // struct Bad { cap: NetCap } // forbidden!
    let mut tc = TypeChecker::new();
    let module = Module {
        items: vec![Item::Struct(make_struct(
            "Bad",
            &[],
            vec![make_field("cap", ty_adt("NetCap"))],
        ))],
        span: sp(),
    };
    let result = tc.check_module(&module);
    assert!(result.is_err());
    assert!(matches!(
        result.unwrap_err(),
        TypeError::CapabilityInAdt { .. }
    ));
}

#[test]
fn test_adt_capability_in_nested_type_error() {
    // First register Option
    // struct Bad { opt: Option<FsCap> } // forbidden - nested cap!
    let mut tc = TypeChecker::new();
    let module = Module {
        items: vec![
            Item::Enum(make_enum(
                "Option",
                &["T"],
                vec![
                    make_tuple_variant("Some", vec![ty_adt("T")]),
                    make_unit_variant("None"),
                ],
            )),
            Item::Struct(make_struct(
                "Bad",
                &[],
                vec![make_field(
                    "opt",
                    ty_generic("Option", vec![ty_adt("FsCap")]),
                )],
            )),
        ],
        span: sp(),
    };
    let result = tc.check_module(&module);
    assert!(result.is_err());
    assert!(matches!(
        result.unwrap_err(),
        TypeError::CapabilityInAdt { .. }
    ));
}

#[test]
fn test_adt_capability_in_enum_variant_error() {
    // enum Bad { HasCap(TimeCap) } // forbidden!
    let mut tc = TypeChecker::new();
    let module = Module {
        items: vec![Item::Enum(make_enum(
            "Bad",
            &[],
            vec![make_tuple_variant("HasCap", vec![ty_adt("TimeCap")])],
        ))],
        span: sp(),
    };
    let result = tc.check_module(&module);
    assert!(result.is_err());
    assert!(matches!(
        result.unwrap_err(),
        TypeError::CapabilityInAdt { .. }
    ));
}

#[test]
fn test_adt_enum_constructors_registered() {
    // enum Status { Active, Inactive }
    // Constructors Status::Active and Status::Inactive should be in environment
    let mut tc = TypeChecker::new();
    let module = Module {
        items: vec![Item::Enum(make_enum(
            "Status",
            &[],
            vec![make_unit_variant("Active"), make_unit_variant("Inactive")],
        ))],
        span: sp(),
    };
    tc.check_module(&module).unwrap();

    // Check constructors are available by trying to use them
    // (We can't directly access env, but we can verify via infer)
    // For now, just verify the ADT is registered correctly
    let adt = tc.adt_registry().get("Status").unwrap();
    assert!(adt.find_variant("Active").is_some());
    assert!(adt.find_variant("Inactive").is_some());
}

#[test]
fn test_adt_ty_from_type_expr_user_defined() {
    // After registering Point, ty_from_type_expr should recognize it
    let mut tc = TypeChecker::new();
    let module = Module {
        items: vec![Item::Struct(make_struct("Point", &[], vec![]))],
        span: sp(),
    };
    tc.check_module(&module).unwrap();

    let ty = tc
        .ty_from_type_expr(&TypeExpr::Path(vec![ident("Point")], sp()))
        .unwrap();
    assert_eq!(ty, Ty::adt0("Point"));
}

#[test]
fn test_adt_ty_from_type_expr_generic() {
    // Option<Int> should work after registering Option
    let mut tc = TypeChecker::new();
    let module = Module {
        items: vec![Item::Enum(make_enum(
            "Option",
            &["T"],
            vec![
                make_tuple_variant("Some", vec![ty_adt("T")]),
                make_unit_variant("None"),
            ],
        ))],
        span: sp(),
    };
    tc.check_module(&module).unwrap();

    let ty = tc
        .ty_from_type_expr(&ty_generic("Option", vec![ty_int()]))
        .unwrap();
    assert_eq!(
        ty,
        Ty::adt("Option", vec![Ty::int_()])
    );
}

#[test]
fn test_adt_ty_from_type_expr_wrong_arity_error() {
    // Option without type arg should fail (Option requires 1 arg)
    let mut tc = TypeChecker::new();
    let module = Module {
        items: vec![Item::Enum(make_enum(
            "Option",
            &["T"],
            vec![
                make_tuple_variant("Some", vec![ty_adt("T")]),
                make_unit_variant("None"),
            ],
        ))],
        span: sp(),
    };
    tc.check_module(&module).unwrap();

    let result = tc.ty_from_type_expr(&TypeExpr::Path(vec![ident("Option")], sp()));
    assert!(result.is_err());
    assert!(matches!(
        result.unwrap_err(),
        TypeError::WrongTypeArgCount { .. }
    ));
}

#[test]
fn test_option_without_pattern() {
    // Test that we can register Option and use it in a function signature
    // without pattern matching (diagnositc test)
    let mut tc = TypeChecker::new();
    let module = Module {
        items: vec![
            Item::Enum(make_enum(
                "Option",
                &["T"],
                vec![
                    make_tuple_variant("Some", vec![ty_adt("T")]),
                    make_unit_variant("None"),
                ],
            )),
            Item::Fn(FnDecl {
                name: ident("test"),
                params: vec![Param {
                    name: ident("opt"),
                    ty: Some(ty_generic("Option", vec![ty_int()])),
                    span: sp(),
                }],
                ret_ty: Some(ty_int()),
                effects: None,
                body: Block {
                    stmts: vec![],
                    tail: Some(Box::new(Expr::Lit(Lit::Int(0), sp()))), // Just return 0
                    span: sp(),
                },
                span: sp(),
            }),
        ],
        span: sp(),
    };
    assert!(tc.check_module(&module).is_ok());
}

#[test]
fn test_variant_pattern_direct() {
    // Test variant pattern checking via check_module
    // This ensures that the constructor schemes are properly allocated
    // with fresh type variables that don't conflict with inference.
    let mut tc = TypeChecker::new();
    let module = Module {
        items: vec![
            Item::Enum(make_enum(
                "Option",
                &["T"],
                vec![
                    make_tuple_variant("Some", vec![ty_adt("T")]),
                    make_unit_variant("None"),
                ],
            )),
            Item::Fn(FnDecl {
                name: ident("test"),
                params: vec![Param {
                    name: ident("opt"),
                    ty: Some(ty_generic("Option", vec![ty_int()])),
                    span: sp(),
                }],
                ret_ty: Some(ty_int()),
                effects: None,
                body: Block {
                    stmts: vec![],
                    tail: Some(Box::new(expr_match(
                        Expr::Var(ident("opt")),
                        vec![
                            make_arm(
                                pat_unit_variant("Option", "None"),
                                Expr::Lit(Lit::Int(0), sp()),
                            ),
                            // Add wildcard to make match exhaustive
                            make_arm(pat_wildcard(), Expr::Lit(Lit::Int(1), sp())),
                        ],
                    ))),
                    span: sp(),
                },
                span: sp(),
            }),
        ],
        span: sp(),
    };
    assert!(tc.check_module(&module).is_ok());
}

#[test]
fn test_match_with_literal_pattern() {
    // Test match with literal patterns (not variant patterns)
    let mut tc = TypeChecker::new();
    let module = Module {
        items: vec![Item::Fn(FnDecl {
            name: ident("test"),
            params: vec![Param {
                name: ident("x"),
                ty: Some(ty_int()),
                span: sp(),
            }],
            ret_ty: Some(ty_int()),
            effects: None,
            body: Block {
                stmts: vec![],
                tail: Some(Box::new(expr_match(
                    Expr::Var(ident("x")),
                    vec![
                        make_arm(
                            Pat::Literal(Lit::Int(0), sp()),
                            Expr::Lit(Lit::Int(0), sp()),
                        ),
                        make_arm(pat_wildcard(), Expr::Lit(Lit::Int(1), sp())),
                    ],
                ))),
                span: sp(),
            },
            span: sp(),
        })],
        span: sp(),
    };
    assert!(tc.check_module(&module).is_ok());
}

#[test]
fn test_match_option_some_none() {
    // enum Option<T> { Some(T), None }
    // fn test(opt: Option<Int>) -> Int {
    //     match opt {
    //         Option::Some(x) => x,
    //         Option::None => 0
    //     }
    // }
    let mut tc = TypeChecker::new();
    let module = Module {
        items: vec![
            Item::Enum(make_enum(
                "Option",
                &["T"],
                vec![
                    make_tuple_variant("Some", vec![ty_adt("T")]),
                    make_unit_variant("None"),
                ],
            )),
            Item::Fn(FnDecl {
                name: ident("test"),
                params: vec![Param {
                    name: ident("opt"),
                    ty: Some(ty_generic("Option", vec![ty_int()])),
                    span: sp(),
                }],
                ret_ty: Some(ty_int()),
                effects: None,
                body: Block {
                    stmts: vec![],
                    tail: Some(Box::new(expr_match(
                        Expr::Var(ident("opt")),
                        vec![
                            make_arm(
                                pat_variant("Option", "Some", vec![pat_ident("x")]),
                                Expr::Var(ident("x")),
                            ),
                            make_arm(
                                pat_unit_variant("Option", "None"),
                                Expr::Lit(Lit::Int(0), sp()),
                            ),
                        ],
                    ))),
                    span: sp(),
                },
                span: sp(),
            }),
        ],
        span: sp(),
    };
    assert!(tc.check_module(&module).is_ok());
}

#[test]
fn test_match_arm_type_mismatch() {
    // Match arms return different types - should fail
    let mut tc = TypeChecker::new();
    let module = Module {
        items: vec![
            Item::Enum(make_enum(
                "Option",
                &["T"],
                vec![
                    make_tuple_variant("Some", vec![ty_adt("T")]),
                    make_unit_variant("None"),
                ],
            )),
            Item::Fn(FnDecl {
                name: ident("test"),
                params: vec![Param {
                    name: ident("opt"),
                    ty: Some(ty_generic("Option", vec![ty_int()])),
                    span: sp(),
                }],
                ret_ty: None,
                effects: None,
                body: Block {
                    stmts: vec![],
                    tail: Some(Box::new(expr_match(
                        Expr::Var(ident("opt")),
                        vec![
                            make_arm(
                                pat_variant("Option", "Some", vec![pat_ident("x")]),
                                Expr::Var(ident("x")), // Int
                            ),
                            make_arm(
                                pat_unit_variant("Option", "None"),
                                Expr::Lit(Lit::Str("none".to_string()), sp()), // String - mismatch!
                            ),
                        ],
                    ))),
                    span: sp(),
                },
                span: sp(),
            }),
        ],
        span: sp(),
    };
    let result = tc.check_module(&module);
    assert!(result.is_err());
    assert!(matches!(result.unwrap_err(), TypeError::Mismatch { .. }));
}

#[test]
fn test_match_nested_variant_pattern() {
    // enum Option<T> { Some(T), None }
    // match Some((1, 2)) { Some((a, b)) => a + b, None => 0 }
    let mut tc = TypeChecker::new();
    let module = Module {
        items: vec![
            Item::Enum(make_enum(
                "Option",
                &["T"],
                vec![
                    make_tuple_variant("Some", vec![ty_adt("T")]),
                    make_unit_variant("None"),
                ],
            )),
            Item::Fn(FnDecl {
                name: ident("test"),
                params: vec![],
                ret_ty: Some(ty_int()),
                effects: None,
                body: Block {
                    stmts: vec![],
                    tail: Some(Box::new(expr_match(
                        expr_variant_call(
                            "Option",
                            "Some",
                            vec![expr_tuple(vec![
                                Expr::Lit(Lit::Int(1), sp()),
                                Expr::Lit(Lit::Int(2), sp()),
                            ])],
                        ),
                        vec![
                            make_arm(
                                pat_variant(
                                    "Option",
                                    "Some",
                                    vec![pat_tuple(vec![pat_ident("a"), pat_ident("b")])],
                                ),
                                Expr::Binary {
                                    lhs: Box::new(Expr::Var(ident("a"))),
                                    op: BinOp::Add,
                                    rhs: Box::new(Expr::Var(ident("b"))),
                                    span: sp(),
                                },
                            ),
                            make_arm(
                                pat_unit_variant("Option", "None"),
                                Expr::Lit(Lit::Int(0), sp()),
                            ),
                        ],
                    ))),
                    span: sp(),
                },
                span: sp(),
            }),
        ],
        span: sp(),
    };
    assert!(tc.check_module(&module).is_ok());
}

#[test]
fn test_pattern_variant_arity_mismatch() {
    // enum Option<T> { Some(T), None }
    // match Some(1) { Some(a, b) => 0, None => 0 } - Some takes 1 arg, not 2
    let mut tc = TypeChecker::new();
    let module = Module {
        items: vec![
            Item::Enum(make_enum(
                "Option",
                &["T"],
                vec![
                    make_tuple_variant("Some", vec![ty_adt("T")]),
                    make_unit_variant("None"),
                ],
            )),
            Item::Fn(FnDecl {
                name: ident("test"),
                params: vec![],
                ret_ty: Some(ty_int()),
                effects: None,
                body: Block {
                    stmts: vec![],
                    tail: Some(Box::new(expr_match(
                        expr_variant_call("Option", "Some", vec![Expr::Lit(Lit::Int(1), sp())]),
                        vec![
                            make_arm(
                                pat_variant("Option", "Some", vec![pat_ident("a"), pat_ident("b")]),
                                Expr::Lit(Lit::Int(0), sp()),
                            ),
                            make_arm(
                                pat_unit_variant("Option", "None"),
                                Expr::Lit(Lit::Int(0), sp()),
                            ),
                        ],
                    ))),
                    span: sp(),
                },
                span: sp(),
            }),
        ],
        span: sp(),
    };
    let result = tc.check_module(&module);
    assert!(result.is_err());
}

#[test]
fn test_pattern_unknown_variant() {
    // enum Option<T> { Some(T), None }
    // match x { Option::Unknown => 0 } - Unknown is not a variant
    let mut tc = TypeChecker::new();
    let module = Module {
        items: vec![
            Item::Enum(make_enum(
                "Option",
                &["T"],
                vec![
                    make_tuple_variant("Some", vec![ty_adt("T")]),
                    make_unit_variant("None"),
                ],
            )),
            Item::Fn(FnDecl {
                name: ident("test"),
                params: vec![Param {
                    name: ident("opt"),
                    ty: Some(ty_generic("Option", vec![ty_int()])),
                    span: sp(),
                }],
                ret_ty: Some(ty_int()),
                effects: None,
                body: Block {
                    stmts: vec![],
                    tail: Some(Box::new(expr_match(
                        Expr::Var(ident("opt")),
                        vec![make_arm(
                            pat_unit_variant("Option", "Unknown"),
                            Expr::Lit(Lit::Int(0), sp()),
                        )],
                    ))),
                    span: sp(),
                },
                span: sp(),
            }),
        ],
        span: sp(),
    };
    let result = tc.check_module(&module);
    assert!(result.is_err());
    assert!(matches!(
        result.unwrap_err(),
        TypeError::UnknownVariant { .. }
    ));
}

#[test]
fn test_struct_construction() {
    // struct Point { x: Int, y: Int }
    // Point { x: 1, y: 2 } has type Point
    let mut tc = TypeChecker::new();
    let module = Module {
        items: vec![
            Item::Struct(make_struct(
                "Point",
                &[],
                vec![make_field("x", ty_int()), make_field("y", ty_int())],
            )),
            Item::Fn(FnDecl {
                name: ident("test"),
                params: vec![],
                ret_ty: Some(ty_adt("Point")),
                effects: None,
                body: Block {
                    stmts: vec![],
                    tail: Some(Box::new(expr_struct(
                        "Point",
                        vec![
                            ("x", Expr::Lit(Lit::Int(1), sp())),
                            ("y", Expr::Lit(Lit::Int(2), sp())),
                        ],
                    ))),
                    span: sp(),
                },
                span: sp(),
            }),
        ],
        span: sp(),
    };
    assert!(tc.check_module(&module).is_ok());
}

#[test]
fn test_struct_missing_field_error() {
    // struct Point { x: Int, y: Int }
    // Point { x: 1 } - missing y!
    let mut tc = TypeChecker::new();
    let module = Module {
        items: vec![
            Item::Struct(make_struct(
                "Point",
                &[],
                vec![make_field("x", ty_int()), make_field("y", ty_int())],
            )),
            Item::Fn(FnDecl {
                name: ident("test"),
                params: vec![],
                ret_ty: Some(ty_adt("Point")),
                effects: None,
                body: Block {
                    stmts: vec![],
                    tail: Some(Box::new(expr_struct(
                        "Point",
                        vec![("x", Expr::Lit(Lit::Int(1), sp()))],
                    ))),
                    span: sp(),
                },
                span: sp(),
            }),
        ],
        span: sp(),
    };
    let result = tc.check_module(&module);
    assert!(result.is_err());
    assert!(matches!(
        result.unwrap_err(),
        TypeError::MissingField { .. }
    ));
}

#[test]
fn test_struct_unknown_field_error() {
    // struct Point { x: Int, y: Int }
    // Point { x: 1, y: 2, z: 3 } - z doesn't exist!
    let mut tc = TypeChecker::new();
    let module = Module {
        items: vec![
            Item::Struct(make_struct(
                "Point",
                &[],
                vec![make_field("x", ty_int()), make_field("y", ty_int())],
            )),
            Item::Fn(FnDecl {
                name: ident("test"),
                params: vec![],
                ret_ty: Some(ty_adt("Point")),
                effects: None,
                body: Block {
                    stmts: vec![],
                    tail: Some(Box::new(expr_struct(
                        "Point",
                        vec![
                            ("x", Expr::Lit(Lit::Int(1), sp())),
                            ("y", Expr::Lit(Lit::Int(2), sp())),
                            ("z", Expr::Lit(Lit::Int(3), sp())),
                        ],
                    ))),
                    span: sp(),
                },
                span: sp(),
            }),
        ],
        span: sp(),
    };
    let result = tc.check_module(&module);
    assert!(result.is_err());
    assert!(matches!(
        result.unwrap_err(),
        TypeError::UnknownField { .. }
    ));
}

#[test]
fn test_struct_field_type_mismatch() {
    // struct Point { x: Int, y: Int }
    // Point { x: "hello", y: 2 } - x should be Int!
    let mut tc = TypeChecker::new();
    let module = Module {
        items: vec![
            Item::Struct(make_struct(
                "Point",
                &[],
                vec![make_field("x", ty_int()), make_field("y", ty_int())],
            )),
            Item::Fn(FnDecl {
                name: ident("test"),
                params: vec![],
                ret_ty: Some(ty_adt("Point")),
                effects: None,
                body: Block {
                    stmts: vec![],
                    tail: Some(Box::new(expr_struct(
                        "Point",
                        vec![
                            ("x", Expr::Lit(Lit::Str("hello".to_string()), sp())),
                            ("y", Expr::Lit(Lit::Int(2), sp())),
                        ],
                    ))),
                    span: sp(),
                },
                span: sp(),
            }),
        ],
        span: sp(),
    };
    let result = tc.check_module(&module);
    assert!(result.is_err());
    assert!(matches!(result.unwrap_err(), TypeError::Mismatch { .. }));
}

#[test]
fn test_struct_pattern_destructuring() {
    // struct Point { x: Int, y: Int }
    // fn test(p: Point) -> Int {
    //     match p { Point { x, y } => x + y }
    // }
    let mut tc = TypeChecker::new();
    let module = Module {
        items: vec![
            Item::Struct(make_struct(
                "Point",
                &[],
                vec![make_field("x", ty_int()), make_field("y", ty_int())],
            )),
            Item::Fn(FnDecl {
                name: ident("test"),
                params: vec![Param {
                    name: ident("p"),
                    ty: Some(ty_adt("Point")),
                    span: sp(),
                }],
                ret_ty: Some(ty_int()),
                effects: None,
                body: Block {
                    stmts: vec![],
                    tail: Some(Box::new(expr_match(
                        Expr::Var(ident("p")),
                        vec![make_arm(
                            pat_struct("Point", vec![("x", pat_ident("x")), ("y", pat_ident("y"))]),
                            Expr::Binary {
                                lhs: Box::new(Expr::Var(ident("x"))),
                                op: BinOp::Add,
                                rhs: Box::new(Expr::Var(ident("y"))),
                                span: sp(),
                            },
                        )],
                    ))),
                    span: sp(),
                },
                span: sp(),
            }),
        ],
        span: sp(),
    };
    assert!(tc.check_module(&module).is_ok());
}

#[test]
fn test_exhaustive_option_both_variants() {
    // enum Option<T> { Some(T), None }
    // match opt { Some(x) => x, None => 0 } - exhaustive
    let mut tc = TypeChecker::new();
    let module = Module {
        items: vec![
            Item::Enum(make_enum(
                "Option",
                &["T"],
                vec![
                    make_tuple_variant("Some", vec![ty_adt("T")]),
                    make_unit_variant("None"),
                ],
            )),
            Item::Fn(FnDecl {
                name: ident("test"),
                params: vec![Param {
                    name: ident("opt"),
                    ty: Some(ty_generic("Option", vec![ty_int()])),
                    span: sp(),
                }],
                ret_ty: Some(ty_int()),
                effects: None,
                body: Block {
                    stmts: vec![],
                    tail: Some(Box::new(expr_match(
                        Expr::Var(ident("opt")),
                        vec![
                            make_arm(
                                pat_variant("Option", "Some", vec![pat_ident("x")]),
                                Expr::Var(ident("x")),
                            ),
                            make_arm(
                                pat_unit_variant("Option", "None"),
                                Expr::Lit(Lit::Int(0), sp()),
                            ),
                        ],
                    ))),
                    span: sp(),
                },
                span: sp(),
            }),
        ],
        span: sp(),
    };
    assert!(tc.check_module(&module).is_ok());
}

#[test]
fn test_non_exhaustive_option_some_only_error() {
    // enum Option<T> { Some(T), None }
    // match opt { Some(x) => x } - missing None!
    let mut tc = TypeChecker::new();
    let module = Module {
        items: vec![
            Item::Enum(make_enum(
                "Option",
                &["T"],
                vec![
                    make_tuple_variant("Some", vec![ty_adt("T")]),
                    make_unit_variant("None"),
                ],
            )),
            Item::Fn(FnDecl {
                name: ident("test"),
                params: vec![Param {
                    name: ident("opt"),
                    ty: Some(ty_generic("Option", vec![ty_int()])),
                    span: sp(),
                }],
                ret_ty: Some(ty_int()),
                effects: None,
                body: Block {
                    stmts: vec![],
                    tail: Some(Box::new(expr_match(
                        Expr::Var(ident("opt")),
                        vec![make_arm(
                            pat_variant("Option", "Some", vec![pat_ident("x")]),
                            Expr::Var(ident("x")),
                        )],
                    ))),
                    span: sp(),
                },
                span: sp(),
            }),
        ],
        span: sp(),
    };
    let result = tc.check_module(&module);
    assert!(result.is_err());
    let err = result.unwrap_err();
    assert!(
        matches!(err, TypeError::NonExhaustiveMatch { witness, .. } if witness.contains("None"))
    );
}

#[test]
fn test_non_exhaustive_option_none_only_error() {
    // enum Option<T> { Some(T), None }
    // match opt { None => 0 } - missing Some!
    let mut tc = TypeChecker::new();
    let module = Module {
        items: vec![
            Item::Enum(make_enum(
                "Option",
                &["T"],
                vec![
                    make_tuple_variant("Some", vec![ty_adt("T")]),
                    make_unit_variant("None"),
                ],
            )),
            Item::Fn(FnDecl {
                name: ident("test"),
                params: vec![Param {
                    name: ident("opt"),
                    ty: Some(ty_generic("Option", vec![ty_int()])),
                    span: sp(),
                }],
                ret_ty: Some(ty_int()),
                effects: None,
                body: Block {
                    stmts: vec![],
                    tail: Some(Box::new(expr_match(
                        Expr::Var(ident("opt")),
                        vec![make_arm(
                            pat_unit_variant("Option", "None"),
                            Expr::Lit(Lit::Int(0), sp()),
                        )],
                    ))),
                    span: sp(),
                },
                span: sp(),
            }),
        ],
        span: sp(),
    };
    let result = tc.check_module(&module);
    assert!(result.is_err());
    let err = result.unwrap_err();
    assert!(
        matches!(err, TypeError::NonExhaustiveMatch { witness, .. } if witness.contains("Some"))
    );
}

#[test]
fn test_exhaustive_bool_both_values() {
    // match b { true => 1, false => 0 } - exhaustive
    let mut tc = TypeChecker::new();
    let module = Module {
        items: vec![Item::Fn(FnDecl {
            name: ident("test"),
            params: vec![Param {
                name: ident("b"),
                ty: Some(ty_bool()),
                span: sp(),
            }],
            ret_ty: Some(ty_int()),
            effects: None,
            body: Block {
                stmts: vec![],
                tail: Some(Box::new(expr_match(
                    Expr::Var(ident("b")),
                    vec![
                        make_arm(
                            Pat::Literal(Lit::Bool(true), sp()),
                            Expr::Lit(Lit::Int(1), sp()),
                        ),
                        make_arm(
                            Pat::Literal(Lit::Bool(false), sp()),
                            Expr::Lit(Lit::Int(0), sp()),
                        ),
                    ],
                ))),
                span: sp(),
            },
            span: sp(),
        })],
        span: sp(),
    };
    assert!(tc.check_module(&module).is_ok());
}

#[test]
fn test_non_exhaustive_bool_true_only_error() {
    // match b { true => 1 } - missing false!
    let mut tc = TypeChecker::new();
    let module = Module {
        items: vec![Item::Fn(FnDecl {
            name: ident("test"),
            params: vec![Param {
                name: ident("b"),
                ty: Some(ty_bool()),
                span: sp(),
            }],
            ret_ty: Some(ty_int()),
            effects: None,
            body: Block {
                stmts: vec![],
                tail: Some(Box::new(expr_match(
                    Expr::Var(ident("b")),
                    vec![make_arm(
                        Pat::Literal(Lit::Bool(true), sp()),
                        Expr::Lit(Lit::Int(1), sp()),
                    )],
                ))),
                span: sp(),
            },
            span: sp(),
        })],
        span: sp(),
    };
    let result = tc.check_module(&module);
    assert!(result.is_err());
    let err = result.unwrap_err();
    assert!(
        matches!(err, TypeError::NonExhaustiveMatch { witness, .. } if witness.contains("false"))
    );
}

#[test]
fn test_exhaustive_with_wildcard() {
    // match opt { Some(x) => x, _ => 0 } - wildcard covers None
    let mut tc = TypeChecker::new();
    let module = Module {
        items: vec![
            Item::Enum(make_enum(
                "Option",
                &["T"],
                vec![
                    make_tuple_variant("Some", vec![ty_adt("T")]),
                    make_unit_variant("None"),
                ],
            )),
            Item::Fn(FnDecl {
                name: ident("test"),
                params: vec![Param {
                    name: ident("opt"),
                    ty: Some(ty_generic("Option", vec![ty_int()])),
                    span: sp(),
                }],
                ret_ty: Some(ty_int()),
                effects: None,
                body: Block {
                    stmts: vec![],
                    tail: Some(Box::new(expr_match(
                        Expr::Var(ident("opt")),
                        vec![
                            make_arm(
                                pat_variant("Option", "Some", vec![pat_ident("x")]),
                                Expr::Var(ident("x")),
                            ),
                            make_arm(pat_wildcard(), Expr::Lit(Lit::Int(0), sp())),
                        ],
                    ))),
                    span: sp(),
                },
                span: sp(),
            }),
        ],
        span: sp(),
    };
    assert!(tc.check_module(&module).is_ok());
}

#[test]
fn test_redundant_arm_after_wildcard_error() {
    // match opt { _ => 0, None => 1 } - None is unreachable!
    let mut tc = TypeChecker::new();
    let module = Module {
        items: vec![
            Item::Enum(make_enum(
                "Option",
                &["T"],
                vec![
                    make_tuple_variant("Some", vec![ty_adt("T")]),
                    make_unit_variant("None"),
                ],
            )),
            Item::Fn(FnDecl {
                name: ident("test"),
                params: vec![Param {
                    name: ident("opt"),
                    ty: Some(ty_generic("Option", vec![ty_int()])),
                    span: sp(),
                }],
                ret_ty: Some(ty_int()),
                effects: None,
                body: Block {
                    stmts: vec![],
                    tail: Some(Box::new(expr_match(
                        Expr::Var(ident("opt")),
                        vec![
                            make_arm(pat_wildcard(), Expr::Lit(Lit::Int(0), sp())),
                            make_arm(
                                pat_unit_variant("Option", "None"),
                                Expr::Lit(Lit::Int(1), sp()),
                            ),
                        ],
                    ))),
                    span: sp(),
                },
                span: sp(),
            }),
        ],
        span: sp(),
    };
    let result = tc.check_module(&module);
    assert!(result.is_err());
    assert!(matches!(
        result.unwrap_err(),
        TypeError::UnreachablePattern { arm_index: 1, .. }
    ));
}

#[test]
fn test_redundant_bool_after_both_covered() {
    // match b { true => 1, false => 0, true => 2 } - third arm unreachable
    let mut tc = TypeChecker::new();
    let module = Module {
        items: vec![Item::Fn(FnDecl {
            name: ident("test"),
            params: vec![Param {
                name: ident("b"),
                ty: Some(ty_bool()),
                span: sp(),
            }],
            ret_ty: Some(ty_int()),
            effects: None,
            body: Block {
                stmts: vec![],
                tail: Some(Box::new(expr_match(
                    Expr::Var(ident("b")),
                    vec![
                        make_arm(
                            Pat::Literal(Lit::Bool(true), sp()),
                            Expr::Lit(Lit::Int(1), sp()),
                        ),
                        make_arm(
                            Pat::Literal(Lit::Bool(false), sp()),
                            Expr::Lit(Lit::Int(0), sp()),
                        ),
                        make_arm(
                            Pat::Literal(Lit::Bool(true), sp()),
                            Expr::Lit(Lit::Int(2), sp()),
                        ),
                    ],
                ))),
                span: sp(),
            },
            span: sp(),
        })],
        span: sp(),
    };
    let result = tc.check_module(&module);
    assert!(result.is_err());
    assert!(matches!(
        result.unwrap_err(),
        TypeError::UnreachablePattern { arm_index: 2, .. }
    ));
}

#[test]
fn test_int_literal_needs_wildcard() {
    // match n { 0 => "zero", 1 => "one" } - missing other ints!
    let mut tc = TypeChecker::new();
    let module = Module {
        items: vec![Item::Fn(FnDecl {
            name: ident("test"),
            params: vec![Param {
                name: ident("n"),
                ty: Some(ty_int()),
                span: sp(),
            }],
            ret_ty: Some(ty_string()),
            effects: None,
            body: Block {
                stmts: vec![],
                tail: Some(Box::new(expr_match(
                    Expr::Var(ident("n")),
                    vec![
                        make_arm(
                            Pat::Literal(Lit::Int(0), sp()),
                            Expr::Lit(Lit::Str("zero".to_string()), sp()),
                        ),
                        make_arm(
                            Pat::Literal(Lit::Int(1), sp()),
                            Expr::Lit(Lit::Str("one".to_string()), sp()),
                        ),
                    ],
                ))),
                span: sp(),
            },
            span: sp(),
        })],
        span: sp(),
    };
    let result = tc.check_module(&module);
    assert!(result.is_err());
    assert!(matches!(
        result.unwrap_err(),
        TypeError::NonExhaustiveMatch { .. }
    ));
}

#[test]
fn test_int_literal_with_wildcard_exhaustive() {
    // match n { 0 => "zero", _ => "other" } - exhaustive with wildcard
    let mut tc = TypeChecker::new();
    let module = Module {
        items: vec![Item::Fn(FnDecl {
            name: ident("test"),
            params: vec![Param {
                name: ident("n"),
                ty: Some(ty_int()),
                span: sp(),
            }],
            ret_ty: Some(ty_string()),
            effects: None,
            body: Block {
                stmts: vec![],
                tail: Some(Box::new(expr_match(
                    Expr::Var(ident("n")),
                    vec![
                        make_arm(
                            Pat::Literal(Lit::Int(0), sp()),
                            Expr::Lit(Lit::Str("zero".to_string()), sp()),
                        ),
                        make_arm(
                            pat_wildcard(),
                            Expr::Lit(Lit::Str("other".to_string()), sp()),
                        ),
                    ],
                ))),
                span: sp(),
            },
            span: sp(),
        })],
        span: sp(),
    };
    assert!(tc.check_module(&module).is_ok());
}

#[test]
fn test_result_enum_exhaustive() {
    // enum Result<T, E> { Ok(T), Err(E) }
    // match r { Ok(x) => x, Err(_) => -1 } - exhaustive
    let mut tc = TypeChecker::new();
    let module = Module {
        items: vec![
            Item::Enum(make_enum(
                "Result",
                &["T", "E"],
                vec![
                    make_tuple_variant("Ok", vec![ty_adt("T")]),
                    make_tuple_variant("Err", vec![ty_adt("E")]),
                ],
            )),
            Item::Fn(FnDecl {
                name: ident("test"),
                params: vec![Param {
                    name: ident("r"),
                    ty: Some(ty_generic("Result", vec![ty_int(), ty_string()])),
                    span: sp(),
                }],
                ret_ty: Some(ty_int()),
                effects: None,
                body: Block {
                    stmts: vec![],
                    tail: Some(Box::new(expr_match(
                        Expr::Var(ident("r")),
                        vec![
                            make_arm(
                                pat_variant("Result", "Ok", vec![pat_ident("x")]),
                                Expr::Var(ident("x")),
                            ),
                            make_arm(
                                pat_variant("Result", "Err", vec![pat_wildcard()]),
                                Expr::Lit(Lit::Int(-1), sp()),
                            ),
                        ],
                    ))),
                    span: sp(),
                },
                span: sp(),
            }),
        ],
        span: sp(),
    };
    assert!(tc.check_module(&module).is_ok());
}

#[test]
fn test_struct_single_constructor_exhaustive() {
    // struct Point { x: Int, y: Int }
    // match p { Point { x, y } => x + y } - exhaustive (single constructor)
    let mut tc = TypeChecker::new();
    let module = Module {
        items: vec![
            Item::Struct(make_struct(
                "Point",
                &[],
                vec![make_field("x", ty_int()), make_field("y", ty_int())],
            )),
            Item::Fn(FnDecl {
                name: ident("test"),
                params: vec![Param {
                    name: ident("p"),
                    ty: Some(ty_adt("Point")),
                    span: sp(),
                }],
                ret_ty: Some(ty_int()),
                effects: None,
                body: Block {
                    stmts: vec![],
                    tail: Some(Box::new(expr_match(
                        Expr::Var(ident("p")),
                        vec![make_arm(
                            pat_struct("Point", vec![("x", pat_ident("x")), ("y", pat_ident("y"))]),
                            Expr::Binary {
                                lhs: Box::new(Expr::Var(ident("x"))),
                                op: BinOp::Add,
                                rhs: Box::new(Expr::Var(ident("y"))),
                                span: sp(),
                            },
                        )],
                    ))),
                    span: sp(),
                },
                span: sp(),
            }),
        ],
        span: sp(),
    };
    assert!(tc.check_module(&module).is_ok());
}

#[test]
fn test_multiple_redundant_arms() {
    // match b { true => 1, false => 0, _ => 2, false => 3 }
    // Both _ and the second false are redundant, but we report first
    let mut tc = TypeChecker::new();
    let module = Module {
        items: vec![Item::Fn(FnDecl {
            name: ident("test"),
            params: vec![Param {
                name: ident("b"),
                ty: Some(ty_bool()),
                span: sp(),
            }],
            ret_ty: Some(ty_int()),
            effects: None,
            body: Block {
                stmts: vec![],
                tail: Some(Box::new(expr_match(
                    Expr::Var(ident("b")),
                    vec![
                        make_arm(
                            Pat::Literal(Lit::Bool(true), sp()),
                            Expr::Lit(Lit::Int(1), sp()),
                        ),
                        make_arm(
                            Pat::Literal(Lit::Bool(false), sp()),
                            Expr::Lit(Lit::Int(0), sp()),
                        ),
                        make_arm(pat_wildcard(), Expr::Lit(Lit::Int(2), sp())),
                        make_arm(
                            Pat::Literal(Lit::Bool(false), sp()),
                            Expr::Lit(Lit::Int(3), sp()),
                        ),
                    ],
                ))),
                span: sp(),
            },
            span: sp(),
        })],
        span: sp(),
    };
    let result = tc.check_module(&module);
    assert!(result.is_err());
    // First redundant arm is the wildcard at index 2
    assert!(matches!(
        result.unwrap_err(),
        TypeError::UnreachablePattern { arm_index: 2, .. }
    ));
}

#[test]
fn test_destructuring_let_refutable_pattern_error() {
    // let Option::Some(x) = ...; should fail (refutable pattern)

    let mut tc = TypeChecker::new();

    // Register Option enum
    let option_enum = EnumDef {
        name: ident("Option"),
        type_params: vec![ident("T")],
        variants: vec![
            Variant {
                name: ident("Some"),
                fields: VF::Tuple(vec![TypeExpr::Path(vec![ident("T")], sp())]),
                span: sp(),
            },
            Variant {
                name: ident("None"),
                fields: VF::Unit,
                span: sp(),
            },
        ],
        span: sp(),
    };
    tc.check_module(&Module {
        items: vec![Item::Enum(option_enum)],
        span: sp(),
    })
    .unwrap();

    // Try: let Option::Some(x) = Option::Some(42);
    let expr = Expr::Block(Block {
        stmts: vec![Stmt::Let {
            mutable: false,
            pat: Pat::Variant {
                path: Path {
                    segments: vec![ident("Option"), ident("Some")],
                    span: sp(),
                },
                fields: vec![Pat::Ident(ident("x"))],
                span: sp(),
            },
            ty: None,
            value: Expr::Call {
                callee: Box::new(Expr::PathExpr(Path {
                    segments: vec![ident("Option"), ident("Some")],
                    span: sp(),
                })),
                args: vec![Expr::Lit(Lit::Int(42), sp())],
                span: sp(),
            },
            span: sp(),
        }],
        tail: Some(Box::new(Expr::Var(ident("x")))),
        span: sp(),
    });

    let result = tc.infer_expr(&expr);
    assert!(result.is_err());
    assert!(matches!(
        result.unwrap_err(),
        TypeError::RefutablePattern { .. }
    ));
}

#[test]
fn test_capability_in_let_binding_direct() {
    // struct NetCap {}
    // let x = NetCap {};  // should fail - binding holds a capability
    let mut tc = TypeChecker::new();
    let module = Module {
        items: vec![
            Item::Struct(make_struct("NetCap", &[], vec![])),
            Item::Let(LetDecl {
                name: ident("x"),
                ty: None,
                value: expr_struct("NetCap", vec![]),
                span: sp(),
            }),
        ],
        span: sp(),
    };
    let result = tc.check_module(&module);
    assert!(result.is_err(), "expected error but got Ok");
    let err = result.unwrap_err();
    assert!(
        matches!(err, TypeError::CapabilityInBinding { .. }),
        "expected CapabilityInBinding but got: {:?}",
        err
    );
}

#[test]
fn test_capability_in_let_binding_tuple() {
    // struct NetCap {}
    // let x = (1, NetCap {});  // should fail - tuple contains a capability
    let mut tc = TypeChecker::new();
    let module = Module {
        items: vec![
            Item::Struct(make_struct("NetCap", &[], vec![])),
            Item::Let(LetDecl {
                name: ident("x"),
                ty: None,
                value: Expr::Tuple {
                    elems: vec![Expr::Lit(Lit::Int(1), sp()), expr_struct("NetCap", vec![])],
                    span: sp(),
                },
                span: sp(),
            }),
        ],
        span: sp(),
    };
    let result = tc.check_module(&module);
    assert!(result.is_err());
    assert!(matches!(
        result.unwrap_err(),
        TypeError::CapabilityInBinding { .. }
    ));
}

#[test]
fn test_non_capability_in_let_binding_ok() {
    // struct Safe {}
    // let x = (1, Safe {});  // should pass - no capability
    let mut tc = TypeChecker::new();
    let module = Module {
        items: vec![
            Item::Struct(make_struct("Safe", &[], vec![])),
            Item::Let(LetDecl {
                name: ident("x"),
                ty: None,
                value: Expr::Tuple {
                    elems: vec![Expr::Lit(Lit::Int(1), sp()), expr_struct("Safe", vec![])],
                    span: sp(),
                },
                span: sp(),
            }),
        ],
        span: sp(),
    };
    assert!(tc.check_module(&module).is_ok());
}
