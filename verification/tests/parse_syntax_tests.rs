use strata::ast::{BinOp, Expr, Item, Lit, Stmt, TypeExpr};
use strata::parser::parse_str;

fn parse_err(src: &str) {
    assert!(parse_str("<test>", src).is_err(), "expected parse error for: {src}");
}

fn val(m: &str) -> Expr {
    let mut module = parse_str("<mem>", &format!("let v = {m};")).unwrap();
    let Item::Let(ld) = module.items.remove(0) else {
        panic!("expected Let declaration");
    };
    ld.value
}

// ============ Effect annotations and extern functions ============

#[test]
fn fn_with_effect_annotation() {
    let module = parse_str("<test>", "fn f() -> Int & {Fs} { 0 }").unwrap();
    match &module.items[0] {
        Item::Fn(decl) => {
            let effects = decl.effects.as_ref().expect("should have effects");
            assert_eq!(effects.len(), 1);
            assert_eq!(effects[0].text, "Fs");
        },
        _ => panic!("expected fn"),
    }
}

#[test]
fn fn_without_effect_annotation() {
    let module = parse_str("<test>", "fn f() -> Int { 0 }").unwrap();
    match &module.items[0] {
        Item::Fn(decl) => {
            assert!(decl.effects.is_none());
        },
        _ => panic!("expected fn"),
    }
}

#[test]
fn fn_with_empty_effect_annotation() {
    let module = parse_str("<test>", "fn f() -> Int & {} { 0 }").unwrap();
    match &module.items[0] {
        Item::Fn(decl) => {
            let effects = decl.effects.as_ref().expect("should have effects");
            assert_eq!(effects.len(), 0);
        },
        _ => panic!("expected fn"),
    }
}

#[test]
fn fn_with_multiple_effects() {
    let module = parse_str("<test>", "fn f() -> Int & {Net, Fs, Time} { 0 }").unwrap();
    match &module.items[0] {
        Item::Fn(decl) => {
            let effects = decl.effects.as_ref().expect("should have effects");
            assert_eq!(effects.len(), 3);
            assert_eq!(effects[0].text, "Net");
            assert_eq!(effects[1].text, "Fs");
            assert_eq!(effects[2].text, "Time");
        },
        _ => panic!("expected fn"),
    }
}

#[test]
fn fn_with_trailing_comma_effects() {
    let module = parse_str("<test>", "fn f() -> Int & {Fs, Net,} { 0 }").unwrap();
    match &module.items[0] {
        Item::Fn(decl) => {
            let effects = decl.effects.as_ref().expect("should have effects");
            assert_eq!(effects.len(), 2);
        },
        _ => panic!("expected fn"),
    }
}

#[test]
fn extern_fn_parsed() {
    let module = parse_str("<test>", "extern fn read(path: String) -> String & {Fs};").unwrap();
    match &module.items[0] {
        Item::ExternFn(decl) => {
            assert_eq!(decl.name.text, "read");
            assert_eq!(decl.params.len(), 1);
            let effects = decl.effects.as_ref().expect("should have effects");
            assert_eq!(effects.len(), 1);
            assert_eq!(effects[0].text, "Fs");
        },
        _ => panic!("expected extern fn"),
    }
}

#[test]
fn extern_fn_no_effects() {
    let module = parse_str("<test>", "extern fn pure_fn() -> Int;").unwrap();
    match &module.items[0] {
        Item::ExternFn(decl) => {
            assert_eq!(decl.name.text, "pure_fn");
            assert!(decl.effects.is_none());
        },
        _ => panic!("expected extern fn"),
    }
}

#[test]
fn fn_no_return_type_with_effects() {
    let module = parse_str("<test>", "fn f() & {Fs} { 0 }").unwrap();
    match &module.items[0] {
        Item::Fn(decl) => {
            assert!(decl.ret_ty.is_none());
            let effects = decl.effects.as_ref().expect("should have effects");
            assert_eq!(effects.len(), 1);
            assert_eq!(effects[0].text, "Fs");
        },
        _ => panic!("expected fn"),
    }
}

#[test]
fn fn_effect_missing_braces_error() {
    parse_err("fn f() -> Int & Fs { 0 }");
}

#[test]
fn fn_type_with_effects() {
    let module = parse_str("<test>", "let x: fn(Int) -> Int & {Fs} = f;").unwrap();
    match &module.items[0] {
        Item::Let(decl) => {
            assert!(decl.ty.is_some());
        },
        _ => panic!("expected let"),
    }
}

// ============ Errors ============

#[test]
fn missing_semicolon_is_error() {
    let err = parse_str("<mem>", "let a = 1").unwrap_err().message;
    assert!(err.contains("expected Semicolon"));
}

#[test]
fn unexpected_token_top_level() {
    let err = parse_str("<mem>", "42;").unwrap_err().message;
    assert!(err.contains("unexpected token at top level"));
}

// ============ Limits ============

#[test]
fn test_parser_nesting_depth_works() {
    let mut src = String::new();
    for _ in 0..50 {
        src.push_str("{ ");
    }
    src.push_str("1");
    for _ in 0..50 {
        src.push_str(" }");
    }
    let src = format!("let x = {};", src);
    let result = parse_str("<test>", &src);
    assert!(result.is_ok(), "50 nested blocks should work");
}

#[test]
fn test_parser_normal_nesting_depth() {
    let src = r#"
        fn f() {
            if true {
                if true {
                    if true {
                        if true {
                            if true {
                                if true {
                                    if true {
                                        if true {
                                            if true {
                                                1
                                            } else { 0 }
                                        } else { 0 }
                                    } else { 0 }
                                } else { 0 }
                            } else { 0 }
                        } else { 0 }
                    } else { 0 }
                } else { 0 }
            } else { 0 }
        }
    "#;
    let result = parse_str("<test>", src);
    assert!(result.is_ok(), "Normal nesting depth should work");
}

#[test]
fn test_parser_unary_nesting() {
    let mut src = String::from("let x = ");
    for _ in 0..50 {
        src.push('!');
    }
    src.push_str("true;");
    let result = parse_str("<test>", &src);
    assert!(result.is_ok(), "50 nested unary operators should work");
}

#[test]
fn test_parser_paren_nesting() {
    let mut src = String::from("let x = ");
    for _ in 0..50 {
        src.push('(');
    }
    src.push('1');
    for _ in 0..50 {
        src.push(')');
    }
    src.push(';');
    let result = parse_str("<test>", &src);
    assert!(result.is_ok(), "50 nested parens should work");
}

#[test]
fn test_lexer_error_surfaces_in_parser() {
    let src = "let x = 99999999999999999999999999999999;";
    let result = parse_str("<test>", src);
    assert!(result.is_err(), "Integer overflow should cause error");
    let err_msg = result.unwrap_err().message;
    assert!(
        err_msg.contains("Lexer error") && err_msg.contains("integer literal out of range"),
        "Error message should mention lexer error and overflow, got: {}",
        err_msg
    );
}

#[test]
fn test_lexer_error_surfaces_in_expect() {
    let src = "let x = 1 + 99999999999999999999999999999999";
    let result = parse_str("<test>", src);
    assert!(result.is_err(), "Should fail");
    let err_msg = result.unwrap_err().message;
    assert!(
        err_msg.contains("Lexer error") && err_msg.contains("integer literal out of range"),
        "Error should mention lexer error, not 'expected Semicolon', got: {}",
        err_msg
    );
}

#[test]
fn test_deep_else_if_chain_errors() {
    let mut src = String::from("fn f(c: Bool) -> Unit { if c {}");
    for _ in 0..600 {
        src.push_str(" else if c {}");
    }
    src.push_str(" }");
    let result = parse_str("<test>", &src);
    assert!(result.is_err(), "Deep else-if chain should fail");
    let err_msg = result.unwrap_err().message;
    assert!(err_msg.contains("nesting depth"), "Error should mention nesting depth, got: {}", err_msg);
}

// ============ Spans ============

#[test]
fn test_fn_span_ends_at_closing_brace() {
    let module = parse_str("<test>", "fn foo() { 42 }").expect("parse failed");
    if let Item::Fn(decl) = &module.items[0] {
        assert_eq!(decl.span.start, 0);
        assert_eq!(decl.span.end, 15);
    } else {
        panic!("Expected Fn item");
    }
}

#[test]
fn test_let_span_ends_at_semicolon() {
    let module = parse_str("<test>", "let x = 1; let y = 2;").expect("parse failed");
    if let Item::Let(decl1) = &module.items[0] {
        assert_eq!(decl1.span.start, 0);
        assert_eq!(decl1.span.end, 10);
    }
    if let Item::Let(decl2) = &module.items[1] {
        assert_eq!(decl2.span.start, 11);
        assert_eq!(decl2.span.end, 21);
    }
}

#[test]
fn test_call_span_ends_at_rparen() {
    let module = parse_str("<test>", "let x = foo(1, 2);").expect("parse failed");
    if let Item::Let(decl) = &module.items[0] {
        if let Expr::Call { span, .. } = &decl.value {
            assert_eq!(span.start, 8);
            assert_eq!(span.end, 17);
        } else {
            panic!("Expected Call expression");
        }
    }
}

#[test]
fn test_if_span_with_else() {
    let module = parse_str("<test>", "fn f() { if true { 1 } else { 2 } }").expect("parse failed");
    if let Item::Fn(decl) = &module.items[0] {
        if let Some(tail) = &decl.body.tail {
            if let Expr::If { span, .. } = tail.as_ref() {
                assert_eq!(span.start, 9);
                assert_eq!(span.end, 33);
            } else {
                panic!("Expected If expression");
            }
        }
    }
}

#[test]
fn test_while_span() {
    let module = parse_str("<test>", "fn f() { while true { } }").expect("parse failed");
    if let Item::Fn(decl) = &module.items[0] {
        if let Some(tail) = &decl.body.tail {
            if let Expr::While { span, .. } = tail.as_ref() {
                assert_eq!(span.start, 9);
                assert_eq!(span.end, 23);
            } else {
                panic!("Expected While expression");
            }
        }
    }
}

#[test]
fn test_return_span_ends_at_semicolon() {
    let module = parse_str("<test>", "fn f() { return 42; }").expect("parse failed");
    if let Item::Fn(decl) = &module.items[0] {
        if let Stmt::Return { span, .. } = &decl.body.stmts[0] {
            assert_eq!(span.start, 9);
            assert_eq!(span.end, 19);
        } else {
            panic!("Expected Return statement");
        }
    }
}

#[test]
fn test_parse_qualified_type_path() {
    let module = parse_str("<test>", "let x: Foo::Bar = 1;").expect("parse failed");
    if let Item::Let(decl) = &module.items[0] {
        let ty = decl.ty.as_ref().expect("expected type annotation");
        if let TypeExpr::Path(segs, _) = ty {
            assert_eq!(segs.len(), 2);
            assert_eq!(segs[0].text, "Foo");
            assert_eq!(segs[1].text, "Bar");
        } else {
            panic!("Expected Path type expression");
        }
    } else {
        panic!("Expected Let item");
    }
}

#[test]
fn test_parse_triple_qualified_type_path() {
    let module = parse_str("<test>", "let x: A::B::C = 1;").expect("parse failed");
    if let Item::Let(decl) = &module.items[0] {
        let ty = decl.ty.as_ref().expect("expected type annotation");
        if let TypeExpr::Path(segs, _) = ty {
            assert_eq!(segs.len(), 3);
            assert_eq!(segs[0].text, "A");
            assert_eq!(segs[1].text, "B");
            assert_eq!(segs[2].text, "C");
        } else {
            panic!("Expected Path type expression");
        }
    } else {
        panic!("Expected Let item");
    }
}

// ============ Operators, calls, literals, comments ============

#[test]
fn precedence_and_or_eq_rel_add_mul() {
    let e = val("1 + 2*3 == 7 && 4 < 5 || 0 == 1");
    if let Expr::Binary { op: BinOp::Or, lhs, rhs, .. } = e {
        if let Expr::Binary { op: BinOp::And, lhs: and_lhs, rhs: and_rhs, .. } = *lhs {
            if let Expr::Binary { op: BinOp::Eq, lhs: eq_lhs, rhs: eq_rhs, .. } = *and_lhs {
                assert!(matches!(*eq_lhs, Expr::Binary { op: BinOp::Add, .. }));
                assert!(matches!(*eq_rhs, Expr::Lit(_, _)));
            } else {
                panic!("left And should be Eq");
            }
            assert!(matches!(*and_rhs, Expr::Binary { op: BinOp::Lt, .. }));
        } else {
            panic!("lhs should be And");
        }
        assert!(matches!(*rhs, Expr::Binary { op: BinOp::Eq, .. }));
    } else {
        panic!("top should be Or");
    }
}

#[test]
fn arithmetic_relational_equality_logical_layers() {
    let e = val("1 + 2*3 == 7 && 4 < 5 || 0 == 1");
    if let Expr::Binary { op: BinOp::Or, lhs, rhs, .. } = e {
        assert!(matches!(*lhs, Expr::Binary { op: BinOp::And, .. }));
        assert!(matches!(*rhs, Expr::Binary { op: BinOp::Eq, .. }));
    } else {
        panic!("top should be Or");
    }
}

#[test]
fn equality_is_left_associative() {
    let e = val("1 == 1 == 1");
    if let Expr::Binary { op: BinOp::Eq, lhs, rhs, .. } = e {
        assert!(matches!(*lhs, Expr::Binary { op: BinOp::Eq, .. }));
        assert!(matches!(*rhs, Expr::Lit(_, _)));
    } else {
        panic!("top should be Eq");
    }
}

#[test]
fn call_binds_tighter_than_infix() {
    let m = parse_str("<mem>", "let x = f(1) + 2; let y = f(1 + 2);").unwrap();
    let v = |idx: usize| -> &Expr {
        let Item::Let(ld) = &m.items[idx] else {
            panic!("expected Let declaration");
        };
        &ld.value
    };
    match v(0) {
        Expr::Binary { lhs, .. } => assert!(matches!(**lhs, Expr::Call { .. })),
        _ => panic!("x lhs should be a call"),
    }
    match v(1) {
        Expr::Call { args, .. } => assert!(matches!(args[0], Expr::Binary { .. })),
        _ => panic!("y should be a call"),
    }
}

#[test]
fn chained_calls() {
    let m = parse_str("<mem>", "let z = f(g(1), h(2, 3));").unwrap();
    let Item::Let(ld) = &m.items[0] else {
        panic!("expected Let declaration");
    };
    match &ld.value {
        Expr::Call { args, .. } => {
            assert!(matches!(args[0], Expr::Call { .. }));
            assert!(matches!(args[1], Expr::Call { .. }));
        },
        _ => panic!("expected top-level call"),
    }
}

#[test]
fn ints_floats_bools_nil_string_escapes() {
    let m = parse_str(
        "<mem>",
        r#"let a = 42; let b = 3.5; let c = true; let d = nil; let e = "hi\n\"there\"";"#,
    )
    .unwrap();
    let take = |i: usize| -> &Expr {
        let Item::Let(ld) = &m.items[i] else {
            panic!("expected Let declaration");
        };
        &ld.value
    };
    assert!(matches!(take(0), Expr::Lit(Lit::Int(42), _)));
    assert!(matches!(take(1), Expr::Lit(Lit::Float(f), _) if (f.parse::<f64>().unwrap() - 3.5).abs() < 1e-9));
    assert!(matches!(take(2), Expr::Lit(Lit::Bool(true), _)));
    assert!(matches!(take(3), Expr::Lit(Lit::Nil, _)));
    assert!(matches!(take(4), Expr::Lit(Lit::Str(s), _) if s == "hi\n\"there\""));
}

#[test]
fn line_comments_and_ws_are_ignored() {
    let src = r#"
// leading comment
let a = 1; // inline
let b = (  // split
  2
) * 3;
// tail
"#;
    let m = parse_str("<mem>", src).unwrap();
    let take = |i: usize| -> &Expr {
        let Item::Let(ld) = &m.items[i] else {
            panic!("expected Let declaration");
        };
        &ld.value
    };
    assert!(matches!(take(0), Expr::Lit(Lit::Int(1), _)));
    assert!(matches!(take(1), Expr::Binary { .. }));
}

// ============ Further cases ============

#[test]
fn empty_source_is_an_empty_module() {
    let m = parse_str("<mem>", "").unwrap();
    assert!(m.items.is_empty());
    assert_eq!(m.span.start, 0);
    assert_eq!(m.span.end, 0);
}

#[test]
fn module_spans_from_first_token_to_end() {
    let m = parse_str("<mem>", "  let x = 1;  ").unwrap();
    assert_eq!(m.items.len(), 1);
    assert_eq!(m.span.start, 2);
    assert_eq!(m.span.end, 14);
}

#[test]
fn subtraction_groups_to_the_left() {
    let e = val("a - b - c");
    let Expr::Binary { op: BinOp::Sub, lhs, rhs, .. } = e else {
        panic!("top should be Sub");
    };
    assert!(matches!(*lhs, Expr::Binary { op: BinOp::Sub, .. }));
    assert!(matches!(*rhs, Expr::Var(_)));
}

#[test]
fn prefix_binds_tighter_than_multiplication() {
    let e = val("-a * b");
    let Expr::Binary { op: BinOp::Mul, lhs, .. } = e else {
        panic!("top should be Mul");
    };
    assert!(matches!(*lhs, Expr::Unary { .. }));
}

#[test]
fn call_binds_tighter_than_prefix() {
    let e = val("!f(x)");
    let Expr::Unary { expr, .. } = e else {
        panic!("top should be Unary");
    };
    assert!(matches!(*expr, Expr::Call { .. }));
}

#[test]
fn brackets_group_first() {
    let e = val("a * (b + c)");
    let Expr::Binary { op: BinOp::Mul, rhs, .. } = e else {
        panic!("top should be Mul");
    };
    let Expr::Paren { inner, .. } = *rhs else {
        panic!("rhs should be in brackets");
    };
    assert!(matches!(*inner, Expr::Binary { op: BinOp::Add, .. }));
}

#[test]
fn unqualified_upper_case_name_with_braces_is_a_struct() {
    let e = val("Point { x: 1, y }");
    let Expr::StructExpr { path, fields, .. } = e else {
        panic!("expected StructExpr");
    };
    assert_eq!(path.as_str(), "Point");
    assert_eq!(fields.len(), 2);
    assert!(matches!(&fields[1].value, Expr::Var(id) if id.text == "y"));
}

#[test]
fn borrow_and_reference_types_are_refused() {
    let err = parse_str("<mem>", "let x = &y;").unwrap_err().message;
    assert_eq!(err, "unexpected token in expression: Ampersand");
    let err = parse_str("<mem>", "let x: &Int = 1;").unwrap_err().message;
    assert_eq!(err, "expected identifier, found Ampersand");
}

#[test]
fn destructuring_refuses_annotation_and_mut() {
    let err = parse_str("<mem>", "fn f() { let (a, b): Int = p; }").unwrap_err().message;
    assert_eq!(err, "type annotations not supported for destructuring patterns");
    let err = parse_str("<mem>", "fn f() { let mut (a, b) = p; }").unwrap_err().message;
    assert_eq!(err, "`mut` not supported for destructuring patterns");
}

#[test]
fn assignment_needs_a_variable() {
    let err = parse_str("<mem>", "fn f() { g() = 1; }").unwrap_err().message;
    assert_eq!(err, "assignment target must be a variable");
}

#[test]
fn expected_message_names_kind_and_span() {
    let err = parse_str("<mem>", "let a = 1").unwrap_err().message;
    assert_eq!(err, "expected Semicolon, found Eof at Span { start: 9, end: 9 }");
    let err = parse_str("<mem>", "42;").unwrap_err().message;
    assert_eq!(err, "unexpected token at top level: Int(42)");
}

#[test]
fn nesting_limit_is_exact() {
    let chain = |n: usize| {
        let mut src = String::from("fn f(c: Bool) -> Unit { if c {}");
        for _ in 0..n {
            src.push_str(" else if c {}");
        }
        src.push_str(" }");
        src
    };
    assert!(parse_str("<test>", &chain(509)).is_ok());
    let err = parse_str("<test>", &chain(510)).unwrap_err().message;
    assert_eq!(err, "maximum nesting depth exceeded (limit: 512)");
}

#[test]
fn items_stand_in_source_order() {
    let m = parse_str("<mem>", "let a = 1;\nfn f() { a }\nstruct P { x: Int }\n").unwrap();
    let spans: Vec<(u32, u32)> = m
        .items
        .iter()
        .map(|i| match i {
            Item::Let(d) => (d.span.start, d.span.end),
            Item::Fn(d) => (d.span.start, d.span.end),
            Item::ExternFn(d) => (d.span.start, d.span.end),
            Item::Struct(d) => (d.span.start, d.span.end),
            Item::Enum(d) => (d.span.start, d.span.end),
        })
        .collect();
    assert_eq!(spans, vec![(0, 10), (11, 23), (24, 43)]);
    assert_eq!((m.span.start, m.span.end), (0, 44));
}
