use strata::ast::{Block, EnumDef, Expr, Item, Lit, Module, Pat, Stmt, StructDef, TypeExpr, VariantFields};
use strata::parser::parse_str;

fn parse_ok(src: &str) -> Module {
    parse_str("<mem>", src).expect("parse ok")
}

fn first_item(src: &str) -> Item {
    let mut m = parse_ok(src);
    m.items.remove(0)
}

/// Parses `let x = {src};` and returns the value expression.
fn parse_expr_only(src: &str) -> Expr {
    let Item::Let(ld) = first_item(&format!("let x = {src};")) else {
        panic!("expected Let declaration");
    };
    ld.value
}

/// Parses a function and returns its body block.
fn parse_fn_body(src: &str) -> Block {
    let Item::Fn(fd) = first_item(src) else {
        panic!("expected Fn declaration");
    };
    fd.body
}

fn parse_struct(src: &str) -> StructDef {
    match first_item(src) {
        Item::Struct(s) => s,
        _ => panic!("expected Struct"),
    }
}

fn parse_enum(src: &str) -> EnumDef {
    match first_item(src) {
        Item::Enum(e) => e,
        _ => panic!("expected Enum"),
    }
}

// ============ Blocks ============

#[test]
fn block_with_tail_expression() {
    let e = parse_expr_only("{ 1 + 2 }");
    let Expr::Block(block) = e else {
        panic!("expected Block");
    };
    assert!(block.stmts.is_empty());
    assert!(block.tail.is_some());
    let tail = block.tail.unwrap();
    assert!(matches!(*tail, Expr::Binary { .. }));
}

#[test]
fn block_without_tail_trailing_semicolon() {
    let e = parse_expr_only("{ 1 + 2; }");
    let Expr::Block(block) = e else {
        panic!("expected Block");
    };
    assert_eq!(block.stmts.len(), 1);
    assert!(matches!(&block.stmts[0], Stmt::Expr { .. }));
    assert!(block.tail.is_none());
}

#[test]
fn block_with_statements_and_tail() {
    let e = parse_expr_only("{ let x = 1; let y = 2; x + y }");
    let Expr::Block(block) = e else {
        panic!("expected Block");
    };
    assert_eq!(block.stmts.len(), 2);
    assert!(matches!(&block.stmts[0], Stmt::Let { .. }));
    assert!(matches!(&block.stmts[1], Stmt::Let { .. }));
    assert!(block.tail.is_some());
}

#[test]
fn block_with_statements_no_tail() {
    let e = parse_expr_only("{ let x = 1; let y = 2; x + y; }");
    let Expr::Block(block) = e else {
        panic!("expected Block");
    };
    assert_eq!(block.stmts.len(), 3);
    assert!(block.tail.is_none());
}

#[test]
fn empty_block() {
    let e = parse_expr_only("{ }");
    let Expr::Block(block) = e else {
        panic!("expected Block");
    };
    assert!(block.stmts.is_empty());
    assert!(block.tail.is_none());
}

#[test]
fn let_mut_statement() {
    let e = parse_expr_only("{ let mut x = 1; x }");
    let Expr::Block(block) = e else {
        panic!("expected Block");
    };
    assert_eq!(block.stmts.len(), 1);
    let Stmt::Let { mutable, pat: Pat::Ident(name), .. } = &block.stmts[0] else {
        panic!("expected Let statement");
    };
    assert!(*mutable);
    assert_eq!(name.text, "x");
}

#[test]
fn let_immutable_statement() {
    let e = parse_expr_only("{ let x = 1; x }");
    let Expr::Block(block) = e else {
        panic!("expected Block");
    };
    assert_eq!(block.stmts.len(), 1);
    let Stmt::Let { mutable, pat: Pat::Ident(name), .. } = &block.stmts[0] else {
        panic!("expected Let statement");
    };
    assert!(!*mutable);
    assert_eq!(name.text, "x");
}

#[test]
fn let_mut_with_type_annotation() {
    let e = parse_expr_only("{ let mut x: Int = 1; x }");
    let Expr::Block(block) = e else {
        panic!("expected Block");
    };
    let Stmt::Let { mutable, pat: Pat::Ident(name), ty, .. } = &block.stmts[0] else {
        panic!("expected Let statement");
    };
    assert!(*mutable);
    assert_eq!(name.text, "x");
    assert!(ty.is_some());
}

#[test]
fn assignment_statement() {
    let e = parse_expr_only("{ let mut x = 1; x = 2; x }");
    let Expr::Block(block) = e else {
        panic!("expected Block");
    };
    assert_eq!(block.stmts.len(), 2);
    let Stmt::Assign { target, value, .. } = &block.stmts[1] else {
        panic!("expected Assign statement");
    };
    assert_eq!(target.text, "x");
    assert!(matches!(value, Expr::Lit(Lit::Int(2), _)));
}

#[test]
fn return_with_value() {
    let body = parse_fn_body("fn foo() { return 42; }");
    assert_eq!(body.stmts.len(), 1);
    let Stmt::Return { value, .. } = &body.stmts[0] else {
        panic!("expected Return statement");
    };
    assert!(value.is_some());
    let v = value.as_ref().unwrap();
    assert!(matches!(v, Expr::Lit(Lit::Int(42), _)));
}

#[test]
fn return_without_value() {
    let body = parse_fn_body("fn foo() { return; }");
    assert_eq!(body.stmts.len(), 1);
    let Stmt::Return { value, .. } = &body.stmts[0] else {
        panic!("expected Return statement");
    };
    assert!(value.is_none());
}

#[test]
fn return_in_middle_of_block() {
    let body = parse_fn_body("fn foo() { let x = 1; return x; let y = 2; }");
    assert_eq!(body.stmts.len(), 3);
    assert!(matches!(&body.stmts[0], Stmt::Let { .. }));
    assert!(matches!(&body.stmts[1], Stmt::Return { .. }));
    assert!(matches!(&body.stmts[2], Stmt::Let { .. }));
}

#[test]
fn if_without_else() {
    let e = parse_expr_only("if true { 1 }");
    let Expr::If { cond, then_, else_, .. } = e else {
        panic!("expected If");
    };
    assert!(matches!(*cond, Expr::Lit(Lit::Bool(true), _)));
    assert!(then_.tail.is_some());
    assert!(else_.is_none());
}

#[test]
fn if_else() {
    let e = parse_expr_only("if true { 1 } else { 2 }");
    let Expr::If { cond, then_, else_, .. } = e else {
        panic!("expected If");
    };
    assert!(matches!(*cond, Expr::Lit(Lit::Bool(true), _)));
    assert!(then_.tail.is_some());
    assert!(else_.is_some());
    let else_expr = else_.unwrap();
    let Expr::Block(else_block) = *else_expr else {
        panic!("expected Block in else");
    };
    assert!(else_block.tail.is_some());
}

#[test]
fn else_if_chain() {
    let e = parse_expr_only("if true { 1 } else if false { 2 } else { 3 }");
    let Expr::If { cond, then_, else_, .. } = e else {
        panic!("expected If");
    };
    assert!(matches!(*cond, Expr::Lit(Lit::Bool(true), _)));
    assert!(then_.tail.is_some());
    let else_expr = else_.expect("expected else");
    let Expr::If { cond: cond2, then_: then2, else_: else2, .. } = *else_expr else {
        panic!("expected nested If in else");
    };
    assert!(matches!(*cond2, Expr::Lit(Lit::Bool(false), _)));
    assert!(then2.tail.is_some());
    let else2_expr = else2.expect("expected final else");
    assert!(matches!(*else2_expr, Expr::Block(_)));
}

#[test]
fn if_with_complex_condition() {
    let e = parse_expr_only("if x > 5 && y < 10 { 1 } else { 2 }");
    let Expr::If { cond, .. } = e else {
        panic!("expected If");
    };
    assert!(matches!(*cond, Expr::Binary { .. }));
}

#[test]
fn if_with_block_bodies() {
    let e = parse_expr_only("if true { let x = 1; x } else { let y = 2; y }");
    let Expr::If { then_, else_, .. } = e else {
        panic!("expected If");
    };
    assert_eq!(then_.stmts.len(), 1);
    assert!(then_.tail.is_some());
    let else_expr = else_.unwrap();
    let Expr::Block(else_block) = *else_expr else {
        panic!("expected Block in else");
    };
    assert_eq!(else_block.stmts.len(), 1);
    assert!(else_block.tail.is_some());
}

#[test]
fn while_loop_basic() {
    let e = parse_expr_only("while true { 1 }");
    let Expr::While { cond, body, .. } = e else {
        panic!("expected While");
    };
    assert!(matches!(*cond, Expr::Lit(Lit::Bool(true), _)));
    assert!(body.tail.is_some());
}

#[test]
fn while_loop_with_complex_condition() {
    let e = parse_expr_only("while x < 10 { x }");
    let Expr::While { cond, .. } = e else {
        panic!("expected While");
    };
    assert!(matches!(*cond, Expr::Binary { .. }));
}

#[test]
fn while_loop_with_statements() {
    let e = parse_expr_only("while true { let x = 1; x = x + 1; }");
    let Expr::While { body, .. } = e else {
        panic!("expected While");
    };
    assert_eq!(body.stmts.len(), 2);
    assert!(body.tail.is_none());
}

#[test]
fn fn_body_with_statements_and_tail() {
    let body = parse_fn_body("fn add(a: Int, b: Int) -> Int { let sum = a + b; sum }");
    assert_eq!(body.stmts.len(), 1);
    assert!(matches!(&body.stmts[0], Stmt::Let { .. }));
    assert!(body.tail.is_some());
}

#[test]
fn fn_body_with_early_return() {
    let body = parse_fn_body("fn max(a: Int, b: Int) -> Int { if a > b { return a; }; b }");
    assert_eq!(body.stmts.len(), 1);
    assert!(body.tail.is_some());
}

#[test]
fn nested_blocks() {
    let e = parse_expr_only("{ { { 1 } } }");
    let Expr::Block(outer) = e else {
        panic!("expected Block");
    };
    assert!(outer.stmts.is_empty());
    let tail = outer.tail.unwrap();
    let Expr::Block(middle) = *tail else {
        panic!("expected nested Block");
    };
    let tail2 = middle.tail.unwrap();
    let Expr::Block(inner) = *tail2 else {
        panic!("expected nested Block");
    };
    assert!(matches!(*inner.tail.unwrap(), Expr::Lit(Lit::Int(1), _)));
}

#[test]
fn if_inside_while() {
    let e = parse_expr_only("while true { if false { 1 } else { 2 } }");
    let Expr::While { body, .. } = e else {
        panic!("expected While");
    };
    let tail = body.tail.unwrap();
    assert!(matches!(*tail, Expr::If { .. }));
}

#[test]
fn while_inside_if() {
    let e = parse_expr_only("if true { while false { 1 } }");
    let Expr::If { then_, .. } = e else {
        panic!("expected If");
    };
    let tail = then_.tail.unwrap();
    assert!(matches!(*tail, Expr::While { .. }));
}

// ============ Structs and enums ============

#[test]
fn parse_struct_simple() {
    let s = parse_struct("struct Point { x: Int, y: Int }");
    assert_eq!(s.name.text, "Point");
    assert!(s.type_params.is_empty());
    assert_eq!(s.fields.len(), 2);
    assert_eq!(s.fields[0].name.text, "x");
    assert_eq!(s.fields[1].name.text, "y");
}

#[test]
fn parse_struct_empty() {
    let s = parse_struct("struct Empty {}");
    assert_eq!(s.name.text, "Empty");
    assert!(s.type_params.is_empty());
    assert!(s.fields.is_empty());
}

#[test]
fn parse_struct_single_field() {
    let s = parse_struct("struct Wrapper { value: Int }");
    assert_eq!(s.name.text, "Wrapper");
    assert_eq!(s.fields.len(), 1);
    assert_eq!(s.fields[0].name.text, "value");
}

#[test]
fn parse_struct_trailing_comma() {
    let s = parse_struct("struct Point { x: Int, y: Int, }");
    assert_eq!(s.fields.len(), 2);
}

#[test]
fn parse_struct_generic_single() {
    let s = parse_struct("struct Box<T> { value: T }");
    assert_eq!(s.name.text, "Box");
    assert_eq!(s.type_params.len(), 1);
    assert_eq!(s.type_params[0].text, "T");
}

#[test]
fn parse_struct_generic_multiple() {
    let s = parse_struct("struct Pair<A, B> { fst: A, snd: B }");
    assert_eq!(s.name.text, "Pair");
    assert_eq!(s.type_params.len(), 2);
    assert_eq!(s.type_params[0].text, "A");
    assert_eq!(s.type_params[1].text, "B");
}

#[test]
fn parse_enum_unit_variants() {
    let e = parse_enum("enum Color { Red, Green, Blue }");
    assert_eq!(e.name.text, "Color");
    assert!(e.type_params.is_empty());
    assert_eq!(e.variants.len(), 3);
    assert_eq!(e.variants[0].name.text, "Red");
    assert!(matches!(e.variants[0].fields, VariantFields::Unit));
}

#[test]
fn parse_enum_tuple_variant() {
    let e = parse_enum("enum Option<T> { Some(T), None }");
    assert_eq!(e.name.text, "Option");
    assert_eq!(e.type_params.len(), 1);
    assert_eq!(e.type_params[0].text, "T");
    assert_eq!(e.variants.len(), 2);
    assert_eq!(e.variants[0].name.text, "Some");
    let VariantFields::Tuple(ref tys) = e.variants[0].fields else {
        panic!("expected tuple variant");
    };
    assert_eq!(tys.len(), 1);
    assert_eq!(e.variants[1].name.text, "None");
    assert!(matches!(e.variants[1].fields, VariantFields::Unit));
}

#[test]
fn parse_enum_multiple_tuple_fields() {
    let e = parse_enum("enum Result<T, E> { Ok(T), Err(E) }");
    assert_eq!(e.type_params.len(), 2);
    assert_eq!(e.variants.len(), 2);
}

#[test]
fn parse_enum_trailing_comma() {
    let e = parse_enum("enum Bool { True, False, }");
    assert_eq!(e.variants.len(), 2);
}

// ============ Types ============

#[test]
fn parse_type_simple() {
    let Item::Fn(f) = first_item("fn test(x: Int) {}") else {
        panic!("expected fn");
    };
    let ty = f.params[0].ty.as_ref().unwrap();
    assert!(matches!(ty, TypeExpr::Path(segs, _) if segs.len() == 1 && segs[0].text == "Int"));
}

#[test]
fn parse_type_generic() {
    let Item::Fn(f) = first_item("fn test(x: Option<Int>) {}") else {
        panic!("expected fn");
    };
    let ty = f.params[0].ty.as_ref().unwrap();
    let TypeExpr::App { base, args, .. } = ty else {
        panic!("expected App");
    };
    assert_eq!(base.len(), 1);
    assert_eq!(base[0].text, "Option");
    assert_eq!(args.len(), 1);
}

#[test]
fn parse_type_nested_generic() {
    let Item::Fn(f) = first_item("fn test(x: Option<Option<Int>>) {}") else {
        panic!("expected fn");
    };
    let ty = f.params[0].ty.as_ref().unwrap();
    let TypeExpr::App { base, args, .. } = ty else {
        panic!("expected App");
    };
    assert_eq!(base[0].text, "Option");
    let TypeExpr::App { base: inner_base, .. } = &args[0] else {
        panic!("expected nested App");
    };
    assert_eq!(inner_base[0].text, "Option");
}

#[test]
fn parse_type_tuple() {
    let Item::Fn(f) = first_item("fn test(x: (Int, Bool)) {}") else {
        panic!("expected fn");
    };
    let ty = f.params[0].ty.as_ref().unwrap();
    let TypeExpr::Tuple(elems, _) = ty else {
        panic!("expected Tuple type");
    };
    assert_eq!(elems.len(), 2);
}

#[test]
fn parse_type_empty_tuple() {
    let Item::Fn(f) = first_item("fn test(x: ()) {}") else {
        panic!("expected fn");
    };
    let ty = f.params[0].ty.as_ref().unwrap();
    let TypeExpr::Tuple(elems, _) = ty else {
        panic!("expected Tuple type");
    };
    assert!(elems.is_empty());
}

// ============ Match ============

#[test]
fn parse_match_simple() {
    let e = parse_expr_only("match x { 0 => true, _ => false }");
    let Expr::Match { arms, .. } = e else {
        panic!("expected Match");
    };
    assert_eq!(arms.len(), 2);
}

#[test]
fn parse_match_with_wildcard() {
    let e = parse_expr_only("match x { _ => 0 }");
    let Expr::Match { arms, .. } = e else {
        panic!("expected Match");
    };
    assert!(matches!(arms[0].pat, Pat::Wildcard(_)));
}

#[test]
fn parse_match_with_ident_pattern() {
    let e = parse_expr_only("match x { y => y }");
    let Expr::Match { arms, .. } = e else {
        panic!("expected Match");
    };
    let Pat::Ident(id) = &arms[0].pat else {
        panic!("expected Ident pattern");
    };
    assert_eq!(id.text, "y");
}

#[test]
fn parse_match_with_literal_patterns() {
    let e = parse_expr_only("match x { 0 => a, 1 => b, _ => c }");
    let Expr::Match { arms, .. } = e else {
        panic!("expected Match");
    };
    assert_eq!(arms.len(), 3);
    assert!(matches!(&arms[0].pat, Pat::Literal(..)));
    assert!(matches!(&arms[1].pat, Pat::Literal(..)));
    assert!(matches!(&arms[2].pat, Pat::Wildcard(_)));
}

#[test]
fn parse_match_variant_pattern() {
    let e = parse_expr_only("match x { Option::Some(y) => y, Option::None => 0 }");
    let Expr::Match { arms, .. } = e else {
        panic!("expected Match");
    };
    assert_eq!(arms.len(), 2);
    let Pat::Variant { path, fields, .. } = &arms[0].pat else {
        panic!("expected Variant pattern");
    };
    assert_eq!(path.as_str(), "Option::Some");
    assert_eq!(fields.len(), 1);
    let Pat::Variant { path, fields, .. } = &arms[1].pat else {
        panic!("expected Variant pattern");
    };
    assert_eq!(path.as_str(), "Option::None");
    assert!(fields.is_empty());
}

#[test]
fn parse_match_tuple_pattern() {
    let e = parse_expr_only("match x { (a, b) => a }");
    let Expr::Match { arms, .. } = e else {
        panic!("expected Match");
    };
    let Pat::Tuple(elems, _) = &arms[0].pat else {
        panic!("expected Tuple pattern");
    };
    assert_eq!(elems.len(), 2);
}

#[test]
fn parse_match_nested_pattern() {
    let e = parse_expr_only("match x { Option::Some(Option::Some(y)) => y, _ => 0 }");
    let Expr::Match { arms, .. } = e else {
        panic!("expected Match");
    };
    let Pat::Variant { fields, .. } = &arms[0].pat else {
        panic!("expected Variant pattern");
    };
    let Pat::Variant { path, .. } = &fields[0] else {
        panic!("expected nested Variant pattern");
    };
    assert_eq!(path.as_str(), "Option::Some");
}

#[test]
fn parse_match_trailing_comma() {
    let e = parse_expr_only("match x { 0 => a, _ => b, }");
    let Expr::Match { arms, .. } = e else {
        panic!("expected Match");
    };
    assert_eq!(arms.len(), 2);
}

// ============ Tuples, paths, struct expressions ============

#[test]
fn parse_tuple_expr_simple() {
    let e = parse_expr_only("(1, 2)");
    let Expr::Tuple { elems, .. } = e else {
        panic!("expected Tuple");
    };
    assert_eq!(elems.len(), 2);
}

#[test]
fn parse_tuple_expr_triple() {
    let e = parse_expr_only("(1, 2, 3)");
    let Expr::Tuple { elems, .. } = e else {
        panic!("expected Tuple");
    };
    assert_eq!(elems.len(), 3);
}

#[test]
fn parse_tuple_expr_trailing_comma() {
    let e = parse_expr_only("(1, 2,)");
    let Expr::Tuple { elems, .. } = e else {
        panic!("expected Tuple");
    };
    assert_eq!(elems.len(), 2);
}

#[test]
fn parse_tuple_expr_empty() {
    let e = parse_expr_only("()");
    let Expr::Tuple { elems, .. } = e else {
        panic!("expected Tuple");
    };
    assert!(elems.is_empty());
}

#[test]
fn parse_paren_not_tuple() {
    let e = parse_expr_only("(1)");
    let Expr::Paren { .. } = e else {
        panic!("expected Paren, not Tuple");
    };
}

#[test]
fn parse_path_expr_qualified() {
    let e = parse_expr_only("Option::None");
    let Expr::PathExpr(path) = e else {
        panic!("expected PathExpr");
    };
    assert_eq!(path.as_str(), "Option::None");
}

#[test]
fn parse_struct_expr_qualified() {
    let e = parse_expr_only("Foo::Bar { x: 1 }");
    let Expr::StructExpr { path, fields, .. } = e else {
        panic!("expected StructExpr");
    };
    assert_eq!(path.as_str(), "Foo::Bar");
    assert_eq!(fields.len(), 1);
    assert_eq!(fields[0].name.text, "x");
}

#[test]
fn parse_struct_expr_multiple_fields() {
    let e = parse_expr_only("Mod::Point { x: 1, y: 2 }");
    let Expr::StructExpr { fields, .. } = e else {
        panic!("expected StructExpr");
    };
    assert_eq!(fields.len(), 2);
}

#[test]
fn bracketed_single_patterns_are_the_pattern_itself() {
    let m = strata::parser::parse_str("t", "fn f(y: Int) -> Int { match y { (x) => x, (1) => 1, () => 0 } }").unwrap();
    match &m.items[0] {
        strata::ast::Item::Fn(d) => match d.body.tail.as_deref() {
            Some(strata::ast::Expr::Match { arms, .. }) => {
                assert!(matches!(arms[0].pat, strata::ast::Pat::Ident(_)));
                assert!(matches!(arms[1].pat, strata::ast::Pat::Literal(..)));
                assert!(matches!(&arms[2].pat, strata::ast::Pat::Tuple(ps, _) if ps.is_empty()));
            }
            _ => panic!("expected a match"),
        },
        _ => panic!("expected a function"),
    }
}

#[test]
fn small_written_types_parse_to_their_forms() {
    let m = strata::parser::parse_str(
        "t",
        "let a: () = (); let b: (Int) = 1; let c: (Int, Bool) = (1, true); let d: Option<Int> = nil;",
    )
    .unwrap();
    let tys: Vec<&strata::ast::TypeExpr> = m
        .items
        .iter()
        .map(|it| match it {
            strata::ast::Item::Let(d) => d.ty.as_ref().unwrap(),
            _ => panic!("expected a let"),
        })
        .collect();
    assert!(matches!(tys[0], strata::ast::TypeExpr::Tuple(ts, _) if ts.is_empty()));
    assert!(matches!(tys[1], strata::ast::TypeExpr::Path(segs, _) if segs.len() == 1 && segs[0].text == "Int"));
    assert!(matches!(tys[2], strata::ast::TypeExpr::Tuple(ts, _) if ts.len() == 2));
    assert!(matches!(tys[3], strata::ast::TypeExpr::App { base, args, .. } if base.len() == 1 && args.len() == 1));
}

#[test]
fn plain_let_items_keep_names_values_and_spans() {
    let m = parse_ok("let x = 1; let flag = true;");
    assert_eq!(m.items.len(), 2);
    match &m.items[0] {
        Item::Let(d) => {
            assert_eq!(d.name.text, "x");
            assert_eq!((d.name.span.start, d.name.span.end), (4, 5));
            match &d.value {
                Expr::Lit(Lit::Int(1), sp) => assert_eq!((sp.start, sp.end), (8, 9)),
                other => panic!("unexpected value {:?}", other),
            }
        }
        other => panic!("unexpected item {:?}", other),
    }
    match &m.items[1] {
        Item::Let(d) => {
            assert_eq!(d.name.text, "flag");
            match &d.value {
                Expr::Lit(Lit::Bool(true), _) => {}
                other => panic!("unexpected value {:?}", other),
            }
        }
        other => panic!("unexpected item {:?}", other),
    }
}

#[test]
fn empty_braces_parse_as_an_empty_block_expression() {
    match parse_expr_only("{}") {
        Expr::Block(b) => {
            assert!(b.stmts.is_empty());
            assert!(b.tail.is_none());
        }
        other => panic!("unexpected expression {:?}", other),
    }
}

#[test]
fn minimal_if_while_and_match_forms_parse() {
    match parse_expr_only("if true {}") {
        Expr::If { else_, then_, .. } => {
            assert!(else_.is_none());
            assert!(then_.stmts.is_empty());
        }
        other => panic!("unexpected expression {:?}", other),
    }
    match parse_expr_only("while false {}") {
        Expr::While { body, .. } => assert!(body.stmts.is_empty()),
        other => panic!("unexpected expression {:?}", other),
    }
    match parse_expr_only("match 1 {}") {
        Expr::Match { arms, .. } => assert!(arms.is_empty()),
        other => panic!("unexpected expression {:?}", other),
    }
}

#[test]
fn empty_functions_keep_their_names_and_spans() {
    let m = parse_ok("fn main() {} fn helper() {}");
    assert_eq!(m.items.len(), 2);
    match &m.items[0] {
        Item::Fn(f) => {
            assert_eq!(f.name.text, "main");
            assert_eq!((f.name.span.start, f.name.span.end), (3, 7));
            assert!(f.params.is_empty());
            assert!(f.ret_ty.is_none());
            assert!(f.effects.is_none());
            assert!(f.body.stmts.is_empty());
            assert!(f.body.tail.is_none());
        }
        other => panic!("unexpected item {:?}", other),
    }
    match &m.items[1] {
        Item::Fn(f) => assert_eq!(f.name.text, "helper"),
        other => panic!("unexpected item {:?}", other),
    }
}
