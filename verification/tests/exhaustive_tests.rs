use strata::adt::{AdtDef, AdtRegistry, VariantDef};
use strata::ast::{Ident, Lit, MatchArm, Pat, Path, PatField, Span, Expr};
use strata::exhaustive::{
    build_pattern_matrix, check_match, simplify_pattern, Constructor, ExhaustivenessChecker, ExhaustivenessError,
    LiteralPat, PatternMatrix, PatternRow, SimplifiedPat, Witness, WitnessPat,
};
use strata::ty::{Ty, TypeVarId};

fn empty_registry() -> AdtRegistry {
    AdtRegistry::new()
}

fn span() -> Span {
    Span { start: 0, end: 0 }
}

fn ident(s: &str) -> Ident {
    Ident { text: s.to_string(), span: span() }
}

fn path(segs: &[&str]) -> Path {
    Path { segments: segs.iter().map(|s| ident(s)).collect(), span: span() }
}

fn arm(pat: Pat) -> MatchArm {
    MatchArm { pat, body: Expr::Lit(Lit::Nil, span()), span: span() }
}

fn option_registry() -> AdtRegistry {
    let mut reg = AdtRegistry::new();
    reg.register(AdtDef::new_enum(
        "Option",
        vec!["T".into()],
        vec![VariantDef::tuple("Some", vec![Ty::Var(TypeVarId(0))]), VariantDef::unit("None")],
    ))
    .unwrap();
    reg
}

#[test]
fn test_empty_matrix_not_exhaustive() {
    let registry = empty_registry();
    let mut checker = ExhaustivenessChecker::new(&registry, span());
    let matrix = PatternMatrix::new(vec![Ty::int_()]);
    let result = checker.check_exhaustive(&matrix).unwrap();
    assert!(result.is_some());
}

#[test]
fn test_wildcard_exhaustive() {
    let registry = empty_registry();
    let mut checker = ExhaustivenessChecker::new(&registry, span());
    let mut matrix = PatternMatrix::new(vec![Ty::int_()]);
    matrix.add_row(PatternRow::new(vec![SimplifiedPat::Wildcard], 0));
    let result = checker.check_exhaustive(&matrix).unwrap();
    assert!(result.is_none());
}

#[test]
fn test_bool_exhaustive() {
    let registry = empty_registry();
    let mut checker = ExhaustivenessChecker::new(&registry, span());
    let mut matrix = PatternMatrix::new(vec![Ty::bool_()]);
    matrix.add_row(PatternRow::new(vec![SimplifiedPat::Literal(LiteralPat::Bool(true))], 0));
    matrix.add_row(PatternRow::new(vec![SimplifiedPat::Literal(LiteralPat::Bool(false))], 1));
    let result = checker.check_exhaustive(&matrix).unwrap();
    assert!(result.is_none());
}

#[test]
fn test_bool_not_exhaustive() {
    let registry = empty_registry();
    let mut checker = ExhaustivenessChecker::new(&registry, span());
    let mut matrix = PatternMatrix::new(vec![Ty::bool_()]);
    matrix.add_row(PatternRow::new(vec![SimplifiedPat::Literal(LiteralPat::Bool(true))], 0));
    let result = checker.check_exhaustive(&matrix).unwrap();
    assert!(result.is_some());
    let witness = result.unwrap();
    assert_eq!(witness.display(), "false");
}

#[test]
fn test_redundant_after_wildcard() {
    let registry = empty_registry();
    let mut checker = ExhaustivenessChecker::new(&registry, span());
    let mut matrix = PatternMatrix::new(vec![Ty::int_()]);
    matrix.add_row(PatternRow::new(vec![SimplifiedPat::Wildcard], 0));
    matrix.add_row(PatternRow::new(vec![SimplifiedPat::Literal(LiteralPat::Int(42))], 1));
    let redundant = checker.check_redundant(&matrix).unwrap();
    assert_eq!(redundant, vec![1]);
}

#[test]
fn test_no_redundant_patterns() {
    let registry = empty_registry();
    let mut checker = ExhaustivenessChecker::new(&registry, span());
    let mut matrix = PatternMatrix::new(vec![Ty::bool_()]);
    matrix.add_row(PatternRow::new(vec![SimplifiedPat::Literal(LiteralPat::Bool(true))], 0));
    matrix.add_row(PatternRow::new(vec![SimplifiedPat::Literal(LiteralPat::Bool(false))], 1));
    let redundant = checker.check_redundant(&matrix).unwrap();
    assert!(redundant.is_empty());
}

#[test]
fn test_witness_display() {
    let witness = Witness::from_patterns(vec![
        WitnessPat::Constructor { name: "Option::None".to_string(), args: vec![] },
        WitnessPat::Wildcard,
    ]);
    assert_eq!(witness.display(), "(Option::None, _)");

    let witness = Witness::single(WitnessPat::Constructor { name: "Some".to_string(), args: vec![WitnessPat::Wildcard] });
    assert_eq!(witness.display(), "Some(_)");
}

#[test]
fn witness_of_a_wildcard_and_of_a_literal() {
    assert_eq!(Witness::wildcard().display(), "_");
    assert_eq!(Witness::from_patterns(vec![]).display(), "_");
    assert_eq!(WitnessPat::Literal("42".to_string()).display(), "42");
    let nested = WitnessPat::Constructor {
        name: "Pair".to_string(),
        args: vec![WitnessPat::Literal("true".to_string()), WitnessPat::Wildcard],
    };
    assert_eq!(nested.display(), "Pair(true, _)");
}

#[test]
fn enum_missing_variant_is_witnessed() {
    let registry = option_registry();
    let mut checker = ExhaustivenessChecker::new(&registry, span());
    let mut matrix = PatternMatrix::new(vec![Ty::adt("Option", vec![Ty::int_()])]);
    matrix.add_row(PatternRow::new(
        vec![SimplifiedPat::Constructor { name: "Option::Some".to_string(), args: vec![SimplifiedPat::Wildcard] }],
        0,
    ));
    let witness = checker.check_exhaustive(&matrix).unwrap().unwrap();
    assert_eq!(witness.display(), "Option::None");

    matrix.add_row(PatternRow::new(
        vec![SimplifiedPat::Constructor { name: "Option::None".to_string(), args: vec![] }],
        1,
    ));
    assert!(checker.check_exhaustive(&matrix).unwrap().is_none());
    assert!(checker.check_redundant(&matrix).unwrap().is_empty());
}

#[test]
fn nested_missing_case_is_witnessed() {
    let registry = option_registry();
    let mut checker = ExhaustivenessChecker::new(&registry, span());
    let mut matrix = PatternMatrix::new(vec![Ty::adt("Option", vec![Ty::bool_()])]);
    matrix.add_row(PatternRow::new(
        vec![SimplifiedPat::Constructor {
            name: "Option::Some".to_string(),
            args: vec![SimplifiedPat::Literal(LiteralPat::Bool(true))],
        }],
        0,
    ));
    matrix.add_row(PatternRow::new(
        vec![SimplifiedPat::Constructor { name: "Option::None".to_string(), args: vec![] }],
        1,
    ));
    let witness = checker.check_exhaustive(&matrix).unwrap().unwrap();
    assert_eq!(witness.display(), "Option::Some(false)");
}

#[test]
fn matrix_size_and_columns() {
    let mut matrix = PatternMatrix::new(vec![Ty::int_(), Ty::bool_()]);
    assert!(matrix.is_empty());
    assert_eq!(matrix.size(), 0);
    matrix.add_row(PatternRow::new(vec![SimplifiedPat::Wildcard, SimplifiedPat::Wildcard], 0));
    matrix.add_row(PatternRow::new(vec![SimplifiedPat::Wildcard, SimplifiedPat::Wildcard], 1));
    assert_eq!(matrix.num_rows(), 2);
    assert_eq!(matrix.num_columns(), 2);
    assert_eq!(matrix.size(), 4);
    assert_eq!(matrix.first_column_type(), Some(&Ty::int_()));
    let empty_cols = PatternMatrix::with_rows(vec![PatternRow::new(vec![], 0)], vec![]);
    assert_eq!(empty_cols.size(), 1);
    assert_eq!(empty_cols.first_column_type(), None);
}

#[test]
fn row_first_and_rest() {
    let row = PatternRow::new(
        vec![SimplifiedPat::Literal(LiteralPat::Int(1)), SimplifiedPat::Wildcard, SimplifiedPat::Wildcard],
        3,
    );
    assert!(matches!(row.first(), Some(SimplifiedPat::Literal(LiteralPat::Int(1)))));
    assert_eq!(row.rest().len(), 2);
    assert!(PatternRow::new(vec![], 0).first().is_none());
}

#[test]
fn too_large_matrix_is_refused() {
    let registry = empty_registry();
    let mut checker = ExhaustivenessChecker::new(&registry, span());
    let mut matrix = PatternMatrix::new(vec![Ty::int_(), Ty::int_()]);
    for i in 0..5001 {
        matrix.add_row(PatternRow::new(vec![SimplifiedPat::Wildcard, SimplifiedPat::Wildcard], i));
    }
    let err = checker.check_exhaustive(&matrix).unwrap_err();
    assert!(matches!(err, ExhaustivenessError::MatrixTooLarge { size: 10002, .. }));
}

#[test]
fn constructor_names_and_arities() {
    let c = Constructor::new("true", 0);
    assert_eq!(c.name, "true");
    assert_eq!(c.arity, 0);
    let d = Constructor::with_arg_types("Some", vec![Ty::int_()]);
    assert_eq!(d.arity, 1);
    assert_eq!(d.arg_types, vec![Ty::int_()]);
}

#[test]
fn simplify_source_patterns() {
    let reg = empty_registry();
    assert!(matches!(simplify_pattern(&Pat::Ident(ident("x")), &reg), SimplifiedPat::Wildcard));
    assert!(matches!(simplify_pattern(&Pat::Literal(Lit::Float("1.5".into()), span()), &reg), SimplifiedPat::Wildcard));
    match simplify_pattern(&Pat::Literal(Lit::Nil, span()), &reg) {
        SimplifiedPat::Constructor { name, args } => {
            assert_eq!(name, "()");
            assert!(args.is_empty());
        }
        _ => panic!("expected the unit constructor"),
    }
    match simplify_pattern(&Pat::Tuple(vec![Pat::Wildcard(span()), Pat::Literal(Lit::Int(3), span())], span()), &reg) {
        SimplifiedPat::Constructor { name, args } => {
            assert_eq!(name, "Tuple2");
            assert_eq!(args.len(), 2);
            assert!(matches!(args[1], SimplifiedPat::Literal(LiteralPat::Int(3))));
        }
        _ => panic!("expected a tuple constructor"),
    }
    let variant = Pat::Variant { path: path(&["Option", "Some"]), fields: vec![Pat::Ident(ident("v"))], span: span() };
    match simplify_pattern(&variant, &reg) {
        SimplifiedPat::Constructor { name, args } => {
            assert_eq!(name, "Option::Some");
            assert!(matches!(args[0], SimplifiedPat::Wildcard));
        }
        _ => panic!("expected a variant constructor"),
    }
    let strukt = Pat::Struct {
        path: path(&["Point"]),
        fields: vec![
            PatField { name: ident("x"), pat: Pat::Literal(Lit::Bool(true), span()), span: span() },
            PatField { name: ident("y"), pat: Pat::Wildcard(span()), span: span() },
        ],
        span: span(),
    };
    match simplify_pattern(&strukt, &reg) {
        SimplifiedPat::Constructor { name, args } => {
            assert_eq!(name, "Point");
            assert_eq!(args.len(), 2);
            assert!(matches!(args[0], SimplifiedPat::Literal(LiteralPat::Bool(true))));
        }
        _ => panic!("expected a struct constructor"),
    }
    assert!(matches!(
        simplify_pattern(&Pat::Literal(Lit::Str("hi".into()), span()), &reg),
        SimplifiedPat::Literal(LiteralPat::String(ref s)) if s == "hi"
    ));
}

#[test]
fn matrix_of_match_arms() {
    let reg = empty_registry();
    let arms = vec![arm(Pat::Literal(Lit::Int(1), span())), arm(Pat::Wildcard(span()))];
    let m = build_pattern_matrix(&arms, &Ty::int_(), &reg);
    assert_eq!(m.num_rows(), 2);
    assert_eq!(m.num_columns(), 1);
    assert_eq!(m.rows[1].arm_index, 1);
    assert_eq!(m.column_types, vec![Ty::int_()]);
}

#[test]
fn check_match_on_bools() {
    let reg = empty_registry();
    let arms = vec![
        arm(Pat::Literal(Lit::Bool(true), span())),
        arm(Pat::Literal(Lit::Bool(false), span())),
        arm(Pat::Wildcard(span())),
    ];
    let (witness, redundant) = check_match(&arms, &Ty::bool_(), &reg, span()).unwrap();
    assert!(witness.is_none());
    assert_eq!(redundant, vec![2]);

    let (witness, redundant) = check_match(&arms[..1], &Ty::bool_(), &reg, span()).unwrap();
    assert_eq!(witness.unwrap().display(), "false");
    assert!(redundant.is_empty());
}

#[test]
fn check_match_without_arms_misses_everything() {
    let reg = empty_registry();
    let (witness, redundant) = check_match(&[], &Ty::int_(), &reg, span()).unwrap();
    assert_eq!(witness.unwrap().display(), "_");
    assert!(redundant.is_empty());
}

#[test]
fn check_match_flags_every_arm_after_a_binding() {
    let reg = option_registry();
    let arms = vec![
        arm(Pat::Ident(ident("anything"))),
        arm(Pat::Variant { path: path(&["Option", "None"]), fields: vec![], span: span() }),
        arm(Pat::Wildcard(span())),
    ];
    let (witness, redundant) = check_match(&arms, &Ty::adt("Option", vec![Ty::int_()]), &reg, span()).unwrap();
    assert!(witness.is_none());
    assert_eq!(redundant, vec![1, 2]);
}
