//! The type checker's errors and messages, and its conversion of written
//! types into inference types.
use vstd::prelude::*;
use crate::adt::{
    AdtDef, AdtDefM, AdtKindM, AdtRegistry, FieldDef, VariantDef, VariantFieldsM, VariantM, contains_capability,
    duplicate_message, fields_view, find_capability_name, first_cap_name, has_cap, strings_view, variants_view,
};
use crate::assoc::AssocMap;
use crate::ast::{BinOp, EnumDef, Expr, ExternFnDecl, FnDecl, Item, Param, LetDecl, Module, Ident, Span, StructDef, TypeExpr, expr_span, joined_path, join_idents};
use crate::constraint::{CheckContext, InferCtx, MAX_INFER_DEPTH, copy_env, env_vars, free_vars_env, scheme_view};
use crate::infer::{InferError, MAX_TUPLE_ARITY, left_nesting, binary_pairs, binary_result, is_lit, lit_expr_type, lit_type, expr_outcome, lemma_logical_operands_constrained, logical_operand_types, equates_to_bool};
use crate::subst::{SubstError, SubstM, applied};
use crate::solver::{SolveError, Solver, clash_at, trivial_equality, equality_holds, inclusion_holds};
use crate::effects::{CapKind, Effect, cap_named, cap_type_text, effect_name, gated_effect, gating_cap};
use crate::text::{decimal, push_decimal, str_equals};
use crate::shape::{pure_row, resolved_shape};
use crate::ty::{Constraint, Scheme, Ty, TyConst, TyM, TypeVarId, copy_tys, scheme_vars, ty_vars, lemma_tys_view, lemma_tys_view_take, ty_text, ty_view, tys_view};

verus! {

/// Errors found by the type checker.
#[derive(Debug)]
pub enum TypeError {
    /// Expected one type, found another.
    Mismatch { expected: Ty, found: Ty, span: Span },
    /// Reference to an unknown variable.
    UnknownVariable { name: String, span: Span },
    /// Assignment to an immutable variable.
    ImmutableAssignment { name: String, span: Span },
    /// Feature not yet implemented.
    NotImplemented { msg: String, span: Span },
    /// Inference depth limit exceeded.
    DepthLimitExceeded { span: Span },
    /// A type would contain itself.
    OccursCheck { var: TypeVarId, ty: Ty, span: Span },
    /// Different numbers of arguments.
    ArityMismatch { expected: usize, found: usize, span: Span },
    /// An internal invariant failed.
    InvariantViolation { msg: String, span: Span },
    /// A type defined twice.
    DuplicateType { name: String, span: Span },
    /// Reference to an unknown type.
    UnknownType { name: String, span: Span },
    /// Reference to an unknown variant.
    UnknownVariant { ty_name: String, variant: String, span: Span },
    /// A capability stored in a data type.
    CapabilityInAdt { field: String, cap_type: String, span: Span },
    /// A field missing from a struct expression.
    MissingField { struct_name: String, field: String, span: Span },
    /// An unknown field in a struct expression.
    UnknownField { struct_name: String, field: String, span: Span },
    /// A field given twice.
    DuplicateField { field: String, span: Span },
    /// Wrong number of type arguments.
    WrongTypeArgCount { ty_name: String, expected: usize, found: usize, span: Span },
    /// A match that does not cover every case.
    NonExhaustiveMatch { witness: String, span: Span },
    /// A match arm that can never match.
    UnreachablePattern { arm_index: usize, span: Span },
    /// Exhaustiveness checking went over its limits.
    ExhaustivenessLimitExceeded { msg: String, span: Span },
    /// A pattern in a `let` that may not match.
    RefutablePattern { pat_desc: String, span: Span },
    /// A capability stored in a binding.
    CapabilityInBinding { cap_type: String, span: Span },
    /// A data type named like a capability type.
    ReservedTypeName { name: String, span: Span },
    /// An effect annotation naming no effect.
    UnknownEffect { name: String, span: Span },
    /// A function or extern function that declares an effect without a
    /// parameter of the capability type that gates it.
    MissingCapability { fn_name: String, cap_type: String, span: Span },
    /// An extern function without an effect annotation.
    ExternEffectsUndeclared { fn_name: String, span: Span },
}

/// The effect called `name`, if any.
pub open spec fn effect_named(name: Seq<char>) -> Option<Effect> {
    if name == "Fs"@ {
        Some(Effect::Fs)
    } else if name == "Net"@ {
        Some(Effect::Net)
    } else if name == "Time"@ {
        Some(Effect::Time)
    } else if name == "Rand"@ {
        Some(Effect::Rand)
    } else if name == "Ai"@ {
        Some(Effect::Ai)
    } else {
        None
    }
}

/// The effect called `name`, if any.
pub fn effect_from_name(name: &str) -> (r: Option<Effect>)
    ensures
        r == effect_named(name@),
{
    if str_equals(name, "Fs") {
        Some(Effect::Fs)
    } else if str_equals(name, "Net") {
        Some(Effect::Net)
    } else if str_equals(name, "Time") {
        Some(Effect::Time)
    } else if str_equals(name, "Rand") {
        Some(Effect::Rand)
    } else if str_equals(name, "Ai") {
        Some(Effect::Ai)
    } else {
        None
    }
}

/// A hint after an unknown effect written as a capability type's name.
pub open spec fn effect_hint(name: Seq<char>) -> Seq<char> {
    match cap_named(name) {
        Some(k) => ". Did you mean '"@ + effect_name(gated_effect(k)) + "'?"@,
        None => ""@,
    }
}

/// A hint after an unknown type written as an effect's name.
pub open spec fn type_hint(name: Seq<char>) -> Seq<char> {
    match effect_named(name) {
        Some(e) => ". Did you mean '"@ + cap_type_text(gating_cap(e)) + "'?"@,
        None => ""@,
    }
}

/// How a span is printed for diagnostics, such as `Span { start: 1, end: 4 }`.
pub open spec fn span_text(s: Span) -> Seq<char> {
    "Span { start: "@ + decimal(s.start as nat) + ", end: "@ + decimal(s.end as nat) + " }"@
}

/// The message of a type error.
pub open spec fn error_text(e: TypeError) -> Seq<char> {
    match e {
        TypeError::Mismatch { expected, found, span } => "Type mismatch at "@ + span_text(span)
            + ": expected "@ + ty_text(expected@) + ", found "@ + ty_text(found@),
        TypeError::UnknownVariable { name, span } => "Unknown variable '"@ + name@ + "' at "@
            + span_text(span),
        TypeError::ImmutableAssignment { name, span } => "Cannot assign to immutable variable '"@
            + name@ + "' at "@ + span_text(span),
        TypeError::NotImplemented { msg, span } => msg@ + " at "@ + span_text(span),
        TypeError::DepthLimitExceeded { span } => "Type inference depth limit exceeded at "@
            + span_text(span) + " (pathological input)"@,
        TypeError::OccursCheck { var, ty, span } => "Infinite type at "@ + span_text(span) + ": "@
            + var.spec_text() + " occurs in "@ + ty_text(ty@),
        TypeError::ArityMismatch { expected, found, span } => "Arity mismatch at "@ + span_text(span)
            + ": expected "@ + decimal(expected as nat) + " arguments, found "@ + decimal(found as nat),
        TypeError::InvariantViolation { msg, span } => "Internal error at "@ + span_text(span) + ": "@
            + msg@ + " (this is a bug in the type checker)"@,
        TypeError::DuplicateType { name, span } => "Duplicate type definition '"@ + name@ + "' at "@
            + span_text(span),
        TypeError::UnknownType { name, span } => "Unknown type '"@ + name@ + "' at "@ + span_text(span)
            + type_hint(name@),
        TypeError::UnknownVariant { ty_name, variant, span } => "Unknown variant '"@ + ty_name@
            + "::"@ + variant@ + "' at "@ + span_text(span),
        TypeError::CapabilityInAdt { field, cap_type, span } => "Capability '"@ + cap_type@
            + "' cannot be stored in ADT field '"@ + field@ + "' at "@ + span_text(span)
            + ". Storing capabilities requires linear types (planned for Issue 011). Pass capabilities as function parameters instead."@,
        TypeError::MissingField { struct_name, field, span } => "Missing field '"@ + field@
            + "' in struct '"@ + struct_name@ + "' at "@ + span_text(span),
        TypeError::UnknownField { struct_name, field, span } => "Unknown field '"@ + field@
            + "' in struct '"@ + struct_name@ + "' at "@ + span_text(span),
        TypeError::DuplicateField { field, span } => "Duplicate field '"@ + field@
            + "' in struct expression at "@ + span_text(span),
        TypeError::WrongTypeArgCount { ty_name, expected, found, span } => "Type '"@ + ty_name@
            + "' expects "@ + decimal(expected as nat) + " type argument(s), but "@ + decimal(found as nat)
            + " provided at "@ + span_text(span),
        TypeError::NonExhaustiveMatch { witness, span } => "Non-exhaustive match at "@ + span_text(span)
            + ": pattern '"@ + witness@ + "' not covered"@,
        TypeError::UnreachablePattern { arm_index, span } => "Unreachable pattern at "@ + span_text(span)
            + ": arm "@ + decimal(arm_index as nat) + " will never match"@,
        TypeError::ExhaustivenessLimitExceeded { msg, span } => "Exhaustiveness check limit exceeded at "@
            + span_text(span) + ": "@ + msg@,
        TypeError::RefutablePattern { pat_desc, span } => "Refutable pattern in let binding at "@
            + span_text(span) + ": "@ + pat_desc@
            + " may not match all values. Use `match` instead."@,
        TypeError::CapabilityInBinding { cap_type, span } => "Capability '"@ + cap_type@
            + "' cannot be stored in a binding at "@ + span_text(span)
            + ". Pass capabilities as function parameters instead."@,
        TypeError::ReservedTypeName { name, span } => "Type name '"@ + name@
            + "' is reserved for a capability type at "@ + span_text(span),
        TypeError::UnknownEffect { name, span } => "Unknown effect '"@ + name@ + "' at "@ + span_text(span)
            + effect_hint(name@),
        TypeError::MissingCapability { fn_name, cap_type, span } => "Function '"@ + fn_name@
            + "' declares an effect gated by '"@ + cap_type@ + "' but has no parameter of that type at "@
            + span_text(span) + ". help: add a parameter of type "@ + cap_type@,
        TypeError::ExternEffectsUndeclared { fn_name, span } => "extern fn '"@ + fn_name@
            + "' must declare its effects at "@ + span_text(span) + " (write `& {}` for none)"@,
    }
}

pub(crate) fn push_span(out: &mut String, s: Span)
    ensures
        final(out)@ == old(out)@ + span_text(s),
{
    out.append("Span { start: ");
    push_decimal(out, s.start as u64);
    out.append(", end: ");
    push_decimal(out, s.end as u64);
    out.append(" }");
    assert(out@ =~= old(out)@ + span_text(s));
}

impl TypeError {
    /// The message of the error.
    pub fn message(&self) -> (r: String)
        ensures
            r@ == error_text(*self),
    {
        let mut f = String::new();
        match self {
            TypeError::Mismatch { expected, found, span } => {
                f.append("Type mismatch at ");
                push_span(&mut f, *span);
                f.append(": expected ");
                f.append(expected.display().as_str());
                f.append(", found ");
                f.append(found.display().as_str());
            },
            TypeError::UnknownVariable { name, span } => {
                f.append("Unknown variable '");
                f.append(name.as_str());
                f.append("' at ");
                push_span(&mut f, *span);
            },
            TypeError::ImmutableAssignment { name, span } => {
                f.append("Cannot assign to immutable variable '");
                f.append(name.as_str());
                f.append("' at ");
                push_span(&mut f, *span);
            },
            TypeError::NotImplemented { msg, span } => {
                f.append(msg.as_str());
                f.append(" at ");
                push_span(&mut f, *span);
            },
            TypeError::DepthLimitExceeded { span } => {
                f.append("Type inference depth limit exceeded at ");
                push_span(&mut f, *span);
                f.append(" (pathological input)");
            },
            TypeError::OccursCheck { var, ty, span } => {
                f.append("Infinite type at ");
                push_span(&mut f, *span);
                f.append(": ");
                f.append(var.display().as_str());
                f.append(" occurs in ");
                f.append(ty.display().as_str());
            },
            TypeError::ArityMismatch { expected, found, span } => {
                f.append("Arity mismatch at ");
                push_span(&mut f, *span);
                f.append(": expected ");
                push_decimal(&mut f, *expected as u64);
                f.append(" arguments, found ");
                push_decimal(&mut f, *found as u64);
            },
            TypeError::InvariantViolation { msg, span } => {
                f.append("Internal error at ");
                push_span(&mut f, *span);
                f.append(": ");
                f.append(msg.as_str());
                f.append(" (this is a bug in the type checker)");
            },
            TypeError::DuplicateType { name, span } => {
                f.append("Duplicate type definition '");
                f.append(name.as_str());
                f.append("' at ");
                push_span(&mut f, *span);
            },
            TypeError::UnknownType { name, span } => {
                f.append("Unknown type '");
                f.append(name.as_str());
                f.append("' at ");
                push_span(&mut f, *span);
                let ghost before = f@;
                match effect_from_name(name.as_str()) {
                    Some(e) => {
                        f.append(". Did you mean '");
                        f.append(CapKind::from_effect(e).type_name_str());
                        f.append("'?");
                    },
                    None => {},
                }
                proof {
                    reveal_strlit("");
                }
                assert(f@ =~= before + type_hint(name@));
            },
            TypeError::UnknownVariant { ty_name, variant, span } => {
                f.append("Unknown variant '");
                f.append(ty_name.as_str());
                f.append("::");
                f.append(variant.as_str());
                f.append("' at ");
                push_span(&mut f, *span);
            },
            TypeError::CapabilityInAdt { field, cap_type, span } => {
                f.append("Capability '");
                f.append(cap_type.as_str());
                f.append("' cannot be stored in ADT field '");
                f.append(field.as_str());
                f.append("' at ");
                push_span(&mut f, *span);
                f.append(
                    ". Storing capabilities requires linear types (planned for Issue 011). Pass capabilities as function parameters instead.",
                );
            },
            TypeError::MissingField { struct_name, field, span } => {
                f.append("Missing field '");
                f.append(field.as_str());
                f.append("' in struct '");
                f.append(struct_name.as_str());
                f.append("' at ");
                push_span(&mut f, *span);
            },
            TypeError::UnknownField { struct_name, field, span } => {
                f.append("Unknown field '");
                f.append(field.as_str());
                f.append("' in struct '");
                f.append(struct_name.as_str());
                f.append("' at ");
                push_span(&mut f, *span);
            },
            TypeError::DuplicateField { field, span } => {
                f.append("Duplicate field '");
                f.append(field.as_str());
                f.append("' in struct expression at ");
                push_span(&mut f, *span);
            },
            TypeError::WrongTypeArgCount { ty_name, expected, found, span } => {
                f.append("Type '");
                f.append(ty_name.as_str());
                f.append("' expects ");
                push_decimal(&mut f, *expected as u64);
                f.append(" type argument(s), but ");
                push_decimal(&mut f, *found as u64);
                f.append(" provided at ");
                push_span(&mut f, *span);
            },
            TypeError::NonExhaustiveMatch { witness, span } => {
                f.append("Non-exhaustive match at ");
                push_span(&mut f, *span);
                f.append(": pattern '");
                f.append(witness.as_str());
                f.append("' not covered");
            },
            TypeError::UnreachablePattern { arm_index, span } => {
                f.append("Unreachable pattern at ");
                push_span(&mut f, *span);
                f.append(": arm ");
                push_decimal(&mut f, *arm_index as u64);
                f.append(" will never match");
            },
            TypeError::ExhaustivenessLimitExceeded { msg, span } => {
                f.append("Exhaustiveness check limit exceeded at ");
                push_span(&mut f, *span);
                f.append(": ");
                f.append(msg.as_str());
            },
            TypeError::RefutablePattern { pat_desc, span } => {
                f.append("Refutable pattern in let binding at ");
                push_span(&mut f, *span);
                f.append(": ");
                f.append(pat_desc.as_str());
                f.append(" may not match all values. Use `match` instead.");
            },
            TypeError::CapabilityInBinding { cap_type, span } => {
                f.append("Capability '");
                f.append(cap_type.as_str());
                f.append("' cannot be stored in a binding at ");
                push_span(&mut f, *span);
                f.append(". Pass capabilities as function parameters instead.");
            },
            TypeError::ReservedTypeName { name, span } => {
                f.append("Type name '");
                f.append(name.as_str());
                f.append("' is reserved for a capability type at ");
                push_span(&mut f, *span);
            },
            TypeError::UnknownEffect { name, span } => {
                f.append("Unknown effect '");
                f.append(name.as_str());
                f.append("' at ");
                push_span(&mut f, *span);
                let ghost before = f@;
                match CapKind::from_name(name.as_str()) {
                    Some(k) => {
                        f.append(". Did you mean '");
                        f.append(k.gates_effect().name());
                        f.append("'?");
                    },
                    None => {},
                }
                proof {
                    reveal_strlit("");
                }
                assert(f@ =~= before + effect_hint(name@));
            },
            TypeError::MissingCapability { fn_name, cap_type, span } => {
                f.append("Function '");
                f.append(fn_name.as_str());
                f.append("' declares an effect gated by '");
                f.append(cap_type.as_str());
                f.append("' but has no parameter of that type at ");
                push_span(&mut f, *span);
                f.append(". help: add a parameter of type ");
                f.append(cap_type.as_str());
            },
            TypeError::ExternEffectsUndeclared { fn_name, span } => {
                f.append("extern fn '");
                f.append(fn_name.as_str());
                f.append("' must declare its effects at ");
                push_span(&mut f, *span);
                f.append(" (write `& {}` for none)");
            },
        }
        assert(f@ =~= error_text(*self));
        f
    }
}

// ---------------------------------------------------------------------------
// Written types
// ---------------------------------------------------------------------------

/// The errors that converting a written type can give, by their contents.
pub enum ConvError {
    WrongTypeArgCount { ty_name: Seq<char>, expected: nat, found: nat, span: Span },
    UnknownType { name: Seq<char>, span: Span },
    NotImplemented { msg: Seq<char>, span: Span },
}

/// What a type error says, when it is one that converting a type can give.
pub open spec fn conv_error_of(e: TypeError) -> Option<ConvError> {
    match e {
        TypeError::WrongTypeArgCount { ty_name, expected, found, span } => Some(
            ConvError::WrongTypeArgCount { ty_name: ty_name@, expected: expected as nat, found: found as nat, span },
        ),
        TypeError::UnknownType { name, span } => Some(ConvError::UnknownType { name: name@, span }),
        TypeError::NotImplemented { msg, span } => Some(ConvError::NotImplemented { msg: msg@, span }),
        _ => None,
    }
}

/// The built-in type of a name.
pub open spec fn builtin_named(name: Seq<char>) -> Option<TyM> {
    if name == "Unit"@ {
        Some(TyM::Const(TyConst::Unit))
    } else if name == "Bool"@ {
        Some(TyM::Const(TyConst::Bool))
    } else if name == "Int"@ {
        Some(TyM::Const(TyConst::Int))
    } else if name == "Float"@ {
        Some(TyM::Const(TyConst::Float))
    } else if name == "String"@ {
        Some(TyM::Const(TyConst::String))
    } else {
        None
    }
}

/// The type a written type stands for, given the registered data types and
/// the type parameters in scope; or the error that converting it gives.
///
/// A one-segment path is a built-in type, then a type parameter, then a
/// capability type, then a registered type without parameters. A qualified
/// path is not supported. A function type converts its parts in order. A
/// generic application needs a registered type with as many parameters as
/// arguments. The empty tuple is `Unit` and a one-element tuple is its element.
pub open spec fn convert(
    reg: Map<Seq<char>, AdtDefM>,
    params: Map<Seq<char>, TypeVarId>,
    te: TypeExpr,
) -> Result<TyM, ConvError>
    decreases te,
{
    match te {
        TypeExpr::Path(path, span) => if path@.len() == 1 {
            let name = path@[0].text@;
            if builtin_named(name) is Some {
                Ok(builtin_named(name)->Some_0)
            } else if params.contains_key(name) {
                Ok(TyM::Var(params[name]))
            } else if cap_named(name) is Some {
                Ok(TyM::Adt(name, Seq::empty()))
            } else if reg.contains_key(name) {
                if reg[name].type_params.len() > 0 {
                    Err(ConvError::WrongTypeArgCount {
                        ty_name: name,
                        expected: reg[name].type_params.len(),
                        found: 0,
                        span,
                    })
                } else {
                    Ok(TyM::Adt(name, Seq::empty()))
                }
            } else {
                Err(ConvError::UnknownType { name, span })
            }
        } else {
            Err(ConvError::NotImplemented {
                msg: "Qualified type paths not yet supported: "@ + joined_path(path@),
                span,
            })
        },
        TypeExpr::Arrow { params: ps, ret, .. } => match convert_seq(reg, params, ps@) {
            Err(e) => Err(e),
            Ok(pts) => match convert(reg, params, *ret) {
                Err(e) => Err(e),
                Ok(rt) => Ok(TyM::Arrow(pts, Box::new(rt), pure_row())),
            },
        },
        TypeExpr::App { base, args, span } => {
            let name = joined_path(base@);
            if !reg.contains_key(name) {
                Err(ConvError::UnknownType { name, span })
            } else if reg[name].type_params.len() != args@.len() {
                Err(ConvError::WrongTypeArgCount {
                    ty_name: name,
                    expected: reg[name].type_params.len(),
                    found: args@.len(),
                    span,
                })
            } else {
                match convert_seq(reg, params, args@) {
                    Err(e) => Err(e),
                    Ok(ts) => Ok(TyM::Adt(name, ts)),
                }
            }
        },
        TypeExpr::Tuple(elems, _) => if elems@.len() == 0 {
            Ok(TyM::Const(TyConst::Unit))
        } else if elems@.len() == 1 {
            convert(reg, params, elems@[0])
        } else {
            match convert_seq(reg, params, elems@) {
                Err(e) => Err(e),
                Ok(ts) => Ok(TyM::Tuple(ts)),
            }
        },
    }
}

/// The types of a sequence of written types, converted in order and stopping
/// at the first error.
pub open spec fn convert_seq(
    reg: Map<Seq<char>, AdtDefM>,
    params: Map<Seq<char>, TypeVarId>,
    s: Seq<TypeExpr>,
) -> Result<Seq<TyM>, ConvError>
    decreases s,
{
    if s.len() == 0 {
        Ok(Seq::empty())
    } else {
        match convert_seq(reg, params, s.drop_last()) {
            Err(e) => Err(e),
            Ok(prefix) => match convert(reg, params, s.last()) {
                Err(e) => Err(e),
                Ok(t) => Ok(prefix.push(t)),
            },
        }
    }
}

/// Whether a converted result matches its specification.
pub open spec fn conv_result_matches(r: Result<Ty, TypeError>, spec: Result<TyM, ConvError>) -> bool {
    match spec {
        Ok(t) => r matches Ok(x) && x@ == t,
        Err(ce) => r matches Err(e) && conv_error_of(e) == Some(ce),
    }
}

/// Whether a converted sequence matches its specification.
pub open spec fn conv_seq_matches(r: Result<Vec<Ty>, TypeError>, spec: Result<Seq<TyM>, ConvError>) -> bool {
    match spec {
        Ok(ts) => r matches Ok(x) && tys_view(x@) == ts,
        Err(ce) => r matches Err(e) && conv_error_of(e) == Some(ce),
    }
}

/// The type checker: its environment of schemes, its inference context, and
/// its registry of data types.
pub struct TypeChecker {
    env: AssocMap<String, Scheme>,
    infer_ctx: InferCtx,
    adt_registry: AdtRegistry,
}

impl TypeChecker {
    /// The registered data types.
    pub closed spec fn registry(&self) -> Map<Seq<char>, AdtDefM> {
        self.adt_registry@
    }

    /// A checker with an empty environment and the built-in tuple types.
    pub fn new() -> (r: Self)
        ensures
            forall|k: Seq<char>| #[trigger] r.registry().contains_key(k) <==> crate::adt::is_builtin_name(k),
            forall|n: nat| 2 <= n <= 8 ==> #[trigger] r.registry()[crate::adt::tuple_name(n)]
                == crate::adt::builtin_tuple(n),
            r.env_map() == Map::<Seq<char>, Scheme>::empty(),
            r.inference().counter() == 0,
            r.inference().effect_counter() == 0,
            r.inference().collected().len() == 0,
            r.inference().depth() == 0,
    {
        TypeChecker { env: AssocMap::new(), infer_ctx: InferCtx::new(), adt_registry: AdtRegistry::with_builtins() }
    }

    /// The registry of data types.
    pub fn adt_registry(&self) -> (r: &AdtRegistry)
        ensures
            r@ == self.registry(),
    {
        &self.adt_registry
    }

    /// The built-in type of a name, if it names one.
    fn builtin_type(&self, name: &str) -> (r: Option<Ty>)
        ensures
            match builtin_named(name@) {
                Some(t) => r matches Some(x) && x@ == t,
                None => r is None,
            },
    {
        if str_equals(name, "Unit") {
            Some(Ty::unit())
        } else if str_equals(name, "Bool") {
            Some(Ty::bool_())
        } else if str_equals(name, "Int") {
            Some(Ty::int_())
        } else if str_equals(name, "Float") {
            Some(Ty::float())
        } else if str_equals(name, "String") {
            Some(Ty::string())
        } else {
            None
        }
    }

    /// Converts a written type, using the registry for user-defined types.
    ///
    /// A function type converts to a pure arrow; an effect annotation written
    /// on it is not part of the converted type.
    pub fn ty_from_type_expr(&self, te: &TypeExpr) -> (r: Result<Ty, TypeError>)
        ensures
            conv_result_matches(r, convert(self.registry(), Map::empty(), *te)),
    {
        let params: AssocMap<String, TypeVarId> = AssocMap::new();
        self.ty_from_type_expr_with_params(te, &params)
    }

    /// Converts a written type, mapping the names of type parameters to
    /// type variables.
    fn ty_from_type_expr_with_params(&self, te: &TypeExpr, type_params: &AssocMap<String, TypeVarId>) -> (r:
        Result<Ty, TypeError>)
        ensures
            conv_result_matches(r, convert(self.registry(), type_params@, *te)),
        decreases te,
    {
        match te {
            TypeExpr::Path(path, span) => {
                if path.len() == 1 {
                    let name = &path[0].text;
                    match self.builtin_type(name.as_str()) {
                        Some(ty) => {
                            return Ok(ty);
                        },
                        None => {},
                    }
                    match type_params.get(name) {
                        Some(var_id) => {
                            return Ok(Ty::Var(*var_id));
                        },
                        None => {},
                    }
                    if crate::adt::is_capability_type(name.as_str()) {
                        return Ok(Ty::adt0(name.as_str()));
                    }
                    match self.adt_registry.get(name.as_str()) {
                        Some(adt_def) => {
                            if adt_def.arity() > 0 {
                                return Err(TypeError::WrongTypeArgCount {
                                    ty_name: name.clone(),
                                    expected: adt_def.arity(),
                                    found: 0,
                                    span: *span,
                                });
                            }
                            return Ok(Ty::adt0(name.as_str()));
                        },
                        None => {},
                    }
                    Err(TypeError::UnknownType { name: name.clone(), span: *span })
                } else {
                    let full_name = join_idents(path);
                    let mut msg = String::new();
                    msg.append("Qualified type paths not yet supported: ");
                    msg.append(full_name.as_str());
                    Err(TypeError::NotImplemented { msg, span: *span })
                }
            },
            TypeExpr::Arrow { params, ret, .. } => {
                let param_tys = match self.convert_all(params, type_params) {
                    Ok(x) => x,
                    Err(e) => {
                        return Err(e);
                    },
                };
                let ret_ty = match self.ty_from_type_expr_with_params(ret, type_params) {
                    Ok(x) => x,
                    Err(e) => {
                        return Err(e);
                    },
                };
                Ok(Ty::arrow(param_tys, ret_ty))
            },
            TypeExpr::App { base, args, span } => {
                let name = join_idents(base);
                let adt_def = match self.adt_registry.get(name.as_str()) {
                    Some(d) => d,
                    None => {
                        return Err(TypeError::UnknownType { name, span: *span });
                    },
                };
                if adt_def.arity() != args.len() {
                    return Err(TypeError::WrongTypeArgCount {
                        ty_name: name,
                        expected: adt_def.arity(),
                        found: args.len(),
                        span: *span,
                    });
                }
                let type_args = match self.convert_all(args, type_params) {
                    Ok(x) => x,
                    Err(e) => {
                        return Err(e);
                    },
                };
                Ok(Ty::adt(name.as_str(), type_args))
            },
            TypeExpr::Tuple(elems, _span) => {
                if elems.len() == 0 {
                    return Ok(Ty::unit());
                }
                if elems.len() == 1 {
                    return self.ty_from_type_expr_with_params(&elems[0], type_params);
                }
                let elem_tys = match self.convert_all(elems, type_params) {
                    Ok(x) => x,
                    Err(e) => {
                        return Err(e);
                    },
                };
                Ok(Ty::tuple(elem_tys))
            },
        }
    }

    /// Converts written types in order, stopping at the first error.
    fn convert_all(&self, s: &Vec<TypeExpr>, type_params: &AssocMap<String, TypeVarId>) -> (r: Result<
        Vec<Ty>,
        TypeError,
    >)
        ensures
            conv_seq_matches(r, convert_seq(self.registry(), type_params@, s@)),
        decreases s,
    {
        let ghost reg = self.registry();
        let ghost pm = type_params@;
        let mut out: Vec<Ty> = Vec::new();
        let mut i: usize = 0;
        while i < s.len()
            invariant
                i <= s@.len(),
                reg == self.registry(),
                pm == type_params@,
                convert_seq(reg, pm, s@.take(i as int)) == Ok::<Seq<TyM>, ConvError>(tys_view(out@)),
            decreases s@.len() - i,
        {
            assert(decreases_to!(s => s@[i as int]));
            proof {
                assert(s@.take(i + 1).drop_last() =~= s@.take(i as int));
                assert(s@.take(i + 1).last() == s@[i as int]);
            }
            match self.ty_from_type_expr_with_params(&s[i], type_params) {
                Ok(t) => {
                    let ghost before = out@;
                    out.push(t);
                    proof {
                        assert(out@.drop_last() =~= before);
                    }
                },
                Err(e) => {
                    proof {
                        lemma_convert_err_prefix(reg, pm, s@, i + 1, conv_error_of(e)->Some_0);
                    }
                    return Err(e);
                },
            }
            i = i + 1;
        }
        assert(s@.take(s@.len() as int) =~= s@);
        Ok(out)
    }
}

/// Once a prefix fails to convert, the whole sequence fails the same way.
proof fn lemma_convert_err_prefix(
    reg: Map<Seq<char>, AdtDefM>,
    pm: Map<Seq<char>, TypeVarId>,
    s: Seq<TypeExpr>,
    k: int,
    e: ConvError,
)
    requires
        0 <= k <= s.len(),
        convert_seq(reg, pm, s.take(k)) == Err::<Seq<TyM>, ConvError>(e),
    ensures
        convert_seq(reg, pm, s) == Err::<Seq<TyM>, ConvError>(e),
    decreases s.len() - k,
{
    if k == s.len() {
        assert(s.take(k) =~= s);
    } else {
        assert(s.take(k + 1).drop_last() =~= s.take(k));
        lemma_convert_err_prefix(reg, pm, s, k + 1, e);
    }
}

// ---------------------------------------------------------------------------
// Registering data type definitions
// ---------------------------------------------------------------------------

/// The type variable each type parameter name stands for: the `i`-th
/// parameter is `t<i>`; of two parameters of one name, the later counts.
pub open spec fn param_vars(ps: Seq<Ident>) -> Map<Seq<char>, TypeVarId>
    decreases ps.len(),
{
    if ps.len() == 0 {
        Map::empty()
    } else {
        param_vars(ps.drop_last()).insert(ps.last().text@, TypeVarId((ps.len() - 1) as u32))
    }
}

/// Why a data type definition is refused, by its contents: a written type
/// that does not convert, or a capability inside a field.
pub enum DefError {
    Conv(ConvError),
    Cap { field: Seq<char>, cap_type: Seq<char>, span: Span },
}

/// Whether a type error is the one described.
pub open spec fn def_error_matches(e: TypeError, d: DefError) -> bool {
    match d {
        DefError::Conv(c) => conv_error_of(e) == Some(c),
        DefError::Cap { field, cap_type, span } => e matches TypeError::CapabilityInAdt { field: f, cap_type: c, span: s }
            && f@ == field && c@ == cap_type && s == span,
    }
}

/// The name by which a refused capability is reported: the first capability
/// type in the field's type.
pub open spec fn cap_label(t: TyM) -> Seq<char> {
    match first_cap_name(t) {
        Some(n) => n,
        None => "capability"@,
    }
}

/// The fields of a struct, converted in order, or the first error: a type
/// that does not convert, or one that holds a capability.
pub open spec fn struct_fields(
    reg: Map<Seq<char>, AdtDefM>,
    params: Map<Seq<char>, TypeVarId>,
    fs: Seq<crate::ast::Field>,
) -> Result<Seq<(Seq<char>, TyM)>, DefError>
    decreases fs.len(),
{
    if fs.len() == 0 {
        Ok(Seq::empty())
    } else {
        match struct_fields(reg, params, fs.drop_last()) {
            Err(e) => Err(e),
            Ok(prefix) => match convert(reg, params, fs.last().ty) {
                Err(c) => Err(DefError::Conv(c)),
                Ok(t) => if has_cap(t) {
                    Err(DefError::Cap { field: fs.last().name.text@, cap_type: cap_label(t), span: fs.last().span })
                } else {
                    Ok(prefix.push((fs.last().name.text@, t)))
                },
            },
        }
    }
}

/// The model of a registered struct definition.
pub open spec fn struct_model(def: StructDef, fields: Seq<(Seq<char>, TyM)>) -> AdtDefM {
    AdtDefM {
        name: def.name.text@,
        type_params: def.type_params@.map_values(|p: Ident| p.text@),
        kind: AdtKindM::Struct(fields),
    }
}

/// Converted fields hold no capability.
proof fn lemma_struct_fields_no_cap(
    reg: Map<Seq<char>, AdtDefM>,
    params: Map<Seq<char>, TypeVarId>,
    fs: Seq<crate::ast::Field>,
)
    ensures
        struct_fields(reg, params, fs) matches Ok(out) ==> forall|i: int| 0 <= i < out.len() ==> !has_cap(
            #[trigger] out[i].1,
        ),
    decreases fs.len(),
{
    if fs.len() > 0 {
        lemma_struct_fields_no_cap(reg, params, fs.drop_last());
    }
}

/// The map from type parameter names to type variables.
fn param_map_of(ps: &Vec<Ident>) -> (r: AssocMap<String, TypeVarId>)
    ensures
        r@ == param_vars(ps@),
{
    let mut m: AssocMap<String, TypeVarId> = AssocMap::new();
    let mut i: usize = 0;
    while i < ps.len()
        invariant
            i <= ps@.len(),
            m@ == param_vars(ps@.take(i as int)),
        decreases ps@.len() - i,
    {
        assert(ps@.take(i + 1).drop_last() =~= ps@.take(i as int));
        m.insert(ps[i].text.clone(), TypeVarId(i as u32));
        i = i + 1;
    }
    assert(ps@.take(ps@.len() as int) =~= ps@);
    m
}

/// The texts of identifiers.
fn ident_texts(ps: &Vec<Ident>) -> (r: Vec<String>)
    ensures
        strings_view(r@) == ps@.map_values(|p: Ident| p.text@),
{
    let mut out: Vec<String> = Vec::new();
    let mut i: usize = 0;
    while i < ps.len()
        invariant
            i <= ps@.len(),
            out@.len() == i,
            forall|j: int| 0 <= j < i ==> #[trigger] out@[j]@ == ps@[j].text@,
        decreases ps@.len() - i,
    {
        out.push(ps[i].text.clone());
        i = i + 1;
    }
    assert(strings_view(out@) =~= ps@.map_values(|p: Ident| p.text@));
    out
}

/// The label of a capability in a type, as a string.
fn cap_label_of(ty: &Ty) -> (r: String)
    ensures
        r@ == cap_label(ty@),
{
    match find_capability_name(ty) {
        Some(n) => n,
        None => {
            let mut s = String::new();
            s.append("capability");
            proof {
                reveal_strlit("capability");
            }
            s
        },
    }
}

impl TypeChecker {
    /// Registers a struct definition: its type parameters become the type
    /// variables `t0`, `t1`, ... and its field types are converted in order.
    ///
    /// Refused when the name is that of a capability type, when a type of
    /// that name is registered, when a field type does not convert, and when a field's type holds a capability: no struct
    /// stores a capability.
    pub fn register_struct(&mut self, def: &StructDef) -> (r: Result<(), TypeError>)
        ensures
            final(self).env_map() == old(self).env_map(),
            final(self).inference() == old(self).inference(),
            cap_named(def.name.text@) is Some ==> (r matches Err(TypeError::ReservedTypeName { name, span })
                && name@ == def.name.text@ && span == def.span) && final(self).registry() == old(self).registry(),
            cap_named(def.name.text@) is None && old(self).registry().contains_key(def.name.text@) ==> (r matches Err(
                TypeError::DuplicateType { name, span },
            ) && name@ == def.name.text@ && span == def.span) && final(self).registry() == old(self).registry(),
            cap_named(def.name.text@) is None && !old(self).registry().contains_key(def.name.text@) ==> match struct_fields(
                old(self).registry(),
                param_vars(def.type_params@),
                def.fields@,
            ) {
                Err(d) => (r matches Err(e) && def_error_matches(e, d)) && final(self).registry() == old(
                    self,
                ).registry(),
                Ok(fs) => r is Ok && final(self).registry() == old(self).registry().insert(
                    def.name.text@,
                    struct_model(*def, fs),
                ),
            },
            r is Ok ==> (final(self).registry()[def.name.text@].kind matches AdtKindM::Struct(fs) && forall|i: int|
                0 <= i < fs.len() ==> !has_cap(#[trigger] fs[i].1)),
    {
        if CapKind::from_name(def.name.text.as_str()).is_some() {
            return Err(TypeError::ReservedTypeName { name: def.name.text.clone(), span: def.span });
        }
        if self.adt_registry.contains(def.name.text.as_str()) {
            return Err(TypeError::DuplicateType { name: def.name.text.clone(), span: def.span });
        }
        let params = param_map_of(&def.type_params);
        let ghost reg = self.registry();
        let ghost pv = param_vars(def.type_params@);
        let mut fields: Vec<FieldDef> = Vec::new();
        let mut i: usize = 0;
        assert(def.fields@.take(0) =~= Seq::<crate::ast::Field>::empty());
        assert(fields_view(fields@) =~= Seq::<(Seq<char>, TyM)>::empty());
        while i < def.fields.len()
            invariant
                cap_named(def.name.text@) is None,
                i <= def.fields@.len(),
                reg == self.registry(),
                reg == old(self).registry(),
                !reg.contains_key(def.name.text@),
                params@ == pv,
                pv == param_vars(def.type_params@),
                struct_fields(reg, pv, def.fields@.take(i as int)) == Ok::<Seq<(Seq<char>, TyM)>, DefError>(
                    fields_view(fields@),
                ),
            decreases def.fields@.len() - i,
        {
            let field = &def.fields[i];
            assert(def.fields@.take(i + 1).drop_last() =~= def.fields@.take(i as int));
            assert(def.fields@.take(i + 1).last() == def.fields@[i as int]);
            let ty = match self.ty_from_type_expr_with_params(&field.ty, &params) {
                Ok(t) => t,
                Err(e) => {
                    proof {
                        let fs1 = def.fields@.take(i + 1);
                        let c = convert(reg, pv, fs1.last().ty)->Err_0;
                        assert(convert(reg, pv, fs1.last().ty) is Err);
                        assert(struct_fields(reg, pv, fs1) == Err::<Seq<(Seq<char>, TyM)>, DefError>(DefError::Conv(c)));
                        lemma_struct_fields_err_prefix(reg, pv, def.fields@, i + 1);
                        assert(def_error_matches(e, DefError::Conv(c)));
                    }
                    return Err(e);
                },
            };
            if contains_capability(&ty) {
                let cap_type = cap_label_of(&ty);
                proof {
                    lemma_struct_fields_err_prefix(reg, pv, def.fields@, i + 1);
                }
                return Err(TypeError::CapabilityInAdt { field: field.name.text.clone(), cap_type, span: field.span });
            }
            let ghost before = fields@;
            let ghost tv = ty@;
            proof {
                let fs1 = def.fields@.take(i + 1);
                assert(convert(reg, pv, fs1.last().ty) == Ok::<TyM, ConvError>(tv));
                assert(!has_cap(tv));
                assert(struct_fields(reg, pv, fs1) == Ok::<Seq<(Seq<char>, TyM)>, DefError>(
                    fields_view(before).push((field.name.text@, tv)),
                ));
            }
            fields.push(FieldDef { name: field.name.text.clone(), ty });
            proof {
                assert(fields_view(fields@) =~= fields_view(before).push((field.name.text@, tv)));
            }
            i = i + 1;
        }
        assert(def.fields@.take(def.fields@.len() as int) =~= def.fields@);
        let type_params = ident_texts(&def.type_params);
        let adt_def = AdtDef::new_struct(def.name.text.as_str(), type_params, fields);
        proof {
            lemma_struct_fields_no_cap(reg, pv, def.fields@);
        }
        match self.adt_registry.register(adt_def) {
            Ok(()) => Ok(()),
            Err(msg) => Err(TypeError::DuplicateType { name: msg, span: def.span }),
        }
    }
}

/// An error within a prefix of the fields is the error of all of them.
proof fn lemma_struct_fields_err_prefix(
    reg: Map<Seq<char>, AdtDefM>,
    params: Map<Seq<char>, TypeVarId>,
    fs: Seq<crate::ast::Field>,
    k: int,
)
    requires
        0 <= k <= fs.len(),
        struct_fields(reg, params, fs.take(k)) is Err,
    ensures
        struct_fields(reg, params, fs) == struct_fields(reg, params, fs.take(k)),
    decreases fs.len() - k,
{
    if k < fs.len() {
        assert(fs.take(k + 1).drop_last() =~= fs.take(k));
        lemma_struct_fields_err_prefix(reg, params, fs, k + 1);
    } else {
        assert(fs.take(k) =~= fs);
    }
}

/// How a payload type of a variant is named in errors: `Enum::Variant.i`.
pub open spec fn payload_label(enum_name: Seq<char>, v: crate::ast::Variant, i: nat) -> Seq<char> {
    enum_name + "::"@ + v.name.text@ + "."@ + decimal(i)
}

/// The payload types of a variant, converted in order, or the first error: a
/// type that does not convert, or one that holds a capability.
pub open spec fn payload_types(
    reg: Map<Seq<char>, AdtDefM>,
    params: Map<Seq<char>, TypeVarId>,
    enum_name: Seq<char>,
    v: crate::ast::Variant,
    tys: Seq<TypeExpr>,
) -> Result<Seq<TyM>, DefError>
    decreases tys.len(),
{
    if tys.len() == 0 {
        Ok(Seq::empty())
    } else {
        match payload_types(reg, params, enum_name, v, tys.drop_last()) {
            Err(e) => Err(e),
            Ok(prefix) => match convert(reg, params, tys.last()) {
                Err(c) => Err(DefError::Conv(c)),
                Ok(t) => if has_cap(t) {
                    Err(
                        DefError::Cap {
                            field: payload_label(enum_name, v, (tys.len() - 1) as nat),
                            cap_type: cap_label(t),
                            span: v.span,
                        },
                    )
                } else {
                    Ok(prefix.push(t))
                },
            },
        }
    }
}

/// A variant of an enum, with its payload converted, or the first error.
pub open spec fn variant_model(
    reg: Map<Seq<char>, AdtDefM>,
    params: Map<Seq<char>, TypeVarId>,
    enum_name: Seq<char>,
    v: crate::ast::Variant,
) -> Result<VariantM, DefError> {
    match v.fields {
        crate::ast::VariantFields::Unit => Ok(VariantM { name: v.name.text@, fields: VariantFieldsM::Unit }),
        crate::ast::VariantFields::Tuple(tys) => match payload_types(reg, params, enum_name, v, tys@) {
            Err(e) => Err(e),
            Ok(ts) => Ok(VariantM { name: v.name.text@, fields: VariantFieldsM::Tuple(ts) }),
        },
    }
}

/// The variants of an enum, converted in order, or the first error.
pub open spec fn enum_variants(
    reg: Map<Seq<char>, AdtDefM>,
    params: Map<Seq<char>, TypeVarId>,
    enum_name: Seq<char>,
    vs: Seq<crate::ast::Variant>,
) -> Result<Seq<VariantM>, DefError>
    decreases vs.len(),
{
    if vs.len() == 0 {
        Ok(Seq::empty())
    } else {
        match enum_variants(reg, params, enum_name, vs.drop_last()) {
            Err(e) => Err(e),
            Ok(prefix) => match variant_model(reg, params, enum_name, vs.last()) {
                Err(e) => Err(e),
                Ok(vm) => Ok(prefix.push(vm)),
            },
        }
    }
}

/// The model of a registered enum definition.
pub open spec fn enum_model(def: EnumDef, variants: Seq<VariantM>) -> AdtDefM {
    AdtDefM {
        name: def.name.text@,
        type_params: def.type_params@.map_values(|p: Ident| p.text@),
        kind: AdtKindM::Enum(variants),
    }
}

/// Whether no payload type of any variant holds a capability.
pub open spec fn variants_cap_free(vs: Seq<VariantM>) -> bool {
    forall|j: int| 0 <= j < vs.len() ==> match #[trigger] vs[j].fields {
        VariantFieldsM::Tuple(ts) => forall|i: int| 0 <= i < ts.len() ==> !has_cap(#[trigger] ts[i]),
        VariantFieldsM::Unit => true,
    }
}

/// Converted payloads hold no capability.
proof fn lemma_payload_no_cap(
    reg: Map<Seq<char>, AdtDefM>,
    params: Map<Seq<char>, TypeVarId>,
    enum_name: Seq<char>,
    v: crate::ast::Variant,
    tys: Seq<TypeExpr>,
)
    ensures
        payload_types(reg, params, enum_name, v, tys) matches Ok(ts) ==> forall|i: int| 0 <= i < ts.len() ==> !has_cap(
            #[trigger] ts[i],
        ),
    decreases tys.len(),
{
    if tys.len() > 0 {
        lemma_payload_no_cap(reg, params, enum_name, v, tys.drop_last());
    }
}

/// Converted variants hold no capability.
proof fn lemma_variants_no_cap(
    reg: Map<Seq<char>, AdtDefM>,
    params: Map<Seq<char>, TypeVarId>,
    enum_name: Seq<char>,
    vs: Seq<crate::ast::Variant>,
)
    ensures
        enum_variants(reg, params, enum_name, vs) matches Ok(out) ==> variants_cap_free(out),
    decreases vs.len(),
{
    if vs.len() > 0 {
        lemma_variants_no_cap(reg, params, enum_name, vs.drop_last());
        match vs.last().fields {
            crate::ast::VariantFields::Tuple(tys) => lemma_payload_no_cap(reg, params, enum_name, vs.last(), tys@),
            _ => {},
        }
    }
}

/// An error within a prefix of the payload is the error of all of it.
proof fn lemma_payload_err_prefix(
    reg: Map<Seq<char>, AdtDefM>,
    params: Map<Seq<char>, TypeVarId>,
    enum_name: Seq<char>,
    v: crate::ast::Variant,
    tys: Seq<TypeExpr>,
    k: int,
)
    requires
        0 <= k <= tys.len(),
        payload_types(reg, params, enum_name, v, tys.take(k)) is Err,
    ensures
        payload_types(reg, params, enum_name, v, tys) == payload_types(reg, params, enum_name, v, tys.take(k)),
    decreases tys.len() - k,
{
    if k < tys.len() {
        assert(tys.take(k + 1).drop_last() =~= tys.take(k));
        lemma_payload_err_prefix(reg, params, enum_name, v, tys, k + 1);
    } else {
        assert(tys.take(k) =~= tys);
    }
}

/// An error within a prefix of the variants is the error of all of them.
proof fn lemma_variants_err_prefix(
    reg: Map<Seq<char>, AdtDefM>,
    params: Map<Seq<char>, TypeVarId>,
    enum_name: Seq<char>,
    vs: Seq<crate::ast::Variant>,
    k: int,
)
    requires
        0 <= k <= vs.len(),
        enum_variants(reg, params, enum_name, vs.take(k)) is Err,
    ensures
        enum_variants(reg, params, enum_name, vs) == enum_variants(reg, params, enum_name, vs.take(k)),
    decreases vs.len() - k,
{
    if k < vs.len() {
        assert(vs.take(k + 1).drop_last() =~= vs.take(k));
        lemma_variants_err_prefix(reg, params, enum_name, vs, k + 1);
    } else {
        assert(vs.take(k) =~= vs);
    }
}

impl TypeChecker {
    /// Registers an enum definition: its type parameters become the type
    /// variables `t0`, `t1`, ... and the payload types of its variants are
    /// converted in order.
    ///
    /// Refused when the name is that of a capability type, when a type of
    /// that name is registered, when a payload type does not convert, and when a payload type holds a capability: no enum
    /// stores a capability.
    pub fn register_enum(&mut self, def: &EnumDef) -> (r: Result<(), TypeError>)
        ensures
            final(self).env_map() == old(self).env_map(),
            final(self).inference() == old(self).inference(),
            cap_named(def.name.text@) is Some ==> (r matches Err(TypeError::ReservedTypeName { name, span })
                && name@ == def.name.text@ && span == def.span) && final(self).registry() == old(self).registry(),
            cap_named(def.name.text@) is None && old(self).registry().contains_key(def.name.text@) ==> (r matches Err(
                TypeError::DuplicateType { name, span },
            ) && name@ == def.name.text@ && span == def.span) && final(self).registry() == old(self).registry(),
            cap_named(def.name.text@) is None && !old(self).registry().contains_key(def.name.text@) ==> match enum_variants(
                old(self).registry(),
                param_vars(def.type_params@),
                def.name.text@,
                def.variants@,
            ) {
                Err(d) => (r matches Err(e) && def_error_matches(e, d)) && final(self).registry() == old(
                    self,
                ).registry(),
                Ok(vs) => r is Ok && final(self).registry() == old(self).registry().insert(
                    def.name.text@,
                    enum_model(*def, vs),
                ),
            },
            r is Ok ==> (final(self).registry()[def.name.text@].kind matches AdtKindM::Enum(vs)
                && variants_cap_free(vs)),
    {
        if CapKind::from_name(def.name.text.as_str()).is_some() {
            return Err(TypeError::ReservedTypeName { name: def.name.text.clone(), span: def.span });
        }
        if self.adt_registry.contains(def.name.text.as_str()) {
            return Err(TypeError::DuplicateType { name: def.name.text.clone(), span: def.span });
        }
        let params = param_map_of(&def.type_params);
        let ghost reg = self.registry();
        let ghost pv = param_vars(def.type_params@);
        let ghost en = def.name.text@;
        let mut variants: Vec<VariantDef> = Vec::new();
        let mut k: usize = 0;
        assert(def.variants@.take(0) =~= Seq::<crate::ast::Variant>::empty());
        assert(variants_view(variants@) =~= Seq::<VariantM>::empty());
        while k < def.variants.len()
            invariant
                cap_named(def.name.text@) is None,
                k <= def.variants@.len(),
                reg == self.registry(),
                reg == old(self).registry(),
                !reg.contains_key(def.name.text@),
                params@ == pv,
                pv == param_vars(def.type_params@),
                en == def.name.text@,
                enum_variants(reg, pv, en, def.variants@.take(k as int)) == Ok::<Seq<VariantM>, DefError>(
                    variants_view(variants@),
                ),
            decreases def.variants@.len() - k,
        {
            let variant = &def.variants[k];
            assert(def.variants@.take(k + 1).drop_last() =~= def.variants@.take(k as int));
            assert(def.variants@.take(k + 1).last() == def.variants@[k as int]);
            let vdef = match &variant.fields {
                crate::ast::VariantFields::Unit => VariantDef::unit(variant.name.text.as_str()),
                crate::ast::VariantFields::Tuple(type_exprs) => {
                    let mut field_tys: Vec<Ty> = Vec::new();
                    let mut i: usize = 0;
                    assert(type_exprs@.take(0) =~= Seq::<TypeExpr>::empty());
                    while i < type_exprs.len()
                        invariant
                            cap_named(def.name.text@) is None,
                            i <= type_exprs@.len(),
                            reg == self.registry(),
                            params@ == pv,
                            k < def.variants@.len(),
                            reg == old(self).registry(),
                            !reg.contains_key(def.name.text@),
                            pv == param_vars(def.type_params@),
                            en == def.name.text@,
                            enum_variants(reg, pv, en, def.variants@.take(k as int)) == Ok::<Seq<VariantM>, DefError>(
                                variants_view(variants@),
                            ),
                            *variant == def.variants@[k as int],
                            variant.fields == crate::ast::VariantFields::Tuple(*type_exprs),
                            def.variants@.take(k + 1).drop_last() == def.variants@.take(k as int),
                            def.variants@.take(k + 1).last() == def.variants@[k as int],
                            payload_types(reg, pv, en, *variant, type_exprs@.take(i as int)) == Ok::<
                                Seq<TyM>,
                                DefError,
                            >(tys_view(field_tys@)),
                        decreases type_exprs@.len() - i,
                    {
                        assert(type_exprs@.take(i + 1).drop_last() =~= type_exprs@.take(i as int));
                        assert(type_exprs@.take(i + 1).last() == type_exprs@[i as int]);
                        let ty = match self.ty_from_type_expr_with_params(&type_exprs[i], &params) {
                            Ok(t) => t,
                            Err(e) => {
                                proof {
                                    lemma_payload_err_prefix(reg, pv, en, *variant, type_exprs@, i + 1);
                                    lemma_variants_err_prefix(reg, pv, en, def.variants@, k + 1);
                                }
                                return Err(e);
                            },
                        };
                        if contains_capability(&ty) {
                            let cap_type = cap_label_of(&ty);
                            let mut field = String::new();
                            field.append(def.name.text.as_str());
                            field.append("::");
                            field.append(variant.name.text.as_str());
                            field.append(".");
                            push_decimal(&mut field, i as u64);
                            proof {
                                assert(field@ =~= payload_label(en, *variant, i as nat));
                                lemma_payload_err_prefix(reg, pv, en, *variant, type_exprs@, i + 1);
                                lemma_variants_err_prefix(reg, pv, en, def.variants@, k + 1);
                            }
                            return Err(TypeError::CapabilityInAdt { field, cap_type, span: variant.span });
                        }
                        let ghost before_tys = field_tys@;
                        field_tys.push(ty);
                        proof {
                            assert(field_tys@.drop_last() =~= before_tys);
                        }
                        i = i + 1;
                    }
                    assert(type_exprs@.take(type_exprs@.len() as int) =~= type_exprs@);
                    VariantDef::tuple(variant.name.text.as_str(), field_tys)
                },
            };
            let ghost before = variants@;
            variants.push(vdef);
            proof {
                assert(variants_view(variants@) =~= variants_view(before).push(vdef@));
            }
            k = k + 1;
        }
        assert(def.variants@.take(def.variants@.len() as int) =~= def.variants@);
        let type_params = ident_texts(&def.type_params);
        let adt_def = AdtDef::new_enum(def.name.text.as_str(), type_params, variants);
        proof {
            lemma_variants_no_cap(reg, pv, en, def.variants@);
        }
        match self.adt_registry.register(adt_def) {
            Ok(()) => Ok(()),
            Err(msg) => Err(TypeError::DuplicateType { name: msg, span: def.span }),
        }
    }
}

/// Whether operands of these types are what the operation takes: each pair
/// it requires equal is equal.
pub open spec fn operands_fit(op: BinOp, l: TyM, r: TyM) -> bool {
    forall|k: int| 0 <= k < binary_pairs(op, l, r).len() ==> #[trigger] binary_pairs(op, l, r)[k].0 == binary_pairs(op, l, r)[k].1
}

/// The first pair of types that are not equal.
pub open spec fn first_unfit(ps: Seq<(TyM, TyM)>) -> (TyM, TyM) {
    if ps[0].0 != ps[0].1 {
        ps[0]
    } else {
        ps[1]
    }
}

/// The checker's error for an error of constraint generation: a name bound
/// twice by a pattern is reported as a duplicate field, and a tuple over the
/// limit as an arity mismatch.
pub open spec fn type_error_of(e: InferError) -> TypeError {
    match e {
        InferError::UnknownVariable { name, span } => TypeError::UnknownVariable { name, span },
        InferError::ImmutableAssignment { name, span } => TypeError::ImmutableAssignment { name, span },
        InferError::NotImplemented { msg, span } => TypeError::NotImplemented { msg, span },
        InferError::DepthLimitExceeded { span } => TypeError::DepthLimitExceeded { span },
        InferError::DuplicateBinding { name, span } => TypeError::DuplicateField { field: name, span },
        InferError::UnknownType { name, span } => TypeError::UnknownType { name, span },
        InferError::UnknownVariant { ty_name, variant, span } => TypeError::UnknownVariant { ty_name, variant, span },
        InferError::PatternArityMismatch { expected, found, span } => TypeError::ArityMismatch { expected, found, span },
        InferError::MissingField { struct_name, field, span } => TypeError::MissingField { struct_name, field, span },
        InferError::UnknownField { struct_name, field, span } => TypeError::UnknownField { struct_name, field, span },
        InferError::DuplicateField { field, span } => TypeError::DuplicateField { field, span },
        InferError::TupleArityLimit { max, found, span } => TypeError::ArityMismatch { expected: max, found, span },
        InferError::NonExhaustiveMatch { witness, span } => TypeError::NonExhaustiveMatch { witness, span },
        InferError::UnreachablePattern { arm_index, span } => TypeError::UnreachablePattern { arm_index, span },
        InferError::ExhaustivenessLimitExceeded { msg, span } => TypeError::ExhaustivenessLimitExceeded { msg, span },
        InferError::RefutablePattern { pat_desc, span } => TypeError::RefutablePattern { pat_desc, span },
        InferError::CapabilityInBinding { cap_type, span } => TypeError::CapabilityInBinding { cap_type, span },
    }
}

/// Converts an error of constraint generation into the checker's error.
fn infer_error_to_type_error(err: InferError) -> (r: TypeError)
    ensures
        r == type_error_of(err),
{
    match err {
        InferError::UnknownVariable { name, span } => TypeError::UnknownVariable { name, span },
        InferError::ImmutableAssignment { name, span } => TypeError::ImmutableAssignment { name, span },
        InferError::NotImplemented { msg, span } => TypeError::NotImplemented { msg, span },
        InferError::DepthLimitExceeded { span } => TypeError::DepthLimitExceeded { span },
        InferError::DuplicateBinding { name, span } => TypeError::DuplicateField { field: name, span },
        InferError::UnknownType { name, span } => TypeError::UnknownType { name, span },
        InferError::UnknownVariant { ty_name, variant, span } => TypeError::UnknownVariant { ty_name, variant, span },
        InferError::PatternArityMismatch { expected, found, span } => TypeError::ArityMismatch { expected, found, span },
        InferError::MissingField { struct_name, field, span } => TypeError::MissingField { struct_name, field, span },
        InferError::UnknownField { struct_name, field, span } => TypeError::UnknownField { struct_name, field, span },
        InferError::DuplicateField { field, span } => TypeError::DuplicateField { field, span },
        InferError::TupleArityLimit { max, found, span } => TypeError::ArityMismatch { expected: max, found, span },
        InferError::NonExhaustiveMatch { witness, span } => TypeError::NonExhaustiveMatch { witness, span },
        InferError::UnreachablePattern { arm_index, span } => TypeError::UnreachablePattern { arm_index, span },
        InferError::ExhaustivenessLimitExceeded { msg, span } => TypeError::ExhaustivenessLimitExceeded { msg, span },
        InferError::RefutablePattern { pat_desc, span } => TypeError::RefutablePattern { pat_desc, span },
        InferError::CapabilityInBinding { cap_type, span } => TypeError::CapabilityInBinding { cap_type, span },
    }
}

/// Whether `t` is the checker's error for a constraint the solver could not
/// satisfy, at that constraint's span. Failures on effect rows have no error
/// of their own: a mismatch is reported as not supported, and a chain of
/// effect variables that does not end as an internal error.
pub open spec fn solve_error_matches(e: SolveError, t: TypeError) -> bool {
    let span = e.span;
    match e.error {
        crate::unifier::TypeError::Mismatch(expected, found) => t == TypeError::Mismatch { expected, found, span },
        crate::unifier::TypeError::Occurs { var, ty } => t == TypeError::OccursCheck { var, ty, span },
        crate::unifier::TypeError::Arity { left, right } => t == TypeError::ArityMismatch {
            expected: left,
            found: right,
            span,
        },
        crate::unifier::TypeError::EffectMismatch { .. } => t matches TypeError::NotImplemented { msg, span: s } && msg@
            == "Effect mismatch"@ && s == span,
        _ => t matches TypeError::InvariantViolation { msg, span: s } && msg@ == "effect variable chain does not end"@
            && s == span,
    }
}

/// Converts an error of the solver into the checker's error.
fn solve_error_to_type_error(err: SolveError) -> (r: TypeError)
    ensures
        solve_error_matches(err, r),
{
    let span = err.span;
    match err.error {
        crate::unifier::TypeError::Mismatch(expected, found) => TypeError::Mismatch { expected, found, span },
        crate::unifier::TypeError::Occurs { var, ty } => TypeError::OccursCheck { var, ty, span },
        crate::unifier::TypeError::Arity { left, right } => TypeError::ArityMismatch {
            expected: left,
            found: right,
            span,
        },
        crate::unifier::TypeError::EffectMismatch { .. } => {
            let mut msg = String::new();
            msg.append("Effect mismatch");
            TypeError::NotImplemented { msg, span }
        },
        _ => {
            let mut msg = String::new();
            msg.append("effect variable chain does not end");
            TypeError::InvariantViolation { msg, span }
        },
    }
}

impl TypeChecker {
    /// The schemes of the names in the checker's environment.
    pub closed spec fn env_map(&self) -> Map<Seq<char>, Scheme> {
        self.env@
    }

    /// The checker's inference context.
    pub closed spec fn inference(&self) -> InferCtx {
        self.infer_ctx
    }

    /// Infers the type of an expression in the checker's environment: its
    /// constraints are generated and solved, and the solution is applied to
    /// the inferred type. Errors of generation and of solving are converted
    /// into the checker's errors.
    pub fn infer_expr(&mut self, expr: &Expr) -> (r: Result<Ty, TypeError>)
        ensures
            final(self).env_map() == old(self).env_map(),
            final(self).registry() == old(self).registry(),
            old(self).inference().depth() >= MAX_INFER_DEPTH ==> r == Err::<Ty, TypeError>(
                TypeError::DepthLimitExceeded { span: expr_span(*expr) },
            ),
            old(self).inference().depth() + left_nesting(*expr) >= MAX_INFER_DEPTH ==> r matches Err(
                TypeError::DepthLimitExceeded { .. },
            ),
            old(self).inference().depth() < MAX_INFER_DEPTH ==> match *expr {
                Expr::Var(id) => !old(self).env_map().contains_key(id.text@) ==> r == Err::<Ty, TypeError>(
                    TypeError::UnknownVariable { name: id.text, span: id.span },
                ),
                Expr::Tuple { elems, span } => elems@.len() > MAX_TUPLE_ARITY ==> r == Err::<Ty, TypeError>(
                    TypeError::ArityMismatch { expected: MAX_TUPLE_ARITY, found: elems@.len() as usize, span },
                ),
                Expr::StructExpr { .. } => r matches Err(TypeError::NotImplemented { .. }),
                Expr::Lit(l, _) => {
                    &&& r matches Ok(t) ==> t@ == lit_type(l)
                    &&& old(self).inference().collected().len() == 0 ==> (r matches Ok(t) && t@ == lit_type(l))
                },
                Expr::Binary { lhs, op, rhs, span } => {
                    &&& (old(self).inference().collected().len() == 0 && old(self).inference().depth() + 1 < MAX_INFER_DEPTH
                        && is_lit(*lhs) && is_lit(*rhs) && operands_fit(op, lit_expr_type(*lhs), lit_expr_type(*rhs))) ==> (r matches Ok(
                        t,
                    ) && t@ == binary_result(op))
                    &&& (old(self).inference().collected().len() == 0 && old(self).inference().depth() + 1 < MAX_INFER_DEPTH
                        && is_lit(*lhs) && is_lit(*rhs) && !operands_fit(op, lit_expr_type(*lhs), lit_expr_type(*rhs))) ==> (r matches Err(
                        TypeError::Mismatch { expected, found, span: s },
                    ) && s == span && (expected@, found@) == first_unfit(binary_pairs(op, lit_expr_type(*lhs), lit_expr_type(*rhs))))
                },
                _ => true,
            },
            r is Ok ==> final(self).inference().collected().len() == 0,
            old(self).inference().depth() < MAX_INFER_DEPTH ==> (r matches Ok(t) ==> solved_outcome(
                old(self).env_map(),
                *expr,
                old(self).inference(),
                t@,
            )),
    {
        let ctx = CheckContext::from_env(copy_env(&self.env));
        let ghost env0 = self.env@;
        proof {
            assert(ctx.env@.dom() == env0.dom());
        }
        let ty = match self.infer_ctx.infer_expr_ctx(&ctx, expr) {
            Ok(t) => t,
            Err(e) => {
                proof {
                    match expr {
                        Expr::Var(id) => {
                            assert(!env0.contains_key(id.text@) ==> !ctx.env@.contains_key(id.text@));
                        },
                        _ => {},
                    }
                }
                return Err(infer_error_to_type_error(e));
            },
        };
        let ghost raw = ty@;
        let ghost generated = self.infer_ctx;
        let ghost t0 = ty;
        let ghost gathered = self.infer_ctx.collected();
        let constraints = self.infer_ctx.take_constraints();
        let mut solver = Solver::new();
        proof {
            if expr is Binary {
                let lhs = expr->Binary_lhs;
                let rhs = expr->Binary_rhs;
                let op = expr->Binary_op;
                if old(self).inference().collected().len() == 0 && old(self).inference().depth() + 1 < MAX_INFER_DEPTH
                    && is_lit(*lhs) && is_lit(*rhs) && operands_fit(op, lit_expr_type(*lhs), lit_expr_type(*rhs)) {
                    let ps = binary_pairs(op, lit_expr_type(*lhs), lit_expr_type(*rhs));
                    assert forall|i: int| 0 <= i < constraints@.len() implies #[trigger] trivial_equality(
                        solver.current(),
                        constraints@[i],
                    ) by {
                        assert(constraints@[i] == gathered[0 + i]);
                        assert(ps[i].0 == ps[i].1);
                    }
                }
                if old(self).inference().collected().len() == 0 && old(self).inference().depth() + 1 < MAX_INFER_DEPTH
                    && is_lit(*lhs) && is_lit(*rhs) && !operands_fit(op, lit_expr_type(*lhs), lit_expr_type(*rhs)) {
                    let ps = binary_pairs(op, lit_expr_type(*lhs), lit_expr_type(*rhs));
                    let j: int = if ps[0].0 != ps[0].1 { 0 } else { 1 };
                    assert(ps[j] == first_unfit(ps));
                    assert(ps[j].0 != ps[j].1);
                    assert forall|i: int| 0 <= i < constraints@.len() implies (#[trigger] constraints@[i]) is Equal by {
                        assert(constraints@[i] == gathered[0 + i]);
                    }
                    assert forall|k: int| 0 <= k < j implies #[trigger] trivial_equality(solver.current(), constraints@[k]) by {
                        assert(constraints@[k] == gathered[0 + k]);
                    }
                    assert(constraints@[j] == gathered[0 + j]);
                    assert(clash_at(solver.current(), constraints@, j));
                }
            }
        }
        let subst = match solver.solve(constraints) {
            Ok(s) => s,
            Err(e) => {
                return Err(solve_error_to_type_error(e));
            },
        };
        match subst.apply(&ty) {
            Ok(t) => {
                proof {
                    if old(self).inference().depth() < MAX_INFER_DEPTH {
                        let env2 = ctx.env@;
                        let sv = subst@;
                        assert(expr_outcome(env2, *expr, old(self).inference(), generated, Ok::<Ty, InferError>(t0)));
                        assert(applied(sv, t0@) == Ok::<TyM, SubstError>(t@));
                        assert forall|i: int| 0 <= i < generated.collected().len() implies equality_holds(sv, #[trigger] generated.collected()[i])
                            && inclusion_holds(sv, generated.collected()[i]) by {
                            assert(generated.collected()[i] == gathered[i]);
                        }
                        assert(solved_outcome(old(self).env_map(), *expr, old(self).inference(), t@));
                    }
                }
                Ok(t)
            },
            Err(_) => {
                let mut msg = String::new();
                msg.append("the solution could not be applied");
                Err(TypeError::InvariantViolation { msg, span: expr.span() })
            },
        }
    }
}


/// Whether `t` is the type that inference gives an expression: generating
/// constraints from `start`, in an environment with the schemes of `env`,
/// yields a type and a list of constraints, and `t` is that type under a
/// substitution that meets every one of them.
pub open spec fn solved_outcome(env: Map<Seq<char>, Scheme>, e: Expr, start: InferCtx, t: TyM) -> bool {
    exists|env2: Map<Seq<char>, Scheme>, c: InferCtx, t0: Ty, s: SubstM|
        #![trigger expr_outcome(env2, e, start, c, Ok::<Ty, InferError>(t0)), applied(s, t0@)]
        {
            &&& env2.dom() == env.dom()
            &&& forall|k: Seq<char>| #[trigger] env2.contains_key(k) ==> scheme_view(env2[k]) == scheme_view(env[k])
            &&& expr_outcome(env2, e, start, c, Ok::<Ty, InferError>(t0))
            &&& forall|i: int| 0 <= i < c.collected().len() ==> equality_holds(s, #[trigger] c.collected()[i])
                && inclusion_holds(s, c.collected()[i])
            &&& applied(s, t0@) == Ok::<TyM, SubstError>(t)
        }
}

/// The type inferred for `l && r` or `l || r` is `Bool`, and the solution
/// behind it makes the types of both operands `Bool`.
pub proof fn lemma_logical_operands_solve_to_bool(env: Map<Seq<char>, Scheme>, e: Expr, start: InferCtx, t: TyM)
    requires
        e matches Expr::Binary { op, .. } && (op is And || op is Or),
        solved_outcome(env, e, start, t),
    ensures
        t == TyM::Const(TyConst::Bool),
        exists|s: SubstM, lt: TyM, rt: TyM|
            #![trigger logical_operand_types(e, lt, rt), resolved_shape(s.types, lt), resolved_shape(s.types, rt)]
            logical_operand_types(e, lt, rt) && resolved_shape(s.types, lt) == TyM::Const(TyConst::Bool) && resolved_shape(
                s.types,
                rt,
            ) == TyM::Const(TyConst::Bool),
{
    let (env2, c, t0, s) = choose|env2: Map<Seq<char>, Scheme>, c: InferCtx, t0: Ty, s: SubstM|
        #![trigger expr_outcome(env2, e, start, c, Ok::<Ty, InferError>(t0)), applied(s, t0@)]
        {
            &&& env2.dom() == env.dom()
            &&& forall|k: Seq<char>| #[trigger] env2.contains_key(k) ==> scheme_view(env2[k]) == scheme_view(env[k])
            &&& expr_outcome(env2, e, start, c, Ok::<Ty, InferError>(t0))
            &&& forall|i: int| 0 <= i < c.collected().len() ==> equality_holds(s, #[trigger] c.collected()[i])
                && inclusion_holds(s, c.collected()[i])
            &&& applied(s, t0@) == Ok::<TyM, SubstError>(t)
        };
    lemma_logical_operands_constrained(env2, e, start, c, t0);
    let (lt, rt) = choose|lt: TyM, rt: TyM|
        #![trigger logical_operand_types(e, lt, rt)]
        logical_operand_types(e, lt, rt) && equates_to_bool(c.collected(), lt) && equates_to_bool(c.collected(), rt);
    let cs = c.collected();
    let i = choose|i: int| 0 <= i < cs.len() && (#[trigger] cs[i] matches Constraint::Equal(x, y, _) && x@ == lt && y@
        == TyM::Const(TyConst::Bool));
    let j = choose|j: int| 0 <= j < cs.len() && (#[trigger] cs[j] matches Constraint::Equal(x, y, _) && x@ == rt && y@
        == TyM::Const(TyConst::Bool));
    assert(equality_holds(s, cs[i]));
    assert(equality_holds(s, cs[j]));
    assert(resolved_shape(s.types, lt) == TyM::Const(TyConst::Bool));
    assert(resolved_shape(s.types, rt) == TyM::Const(TyConst::Bool));
}

/// `l && r` and `l || r` with literal operands have an inferred type only
/// when both literals are booleans; `true && 1` has none.
pub proof fn lemma_logical_literals_are_bool(env: Map<Seq<char>, Scheme>, e: Expr, start: InferCtx, t: TyM)
    requires
        e matches Expr::Binary { lhs, op, rhs, .. } && (op is And || op is Or) && is_lit(*lhs) && is_lit(*rhs),
        solved_outcome(env, e, start, t),
    ensures
        e matches Expr::Binary { lhs, rhs, .. } && lit_expr_type(*lhs) == TyM::Const(TyConst::Bool) && lit_expr_type(*rhs)
            == TyM::Const(TyConst::Bool),
{
    lemma_logical_operands_solve_to_bool(env, e, start, t);
    let (s, lt, rt) = choose|s: SubstM, lt: TyM, rt: TyM|
        #![trigger logical_operand_types(e, lt, rt), resolved_shape(s.types, lt), resolved_shape(s.types, rt)]
        logical_operand_types(e, lt, rt) && resolved_shape(s.types, lt) == TyM::Const(TyConst::Bool) && resolved_shape(
            s.types,
            rt,
        ) == TyM::Const(TyConst::Bool);
    match e {
        Expr::Binary { lhs, rhs, .. } => {
            assert(lt == lit_expr_type(*lhs));
            assert(rt == lit_expr_type(*rhs));
            match *lhs {
                Expr::Lit(l, _) => {
                    assert(resolved_shape(s.types, lt) == lt);
                },
                _ => {},
            }
            match *rhs {
                Expr::Lit(l, _) => {
                    assert(resolved_shape(s.types, rt) == rt);
                },
                _ => {},
            }
        },
        _ => {},
    }
}

/// A type with the type variables `t0`, `t1`, ... replaced by the types at
/// those positions; other variables stay.
pub open spec fn remap_spec(t: TyM, targets: Seq<TyM>) -> TyM
    decreases t,
{
    match t {
        TyM::Var(v) => if (v.0 as int) < targets.len() {
            targets[v.0 as int]
        } else {
            t
        },
        TyM::Const(_) => t,
        TyM::Cap(_) => t,
        TyM::Never => t,
        TyM::Arrow(ps, r, e) => TyM::Arrow(remap_seq(ps, targets), Box::new(remap_spec(*r, targets)), e),
        TyM::Tuple(xs) => TyM::Tuple(remap_seq(xs, targets)),
        TyM::List(x) => TyM::List(Box::new(remap_spec(*x, targets))),
        TyM::Adt(n, args) => TyM::Adt(n, remap_seq(args, targets)),
    }
}

/// A sequence of types, each remapped.
pub open spec fn remap_seq(s: Seq<TyM>, targets: Seq<TyM>) -> Seq<TyM>
    decreases s,
{
    if s.len() == 0 {
        Seq::empty()
    } else {
        remap_seq(s.drop_last(), targets).push(remap_spec(s.last(), targets))
    }
}

/// Replaces the type variables `t0`, `t1`, ... of a type by the types at
/// those positions of `targets`.
fn remap_type_vars(ty: &Ty, targets: &Vec<Ty>) -> (r: Ty)
    ensures
        r@ == remap_spec(ty@, tys_view(targets@)),
    decreases ty,
{
    proof {
        lemma_tys_view(targets@);
    }
    match ty {
        Ty::Var(v) => {
            if (v.0 as usize) < targets.len() {
                targets[v.0 as usize].copy()
            } else {
                Ty::Var(*v)
            }
        },
        Ty::Const(c) => Ty::Const(*c),
        Ty::Cap(k) => Ty::Cap(*k),
        Ty::Never => Ty::Never,
        Ty::Arrow(ps, ret, e) => {
            let ps2 = remap_all(ps, targets);
            let r2 = remap_type_vars(ret, targets);
            Ty::Arrow(ps2, Box::new(r2), *e)
        },
        Ty::Tuple(xs) => Ty::Tuple(remap_all(xs, targets)),
        Ty::List(x) => Ty::List(Box::new(remap_type_vars(x, targets))),
        Ty::Adt { name, args } => Ty::Adt { name: name.clone(), args: remap_all(args, targets) },
    }
}

/// Remaps each type of a sequence.
fn remap_all(s: &Vec<Ty>, targets: &Vec<Ty>) -> (r: Vec<Ty>)
    ensures
        tys_view(r@) == remap_seq(tys_view(s@), tys_view(targets@)),
    decreases s,
{
    let ghost tv = tys_view(targets@);
    let mut out: Vec<Ty> = Vec::new();
    let mut i: usize = 0;
    assert(tys_view(s@.take(0)) =~= Seq::<TyM>::empty());
    while i < s.len()
        invariant
            i <= s@.len(),
            tv == tys_view(targets@),
            tys_view(out@) == remap_seq(tys_view(s@.take(i as int)), tv),
        decreases s@.len() - i,
    {
        assert(decreases_to!(s => s@[i as int]));
        let x = remap_type_vars(&s[i], targets);
        let ghost before = out@;
        out.push(x);
        proof {
            lemma_tys_view_take(s@, i as int);
            assert(out@.drop_last() =~= before);
            assert(tys_view(s@.take(i as int)).push(ty_view(s@[i as int])).drop_last() =~= tys_view(s@.take(i as int)));
        }
        i = i + 1;
    }
    assert(s@.take(s@.len() as int) =~= s@);
    out
}


/// The name under which a variant's constructor is bound: the enum's name,
/// `::`, and the variant's name.
pub open spec fn ctor_key(enum_name: Seq<char>, variant: Seq<char>) -> Seq<char> {
    enum_name + "::"@ + variant
}

/// The fresh type variables numbered from `c` on, `n` of them.
pub open spec fn fresh_ids(c: u32, n: nat) -> Seq<TypeVarId> {
    Seq::new(n, |k: int| TypeVarId((c + k) as u32))
}

/// The fresh type variables numbered from `c` on, as types.
pub open spec fn fresh_targets(c: u32, n: nat) -> Seq<TyM> {
    Seq::new(n, |k: int| TyM::Var(TypeVarId((c + k) as u32)))
}

/// The type of the constructor of a variant of the enum `name`, the enum's
/// type parameters standing for `targets`: a unit variant is a value of the
/// enum type, a tuple variant a pure function from its payload to it.
pub open spec fn ctor_type(name: Seq<char>, v: VariantM, targets: Seq<TyM>) -> TyM {
    match v.fields {
        VariantFieldsM::Unit => TyM::Adt(name, targets),
        VariantFieldsM::Tuple(fs) => TyM::Arrow(remap_seq(fs, targets), Box::new(TyM::Adt(name, targets)), pure_row()),
    }
}

/// Constructor names of one enum differ when the variant names differ.
proof fn lemma_ctor_key_injective(n: Seq<char>, a: Seq<char>, b: Seq<char>)
    requires
        ctor_key(n, a) == ctor_key(n, b),
    ensures
        a == b,
{
    let p = n + "::"@;
    assert(ctor_key(n, a) == p + a);
    assert(ctor_key(n, b) == p + b);
    assert(a =~= (p + a).subrange(p.len() as int, (p + a).len() as int));
    assert(b =~= (p + b).subrange(p.len() as int, (p + b).len() as int));
}


/// After binding the constructors of the first `j` variants `vs` of the enum
/// `name` into `env0`, giving `e`: the names bound are those of `env0` and the
/// constructor names; other names keep their schemes; and each constructor
/// not bound again later has its scheme over the fresh variables.
#[verifier::opaque]
pub open spec fn ctors_bound(
    env0: Map<Seq<char>, Scheme>,
    e: Map<Seq<char>, Scheme>,
    name: Seq<char>,
    vs: Seq<VariantM>,
    j: int,
    c: u32,
    n: nat,
) -> bool {
    &&& forall|k: Seq<char>| #[trigger] e.contains_key(k) <==> (env0.contains_key(k) || exists|q: int|
        0 <= q < j && k == ctor_key(name, #[trigger] vs[q].name))
    &&& forall|k: Seq<char>| #[trigger] env0.contains_key(k) && (forall|q: int| 0 <= q < j ==> k != ctor_key(
        name,
        #[trigger] vs[q].name,
    )) ==> e[k] == env0[k]
    &&& forall|q: int| #![trigger vs[q]] 0 <= q < j && (forall|p: int| q < p < j ==> vs[p].name != vs[q].name) ==> {
        let sc = e[ctor_key(name, vs[q].name)];
        &&& sc.type_vars@ == fresh_ids(c, n)
        &&& sc.effect_vars@.len() == 0
        &&& sc.ty@ == ctor_type(name, vs[q], fresh_targets(c, n))
    }
}

/// Binding one more constructor keeps `ctors_bound`.
proof fn lemma_ctors_step(
    env0: Map<Seq<char>, Scheme>,
    e: Map<Seq<char>, Scheme>,
    name: Seq<char>,
    vs: Seq<VariantM>,
    j: int,
    c: u32,
    n: nat,
    sc: Scheme,
)
    requires
        0 <= j < vs.len(),
        ctors_bound(env0, e, name, vs, j, c, n),
        sc.type_vars@ == fresh_ids(c, n),
        sc.effect_vars@.len() == 0,
        sc.ty@ == ctor_type(name, vs[j], fresh_targets(c, n)),
    ensures
        ctors_bound(env0, e.insert(ctor_key(name, vs[j].name), sc), name, vs, j + 1, c, n),
{
    reveal(ctors_bound);
    let kj = ctor_key(name, vs[j].name);
    let e2 = e.insert(kj, sc);
    assert forall|q: int| #![trigger vs[q]] 0 <= q < j + 1 && (forall|p: int| q < p < j + 1 ==> vs[p].name != vs[q].name)
        implies {
        let s2 = e2[ctor_key(name, vs[q].name)];
        &&& s2.type_vars@ == fresh_ids(c, n)
        &&& s2.effect_vars@.len() == 0
        &&& s2.ty@ == ctor_type(name, vs[q], fresh_targets(c, n))
    } by {
        if q < j {
            assert(vs[j].name != vs[q].name);
            if ctor_key(name, vs[q].name) == kj {
                lemma_ctor_key_injective(name, vs[q].name, vs[j].name);
            }
        }
    }
    assert forall|k: Seq<char>| #[trigger] e2.contains_key(k) <==> (env0.contains_key(k) || exists|q: int|
        0 <= q < j + 1 && k == ctor_key(name, #[trigger] vs[q].name)) by {
        if k == kj {
            assert(k == ctor_key(name, vs[j].name));
        }
        if exists|q: int| 0 <= q < j + 1 && k == ctor_key(name, #[trigger] vs[q].name) {
            let q = choose|q: int| 0 <= q < j + 1 && k == ctor_key(name, #[trigger] vs[q].name);
            if q < j {
                assert(e.contains_key(k));
            }
        }
    }
    assert forall|k: Seq<char>| #[trigger] env0.contains_key(k) && (forall|q: int| 0 <= q < j + 1 ==> k != ctor_key(
        name,
        #[trigger] vs[q].name,
    )) implies e2[k] == env0[k] by {
        assert(k != ctor_key(name, vs[j].name));
    }
}

/// A copy of a list of type variables.
fn copy_ids(v: &Vec<TypeVarId>) -> (r: Vec<TypeVarId>)
    ensures
        r@ == v@,
{
    let mut out: Vec<TypeVarId> = Vec::new();
    let mut i: usize = 0;
    while i < v.len()
        invariant
            i <= v@.len(),
            out@ == v@.take(i as int),
        decreases v@.len() - i,
    {
        out.push(v[i]);
        assert(out@ =~= v@.take(i + 1));
        i = i + 1;
    }
    assert(v@.take(v@.len() as int) =~= v@);
    out
}

/// An error for a failed internal expectation of the checker.
fn invariant_error(what: &str, span: Span) -> (r: TypeError)
    ensures
        r matches TypeError::InvariantViolation { msg, span: s } && msg@ == what@ && s == span,
{
    let mut msg = String::new();
    msg.append(what);
    TypeError::InvariantViolation { msg, span }
}

impl TypeChecker {
    /// Binds the constructor of each variant of a registered enum under
    /// `Enum::Variant`: a scheme over fresh type variables, one per type
    /// parameter, whose type is the variant's value or function type with the
    /// parameters standing for those variables.
    ///
    /// Refused, as an internal error, when the name is not a registered enum
    /// or when fresh variables run out.
    #[verifier::rlimit(50)]
    fn register_enum_constructors(&mut self, def: &EnumDef) -> (r: Result<(), TypeError>)
        ensures
            final(self).registry() == old(self).registry(),
            final(self).inference().collected() == old(self).inference().collected(),
            final(self).inference().depth() == old(self).inference().depth(),
            r is Err ==> final(self).env_map() == old(self).env_map(),
            !old(self).registry().contains_key(def.name.text@) ==> (r matches Err(TypeError::InvariantViolation { span, .. })
                && span == def.span),
            old(self).registry().contains_key(def.name.text@) && old(self).registry()[def.name.text@].kind is Struct
                ==> (r matches Err(TypeError::InvariantViolation { span, .. }) && span == def.span),
            (old(self).registry().contains_key(def.name.text@) && old(self).registry()[def.name.text@].kind is Enum
                && old(self).inference().counter() + old(self).registry()[def.name.text@].type_params.len() <= u32::MAX)
                ==> r is Ok,
            r is Ok ==> {
                let name = def.name.text@;
                let adt = old(self).registry()[name];
                let n = adt.type_params.len();
                let c = old(self).inference().counter();
                &&& old(self).registry().contains_key(name)
                &&& adt.kind matches AdtKindM::Enum(vs)
                &&& forall|k: Seq<char>| #[trigger] final(self).env_map().contains_key(k) <==> (old(self).env_map().contains_key(k)
                    || exists|j: int| 0 <= j < vs.len() && k == ctor_key(name, #[trigger] vs[j].name))
                &&& forall|k: Seq<char>| #[trigger] old(self).env_map().contains_key(k) && (forall|j: int| 0 <= j < vs.len()
                    ==> k != ctor_key(name, #[trigger] vs[j].name)) ==> final(self).env_map()[k] == old(self).env_map()[k]
                &&& forall|j: int| #![trigger vs[j]] 0 <= j < vs.len() && (forall|q: int| j < q < vs.len() ==> vs[q].name
                    != vs[j].name) ==> {
                    let sc = final(self).env_map()[ctor_key(name, vs[j].name)];
                    &&& sc.type_vars@ == fresh_ids(c, n)
                    &&& sc.effect_vars@.len() == 0
                    &&& sc.ty@ == ctor_type(name, vs[j], fresh_targets(c, n))
                }
            },
    {
        let ghost c = self.infer_ctx.counter();
        let adt = match self.adt_registry.get(def.name.text.as_str()) {
            Some(d) => d.copy(),
            None => {
                return Err(invariant_error("enum not registered", def.span));
            },
        };
        let n = adt.arity();
        let mut type_vars: Vec<TypeVarId> = Vec::new();
        let mut targets: Vec<Ty> = Vec::new();
        let mut i: usize = 0;
        while i < n
            invariant
                i <= n,
                n == adt@.type_params.len(),
                self.infer_ctx.counter() == c + i,
                self.infer_ctx.collected() == old(self).inference().collected(),
                self.infer_ctx.depth() == old(self).inference().depth(),
                self.env@ == old(self).env_map(),
                self.adt_registry@ == old(self).registry(),
                type_vars@ == fresh_ids(c, i as nat),
                tys_view(targets@) == fresh_targets(c, i as nat),
                old(self).registry().contains_key(def.name.text@),
                adt@ == old(self).registry()[def.name.text@],
                c == old(self).inference().counter(),
            decreases n - i,
        {
            let v = match self.infer_ctx.try_fresh() {
                Some(v) => v,
                None => {
                    return Err(invariant_error("fresh type variables ran out", def.span));
                },
            };
            let ghost before = targets@;
            type_vars.push(v);
            targets.push(Ty::Var(v));
            proof {
                assert(type_vars@ =~= fresh_ids(c, (i + 1) as nat));
                lemma_tys_view(targets@);
                lemma_tys_view(before);
                assert forall|k: int| 0 <= k < i + 1 implies #[trigger] tys_view(targets@)[k] == fresh_targets(c, (i + 1) as nat)[k] by {
                    if k < i {
                        assert(targets@[k] == before[k]);
                        assert(tys_view(before)[k] == fresh_targets(c, i as nat)[k]);
                    }
                }
                assert(tys_view(targets@) =~= fresh_targets(c, (i + 1) as nat));
            }
            i = i + 1;
        }
        let variants = match adt.variants() {
            Some(vs) => vs,
            None => {
                return Err(invariant_error("not an enum", def.span));
            },
        };
        let ghost vs = adt@.kind->Enum_0;
        let ghost env0 = self.env@;
        let ghost name = def.name.text@;
        proof {
            reveal_strlit("::");
            reveal(ctors_bound);
        }
        let mut j: usize = 0;
        while j < variants.len()
            invariant
                j <= variants@.len(),
                variants_view(variants@) == vs,
                vs.len() == variants@.len(),
                name == def.name.text@,
                n == adt@.type_params.len(),
                type_vars@ == fresh_ids(c, n as nat),
                tys_view(targets@) == fresh_targets(c, n as nat),
                self.infer_ctx.collected() == old(self).inference().collected(),
                self.infer_ctx.depth() == old(self).inference().depth(),
                self.adt_registry@ == old(self).registry(),
                env0 == old(self).env_map(),
                ctors_bound(env0, self.env@, name, vs, j as int, c, n as nat),
            decreases variants@.len() - j,
        {
            let variant = &variants[j];
            proof {
                assert(vs[j as int] == variant@);
            }
            let result_ty = Ty::adt(def.name.text.as_str(), copy_tys(&targets));
            let fn_ty = match &variant.fields {
                crate::adt::VariantFields::Unit => result_ty,
                crate::adt::VariantFields::Tuple(field_tys) => {
                    let remapped = remap_all(field_tys, &targets);
                    Ty::arrow(remapped, result_ty)
                },
            };
            let scheme = Scheme { type_vars: copy_ids(&type_vars), effect_vars: Vec::new(), ty: fn_ty };
            let mut key = String::new();
            key.append(def.name.text.as_str());
            key.append("::");
            key.append(variant.name.as_str());
            let ghost kj = key@;
            let ghost sc = scheme;
            proof {
                assert(kj == ctor_key(name, vs[j as int].name));
            }
            let ghost e_prev = self.env@;
            self.env.insert(key, scheme);
            proof {
                lemma_ctors_step(env0, e_prev, name, vs, j as int, c, n as nat, sc);
            }
            j = j + 1;
        }
        proof {
            reveal(ctors_bound);
        }
        Ok(())
    }
}


/// Whether a module item is a `let` without a type annotation whose value is
/// a literal.
pub open spec fn plain_literal_let(item: Item) -> bool {
    item matches Item::Let(d) && d.ty is None && d.value is Lit
}

/// Whether every item is a plain literal `let`.
pub open spec fn only_plain_lets(items: Seq<Item>) -> bool {
    forall|i: int| 0 <= i < items.len() ==> plain_literal_let(#[trigger] items[i])
}

/// What a module that checks has bound: each struct and enum is registered,
/// each enum's constructors, each function, extern function and `let` are in
/// the environment.
pub open spec fn item_bound(reg: Map<Seq<char>, AdtDefM>, env: Map<Seq<char>, Scheme>, item: Item) -> bool {
    match item {
        Item::Struct(d) => reg.contains_key(d.name.text@),
        Item::Enum(d) => reg.contains_key(d.name.text@) && (reg[d.name.text@].kind matches AdtKindM::Enum(vs) && forall|j: int|
            0 <= j < vs.len() ==> env.contains_key(ctor_key(d.name.text@, #[trigger] vs[j].name))),
        Item::Fn(d) => env.contains_key(d.name.text@),
        Item::Let(d) => env.contains_key(d.name.text@),
        Item::ExternFn(d) => env.contains_key(d.name.text@),
    }
}

/// The environment after a successful check: `env0` with `name` bound to a
/// scheme that generalizes, over the variables free in `gen_env`, a type
/// holding no capability.
pub open spec fn bound_generalized(
    env0: Map<Seq<char>, Scheme>,
    e: Map<Seq<char>, Scheme>,
    name: Seq<char>,
    gen_env: Map<Seq<char>, Scheme>,
) -> bool {
    &&& e.contains_key(name)
    &&& e == env0.insert(name, e[name])
    &&& e[name].type_vars@.to_set() == ty_vars(e[name].ty@).difference(env_vars(gen_env))
    &&& e[name].effect_vars@.len() == 0
}

/// The scheme of a unit value: no variables at all.
pub open spec fn unit_scheme_spec(s: Scheme) -> bool {
    s.type_vars@.len() == 0 && s.effect_vars@.len() == 0 && s.ty@ == TyM::Const(TyConst::Unit)
}

/// In a copy of an environment, binding a name to a scheme without variables
/// leaves the free variables of the rest of the environment.
proof fn lemma_env_vars_unit(env: Map<Seq<char>, Scheme>, copy: Map<Seq<char>, Scheme>, name: Seq<char>, u: Scheme)
    requires
        copy.dom() == env.dom(),
        forall|k: Seq<char>| #[trigger] copy.contains_key(k) ==> scheme_view(copy[k]) == scheme_view(env[k]),
        unit_scheme_spec(u),
    ensures
        env_vars(copy.insert(name, u)) == env_vars(env.remove(name)),
{
    let a = copy.insert(name, u);
    let b = env.remove(name);
    assert forall|v: TypeVarId| #[trigger] env_vars(a).contains(v) <==> env_vars(b).contains(v) by {
        if env_vars(a).contains(v) {
            let k = choose|k: Seq<char>| #[trigger] a.contains_key(k) && scheme_vars(a[k]).contains(v);
            if k == name {
                assert(ty_vars(u.ty@) =~= Set::<TypeVarId>::empty());
            } else {
                assert(copy.contains_key(k));
                assert(scheme_vars(env[k]) == scheme_vars(copy[k]));
                assert(b.contains_key(k) && scheme_vars(b[k]).contains(v));
            }
        }
        if env_vars(b).contains(v) {
            let k = choose|k: Seq<char>| #[trigger] b.contains_key(k) && scheme_vars(b[k]).contains(v);
            assert(k != name);
            assert(copy.contains_key(k));
            assert(scheme_vars(env[k]) == scheme_vars(copy[k]));
            assert(a.contains_key(k) && scheme_vars(a[k]).contains(v));
        }
    }
    assert(env_vars(a) =~= env_vars(b));
}

impl TypeChecker {
    /// The type of a function from its header alone: each parameter and the
    /// return take their written type, or a fresh type variable when none is
    /// written; the function type is pure.
    fn extract_fn_signature(&mut self, decl: &FnDecl) -> (r: Result<Ty, TypeError>)
        ensures
            final(self).env_map() == old(self).env_map(),
            final(self).registry() == old(self).registry(),
            final(self).inference().collected() == old(self).inference().collected(),
            final(self).inference().depth() == old(self).inference().depth(),
            r matches Ok(t) ==> (t@ matches TyM::Arrow(ps, ret, row) && ps.len() == decl.params@.len() && row == pure_row()
                && (forall|i: int| 0 <= i < ps.len() ==> (#[trigger] decl.params@[i].ty matches Some(te) ==> convert(
                old(self).registry(),
                Map::empty(),
                te,
            ) == Ok::<TyM, ConvError>(ps[i]))) && (decl.ret_ty matches Some(te) ==> convert(old(self).registry(), Map::empty(), te)
                == Ok::<TyM, ConvError>(*ret))),
    {
        let mut param_tys: Vec<Ty> = Vec::new();
        let mut i: usize = 0;
        while i < decl.params.len()
            invariant
                i <= decl.params@.len(),
                param_tys@.len() == i,
                self.env@ == old(self).env_map(),
                self.adt_registry@ == old(self).registry(),
                self.infer_ctx.collected() == old(self).inference().collected(),
                self.infer_ctx.depth() == old(self).inference().depth(),
                forall|q: int| 0 <= q < i ==> (#[trigger] decl.params@[q].ty matches Some(te) ==> convert(
                    old(self).registry(),
                    Map::empty(),
                    te,
                ) == Ok::<TyM, ConvError>(param_tys@[q]@)),
            decreases decl.params@.len() - i,
        {
            let t = match &decl.params[i].ty {
                Some(te) => self.ty_from_type_expr(te)?,
                None => match self.infer_ctx.try_fresh() {
                    Some(v) => Ty::Var(v),
                    None => {
                        return Err(invariant_error("fresh type variables ran out", decl.span));
                    },
                },
            };
            param_tys.push(t);
            i = i + 1;
        }
        let ret = match &decl.ret_ty {
            Some(te) => self.ty_from_type_expr(te)?,
            None => match self.infer_ctx.try_fresh() {
                Some(v) => Ty::Var(v),
                None => {
                    return Err(invariant_error("fresh type variables ran out", decl.span));
                },
            },
        };
        proof {
            lemma_tys_view(param_tys@);
        }
        Ok(Ty::arrow(param_tys, ret))
    }

    /// The type of an extern function from its declaration: each parameter
    /// takes its written type, or a fresh type variable when none is written,
    /// and the return its written type or `Unit`.
    fn extract_extern_signature(&mut self, decl: &ExternFnDecl) -> (r: Result<Ty, TypeError>)
        ensures
            final(self).env_map() == old(self).env_map(),
            final(self).registry() == old(self).registry(),
            final(self).inference().collected() == old(self).inference().collected(),
            final(self).inference().depth() == old(self).inference().depth(),
            r matches Ok(t) ==> (t@ matches TyM::Arrow(ps, ret, row) && ps.len() == decl.params@.len() && row == pure_row()
                && (forall|i: int| 0 <= i < ps.len() ==> (#[trigger] decl.params@[i].ty matches Some(te) ==> convert(
                old(self).registry(),
                Map::empty(),
                te,
            ) == Ok::<TyM, ConvError>(ps[i]))) && (match decl.ret_ty {
                Some(te) => convert(old(self).registry(), Map::empty(), te) == Ok::<TyM, ConvError>(*ret),
                None => *ret == TyM::Const(TyConst::Unit),
            })),
    {
        let mut param_tys: Vec<Ty> = Vec::new();
        let mut i: usize = 0;
        while i < decl.params.len()
            invariant
                i <= decl.params@.len(),
                param_tys@.len() == i,
                self.env@ == old(self).env_map(),
                self.adt_registry@ == old(self).registry(),
                self.infer_ctx.collected() == old(self).inference().collected(),
                self.infer_ctx.depth() == old(self).inference().depth(),
                forall|q: int| 0 <= q < i ==> (#[trigger] decl.params@[q].ty matches Some(te) ==> convert(
                    old(self).registry(),
                    Map::empty(),
                    te,
                ) == Ok::<TyM, ConvError>(param_tys@[q]@)),
            decreases decl.params@.len() - i,
        {
            let t = match &decl.params[i].ty {
                Some(te) => self.ty_from_type_expr(te)?,
                None => match self.infer_ctx.try_fresh() {
                    Some(v) => Ty::Var(v),
                    None => {
                        return Err(invariant_error("fresh type variables ran out", decl.span));
                    },
                },
            };
            param_tys.push(t);
            i = i + 1;
        }
        let ret = match &decl.ret_ty {
            Some(te) => self.ty_from_type_expr(te)?,
            None => Ty::unit(),
        };
        proof {
            lemma_tys_view(param_tys@);
        }
        Ok(Ty::arrow(param_tys, ret))
    }

    /// Checks a top-level `let`: infers its value, requires the annotation
    /// when there is one, solves, and binds the name to the generalized type
    /// of the solution, which may not hold a capability.
    fn check_let(&mut self, decl: &LetDecl) -> (r: Result<(), TypeError>)
        ensures
            final(self).registry() == old(self).registry(),
            r is Err ==> final(self).env_map() == old(self).env_map(),
            r is Ok ==> bound_generalized(old(self).env_map(), final(self).env_map(), decl.name.text@, old(self).env_map()),
            r is Ok ==> !has_cap(final(self).env_map()[decl.name.text@].ty@),
            r is Ok ==> final(self).inference().collected().len() == 0,
            r is Ok ==> final(self).inference().depth() == old(self).inference().depth(),
            old(self).inference().depth() >= MAX_INFER_DEPTH ==> r == Err::<(), TypeError>(
                TypeError::DepthLimitExceeded { span: expr_span(decl.value) },
            ),
            decl.value matches Expr::Lit(l, _) ==> ((decl.ty is None && old(self).inference().collected().len() == 0
                && old(self).inference().depth() < MAX_INFER_DEPTH) ==> (r is Ok && final(self).env_map()[decl.name.text@].ty@
                == lit_type(l))),
    {
        let ctx = CheckContext::from_env(copy_env(&self.env));
        let inferred = match self.infer_ctx.infer_expr_ctx(&ctx, &decl.value) {
            Ok(t) => t,
            Err(e) => {
                return Err(infer_error_to_type_error(e));
            },
        };
        match &decl.ty {
            Some(ann) => {
                let expected = self.ty_from_type_expr(ann)?;
                self.infer_ctx.add_constraint(Constraint::Equal(inferred.copy(), expected, decl.span));
            },
            None => {},
        }
        let constraints = self.infer_ctx.take_constraints();
        let mut solver = Solver::new();
        let subst = match solver.solve(constraints) {
            Ok(s) => s,
            Err(e) => {
                return Err(solve_error_to_type_error(e));
            },
        };
        let final_ty = match subst.apply(&inferred) {
            Ok(t) => t,
            Err(_) => {
                return Err(invariant_error("the solution could not be applied", decl.span));
            },
        };
        if contains_capability(&final_ty) {
            let cap_type = cap_label_of(&final_ty);
            return Err(TypeError::CapabilityInBinding { cap_type, span: decl.span });
        }
        let env_vars_now = free_vars_env(&self.env);
        let scheme = self.infer_ctx.generalize(final_ty, &env_vars_now);
        self.env.insert(decl.name.text.clone(), scheme);
        Ok(())
    }
}


impl TypeChecker {
    /// Checks a function body against the function's type declared in the
    /// first pass: the parameters are bound to the parameter types, the body
    /// must have the return type unless it never returns, the constraints are
    /// solved, and the function's name is bound to the solved type,
    /// generalized over the variables not free in the rest of the
    /// environment.
    fn check_fn(&mut self, decl: &FnDecl) -> (r: Result<(), TypeError>)
        ensures
            final(self).registry() == old(self).registry(),
            r is Err ==> final(self).env_map() == old(self).env_map(),
            !old(self).env_map().contains_key(decl.name.text@) ==> (r matches Err(TypeError::InvariantViolation { span, .. })
                && span == decl.name.span),
            r is Ok ==> bound_generalized(
                old(self).env_map(),
                final(self).env_map(),
                decl.name.text@,
                old(self).env_map().remove(decl.name.text@),
            ),
            r is Ok ==> final(self).env_map()[decl.name.text@].ty@ is Arrow,
            r is Ok ==> final(self).inference().collected().len() == 0,
            r is Ok ==> final(self).inference().depth() == old(self).inference().depth(),
    {
        let predeclared = match self.env.get(&decl.name.text) {
            Some(sc) => sc.copy(),
            None => {
                return Err(invariant_error("function not declared in the first pass", decl.name.span));
            },
        };
        let fn_ty = match self.infer_ctx.instantiate_scheme(&predeclared, decl.name.span) {
            Ok(t) => t,
            Err(e) => {
                return Err(infer_error_to_type_error(e));
            },
        };
        let (param_tys, ret_ty) = match &fn_ty {
            Ty::Arrow(ps, ret, _) => (copy_tys(ps), (**ret).copy()),
            _ => {
                return Err(invariant_error("a function's type is not a function type", decl.name.span));
            },
        };
        let mut fn_ctx = CheckContext::from_env(copy_env(&self.env));
        fn_ctx.expected_return = Some(ret_ty.copy());
        let mut i: usize = 0;
        while i < decl.params.len() && i < param_tys.len()
            invariant
                i <= decl.params@.len(),
            decreases decl.params@.len() - i,
        {
            fn_ctx.bind(decl.params[i].name.text.clone(), Scheme::mono(param_tys[i].copy()), false);
            i = i + 1;
        }
        let ghost before_body = self.infer_ctx;
        let body_ty = match self.infer_ctx.infer_block(&fn_ctx, &decl.body) {
            Ok(t) => t,
            Err(e) => {
                return Err(infer_error_to_type_error(e));
            },
        };
        match body_ty {
            Ty::Never => {},
            _ => {
                self.infer_ctx.add_constraint(Constraint::Equal(body_ty, ret_ty, decl.span));
            },
        }
        let constraints = self.infer_ctx.take_constraints();
        let mut solver = Solver::new();
        let subst = match solver.solve(constraints) {
            Ok(s) => s,
            Err(e) => {
                return Err(solve_error_to_type_error(e));
            },
        };
        let final_ty = match subst.apply(&fn_ty) {
            Ok(t) => t,
            Err(_) => {
                return Err(invariant_error("the solution could not be applied", decl.span));
            },
        };
        proof {
            assert(fn_ty@ is Arrow);
            assert(final_ty@ is Arrow);
        }
        let mut others = copy_env(&self.env);
        let ghost copy0 = others@;
        let unit = Scheme::mono(Ty::unit());
        let ghost u = unit;
        others.insert(decl.name.text.clone(), unit);
        let env_vars_now = free_vars_env(&others);
        proof {
            assert(others@ == copy0.insert(decl.name.text@, u));
            lemma_env_vars_unit(self.env@, copy0, decl.name.text@, u);
        }
        let scheme = self.infer_ctx.generalize(final_ty, &env_vars_now);
        self.env.insert(decl.name.text.clone(), scheme);
        Ok(())
    }
}


/// A registry that keeps every definition of another, adding others.
pub open spec fn registry_grows(a: Map<Seq<char>, AdtDefM>, b: Map<Seq<char>, AdtDefM>) -> bool {
    forall|k: Seq<char>| #[trigger] a.contains_key(k) ==> b.contains_key(k) && b[k] == a[k]
}

/// An environment that keeps every name of another bound.
pub open spec fn names_kept(a: Map<Seq<char>, Scheme>, b: Map<Seq<char>, Scheme>) -> bool {
    forall|k: Seq<char>| #[trigger] a.contains_key(k) ==> b.contains_key(k)
}

/// Whether a parameter is written with the type of capability `k`.
pub open spec fn param_is_cap(p: Param, k: CapKind) -> bool {
    p.ty matches Some(TypeExpr::Path(segs, _)) && segs@.len() == 1 && segs@[0].text@ == cap_type_text(k)
}

/// Whether some parameter is written with the type of capability `k`.
pub open spec fn has_cap_param(params: Seq<Param>, k: CapKind) -> bool {
    exists|i: int| 0 <= i < params.len() && param_is_cap(#[trigger] params[i], k)
}

/// Whether an effect annotation names only effects, each gated by a
/// capability that some parameter is written with.
pub open spec fn annotation_ok(params: Seq<Param>, es: Seq<Ident>) -> bool {
    forall|i: int| 0 <= i < es.len() ==> (effect_named(#[trigger] es[i].text@) matches Some(e) && has_cap_param(
        params,
        gating_cap(e),
    ))
}

/// Whether a function or extern function item passes the checks of its
/// effect annotation: an extern function has one, and every annotation names
/// effects whose capabilities are parameters.
pub open spec fn effects_checked(item: Item) -> bool {
    match item {
        Item::Fn(d) => d.effects matches Some(es) ==> annotation_ok(d.params@, es@),
        Item::ExternFn(d) => d.effects matches Some(es) && annotation_ok(d.params@, es@),
        _ => true,
    }
}

/// Whether some parameter is written with the type of capability `k`.
fn find_cap_param(params: &Vec<Param>, k: CapKind) -> (r: bool)
    ensures
        r == has_cap_param(params@, k),
{
    let mut i: usize = 0;
    while i < params.len()
        invariant
            i <= params@.len(),
            forall|q: int| 0 <= q < i ==> !param_is_cap(#[trigger] params@[q], k),
        decreases params@.len() - i,
    {
        match &params[i].ty {
            Some(TypeExpr::Path(segs, _)) => {
                if segs.len() == 1 && str_equals(segs[0].text.as_str(), k.type_name_str()) {
                    assert(param_is_cap(params@[i as int], k));
                    return true;
                }
            },
            _ => {},
        }
        i = i + 1;
    }
    false
}

/// Checks the effect annotation of a function or an extern function: an
/// extern function must have one; each name must be an effect, and a
/// parameter must be written with the capability type that gates it.
fn check_effect_annotation(
    fn_name: &Ident,
    params: &Vec<Param>,
    effects: &Option<Vec<Ident>>,
    is_extern: bool,
    span: Span,
) -> (r: Result<(), TypeError>)
    ensures
        effects is None ==> (r is Ok <==> !is_extern),
        effects is None && is_extern ==> (r matches Err(TypeError::ExternEffectsUndeclared { fn_name: n, span: s })
            && n@ == fn_name.text@ && s == span),
        effects matches Some(es) ==> (r is Ok <==> annotation_ok(params@, es@)),
{
    let es = match effects {
        None => {
            if is_extern {
                return Err(TypeError::ExternEffectsUndeclared { fn_name: fn_name.text.clone(), span });
            }
            return Ok(());
        },
        Some(es) => es,
    };
    let mut i: usize = 0;
    while i < es.len()
        invariant
            i <= es@.len(),
            effects == Some(*es),
            forall|q: int| 0 <= q < i ==> (effect_named(#[trigger] es@[q].text@) matches Some(e) && has_cap_param(
                params@,
                gating_cap(e),
            )),
        decreases es@.len() - i,
    {
        let e = match effect_from_name(es[i].text.as_str()) {
            Some(e) => e,
            None => {
                return Err(TypeError::UnknownEffect { name: es[i].text.clone(), span: es[i].span });
            },
        };
        let k = CapKind::from_effect(e);
        if !find_cap_param(params, k) {
            return Err(
                TypeError::MissingCapability {
                    fn_name: fn_name.text.clone(),
                    cap_type: k.type_name_str().to_owned(),
                    span,
                },
            );
        }
        i = i + 1;
    }
    Ok(())
}

impl TypeChecker {
    /// Checks one item in the second pass: a `let` or a function body; data
    /// types were registered in the first pass and extern functions carry no
    /// body.
    fn check_item(&mut self, item: &Item) -> (r: Result<(), TypeError>)
        ensures
            final(self).registry() == old(self).registry(),
            !(item is Let || item is Fn) ==> r is Ok && final(self).env_map() == old(self).env_map() && final(self).inference()
                == old(self).inference(),
            r is Ok ==> names_kept(old(self).env_map(), final(self).env_map()),
            r is Ok ==> item_bound(final(self).registry(), final(self).env_map(), *item) || item is Struct || item is Enum
                || item is ExternFn,
            r is Ok && (item is Let || item is Fn) ==> final(self).inference().collected().len() == 0
                && final(self).inference().depth() == old(self).inference().depth(),
            plain_literal_let(*item) && old(self).inference().collected().len() == 0 && old(self).inference().depth()
                < MAX_INFER_DEPTH ==> r is Ok,
    {
        match item {
            Item::Let(decl) => self.check_let(decl),
            Item::Fn(decl) => self.check_fn(decl),
            Item::ExternFn(_) => Ok(()),
            Item::Struct(_) => Ok(()),
            Item::Enum(_) => Ok(()),
        }
    }

    /// Checks a module in two passes. First every struct and enum is
    /// registered, then each enum's constructors are bound, then every
    /// function is declared with the type of its header alone, not yet
    /// generalized, so that recursive calls see one type; the effect
    /// annotation of each function and extern function is checked then: an
    /// extern function must have one, and each effect it names needs a
    /// parameter of the capability type that gates it. Second, the `let`
    /// bindings and function bodies are checked in order, each function
    /// generalized once its body is solved. The first error ends the check.
    #[verifier::rlimit(100)]
    pub fn check_module(&mut self, module: &Module) -> (r: Result<(), TypeError>)
        ensures
            registry_grows(old(self).registry(), final(self).registry()),
            r is Ok ==> names_kept(old(self).env_map(), final(self).env_map()),
            r is Ok ==> forall|i: int| 0 <= i < module.items@.len() ==> item_bound(
                final(self).registry(),
                final(self).env_map(),
                #[trigger] module.items@[i],
            ),
            r is Ok ==> forall|i: int| 0 <= i < module.items@.len() ==> effects_checked(#[trigger] module.items@[i]),
            module.items@.len() == 0 ==> r is Ok && final(self).env_map() == old(self).env_map() && final(self).registry()
                == old(self).registry(),
            old(self).inference().collected().len() == 0 && old(self).inference().depth() < MAX_INFER_DEPTH
                && only_plain_lets(module.items@) ==> r is Ok,
    {
        let ghost lits = old(self).inference().collected().len() == 0 && old(self).inference().depth() < MAX_INFER_DEPTH
            && only_plain_lets(module.items@);
        let n = module.items.len();
        // First pass, a: register the data types.
        let mut i: usize = 0;
        while i < n
            invariant
                n == module.items@.len(),
                i <= n,
                lits == (old(self).inference().collected().len() == 0 && old(self).inference().depth() < MAX_INFER_DEPTH
                    && only_plain_lets(module.items@)),
                lits ==> (forall|q: int| 0 <= q < n ==> plain_literal_let(#[trigger] module.items@[q])),
                lits ==> old(self).inference().collected().len() == 0 && old(self).inference().depth() < MAX_INFER_DEPTH,
                n == 0 ==> self.env_map() == old(self).env_map() && self.registry() == old(self).registry(),
                registry_grows(old(self).registry(), self.registry()),
                self.env_map() == old(self).env_map(),
                self.inference() == old(self).inference(),
                lits ==> self.registry() == old(self).registry(),
                forall|q: int| 0 <= q < i ==> (#[trigger] module.items@[q] matches Item::Struct(d) ==> self.registry().contains_key(
                    d.name.text@,
                )),
                forall|q: int| 0 <= q < i ==> (#[trigger] module.items@[q] matches Item::Enum(d) ==> self.registry().contains_key(
                    d.name.text@,
                ) && self.registry()[d.name.text@].kind is Enum),
            decreases n - i,
        {
            let ghost before = self.registry();
            match &module.items[i] {
                Item::Struct(def) => {
                    match self.register_struct(def) {
                        Ok(()) => {},
                        Err(e) => {
                            return Err(e);
                        },
                    }
                },
                Item::Enum(def) => {
                    match self.register_enum(def) {
                        Ok(()) => {},
                        Err(e) => {
                            return Err(e);
                        },
                    }
                },
                _ => {},
            }
            proof {
                assert forall|q: int| 0 <= q < i + 1 implies (#[trigger] module.items@[q] matches Item::Struct(d)
                    ==> self.registry().contains_key(d.name.text@)) by {
                    if q < i {
                        if let Item::Struct(d) = module.items@[q] {
                            assert(before.contains_key(d.name.text@));
                        }
                    }
                }
                assert forall|q: int| 0 <= q < i + 1 implies (#[trigger] module.items@[q] matches Item::Enum(d)
                    ==> self.registry().contains_key(d.name.text@) && self.registry()[d.name.text@].kind is Enum) by {
                    if q < i {
                        if let Item::Enum(d) = module.items@[q] {
                            assert(before.contains_key(d.name.text@));
                        }
                    }
                }
            }
            i = i + 1;
        }
        let ghost reg1 = self.registry();
        // First pass, b: bind the constructors of each enum.
        let mut i: usize = 0;
        while i < n
            invariant
                n == module.items@.len(),
                i <= n,
                lits == (old(self).inference().collected().len() == 0 && old(self).inference().depth() < MAX_INFER_DEPTH
                    && only_plain_lets(module.items@)),
                lits ==> (forall|q: int| 0 <= q < n ==> plain_literal_let(#[trigger] module.items@[q])),
                lits ==> old(self).inference().collected().len() == 0 && old(self).inference().depth() < MAX_INFER_DEPTH,
                n == 0 ==> self.env_map() == old(self).env_map() && self.registry() == old(self).registry(),
                registry_grows(old(self).registry(), reg1),
                self.registry() == reg1,
                names_kept(old(self).env_map(), self.env_map()),
                self.inference().collected() == old(self).inference().collected(),
                self.inference().depth() == old(self).inference().depth(),
                lits ==> self.env_map() == old(self).env_map() && reg1 == old(self).registry(),
                forall|q: int| 0 <= q < n ==> (#[trigger] module.items@[q] matches Item::Struct(d) ==> reg1.contains_key(
                    d.name.text@,
                )),
                forall|q: int| 0 <= q < n ==> (#[trigger] module.items@[q] matches Item::Enum(d) ==> reg1.contains_key(
                    d.name.text@,
                ) && reg1[d.name.text@].kind is Enum),
                forall|q: int| 0 <= q < i ==> (#[trigger] module.items@[q] matches Item::Enum(d) ==> item_bound(
                    reg1,
                    self.env_map(),
                    module.items@[q],
                )),
            decreases n - i,
        {
            let ghost env_before = self.env_map();
            match &module.items[i] {
                Item::Enum(def) => {
                    match self.register_enum_constructors(def) {
                        Ok(()) => {},
                        Err(e) => {
                            return Err(e);
                        },
                    }
                },
                _ => {},
            }
            proof {
                assert forall|q: int| 0 <= q < i + 1 implies (#[trigger] module.items@[q] matches Item::Enum(d) ==> item_bound(
                    reg1,
                    self.env_map(),
                    module.items@[q],
                )) by {
                    if q < i {
                        if let Item::Enum(d) = module.items@[q] {
                            let vs = reg1[d.name.text@].kind->Enum_0;
                            assert forall|j: int| 0 <= j < vs.len() implies self.env_map().contains_key(
                                ctor_key(d.name.text@, #[trigger] vs[j].name),
                            ) by {
                                assert(env_before.contains_key(ctor_key(d.name.text@, vs[j].name)));
                            }
                        }
                    } else {
                        if let Item::Enum(d) = module.items@[q] {
                            let vs = reg1[d.name.text@].kind->Enum_0;
                            assert forall|j: int| 0 <= j < vs.len() implies self.env_map().contains_key(
                                ctor_key(d.name.text@, #[trigger] vs[j].name),
                            ) by {
                                assert(exists|p: int| 0 <= p < vs.len() && ctor_key(d.name.text@, vs[j].name)
                                    == ctor_key(d.name.text@, #[trigger] vs[p].name));
                            }
                        }
                    }
                }
            }
            i = i + 1;
        }
        // First pass, c: declare every function by its header, not generalized.
        let mut i: usize = 0;
        while i < n
            invariant
                n == module.items@.len(),
                i <= n,
                lits == (old(self).inference().collected().len() == 0 && old(self).inference().depth() < MAX_INFER_DEPTH
                    && only_plain_lets(module.items@)),
                lits ==> (forall|q: int| 0 <= q < n ==> plain_literal_let(#[trigger] module.items@[q])),
                lits ==> old(self).inference().collected().len() == 0 && old(self).inference().depth() < MAX_INFER_DEPTH,
                n == 0 ==> self.env_map() == old(self).env_map() && self.registry() == old(self).registry(),
                registry_grows(old(self).registry(), reg1),
                self.registry() == reg1,
                names_kept(old(self).env_map(), self.env_map()),
                self.inference().collected() == old(self).inference().collected(),
                self.inference().depth() == old(self).inference().depth(),
                lits ==> self.env_map() == old(self).env_map() && reg1 == old(self).registry(),
                forall|q: int| 0 <= q < n ==> (#[trigger] module.items@[q] matches Item::Struct(d) ==> reg1.contains_key(
                    d.name.text@,
                )),
                forall|q: int| 0 <= q < n ==> (#[trigger] module.items@[q] matches Item::Enum(d) ==> item_bound(
                    reg1,
                    self.env_map(),
                    module.items@[q],
                )),
                forall|q: int| 0 <= q < i ==> (#[trigger] module.items@[q] matches Item::Fn(d) ==> self.env_map().contains_key(
                    d.name.text@,
                )),
                forall|q: int| 0 <= q < i ==> (#[trigger] module.items@[q] matches Item::ExternFn(d) ==> self.env_map().contains_key(
                    d.name.text@,
                )),
                forall|q: int| 0 <= q < i ==> effects_checked(#[trigger] module.items@[q]),
            decreases n - i,
        {
            let ghost env_before = self.env_map();
            match &module.items[i] {
                Item::Fn(decl) => {
                    match check_effect_annotation(&decl.name, &decl.params, &decl.effects, false, decl.span) {
                        Ok(()) => {},
                        Err(e) => {
                            return Err(e);
                        },
                    }
                    let fn_ty = match self.extract_fn_signature(decl) {
                        Ok(t) => t,
                        Err(e) => {
                            return Err(e);
                        },
                    };
                    self.env.insert(decl.name.text.clone(), Scheme::mono(fn_ty));
                },
                Item::ExternFn(decl) => {
                    match check_effect_annotation(&decl.name, &decl.params, &decl.effects, true, decl.span) {
                        Ok(()) => {},
                        Err(e) => {
                            return Err(e);
                        },
                    }
                    let fn_ty = match self.extract_extern_signature(decl) {
                        Ok(t) => t,
                        Err(e) => {
                            return Err(e);
                        },
                    };
                    self.env.insert(decl.name.text.clone(), Scheme::mono(fn_ty));
                },
                _ => {},
            }
            proof {
                assert forall|q: int| 0 <= q < n implies (#[trigger] module.items@[q] matches Item::Enum(d) ==> item_bound(
                    reg1,
                    self.env_map(),
                    module.items@[q],
                )) by {
                    if let Item::Enum(d) = module.items@[q] {
                        assert(item_bound(reg1, env_before, module.items@[q]));
                        let vs = reg1[d.name.text@].kind->Enum_0;
                        assert forall|j: int| 0 <= j < vs.len() implies self.env_map().contains_key(
                            ctor_key(d.name.text@, #[trigger] vs[j].name),
                        ) by {
                            assert(env_before.contains_key(ctor_key(d.name.text@, vs[j].name)));
                        }
                    }
                }
                assert forall|q: int| 0 <= q < i + 1 implies (#[trigger] module.items@[q] matches Item::Fn(d)
                    ==> self.env_map().contains_key(d.name.text@)) by {
                    if q < i {
                        if let Item::Fn(d) = module.items@[q] {
                            assert(env_before.contains_key(d.name.text@));
                        }
                    }
                }
                assert forall|q: int| 0 <= q < i + 1 implies (#[trigger] module.items@[q] matches Item::ExternFn(d)
                    ==> self.env_map().contains_key(d.name.text@)) by {
                    if q < i {
                        if let Item::ExternFn(d) = module.items@[q] {
                            assert(env_before.contains_key(d.name.text@));
                        }
                    }
                }
            }
            i = i + 1;
        }
        // Second pass: the bindings and function bodies, in order.
        let mut i: usize = 0;
        while i < n
            invariant
                n == module.items@.len(),
                i <= n,
                lits == (old(self).inference().collected().len() == 0 && old(self).inference().depth() < MAX_INFER_DEPTH
                    && only_plain_lets(module.items@)),
                lits ==> (forall|q: int| 0 <= q < n ==> plain_literal_let(#[trigger] module.items@[q])),
                lits ==> old(self).inference().collected().len() == 0 && old(self).inference().depth() < MAX_INFER_DEPTH,
                n == 0 ==> self.env_map() == old(self).env_map() && self.registry() == old(self).registry(),
                registry_grows(old(self).registry(), reg1),
                self.registry() == reg1,
                names_kept(old(self).env_map(), self.env_map()),
                lits ==> reg1 == old(self).registry(),
                lits ==> self.inference().collected().len() == 0 && self.inference().depth() == old(self).inference().depth(),
                n == 0 ==> self.env_map() == old(self).env_map(),
                forall|q: int| 0 <= q < n ==> (#[trigger] module.items@[q] matches Item::Struct(d) ==> reg1.contains_key(
                    d.name.text@,
                )),
                forall|q: int| 0 <= q < n ==> (#[trigger] module.items@[q] matches Item::Enum(d) ==> item_bound(
                    reg1,
                    self.env_map(),
                    module.items@[q],
                )),
                forall|q: int| 0 <= q < n ==> (#[trigger] module.items@[q] matches Item::Fn(d) ==> self.env_map().contains_key(
                    d.name.text@,
                )),
                forall|q: int| 0 <= q < n ==> (#[trigger] module.items@[q] matches Item::ExternFn(d) ==> self.env_map().contains_key(
                    d.name.text@,
                )),
                forall|q: int| 0 <= q < n ==> effects_checked(#[trigger] module.items@[q]),
                forall|q: int| 0 <= q < i ==> (#[trigger] module.items@[q] matches Item::Let(d) ==> self.env_map().contains_key(
                    d.name.text@,
                )),
            decreases n - i,
        {
            let ghost env_before = self.env_map();
            proof {
                if lits {
                    assert(plain_literal_let(module.items@[i as int]));
                    assert(self.inference().collected().len() == 0);
                    assert(self.inference().depth() < MAX_INFER_DEPTH);
                }
            }
            match self.check_item(&module.items[i]) {
                Ok(()) => {},
                Err(e) => {
                    return Err(e);
                },
            }
            proof {
                assert forall|q: int| 0 <= q < n implies (#[trigger] module.items@[q] matches Item::Enum(d) ==> item_bound(
                    reg1,
                    self.env_map(),
                    module.items@[q],
                )) by {
                    if let Item::Enum(d) = module.items@[q] {
                        assert(item_bound(reg1, env_before, module.items@[q]));
                        let vs = reg1[d.name.text@].kind->Enum_0;
                        assert forall|j: int| 0 <= j < vs.len() implies self.env_map().contains_key(
                            ctor_key(d.name.text@, #[trigger] vs[j].name),
                        ) by {
                            assert(env_before.contains_key(ctor_key(d.name.text@, vs[j].name)));
                        }
                    }
                }
                assert forall|q: int| 0 <= q < n implies (#[trigger] module.items@[q] matches Item::Fn(d)
                    ==> self.env_map().contains_key(d.name.text@)) by {
                    if let Item::Fn(d) = module.items@[q] {
                        assert(env_before.contains_key(d.name.text@));
                    }
                }
                assert forall|q: int| 0 <= q < n implies (#[trigger] module.items@[q] matches Item::ExternFn(d)
                    ==> self.env_map().contains_key(d.name.text@)) by {
                    if let Item::ExternFn(d) = module.items@[q] {
                        assert(env_before.contains_key(d.name.text@));
                    }
                }
                assert forall|q: int| 0 <= q < i + 1 implies (#[trigger] module.items@[q] matches Item::Let(d)
                    ==> self.env_map().contains_key(d.name.text@)) by {
                    if let Item::Let(d) = module.items@[q] {
                        if q < i {
                            assert(env_before.contains_key(d.name.text@));
                        }
                    }
                }
            }
            i = i + 1;
        }
        proof {
            assert forall|q: int| 0 <= q < n implies item_bound(self.registry(), self.env_map(), #[trigger] module.items@[q]) by {
                match module.items@[q] {
                    Item::Struct(d) => {},
                    Item::Enum(d) => {},
                    Item::Fn(d) => {},
                    Item::Let(d) => {},
                    Item::ExternFn(_) => {},
                }
            }
        }
        Ok(())
    }
}

} // verus!
