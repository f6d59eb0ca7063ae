//! Constraint generation: the type of an expression, a block or a pattern,
//! and the equalities between types that it has to meet. The solver then
//! decides whether they can all hold.
use vstd::prelude::*;
use crate::ast::{BinOp, Block, Expr, Lit, MatchArm, Pat, PatField, Span, Stmt, TypeExpr, UnOp, expr_span, joined_path};
use crate::constraint::{CheckContext, MAX_INFER_DEPTH, scheme_view};
use crate::runtime::first_duplicate;
use crate::constraint::InferCtx;
use crate::effects::EffectVarId;
use crate::subst::{acyclic, inst_types, resolves_within, terminates};
use crate::text::str_equals;
use crate::ty::{Constraint, Scheme, Ty, TyConst, TyM, TypeVarId, holds_var, lemma_tys_view, tys_view};

verus! {

/// Errors found while generating constraints.
#[derive(Debug)]
pub enum InferError {
    /// Reference to an unknown variable.
    UnknownVariable { name: String, span: Span },
    /// Assignment to an immutable variable.
    ImmutableAssignment { name: String, span: Span },
    /// Feature not yet implemented.
    NotImplemented { msg: String, span: Span },
    /// Inference depth limit exceeded (pathological input).
    DepthLimitExceeded { span: Span },
    /// A name bound twice by one pattern.
    DuplicateBinding { name: String, span: Span },
    /// Reference to an unknown type.
    UnknownType { name: String, span: Span },
    /// Reference to an unknown variant.
    UnknownVariant { ty_name: String, variant: String, span: Span },
    /// A pattern with the wrong number of parts.
    PatternArityMismatch { expected: usize, found: usize, span: Span },
    /// A field missing from a struct expression.
    MissingField { struct_name: String, field: String, span: Span },
    /// An unknown field in a struct expression.
    UnknownField { struct_name: String, field: String, span: Span },
    /// A field given twice.
    DuplicateField { field: String, span: Span },
    /// A tuple with more elements than allowed.
    TupleArityLimit { max: usize, found: usize, span: Span },
    /// A match that does not cover every case.
    NonExhaustiveMatch { witness: String, span: Span },
    /// A match arm that can never match.
    UnreachablePattern { arm_index: usize, span: Span },
    /// Exhaustiveness checking went over its limits.
    ExhaustivenessLimitExceeded { msg: String, span: Span },
    /// A pattern in a `let` that may not match.
    RefutablePattern { pat_desc: String, span: Span },
    /// A capability stored in a binding.
    CapabilityInBinding { cap_type: String, span: Span },
}

/// Most elements of a tuple expression.
pub const MAX_TUPLE_ARITY: usize = 8;

/// The type of a literal.
pub open spec fn lit_type(l: Lit) -> TyM {
    match l {
        Lit::Int(_) => TyM::Const(TyConst::Int),
        Lit::Float(_) => TyM::Const(TyConst::Float),
        Lit::Bool(_) => TyM::Const(TyConst::Bool),
        Lit::Str(_) => TyM::Const(TyConst::String),
        Lit::Nil => TyM::Const(TyConst::Unit),
    }
}

/// The type of a literal.
pub fn infer_lit(lit: &Lit) -> (r: Ty)
    ensures
        r@ == lit_type(*lit),
{
    match lit {
        Lit::Int(_) => Ty::int_(),
        Lit::Float(_) => Ty::float(),
        Lit::Bool(_) => Ty::bool_(),
        Lit::Str(_) => Ty::string(),
        Lit::Nil => Ty::unit(),
    }
}

/// What a step of inference keeps: the constraints collected before stay
/// first and unchanged, and both counters of fresh variables only grow.
pub open spec fn extends_ctx(a: InferCtx, b: InferCtx) -> bool {
    &&& a.collected().len() <= b.collected().len()
    &&& forall|i: int| 0 <= i < a.collected().len() ==> #[trigger] b.collected()[i] == a.collected()[i]
    &&& a.counter() <= b.counter()
    &&& a.effect_counter() <= b.effect_counter()
}

/// The depth of nesting comes back to where it was after a success; a
/// failure at the depth limit leaves one level counted.
pub open spec fn depth_kept(a: InferCtx, b: InferCtx, ok: bool) -> bool {
    &&& (b.depth() == a.depth() || b.depth() == a.depth() + 1)
    &&& (ok ==> b.depth() == a.depth())
}

/// The type that a built-in name stands for in an annotation.
pub open spec fn primitive_named(name: Seq<char>) -> Option<TyM> {
    if name == "Unit"@ {
        Some(TyM::Const(TyConst::Unit))
    } else if name == "Bool"@ {
        Some(TyM::Const(TyConst::Bool))
    } else if name == "Int"@ {
        Some(TyM::Const(TyConst::Int))
    } else if name == "Float"@ {
        Some(TyM::Const(TyConst::Float))
    } else if name == "String"@ {
        Some(TyM::Const(TyConst::String))
    } else {
        None
    }
}

/// The type an annotation stands for during inference, where only the
/// built-in types, function types and tuples of them are known.
pub open spec fn annotation_type(te: TypeExpr) -> Option<TyM>
    decreases te,
{
    match te {
        TypeExpr::Path(segs, _) => if segs@.len() > 0 {
            primitive_named(segs@[0].text@)
        } else {
            None
        },
        TypeExpr::Arrow { params, ret, .. } => match (annotation_types(params@), annotation_type(*ret)) {
            (Some(ps), Some(r)) => Some(TyM::Arrow(ps, Box::new(r), crate::effects::EffectRow { concrete: 0, tail: None })),
            _ => None,
        },
        TypeExpr::App { .. } => None,
        TypeExpr::Tuple(elems, _) => match annotation_types(elems@) {
            Some(ts) => if ts.len() == 0 {
                Some(TyM::Const(TyConst::Unit))
            } else if ts.len() == 1 {
                Some(ts[0])
            } else {
                Some(TyM::Tuple(ts))
            },
            None => None,
        },
    }
}

/// The types a list of annotations stands for, when each stands for one.
pub open spec fn annotation_types(s: Seq<TypeExpr>) -> Option<Seq<TyM>>
    decreases s,
{
    if s.len() == 0 {
        Some(Seq::empty())
    } else {
        match (annotation_types(s.drop_last()), annotation_type(s.last())) {
            (Some(ps), Some(p)) => Some(ps.push(p)),
            _ => None,
        }
    }
}

/// The first name of an annotation, as written in messages.
fn head_name(segs: &Vec<crate::ast::Ident>) -> (r: String)
    ensures
        segs@.len() > 0 ==> r@ == segs@[0].text@,
{
    if segs.len() > 0 {
        segs[0].text.clone()
    } else {
        String::new()
    }
}

fn unknown_type(name: String, span: Span) -> (r: InferError)
    ensures
        r matches InferError::NotImplemented { msg, span: s } && msg@ == "Unknown type: "@ + name@ && s == span,
{
    let mut msg = String::new();
    msg.append("Unknown type: ");
    msg.append(name.as_str());
    InferError::NotImplemented { msg, span }
}

/// The type an annotation stands for during inference.
pub fn ty_from_annotation(te: &TypeExpr) -> (r: Result<Ty, InferError>)
    ensures
        match annotation_type(*te) {
            Some(t) => r matches Ok(x) && x@ == t,
            None => r matches Err(InferError::NotImplemented { .. }),
        },
    decreases te,
{
    match te {
        TypeExpr::Path(segs, span) => {
            let name = head_name(segs);
            if segs.len() == 0 {
                return Err(unknown_type(name, *span));
            }
            if str_equals(name.as_str(), "Unit") {
                Ok(Ty::unit())
            } else if str_equals(name.as_str(), "Bool") {
                Ok(Ty::bool_())
            } else if str_equals(name.as_str(), "Int") {
                Ok(Ty::int_())
            } else if str_equals(name.as_str(), "Float") {
                Ok(Ty::float())
            } else if str_equals(name.as_str(), "String") {
                Ok(Ty::string())
            } else {
                Err(unknown_type(name, *span))
            }
        },
        TypeExpr::Arrow { params, ret, .. } => {
            let ps = tys_from_annotations(params)?;
            let r = ty_from_annotation(ret)?;
            Ok(Ty::arrow(ps, r))
        },
        TypeExpr::App { base, span, .. } => Err(unknown_type(head_name(base), *span)),
        TypeExpr::Tuple(elems, _) => {
            let mut ts = tys_from_annotations(elems)?;
            proof {
                lemma_tys_view(ts@);
            }
            if ts.len() == 0 {
                Ok(Ty::unit())
            } else if ts.len() == 1 {
                Ok(ts.remove(0))
            } else {
                Ok(Ty::tuple(ts))
            }
        },
    }
}

/// The types of a list of annotations, in order.
fn tys_from_annotations(s: &Vec<TypeExpr>) -> (r: Result<Vec<Ty>, InferError>)
    ensures
        match annotation_types(s@) {
            Some(ts) => r matches Ok(x) && tys_view(x@) == ts,
            None => r matches Err(InferError::NotImplemented { .. }),
        },
    decreases s,
{
    let mut out: Vec<Ty> = Vec::new();
    let mut i: usize = 0;
    while i < s.len()
        invariant
            i <= s@.len(),
            annotation_types(s@.take(i as int)) == Some(tys_view(out@)),
        decreases s@.len() - i,
    {
        assert(decreases_to!(s => s@[i as int]));
        proof {
            assert(s@.take(i + 1).drop_last() =~= s@.take(i as int));
        }
        match ty_from_annotation(&s[i]) {
            Ok(t) => {
                let ghost before = out@;
                out.push(t);
                proof {
                    assert(out@.drop_last() =~= before);
                }
            },
            Err(e) => {
                proof {
                    lemma_annotations_prefix_fails(s@, i as int);
                }
                return Err(e);
            },
        }
        i = i + 1;
    }
    assert(s@.take(s@.len() as int) =~= s@);
    Ok(out)
}

/// Once an annotation of a list stands for nothing, neither does the list.
proof fn lemma_annotations_prefix_fails(s: Seq<TypeExpr>, i: int)
    requires
        0 <= i < s.len(),
        annotation_type(s[i]) is None,
    ensures
        annotation_types(s) is None,
    decreases s.len(),
{
    if i < s.len() - 1 {
        lemma_annotations_prefix_fails(s.drop_last(), i);
    }
}

/// Whether a pattern may fail to match a value of its type: it holds a
/// literal or an enum variant somewhere.
pub open spec fn pat_refutable(p: Pat) -> bool
    decreases p,
{
    match p {
        Pat::Wildcard(_) => false,
        Pat::Ident(_) => false,
        Pat::Literal(_, _) => true,
        Pat::Tuple(ps, _) => pats_refutable(ps@),
        Pat::Struct { fields, .. } => field_pats_refutable(fields@),
        Pat::Variant { .. } => true,
    }
}

/// Whether one of a sequence of patterns may fail to match.
pub open spec fn pats_refutable(s: Seq<Pat>) -> bool
    decreases s,
{
    if s.len() == 0 {
        false
    } else {
        pats_refutable(s.drop_last()) || pat_refutable(s.last())
    }
}

/// Whether the pattern of one of a sequence of struct fields may fail to match.
pub open spec fn field_pats_refutable(s: Seq<PatField>) -> bool
    decreases s,
{
    if s.len() == 0 {
        false
    } else {
        field_pats_refutable(s.drop_last()) || pat_refutable(s.last().pat)
    }
}

/// A description of the first part of a pattern that may fail to match,
/// when there is one.
pub fn refutable_part(p: &Pat) -> (r: Option<String>)
    ensures
        r is Some <==> pat_refutable(*p),
    decreases p,
{
    match p {
        Pat::Wildcard(_) => None,
        Pat::Ident(_) => None,
        Pat::Literal(_, _) => {
            let mut d = String::new();
            d.append("literal pattern");
            Some(d)
        },
        Pat::Variant { path, .. } => {
            let mut d = String::new();
            d.append("variant pattern ");
            d.append(path.as_str().as_str());
            Some(d)
        },
        Pat::Tuple(ps, _) => refutable_in(ps),
        Pat::Struct { fields, .. } => refutable_in_fields(fields),
    }
}

/// The description of the first refutable part among patterns.
fn refutable_in(ps: &Vec<Pat>) -> (r: Option<String>)
    ensures
        r is Some <==> pats_refutable(ps@),
    decreases ps,
{
    let mut i: usize = 0;
    while i < ps.len()
        invariant
            i <= ps@.len(),
            !pats_refutable(ps@.take(i as int)),
        decreases ps@.len() - i,
    {
        assert(decreases_to!(ps => ps@[i as int]));
        assert(ps@.take(i + 1).drop_last() =~= ps@.take(i as int));
        let d = refutable_part(&ps[i]);
        if d.is_some() {
            proof {
                lemma_pats_refutable_grows(ps@, i + 1);
            }
            return d;
        }
        i = i + 1;
    }
    assert(ps@.take(ps@.len() as int) =~= ps@);
    None
}

/// The description of the first refutable part among the patterns of fields.
fn refutable_in_fields(fs: &Vec<PatField>) -> (r: Option<String>)
    ensures
        r is Some <==> field_pats_refutable(fs@),
    decreases fs,
{
    let mut i: usize = 0;
    while i < fs.len()
        invariant
            i <= fs@.len(),
            !field_pats_refutable(fs@.take(i as int)),
        decreases fs@.len() - i,
    {
        assert(decreases_to!(fs => fs@[i as int].pat));
        assert(fs@.take(i + 1).drop_last() =~= fs@.take(i as int));
        let d = refutable_part(&fs[i].pat);
        if d.is_some() {
            proof {
                lemma_field_pats_refutable_grows(fs@, i + 1);
            }
            return d;
        }
        i = i + 1;
    }
    assert(fs@.take(fs@.len() as int) =~= fs@);
    None
}

/// A refutable prefix makes the whole sequence refutable.
proof fn lemma_pats_refutable_grows(s: Seq<Pat>, k: int)
    requires
        0 <= k <= s.len(),
        pats_refutable(s.take(k)),
    ensures
        pats_refutable(s),
    decreases s.len() - k,
{
    if k < s.len() {
        assert(s.take(k + 1).drop_last() =~= s.take(k));
        lemma_pats_refutable_grows(s, k + 1);
    } else {
        assert(s.take(k) =~= s);
    }
}

/// A refutable prefix makes the whole sequence of fields refutable.
proof fn lemma_field_pats_refutable_grows(s: Seq<PatField>, k: int)
    requires
        0 <= k <= s.len(),
        field_pats_refutable(s.take(k)),
    ensures
        field_pats_refutable(s),
    decreases s.len() - k,
{
    if k < s.len() {
        assert(s.take(k + 1).drop_last() =~= s.take(k));
        lemma_field_pats_refutable_grows(s, k + 1);
    } else {
        assert(s.take(k) =~= s);
    }
}

/// Bindings that send each bound variable to a variable it does not bind
/// hold no cycle.
proof fn lemma_inst_acyclic(vars: Seq<TypeVarId>, fresh: Seq<TyM>, k: nat)
    requires
        k <= vars.len(),
        k <= fresh.len(),
        forall|j: int| 0 <= j < k ==> (#[trigger] fresh[j] matches TyM::Var(f) && !vars.contains(f)),
    ensures
        acyclic(inst_types(vars, fresh, k)),
{
    let m = inst_types(vars, fresh, k);
    lemma_inst_shape(vars, fresh, k);
    assert forall|v: TypeVarId| #[trigger] m.contains_key(v) implies terminates(m, TyM::Var(v), 1) by {
        let j = choose|j: int| 0 <= j < k && m[v] == fresh[j];
        let f = fresh[j]->Var_0;
        assert(!m.contains_key(f));
        assert(terminates(m, m[v], 0));
    }
    assert(resolves_within(m, 1));
}

/// The bindings for the first `k` bound variables bind only bound variables,
/// each to one of the first `k` fresh types.
proof fn lemma_inst_shape(vars: Seq<TypeVarId>, fresh: Seq<TyM>, k: nat)
    requires
        k <= vars.len(),
        k <= fresh.len(),
    ensures
        forall|v: TypeVarId| #[trigger] inst_types(vars, fresh, k).contains_key(v) ==> vars.contains(v)
            && exists|j: int| 0 <= j < k && inst_types(vars, fresh, k)[v] == fresh[j],
    decreases k,
{
    if k > 0 {
        lemma_inst_shape(vars, fresh, (k - 1) as nat);
        let m = inst_types(vars, fresh, k);
        let prev = inst_types(vars, fresh, (k - 1) as nat);
        assert forall|v: TypeVarId| #[trigger] m.contains_key(v) implies vars.contains(v) && exists|j: int|
            0 <= j < k && m[v] == fresh[j] by {
            if v == vars[k - 1] {
                assert(m[v] == fresh[k - 1]);
            } else {
                assert(prev.contains_key(v));
                let j = choose|j: int| 0 <= j < k - 1 && prev[v] == fresh[j];
                assert(m[v] == fresh[j]);
            }
        }
    }
}

impl InferCtx {
    /// A fresh type variable, or an error when every number is used up.
    pub(crate) fn fresh_or_err(&mut self, span: Span) -> (r: Result<TypeVarId, InferError>)
        ensures
            extends_ctx(*old(self), *final(self)),
            final(self).depth() == old(self).depth(),
            final(self).collected() == old(self).collected(),
            r matches Ok(v) ==> v == TypeVarId(old(self).counter()) && final(self).counter() == old(self).counter() + 1,
            r is Ok <==> old(self).counter() < u32::MAX,
            r matches Err(e) ==> (e matches InferError::NotImplemented { msg, span: s } && msg@ == "Out of type variables"@ && s == span),
    {
        match self.try_fresh() {
            Some(v) => Ok(v),
            None => {
                let mut msg = String::new();
                msg.append("Out of type variables");
                Err(InferError::NotImplemented { msg, span })
            },
        }
    }

    /// Instantiates a scheme: each bound type variable becomes a fresh one
    /// and each bound effect variable an open row over a fresh one. A scheme
    /// that binds nothing gives its type back.
    pub fn instantiate_scheme(&mut self, scheme: &Scheme, span: Span) -> (r: Result<Ty, InferError>)
        ensures
            extends_ctx(*old(self), *final(self)),
            final(self).depth() == old(self).depth(),
            final(self).collected() == old(self).collected(),
            scheme.type_vars@.len() == 0 && scheme.effect_vars@.len() == 0 ==> (r matches Ok(t) && t@
                == scheme.ty@ && final(self).counter() == old(self).counter()),
    {
        if scheme.type_vars.len() == 0 && scheme.effect_vars.len() == 0 {
            return Ok(scheme.ty.copy());
        }
        let mut fresh: Vec<Ty> = Vec::new();
        let mut i: usize = 0;
        while i < scheme.type_vars.len()
            invariant
                i <= scheme.type_vars@.len(),
                fresh@.len() == i,
                extends_ctx(*old(self), *self),
                self.depth() == old(self).depth(),
                self.collected() == old(self).collected(),
                forall|j: int| 0 <= j < i ==> (#[trigger] fresh@[j]@ matches TyM::Var(f) && !scheme.type_vars@.contains(f)),
            decreases scheme.type_vars@.len() - i,
        {
            let mut v = self.fresh_or_err(span)?;
            while holds_var(&scheme.type_vars, v)
                invariant
                    extends_ctx(*old(self), *self),
                    self.depth() == old(self).depth(),
                    self.collected() == old(self).collected(),
                    v.0 < self.counter(),
                decreases u32::MAX - self.counter(),
            {
                v = self.fresh_or_err(span)?;
            }
            fresh.push(Ty::Var(v));
            i = i + 1;
        }
        let mut fresh_effects: Vec<EffectVarId> = Vec::new();
        let mut j: usize = 0;
        while j < scheme.effect_vars.len()
            invariant
                j <= scheme.effect_vars@.len(),
                fresh_effects@.len() == j,
                extends_ctx(*old(self), *self),
                self.depth() == old(self).depth(),
                self.collected() == old(self).collected(),
            decreases scheme.effect_vars@.len() - j,
        {
            match self.try_fresh_effect() {
                Some(e) => fresh_effects.push(e),
                None => {
                    let mut msg = String::new();
                    msg.append("Out of effect variables");
                    return Err(InferError::NotImplemented { msg, span });
                },
            }
            j = j + 1;
        }
        proof {
            lemma_tys_view(fresh@);
            let fv = tys_view(fresh@);
            assert forall|k: int| 0 <= k < scheme.type_vars@.len() implies (#[trigger] fv[k] matches TyM::Var(f)
                && !scheme.type_vars@.contains(f)) by {
                assert(fv[k] == fresh@[k]@);
            }
            lemma_inst_acyclic(scheme.type_vars@, fv, scheme.type_vars@.len());
        }
        match scheme.instantiate(fresh.as_slice(), fresh_effects.as_slice()) {
            Ok(t) => Ok(t),
            Err(_) => {
                let mut msg = String::new();
                msg.append("Cannot instantiate a type scheme");
                Err(InferError::NotImplemented { msg, span })
            },
        }
    }
}

/// The names a pattern binds, in order.
pub open spec fn pat_names(p: Pat) -> Seq<Seq<char>>
    decreases p,
{
    match p {
        Pat::Ident(id) => seq![id.text@],
        Pat::Tuple(ps, _) => pats_names(ps@),
        Pat::Variant { fields, .. } => pats_names(fields@),
        _ => Seq::empty(),
    }
}

/// The names a sequence of patterns binds, in order.
pub open spec fn pats_names(s: Seq<Pat>) -> Seq<Seq<char>>
    decreases s,
{
    if s.len() == 0 {
        Seq::empty()
    } else {
        pats_names(s.drop_last()) + pat_names(s.last())
    }
}

/// The names of a list of bindings.
pub open spec fn binding_names(b: Seq<(String, Ty)>) -> Seq<Seq<char>> {
    b.map_values(|x: (String, Ty)| x.0@)
}

/// The names of a list of bindings, in order.
fn names_of(b: &Vec<(String, Ty)>) -> (r: Vec<String>)
    ensures
        crate::runtime::name_views(r@) == binding_names(b@),
{
    let mut out: Vec<String> = Vec::new();
    let mut i: usize = 0;
    while i < b.len()
        invariant
            i <= b@.len(),
            out@.len() == i,
            forall|k: int| 0 <= k < i ==> #[trigger] out@[k]@ == b@[k].0@,
        decreases b@.len() - i,
    {
        out.push(b[i].0.clone());
        i = i + 1;
    }
    assert(crate::runtime::name_views(out@) =~= binding_names(b@));
    out
}

/// The type of an operation's result.
pub open spec fn binary_result(op: BinOp) -> TyM {
    match op {
        BinOp::Add | BinOp::Sub | BinOp::Mul | BinOp::Div => TyM::Const(TyConst::Int),
        _ => TyM::Const(TyConst::Bool),
    }
}

/// The pairs of types that an operation requires equal, for operands of
/// types `l` and `r`.
pub open spec fn binary_pairs(op: BinOp, l: TyM, r: TyM) -> Seq<(TyM, TyM)> {
    match op {
        BinOp::Add | BinOp::Sub | BinOp::Mul | BinOp::Div => seq![
            (l, TyM::Const(TyConst::Int)),
            (r, TyM::Const(TyConst::Int)),
        ],
        BinOp::And | BinOp::Or => seq![(l, TyM::Const(TyConst::Bool)), (r, TyM::Const(TyConst::Bool))],
        _ => seq![(l, r)],
    }
}

/// The constraints `b` are `a` followed by the equalities of the pairs, each
/// at `span`.
pub open spec fn collected_pairs(a: Seq<Constraint>, b: Seq<Constraint>, ps: Seq<(TyM, TyM)>, span: Span) -> bool {
    &&& b.len() == a.len() + ps.len()
    &&& forall|k: int| 0 <= k < a.len() ==> #[trigger] b[k] == a[k]
    &&& forall|k: int| 0 <= k < ps.len() ==> (#[trigger] b[a.len() + k] matches Constraint::Equal(x, y, s) && x@ == ps[k].0
        && y@ == ps[k].1 && s == span)
}

/// The type of a unary operation's operand and result.
pub open spec fn unary_result(op: UnOp) -> TyM {
    match op {
        UnOp::Not => TyM::Const(TyConst::Bool),
        UnOp::Neg => TyM::Const(TyConst::Int),
    }
}

/// The last constraint collected says that a type equals `want`, for `span`.
pub open spec fn last_equates_to(b: InferCtx, want: TyM, span: Span) -> bool {
    &&& b.collected().len() > 0
    &&& b.collected().last() matches Constraint::Equal(_, y, s) && y@ == want && s == span
}

/// What inferring a block gives when it has no tail: `Never` after a final
/// `return`, else `Unit`.
pub open spec fn block_outcome(b: Block, r: Result<Ty, InferError>) -> bool {
    b.tail is None ==> (r matches Ok(t) ==> t@ == (if b.stmts@.len() > 0 && b.stmts@.last() is Return {
        TyM::Never
    } else {
        TyM::Const(TyConst::Unit)
    }))
}

/// What inferring an expression gives, by its outermost form.
pub open spec fn expr_outcome(env: Map<Seq<char>, Scheme>, e: Expr, a: InferCtx, b: InferCtx, r: Result<Ty, InferError>) -> bool {
    match e {
        Expr::Lit(l, _) => r matches Ok(t) && t@ == lit_type(l) && b.collected() == a.collected() && b.counter()
            == a.counter(),
        Expr::Var(id) => if env.contains_key(id.text@) {
            (env[id.text@].type_vars@.len() == 0 && env[id.text@].effect_vars@.len() == 0) ==> (
            r matches Ok(t) && t@ == env[id.text@].ty@)
        } else {
            r == Err::<Ty, InferError>(InferError::UnknownVariable { name: id.text, span: id.span })
        },
        Expr::Unary { op, span, .. } => r matches Ok(t) ==> t@ == unary_result(op) && last_equates_to(
            b,
            unary_result(op),
            span,
        ),
        Expr::Binary { lhs, op, rhs, span } => r matches Ok(t) ==> t@ == binary_result(op) && exists|
            m2: InferCtx,
            lt: TyM,
            rt: TyM,
        |
            #![trigger collected_pairs(m2.collected(), b.collected(), binary_pairs(op, lt, rt), span)]
            collected_pairs(m2.collected(), b.collected(), binary_pairs(op, lt, rt), span) && (is_lit(*lhs) ==> lt
                == lit_expr_type(*lhs)) && (is_lit(*rhs) ==> rt == lit_expr_type(*rhs)),
        Expr::Call { .. } => r matches Ok(t) ==> (t@ matches TyM::Var(v) && a.counter() <= v.0 < b.counter()),
        Expr::Block(bl) => block_outcome(bl, r),
        Expr::If { else_, .. } => else_ is None ==> (r matches Ok(t) ==> t@ == TyM::Const(TyConst::Unit)),
        Expr::While { .. } => r matches Ok(t) ==> t@ == TyM::Const(TyConst::Unit),
        Expr::Match { .. } => r matches Ok(t) ==> (t@ matches TyM::Var(v) && a.counter() <= v.0 < b.counter()),
        Expr::Tuple { elems, span } => {
            &&& elems@.len() == 0 ==> (r matches Ok(t) && t@ == TyM::Const(TyConst::Unit))
            &&& elems@.len() > MAX_TUPLE_ARITY ==> r == Err::<Ty, InferError>(
                InferError::TupleArityLimit { max: MAX_TUPLE_ARITY, found: elems@.len() as usize, span },
            )
            &&& 1 < elems@.len() <= MAX_TUPLE_ARITY ==> (r matches Ok(t) ==> (t@ matches TyM::Tuple(ts)
                && ts.len() == elems@.len()))
        },
        Expr::StructExpr { .. } => r matches Err(InferError::NotImplemented { .. }),
        Expr::PathExpr(p) => {
            &&& (p.segments@.len() == 1 && !env.contains_key(p.segments@[0].text@)) ==> r == Err::<
                Ty,
                InferError,
            >(InferError::UnknownVariable { name: p.segments@[0].text, span: p.segments@[0].span })
            &&& (p.segments@.len() == 2 && !env.contains_key(joined_path(p.segments@))) ==> (r matches Err(
                InferError::UnknownVariant { .. },
            ))
        },
        _ => true,
    }
}

/// What inferring an expression gives does not depend on which copies of the
/// schemes the environment holds, only on their variables and types.
pub proof fn lemma_outcome_same_schemes(
    env1: Map<Seq<char>, Scheme>,
    env2: Map<Seq<char>, Scheme>,
    e: Expr,
    a: InferCtx,
    b: InferCtx,
    r: Result<Ty, InferError>,
)
    requires
        env1.dom() == env2.dom(),
        forall|k: Seq<char>| #[trigger] env1.contains_key(k) ==> scheme_view(env1[k]) == scheme_view(env2[k]),
    ensures
        expr_outcome(env1, e, a, b, r) == expr_outcome(env2, e, a, b, r),
{
    match e {
        Expr::Var(id) => {
            if env1.contains_key(id.text@) {
                assert(env2.contains_key(id.text@));
                assert(scheme_view(env1[id.text@]) == scheme_view(env2[id.text@]));
            } else {
                assert(!env2.contains_key(id.text@));
            }
        },
        Expr::PathExpr(p) => {
            if p.segments@.len() == 1 {
                assert(env1.contains_key(p.segments@[0].text@) == env2.contains_key(p.segments@[0].text@));
            }
            if p.segments@.len() == 2 {
                assert(env1.contains_key(joined_path(p.segments@)) == env2.contains_key(joined_path(p.segments@)));
            }
        },
        _ => {},
    }
}

/// Inferring `l && r` or `l || r` gives `Bool` and requires both operand
/// types to equal `Bool`: among the constraints it leaves are an equality of
/// the left operand's type with `Bool` and one of the right operand's type
/// with `Bool`, where an operand that is a literal has the literal's type.
pub proof fn lemma_logical_operands_constrained(
    env: Map<Seq<char>, Scheme>,
    e: Expr,
    a: InferCtx,
    b: InferCtx,
    t: Ty,
)
    requires
        e matches Expr::Binary { op, .. } && (op is And || op is Or),
        expr_outcome(env, e, a, b, Ok::<Ty, InferError>(t)),
    ensures
        t@ == TyM::Const(TyConst::Bool),
        exists|lt: TyM, rt: TyM|
            #![trigger logical_operand_types(e, lt, rt)]
            logical_operand_types(e, lt, rt) && equates_to_bool(b.collected(), lt) && equates_to_bool(b.collected(), rt),
{
    let (lhs, op, rhs, span) = match e {
        Expr::Binary { lhs, op, rhs, span } => (lhs, op, rhs, span),
        _ => arbitrary(),
    };
    let (m2, lt, rt) = choose|m2: InferCtx, lt: TyM, rt: TyM|
        #![trigger collected_pairs(m2.collected(), b.collected(), binary_pairs(op, lt, rt), span)]
        collected_pairs(m2.collected(), b.collected(), binary_pairs(op, lt, rt), span) && (is_lit(*lhs) ==> lt
            == lit_expr_type(*lhs)) && (is_lit(*rhs) ==> rt == lit_expr_type(*rhs));
    let n = m2.collected().len() as int;
    assert(b.collected()[n + 0] matches Constraint::Equal(x, y, _) && x@ == lt && y@ == TyM::Const(TyConst::Bool));
    assert(b.collected()[n + 1] matches Constraint::Equal(x, y, _) && x@ == rt && y@ == TyM::Const(TyConst::Bool));
    assert(logical_operand_types(e, lt, rt));
}

/// Whether `lt` and `rt` may be the types inferred for the operands of a
/// binary expression: an operand that is a literal has the literal's type.
pub open spec fn logical_operand_types(e: Expr, lt: TyM, rt: TyM) -> bool {
    match e {
        Expr::Binary { lhs, rhs, .. } => (is_lit(*lhs) ==> lt == lit_expr_type(*lhs)) && (is_lit(*rhs) ==> rt
            == lit_expr_type(*rhs)),
        _ => false,
    }
}

/// Whether some constraint of the list equates the type `t` with `Bool`.
pub open spec fn equates_to_bool(cs: Seq<Constraint>, t: TyM) -> bool {
    exists|i: int| 0 <= i < cs.len() && (#[trigger] cs[i] matches Constraint::Equal(x, y, _) && x@ == t && y@ == TyM::Const(
        TyConst::Bool,
    ))
}

/// How many operations nest along the left operands of an expression: each
/// unary or binary operation adds one above its (left) operand.
pub open spec fn left_nesting(e: Expr) -> nat
    decreases e,
{
    match e {
        Expr::Unary { expr, .. } => 1 + left_nesting(*expr),
        Expr::Binary { lhs, .. } => 1 + left_nesting(*lhs),
        _ => 0,
    }
}

/// Whether an expression is a boolean literal under some number of `!`.
pub open spec fn negation_tower(e: Expr) -> bool
    decreases e,
{
    match e {
        Expr::Lit(Lit::Bool(_), _) => true,
        Expr::Unary { op: UnOp::Not, expr, .. } => negation_tower(*expr),
        _ => false,
    }
}

/// What inferring an operation on two literals gives: its result type, after
/// the equalities that the operation requires of the literals' types.
pub open spec fn binary_of_literals_outcome(e: Expr, a: InferCtx, b: InferCtx, r: Result<Ty, InferError>) -> bool {
    match e {
        Expr::Binary { lhs, op, rhs, span } => is_lit(*lhs) && is_lit(*rhs) ==> (r matches Ok(t) && t@ == binary_result(op)
            && collected_pairs(a.collected(), b.collected(), binary_pairs(op, lit_expr_type(*lhs), lit_expr_type(*rhs)), span)),
        _ => true,
    }
}

/// Whether an expression is a literal.
pub open spec fn is_lit(e: Expr) -> bool {
    e is Lit
}

/// The type of a literal expression.
pub open spec fn lit_expr_type(e: Expr) -> TyM {
    match e {
        Expr::Lit(l, _) => lit_type(l),
        _ => TyM::Never,
    }
}

/// Whether a pattern matches any value without a check: a wildcard or a name.
pub open spec fn binds_surely(p: Pat) -> bool {
    p is Wildcard || p is Ident
}

/// Whether a pattern binds without looking up constructors: a wildcard, a
/// name or a literal.
pub open spec fn simple_pat(p: Pat) -> bool {
    p is Wildcard || p is Ident || p is Literal
}

/// Extending is transitive.
pub proof fn lemma_extends_trans(a: InferCtx, b: InferCtx, c: InferCtx)
    requires
        extends_ctx(a, b),
        extends_ctx(b, c),
    ensures
        extends_ctx(a, c),
{
    assert forall|i: int| 0 <= i < a.collected().len() implies #[trigger] c.collected()[i] == a.collected()[i] by {
        assert(c.collected()[i] == b.collected()[i]);
    }
}

fn not_implemented(what: &str, span: Span) -> (r: InferError)
    ensures
        r matches InferError::NotImplemented { msg, span: s } && msg@ == what@ + " are not yet supported"@ && s == span,
{
    let mut msg = String::new();
    msg.append(what);
    msg.append(" are not yet supported");
    InferError::NotImplemented { msg, span }
}

impl InferCtx {
    /// Collects the constraint that two types are equal.
    fn constrain(&mut self, a: Ty, b: Ty, span: Span)
        ensures
            extends_ctx(*old(self), *final(self)),
            final(self).depth() == old(self).depth(),
            final(self).counter() == old(self).counter(),
            final(self).collected().len() == old(self).collected().len() + 1,
            final(self).collected().last() matches Constraint::Equal(x, y, s) && x@ == a@ && y@ == b@ && s == span,
    {
        let ghost av = a@;
        let ghost bv = b@;
        self.add_constraint(Constraint::Equal(a, b, span));
    }

    /// The bindings of a pattern matched against a value of type `expected`,
    /// collecting what the pattern requires of that type.
    pub fn infer_pattern(&mut self, ctx: &CheckContext, pat: &Pat, expected: &Ty) -> (r: Result<Vec<(String, Ty)>, InferError>)
        ensures
            extends_ctx(*old(self), *final(self)),
            final(self).depth() == old(self).depth(),
            r matches Ok(b) ==> binding_names(b@) == pat_names(*pat),
            match *pat {
                Pat::Wildcard(_) => r matches Ok(b) && b@.len() == 0 && final(self).collected() == old(self).collected(),
                Pat::Ident(id) => r matches Ok(b) && b@.len() == 1 && b@[0].1@ == expected@ && final(self).collected()
                    == old(self).collected(),
                Pat::Literal(l, span) => r is Ok && final(self).collected().len() == old(self).collected().len() + 1
                    && (final(self).collected().last() matches Constraint::Equal(x, y, s) && x@ == expected@ && y@
                    == lit_type(l) && s == span),
                Pat::Struct { .. } => r matches Err(InferError::NotImplemented { .. }),
                Pat::Variant { path, .. } => !ctx.env@.contains_key(joined_path(path.segments@)) ==> (r matches Err(
                    InferError::UnknownVariant { .. },
                )),
                Pat::Tuple(..) => true,
            },
        decreases pat,
    {
        match pat {
            Pat::Wildcard(_) => Ok(Vec::new()),
            Pat::Ident(id) => {
                let mut out: Vec<(String, Ty)> = Vec::new();
                out.push((id.text.clone(), expected.copy()));
                proof {
                    assert(binding_names(out@) =~= seq![id.text@]);
                }
                Ok(out)
            },
            Pat::Literal(lit, span) => {
                self.constrain(expected.copy(), infer_lit(lit), *span);
                let out: Vec<(String, Ty)> = Vec::new();
                assert(binding_names(out@) =~= Seq::<Seq<char>>::empty());
                Ok(out)
            },
            Pat::Tuple(ps, span) => {
                if ps.len() == 0 {
                    self.constrain(expected.copy(), Ty::unit(), *span);
                    let out: Vec<(String, Ty)> = Vec::new();
                    assert(binding_names(out@) =~= Seq::<Seq<char>>::empty());
                    assert(pats_names(ps@) =~= Seq::<Seq<char>>::empty());
                    return Ok(out);
                }
                let ghost start = *self;
                let mut parts: Vec<Ty> = Vec::new();
                let mut i: usize = 0;
                while i < ps.len()
                    invariant
                        i <= ps@.len(),
                        parts@.len() == i,
                        extends_ctx(start, *self),
                        self.depth() == start.depth(),
                        start == *old(self),
                        *pat is Tuple,
                    decreases ps@.len() - i,
                {
                    let v = self.fresh_or_err(*span)?;
                    parts.push(Ty::Var(v));
                    i = i + 1;
                }
                let mut elem_tys: Vec<Ty> = Vec::new();
                let mut j: usize = 0;
                while j < parts.len()
                    invariant
                        j <= parts@.len(),
                        elem_tys@.len() == j,
                        forall|k: int| 0 <= k < j ==> #[trigger] elem_tys@[k]@ == parts@[k]@,
                    decreases parts@.len() - j,
                {
                    elem_tys.push(parts[j].copy());
                    j = j + 1;
                }
                self.constrain(expected.copy(), Ty::tuple(elem_tys), *span);
                let ghost mid = *self;
                proof {
                    lemma_extends_trans(start, mid, mid);
                }
                let r = self.infer_patterns(ctx, ps, &parts);
                proof {
                    lemma_extends_trans(start, mid, *self);
                }
                r
            },
            Pat::Struct { span, .. } => Err(not_implemented("Struct patterns", *span)),
            Pat::Variant { path, fields, span } => {
                let name = path.as_str();
                let scheme = match ctx.env.get(&name) {
                    Some(sc) => sc,
                    None => {
                        let ty_name = if path.segments.len() > 0 {
                            path.segments[0].text.clone()
                        } else {
                            String::new()
                        };
                        let variant = if path.segments.len() > 0 {
                            path.segments[path.segments.len() - 1].text.clone()
                        } else {
                            String::new()
                        };
                        return Err(InferError::UnknownVariant { ty_name, variant, span: *span });
                    },
                };
                let t = self.instantiate_scheme(scheme, *span)?;
                let ghost mid = *self;
                match t {
                    Ty::Arrow(params, ret, _) => {
                        if params.len() != fields.len() {
                            return Err(
                                InferError::PatternArityMismatch { expected: params.len(), found: fields.len(), span: *span },
                            );
                        }
                        self.constrain(expected.copy(), *ret, *span);
                        let ghost mid2 = *self;
                        let r = self.infer_patterns(ctx, fields, &params);
                        proof {
                            lemma_extends_trans(*old(self), mid, mid2);
                            lemma_extends_trans(*old(self), mid2, *self);
                        }
                        r
                    },
                    other => {
                        if fields.len() != 0 {
                            return Err(InferError::PatternArityMismatch { expected: 0, found: fields.len(), span: *span });
                        }
                        self.constrain(expected.copy(), other, *span);
                        proof {
                            lemma_extends_trans(*old(self), mid, *self);
                        }
                        let out: Vec<(String, Ty)> = Vec::new();
                        assert(binding_names(out@) =~= Seq::<Seq<char>>::empty());
                        assert(pats_names(fields@) =~= Seq::<Seq<char>>::empty());
                        Ok(out)
                    },
                }
            },
        }
    }

    /// The bindings of patterns matched against values of the given types,
    /// in order.
    fn infer_patterns(&mut self, ctx: &CheckContext, ps: &Vec<Pat>, tys: &Vec<Ty>) -> (r: Result<Vec<(String, Ty)>, InferError>)
        requires
            ps@.len() == tys@.len(),
        ensures
            extends_ctx(*old(self), *final(self)),
            final(self).depth() == old(self).depth(),
            r matches Ok(b) ==> binding_names(b@) == pats_names(ps@),
            (forall|i: int| 0 <= i < ps@.len() ==> simple_pat(#[trigger] ps@[i])) ==> r is Ok,
            ps@.len() == 0 ==> (r matches Ok(b) && b@.len() == 0 && final(self).collected() == old(self).collected()),
        decreases ps,
    {
        let mut out: Vec<(String, Ty)> = Vec::new();
        let mut i: usize = 0;
        while i < ps.len()
            invariant
                i <= ps@.len(),
                ps@.len() == tys@.len(),
                extends_ctx(*old(self), *self),
                self.depth() == old(self).depth(),
                binding_names(out@) == pats_names(ps@.take(i as int)),
                i == 0 ==> out@.len() == 0 && self.collected() == old(self).collected(),
            decreases ps@.len() - i,
        {
            assert(decreases_to!(ps => ps@[i as int]));
            let ghost before = *self;
            let ghost prev = out@;
            let mut sub = self.infer_pattern(ctx, &ps[i], &tys[i])?;
            proof {
                lemma_extends_trans(*old(self), before, *self);
            }
            let ghost got = sub@;
            out.append(&mut sub);
            proof {
                assert(ps@.take(i + 1).drop_last() =~= ps@.take(i as int));
                assert(binding_names(out@) =~= binding_names(prev) + binding_names(got));
            }
            i = i + 1;
        }
        assert(ps@.take(ps@.len() as int) =~= ps@);
        Ok(out)
    }
}

/// The span a call's constraint is reported at: that of the called name or
/// parenthesized callee, else an empty span.
fn call_span(callee: &Expr) -> (r: Span)
    ensures
        r == match *callee {
            Expr::Var(id) => id.span,
            Expr::Paren { span, .. } => span,
            _ => Span { start: 0, end: 0 },
        },
{
    match callee {
        Expr::Var(id) => id.span,
        Expr::Paren { span, .. } => *span,
        _ => Span { start: 0, end: 0 },
    }
}

impl InferCtx {
    /// Collects what a binary operation requires of its operand types and
    /// gives its result type: integers for arithmetic, booleans for `&&` and
    /// `||`, equal types for comparisons.
    fn binary_constraints(&mut self, op: BinOp, lhs: Ty, rhs: Ty, span: Span) -> (r: Ty)
        ensures
            extends_ctx(*old(self), *final(self)),
            final(self).depth() == old(self).depth(),
            final(self).counter() == old(self).counter(),
            r@ == binary_result(op),
            collected_pairs(old(self).collected(), final(self).collected(), binary_pairs(op, lhs@, rhs@), span),
    {
        let ghost l = lhs@;
        let ghost rr = rhs@;
        match op {
            BinOp::Add | BinOp::Sub | BinOp::Mul | BinOp::Div => {
                self.constrain(lhs, Ty::int_(), span);
                let ghost mid = *self;
                self.constrain(rhs, Ty::int_(), span);
                proof {
                    lemma_extends_trans(*old(self), mid, *self);
                }
                Ty::int_()
            },
            BinOp::Lt | BinOp::Le | BinOp::Gt | BinOp::Ge | BinOp::Eq | BinOp::Ne => {
                self.constrain(lhs, rhs, span);
                Ty::bool_()
            },
            BinOp::And | BinOp::Or => {
                self.constrain(lhs, Ty::bool_(), span);
                let ghost mid = *self;
                self.constrain(rhs, Ty::bool_(), span);
                proof {
                    lemma_extends_trans(*old(self), mid, *self);
                }
                Ty::bool_()
            },
        }
    }

    /// The type of an `if` with both branches: a branch that diverges takes
    /// the other's type, and otherwise the two must be equal.
    fn join_branches(&mut self, then_ty: Ty, else_ty: Ty, span: Span) -> (r: Ty)
        ensures
            extends_ctx(*old(self), *final(self)),
            final(self).depth() == old(self).depth(),
            final(self).counter() == old(self).counter(),
            then_ty@ == TyM::Never ==> r@ == else_ty@,
            then_ty@ != TyM::Never && else_ty@ == TyM::Never ==> r@ == then_ty@,
            then_ty@ != TyM::Never && else_ty@ != TyM::Never ==> r@ == then_ty@ && last_equates_to(
                *final(self),
                else_ty@,
                span,
            ),
    {
        let then_never = matches!(then_ty, Ty::Never);
        let else_never = matches!(else_ty, Ty::Never);
        if then_never {
            else_ty
        } else if else_never {
            then_ty
        } else {
            self.constrain(then_ty.copy(), else_ty, span);
            then_ty
        }
    }

    /// Infers the type of an expression under a context; see `infer_expr_ctx`.
    pub fn infer_expr(&mut self, env: &crate::assoc::AssocMap<String, Scheme>, expr: &Expr) -> (r: Result<Ty, InferError>)
        ensures
            extends_ctx(*old(self), *final(self)),
            depth_kept(*old(self), *final(self), r is Ok),
            old(self).depth() >= MAX_INFER_DEPTH ==> r == Err::<Ty, InferError>(InferError::DepthLimitExceeded { span: expr_span(*expr) }),
            old(self).depth() < MAX_INFER_DEPTH ==> expr_outcome(env@, *expr, *old(self), *final(self), r),
            old(self).depth() + left_nesting(*expr) >= MAX_INFER_DEPTH ==> r matches Err(InferError::DepthLimitExceeded { .. }),
            negation_tower(*expr) && old(self).depth() + left_nesting(*expr) < MAX_INFER_DEPTH ==> (r matches Ok(t) && t@
                == TyM::Const(TyConst::Bool)),
    {
        let ctx = CheckContext::from_env(crate::constraint::copy_env(env));
        let r = self.infer_expr_ctx(&ctx, expr);
        proof {
            lemma_outcome_same_schemes(ctx.env@, env@, *expr, *old(self), *self, r);
            match expr {
                Expr::Var(id) => {
                    if env@.contains_key(id.text@) {
                        assert(ctx.env@.contains_key(id.text@));
                    }
                },
                Expr::PathExpr(p) => {
                    if p.segments@.len() == 1 && env@.contains_key(p.segments@[0].text@) {
                        assert(ctx.env@.contains_key(p.segments@[0].text@));
                    }
                },
                _ => {},
            }
        }
        r
    }

    /// Infers the type of an expression, collecting the equalities it
    /// requires; nested expressions deeper than `MAX_INFER_DEPTH` are refused.
    pub fn infer_expr_ctx(&mut self, ctx: &CheckContext, expr: &Expr) -> (r: Result<Ty, InferError>)
        ensures
            extends_ctx(*old(self), *final(self)),
            depth_kept(*old(self), *final(self), r is Ok),
            old(self).depth() >= MAX_INFER_DEPTH ==> r == Err::<Ty, InferError>(InferError::DepthLimitExceeded { span: expr_span(*expr) }),
            old(self).depth() < MAX_INFER_DEPTH ==> expr_outcome(ctx.env@, *expr, *old(self), *final(self), r),
            old(self).depth() + 1 < MAX_INFER_DEPTH ==> binary_of_literals_outcome(*expr, *old(self), *final(self), r),
            old(self).depth() + left_nesting(*expr) >= MAX_INFER_DEPTH ==> r matches Err(InferError::DepthLimitExceeded { .. }),
            negation_tower(*expr) && old(self).depth() + left_nesting(*expr) < MAX_INFER_DEPTH ==> (r matches Ok(t) && t@
                == TyM::Const(TyConst::Bool)),
        decreases expr, 1nat,
    {
        let span = expr.span();
        if !self.enter_depth() {
            return Err(InferError::DepthLimitExceeded { span });
        }
        let ghost entered = *self;
        let r = self.infer_expr_inner(ctx, expr);
        let ghost inner = *self;
        self.exit_depth();
        proof {
            lemma_extends_trans(*old(self), entered, inner);
            lemma_extends_trans(*old(self), inner, *self);
        }
        r
    }

    /// The types of a list of expressions, in order.
    fn infer_args(&mut self, ctx: &CheckContext, args: &Vec<Expr>) -> (r: Result<Vec<Ty>, InferError>)
        ensures
            extends_ctx(*old(self), *final(self)),
            depth_kept(*old(self), *final(self), r is Ok),
            r matches Ok(ts) ==> ts@.len() == args@.len(),
            args@.len() == 0 ==> (r matches Ok(ts) && final(self).collected() == old(self).collected()),
            (old(self).depth() < MAX_INFER_DEPTH && forall|i: int| 0 <= i < args@.len() ==> is_lit(#[trigger] args@[i]))
                ==> (r matches Ok(ts) && forall|i: int| 0 <= i < args@.len() ==> #[trigger] ts@[i]@ == lit_expr_type(args@[i])),
        decreases args, 0nat,
    {
        let mut out: Vec<Ty> = Vec::new();
        let mut i: usize = 0;
        while i < args.len()
            invariant
                i <= args@.len(),
                out@.len() == i,
                extends_ctx(*old(self), *self),
                self.depth() == old(self).depth(),
                i == 0 ==> self.collected() == old(self).collected(),
                (old(self).depth() < MAX_INFER_DEPTH && forall|j: int| 0 <= j < args@.len() ==> is_lit(#[trigger] args@[j]))
                    ==> forall|j: int| 0 <= j < i ==> #[trigger] out@[j]@ == lit_expr_type(args@[j]),
            decreases args@.len() - i,
        {
            assert(decreases_to!(args => args@[i as int]));
            let ghost before = *self;
            let t = self.infer_expr_ctx(ctx, &args[i]);
            proof {
                lemma_extends_trans(*old(self), before, *self);
            }
            match t {
                Ok(t) => out.push(t),
                Err(e) => return Err(e),
            }
            i = i + 1;
        }
        Ok(out)
    }

    /// Infers the arms of a match against the scrutinee's type: each arm's
    /// pattern binds its names in a scope of their own, and each arm's body
    /// that does not diverge must have type `result`.
    fn infer_arms(&mut self, ctx: &CheckContext, scrut_ty: &Ty, result: TypeVarId, arms: &Vec<MatchArm>) -> (r: Result<
        (),
        InferError,
    >)
        ensures
            extends_ctx(*old(self), *final(self)),
            depth_kept(*old(self), *final(self), r is Ok),
            arms@.len() == 0 ==> (r is Ok && final(self).collected() == old(self).collected()),
            (old(self).depth() < MAX_INFER_DEPTH && forall|i: int| 0 <= i < arms@.len() ==> binds_surely(#[trigger] arms@[i].pat)
                && is_lit(arms@[i].body)) ==> r is Ok,
        decreases arms, 0nat,
    {
        let mut i: usize = 0;
        while i < arms.len()
            invariant
                i <= arms@.len(),
                extends_ctx(*old(self), *self),
                self.depth() == old(self).depth(),
                i == 0 ==> self.collected() == old(self).collected(),
            decreases arms@.len() - i,
        {
            assert(decreases_to!(arms => arms@[i as int].body));
            let arm = &arms[i];
            let ghost s0 = *self;
            let bindings = self.infer_pattern(ctx, &arm.pat, scrut_ty)?;
            proof {
                lemma_extends_trans(*old(self), s0, *self);
            }
            let names = names_of(&bindings);
            match first_duplicate(&names) {
                Some(name) => {
                    proof {
                        if binds_surely(arms@[i as int].pat) {
                            assert(pat_names(arms@[i as int].pat).len() <= 1);
                            assert(crate::runtime::name_views(names@).len() <= 1);
                            assert(crate::runtime::distinct_before(crate::runtime::name_views(names@), names@.len() as int));
                        }
                    }
                    return Err(InferError::DuplicateBinding { name, span: arm.pat.span() });
                },
                None => {},
            }
            let mut arm_ctx = ctx.child();
            let mut k: usize = 0;
            while k < bindings.len()
                invariant
                    k <= bindings@.len(),
                decreases bindings@.len() - k,
            {
                arm_ctx.bind(bindings[k].0.clone(), Scheme::mono(bindings[k].1.copy()), false);
                k = k + 1;
            }
            let ghost s1 = *self;
            let body_ty = self.infer_expr_ctx(&arm_ctx, &arm.body);
            proof {
                lemma_extends_trans(*old(self), s1, *self);
            }
            let body_ty = match body_ty {
                Ok(t) => t,
                Err(e) => return Err(e),
            };
            if !matches!(body_ty, Ty::Never) {
                let ghost s2 = *self;
                self.constrain(body_ty, Ty::Var(result), arm.span);
                proof {
                    lemma_extends_trans(*old(self), s2, *self);
                }
            }
            i = i + 1;
        }
        Ok(())
    }

    fn infer_expr_inner(&mut self, ctx: &CheckContext, expr: &Expr) -> (r: Result<Ty, InferError>)
        ensures
            extends_ctx(*old(self), *final(self)),
            depth_kept(*old(self), *final(self), r is Ok),
            expr_outcome(ctx.env@, *expr, *old(self), *final(self), r),
            old(self).depth() < MAX_INFER_DEPTH ==> binary_of_literals_outcome(*expr, *old(self), *final(self), r),
            left_nesting(*expr) > 0 && old(self).depth() + left_nesting(*expr) > MAX_INFER_DEPTH ==> r matches Err(
                InferError::DepthLimitExceeded { .. },
            ),
            negation_tower(*expr) && old(self).depth() + left_nesting(*expr) <= MAX_INFER_DEPTH ==> (r matches Ok(t) && t@
                == TyM::Const(TyConst::Bool)),
        decreases expr, 0nat,
    {
        let ghost start = *self;
        match expr {
            Expr::Lit(lit, _) => Ok(infer_lit(lit)),
            Expr::Var(ident) => match ctx.env.get(&ident.text) {
                Some(scheme) => self.instantiate_scheme(scheme, ident.span),
                None => Err(InferError::UnknownVariable { name: ident.text.clone(), span: ident.span }),
            },
            Expr::Paren { inner, .. } => self.infer_expr_ctx(ctx, inner),
            Expr::Unary { op, expr: operand, span } => {
                let t = self.infer_expr_ctx(ctx, operand)?;
                let ghost mid = *self;
                let res = match op {
                    UnOp::Not => {
                        self.constrain(t, Ty::bool_(), *span);
                        Ty::bool_()
                    },
                    UnOp::Neg => {
                        self.constrain(t, Ty::int_(), *span);
                        Ty::int_()
                    },
                };
                proof {
                    lemma_extends_trans(start, mid, *self);
                }
                Ok(res)
            },
            Expr::Binary { lhs, op, rhs, span } => {
                let lt = self.infer_expr_ctx(ctx, lhs)?;
                let ghost m1 = *self;
                let ghost ltv = lt;
                let rt = self.infer_expr_ctx(ctx, rhs)?;
                let ghost m2 = *self;
                let ghost rtv = rt;
                let res = self.binary_constraints(*op, lt, rt, *span);
                proof {
                    lemma_extends_trans(start, m1, m2);
                    lemma_extends_trans(start, m2, *self);
                    if is_lit(**lhs) {
                        assert(expr_outcome(ctx.env@, **lhs, start, m1, Ok::<Ty, InferError>(ltv)));
                    }
                    if is_lit(**rhs) {
                        assert(expr_outcome(ctx.env@, **rhs, m1, m2, Ok::<Ty, InferError>(rtv)));
                    }
                    assert(collected_pairs(m2.collected(), self.collected(), binary_pairs(*op, ltv@, rtv@), *span));
                    assert(expr_outcome(ctx.env@, *expr, start, *self, Ok::<Ty, InferError>(res)));
                }
                Ok(res)
            },
            Expr::Call { callee, args, .. } => {
                let func_ty = self.infer_expr_ctx(ctx, callee)?;
                let ghost m1 = *self;
                let arg_tys = self.infer_args(ctx, args)?;
                let ghost m2 = *self;
                let v = self.fresh_or_err(call_span(callee))?;
                let ghost m3 = *self;
                self.constrain(func_ty, Ty::arrow(arg_tys, Ty::Var(v)), call_span(callee));
                proof {
                    lemma_extends_trans(start, m1, m2);
                    lemma_extends_trans(start, m2, m3);
                    lemma_extends_trans(start, m3, *self);
                }
                Ok(Ty::Var(v))
            },
            Expr::Block(block) => self.infer_block(ctx, block),
            Expr::If { cond, then_, else_, span } => {
                let ct = self.infer_expr_ctx(ctx, cond)?;
                let ghost m1 = *self;
                self.constrain(ct, Ty::bool_(), *span);
                let ghost m2 = *self;
                let then_ty = self.infer_block(ctx, then_)?;
                let ghost m3 = *self;
                proof {
                    lemma_extends_trans(start, m1, m2);
                    lemma_extends_trans(start, m2, m3);
                }
                match else_ {
                    Some(e) => {
                        let else_ty = self.infer_expr_ctx(ctx, e)?;
                        let ghost m4 = *self;
                        let res = self.join_branches(then_ty, else_ty, *span);
                        proof {
                            lemma_extends_trans(start, m3, m4);
                            lemma_extends_trans(start, m4, *self);
                        }
                        Ok(res)
                    },
                    None => {
                        if !matches!(then_ty, Ty::Never) {
                            self.constrain(then_ty, Ty::unit(), *span);
                            proof {
                                lemma_extends_trans(start, m3, *self);
                            }
                        }
                        Ok(Ty::unit())
                    },
                }
            },
            Expr::While { cond, body, span } => {
                let ct = self.infer_expr_ctx(ctx, cond)?;
                let ghost m1 = *self;
                self.constrain(ct, Ty::bool_(), *span);
                let ghost m2 = *self;
                let _ = self.infer_block(ctx, body)?;
                proof {
                    lemma_extends_trans(start, m1, m2);
                    lemma_extends_trans(start, m2, *self);
                }
                Ok(Ty::unit())
            },
            Expr::Match { scrutinee, arms, span } => {
                let st = self.infer_expr_ctx(ctx, scrutinee)?;
                let ghost m1 = *self;
                let v = self.fresh_or_err(*span)?;
                let ghost m2 = *self;
                self.infer_arms(ctx, &st, v, arms)?;
                proof {
                    lemma_extends_trans(start, m1, m2);
                    lemma_extends_trans(start, m2, *self);
                }
                Ok(Ty::Var(v))
            },
            Expr::Tuple { elems, span } => {
                if elems.len() == 0 {
                    return Ok(Ty::unit());
                }
                if elems.len() > MAX_TUPLE_ARITY {
                    return Err(InferError::TupleArityLimit { max: MAX_TUPLE_ARITY, found: elems.len(), span: *span });
                }
                if elems.len() == 1 {
                    assert(decreases_to!(elems => elems@[0]));
                    return self.infer_expr_ctx(ctx, &elems[0]);
                }
                let ts = self.infer_args(ctx, elems)?;
                proof {
                    lemma_tys_view(ts@);
                }
                Ok(Ty::tuple(ts))
            },
            Expr::StructExpr { span, .. } => Err(not_implemented("Struct expressions", *span)),
            Expr::PathExpr(path) => {
                let name = path.as_str();
                match ctx.env.get(&name) {
                    Some(scheme) => self.instantiate_scheme(scheme, path.span),
                    None => {
                        if path.segments.len() == 1 {
                            let id = &path.segments[0];
                            Err(InferError::UnknownVariable { name: id.text.clone(), span: id.span })
                        } else if path.segments.len() == 2 {
                            Err(
                                InferError::UnknownVariant {
                                    ty_name: path.segments[0].text.clone(),
                                    variant: path.segments[1].text.clone(),
                                    span: path.span,
                                },
                            )
                        } else {
                            Err(not_implemented("Paths of more than two segments", path.span))
                        }
                    },
                }
            },
        }
    }

    /// Infers the type of a block: its statements in a scope of their own,
    /// then its tail; without a tail it is `Unit`, or `Never` when it ends in
    /// `return`.
    pub fn infer_block(&mut self, ctx: &CheckContext, block: &Block) -> (r: Result<Ty, InferError>)
        ensures
            extends_ctx(*old(self), *final(self)),
            depth_kept(*old(self), *final(self), r is Ok),
            block_outcome(*block, r),
            block.stmts@.len() == 0 && block.tail is None ==> (r matches Ok(t) && t@ == TyM::Const(TyConst::Unit)
                && final(self).collected() == old(self).collected()),
            (block.stmts@.len() == 0 && old(self).depth() < MAX_INFER_DEPTH && (block.tail matches Some(t) && is_lit(*t)))
                ==> (r matches Ok(ty) && ty@ == lit_expr_type(*block.tail->0)),
        decreases block, 0nat,
    {
        let mut bctx = ctx.child();
        let mut i: usize = 0;
        while i < block.stmts.len()
            invariant
                i <= block.stmts@.len(),
                extends_ctx(*old(self), *self),
                self.depth() == old(self).depth(),
                i == 0 ==> self.collected() == old(self).collected(),
            decreases block.stmts@.len() - i,
        {
            assert(decreases_to!(block => block.stmts@[i as int]));
            let ghost before = *self;
            let r = self.infer_stmt(&mut bctx, &block.stmts[i]);
            proof {
                lemma_extends_trans(*old(self), before, *self);
            }
            if r.is_err() {
                return match r {
                    Err(e) => Err(e),
                    Ok(_) => Ok(Ty::unit()),
                };
            }
            i = i + 1;
        }
        match &block.tail {
            Some(tail) => self.infer_expr_ctx(&bctx, tail),
            None => {
                let n = block.stmts.len();
                if n > 0 && matches!(block.stmts[n - 1], Stmt::Return { .. }) {
                    Ok(Ty::Never)
                } else {
                    Ok(Ty::unit())
                }
            },
        }
    }

    /// Infers a statement: `let` binds the names of its pattern, which may not
    /// fail to match; assignment needs a mutable variable of the value's
    /// type; `return` needs the expected return type, `Unit` outside a
    /// function.
    fn infer_stmt(&mut self, ctx: &mut CheckContext, stmt: &Stmt) -> (r: Result<(), InferError>)
        ensures
            extends_ctx(*old(self), *final(self)),
            depth_kept(*old(self), *final(self), r is Ok),
            match *stmt {
                Stmt::Assign { target, span, .. } => {
                    &&& !old(ctx).env@.contains_key(target.text@) ==> r == Err::<(), InferError>(
                        InferError::UnknownVariable { name: target.text, span: target.span },
                    )
                    &&& (old(ctx).env@.contains_key(target.text@) && !(old(ctx).mutability@.contains_key(target.text@)
                        && old(ctx).mutability@[target.text@])) ==> r == Err::<(), InferError>(
                        InferError::ImmutableAssignment { name: target.text, span },
                    )
                },
                Stmt::Let { pat, mutable, .. } => {
                    &&& (r is Ok ==> !pat_refutable(pat))
                    &&& (r is Ok ==> forall|k: Seq<char>| #[trigger] pat_names(pat).contains(k) ==> final(ctx).env@.contains_key(k)
                        && final(ctx).mutability@.contains_key(k) && final(ctx).mutability@[k] == mutable)
                },
                _ => true,
            },
        decreases stmt, 0nat,
    {
        let ghost start = *self;
        match stmt {
            Stmt::Let { mutable, pat, ty, value, span } => {
                let value_ty = self.infer_expr_ctx(ctx, value)?;
                let ghost m1 = *self;
                match ty {
                    Some(ann) => {
                        let expected = ty_from_annotation(ann)?;
                        self.constrain(value_ty.copy(), expected, *span);
                    },
                    None => {},
                }
                let ghost m2 = *self;
                proof {
                    lemma_extends_trans(start, m1, m2);
                }
                match refutable_part(pat) {
                    Some(desc) => {
                        return Err(InferError::RefutablePattern { pat_desc: desc, span: *span });
                    },
                    None => {},
                }
                let bindings = self.infer_pattern(ctx, pat, &value_ty)?;
                proof {
                    lemma_extends_trans(start, m2, *self);
                }
                let names = names_of(&bindings);
                match first_duplicate(&names) {
                    Some(name) => {
                        return Err(InferError::DuplicateBinding { name, span: *span });
                    },
                    None => {},
                }
                let ghost before_bind = *ctx;
                let mut k: usize = 0;
                while k < bindings.len()
                    invariant
                        k <= bindings@.len(),
                        binding_names(bindings@) == pat_names(*pat),
                        forall|n: Seq<char>| #[trigger] binding_names(bindings@.take(k as int)).contains(n) ==> ctx.env@.contains_key(n)
                            && ctx.mutability@.contains_key(n) && ctx.mutability@[n] == *mutable,
                    decreases bindings@.len() - k,
                {
                    let ghost prev_names = binding_names(bindings@.take(k as int));
                    ctx.bind(bindings[k].0.clone(), Scheme::mono(bindings[k].1.copy()), *mutable);
                    proof {
                        let x = bindings@[k as int].0@;
                        assert(binding_names(bindings@.take(k + 1)) =~= prev_names.push(x));
                        assert forall|n: Seq<char>| #[trigger] binding_names(bindings@.take(k + 1)).contains(n) implies ctx.env@.contains_key(n)
                            && ctx.mutability@.contains_key(n) && ctx.mutability@[n] == *mutable by {
                            if n != x {
                                let j = choose|j: int| 0 <= j < prev_names.push(x).len() && prev_names.push(x)[j] == n;
                                assert(j < prev_names.len());
                                assert(prev_names.contains(n));
                            }
                        }
                    }
                    k = k + 1;
                }
                assert(bindings@.take(bindings@.len() as int) =~= bindings@);
                Ok(())
            },
            Stmt::Assign { target, value, span } => {
                let target_scheme = match ctx.env.get(&target.text) {
                    Some(sc) => sc.copy(),
                    None => {
                        return Err(InferError::UnknownVariable { name: target.text.clone(), span: target.span });
                    },
                };
                let is_mutable = match ctx.is_mutable(target.text.as_str()) {
                    Some(m) => m,
                    None => false,
                };
                if !is_mutable {
                    return Err(InferError::ImmutableAssignment { name: target.text.clone(), span: *span });
                }
                let value_ty = self.infer_expr_ctx(ctx, value)?;
                let ghost m1 = *self;
                let target_ty = self.instantiate_scheme(&target_scheme, *span)?;
                let ghost m2 = *self;
                self.constrain(value_ty, target_ty, *span);
                proof {
                    lemma_extends_trans(start, m1, m2);
                    lemma_extends_trans(start, m2, *self);
                }
                Ok(())
            },
            Stmt::Expr { expr, .. } => {
                let _ = self.infer_expr_ctx(ctx, expr)?;
                Ok(())
            },
            Stmt::Return { value, span } => {
                let expected = match &ctx.expected_return {
                    Some(t) => t.copy(),
                    None => Ty::unit(),
                };
                match value {
                    Some(v) => {
                        let vt = self.infer_expr_ctx(ctx, v)?;
                        let ghost m1 = *self;
                        self.constrain(vt, expected, *span);
                        proof {
                            lemma_extends_trans(start, m1, *self);
                        }
                    },
                    None => {
                        self.constrain(Ty::unit(), expected, *span);
                    },
                }
                Ok(())
            },
        }
    }
}

} // verus!
