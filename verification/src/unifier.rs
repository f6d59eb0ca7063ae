//! Unification of types, and Rémy-style unification of effect rows.
use vstd::prelude::*;
use crate::effects::{EffectRow, EffectVarId};
use crate::shape::{
    lemma_chase_result, closed_in, erase, extends, lemma_agree_extends, lemma_erase_keeps, lemma_measure_step,
    lemma_reduce_to_resolved, lemma_resolve_resolved, lemma_resolve_seq_elems, lemma_resolved_facts, lemma_seq_component,
    lemma_seq_vars, lemma_shape_fuel, lemma_shape_of_unbound, lemma_shapes_equal,
    lemma_shapes_index, lemma_insert_acyclic, lemma_unify_universe, resolved_shape, shape, shapes,
    ty_size, tys_size, unify_universe, pure_row,
};
use crate::subst::{
    Subst, SubstError, SubstM, acyclic, applied, apply_row, effect_reaches, lemma_all_terminate,
    link_bound, resolve, resolve_seq, result_view,
};
use crate::ty::{Ty, TyM, TypeVarId, lemma_tys_view, ty_vars, tys_vars, tys_view};

verus! {

/// Errors of unification.
#[derive(Debug, Clone)]
pub enum TypeError {
    /// The two types have different shapes.
    Mismatch(Ty, Ty),
    /// Binding the variable would make the type contain itself.
    Occurs { var: TypeVarId, ty: Ty },
    /// Tuples, parameter lists or type arguments of different lengths.
    Arity { left: usize, right: usize },
    /// Two effect rows cannot be made equal.
    EffectMismatch { expected: EffectRow, found: EffectRow },
    /// Binding an effect variable would make a cycle of effect bindings.
    EffectCycle { var: EffectVarId },
    /// An effect chain is longer than the limit.
    EffectChainTooDeep { depth: usize },
}

/// The unification error that a substitution error becomes.
pub open spec fn type_error_of(err: SubstError) -> TypeError {
    match err {
        SubstError::EffectCycle { var } => TypeError::EffectCycle { var },
        SubstError::EffectChainTooDeep { depth } => TypeError::EffectChainTooDeep { depth },
        SubstError::InstantiationArityMismatch { expected_types, got_types, .. } => TypeError::Arity {
            left: expected_types,
            right: got_types,
        },
    }
}

impl From<SubstError> for TypeError {
    fn from(err: SubstError) -> (r: TypeError) {
        match err {
            SubstError::EffectCycle { var } => TypeError::EffectCycle { var },
            SubstError::EffectChainTooDeep { depth } => TypeError::EffectChainTooDeep { depth },
            SubstError::InstantiationArityMismatch { expected_types, got_types, .. } => {
                TypeError::Arity { left: expected_types, right: got_types }
            },
        }
    }
}

impl vstd::std_specs::convert::FromSpecImpl<SubstError> for TypeError {
    open spec fn obeys_from_spec() -> bool {
        true
    }

    open spec fn from_spec(err: SubstError) -> TypeError {
        type_error_of(err)
    }
}

/// The closed row of a mask.
pub open spec fn closed_row(mask: u64) -> EffectRow {
    EffectRow { concrete: mask, tail: None }
}

/// Whether the tail variable numbered `n` may serve as a fresh tail for
/// unifying two open rows over the tails `va` and `vb`: it is unbound and is
/// neither of them.
pub open spec fn fresh_tail_ok(em: Map<EffectVarId, EffectRow>, n: u32, va: EffectVarId, vb: EffectVarId) -> bool {
    &&& n > 0
    &&& !em.contains_key(EffectVarId(n))
    &&& EffectVarId(n) != va
    &&& EffectVarId(n) != vb
}

/// Unifying two resolved effect rows: the result, and the effect bindings
/// afterwards; `n` numbers the tail variable kept for a fresh tail.
///
/// Two closed rows must hold the same effects. A closed row and an open one:
/// the open row's known effects must be among the closed row's, and its tail
/// is bound to the closed row of the rest. Two open rows over one tail must
/// hold the same effects. Two open rows over different tails: both tails are
/// bound over a fresh tail, each to the effects only the other row holds, so
/// that both rows come to hold the effects of either.
pub open spec fn unify_rows_outcome(em: Map<EffectVarId, EffectRow>, a: EffectRow, b: EffectRow, n: u32) -> (
    Result<(), TypeError>,
    Map<EffectVarId, EffectRow>,
) {
    let mismatch = Err::<(), TypeError>(TypeError::EffectMismatch { expected: a, found: b });
    match (a.tail, b.tail) {
        (None, None) => if a.concrete == b.concrete {
            (Ok(()), em)
        } else {
            (mismatch, em)
        },
        (None, Some(vb)) => if b.concrete & !a.concrete != 0 {
            (mismatch, em)
        } else {
            (Ok(()), em.insert(vb, closed_row(a.concrete & !b.concrete)))
        },
        (Some(va), None) => if a.concrete & !b.concrete != 0 {
            (mismatch, em)
        } else {
            (Ok(()), em.insert(va, closed_row(b.concrete & !a.concrete)))
        },
        (Some(va), Some(vb)) => if va == vb {
            if a.concrete == b.concrete {
                (Ok(()), em)
            } else {
                (mismatch, em)
            }
        } else if fresh_tail_ok(em, n, va, vb) {
            let f = EffectVarId(n);
            (
                Ok(()),
                em.insert(va, EffectRow { concrete: b.concrete & !a.concrete, tail: Some(f) }).insert(
                    vb,
                    EffectRow { concrete: a.concrete & !b.concrete, tail: Some(f) },
                ),
            )
        } else {
            (mismatch, em)
        },
    }
}

/// Whether unifying the two resolved rows takes the fresh tail.
pub open spec fn takes_fresh_tail(em: Map<EffectVarId, EffectRow>, a: EffectRow, b: EffectRow, n: u32) -> bool {
    match (a.tail, b.tail) {
        (Some(va), Some(vb)) => va != vb && fresh_tail_ok(em, n, va, vb),
        _ => false,
    }
}

/// Whether `t` is an instance of the pattern `p`: it has the shape of `p`
/// with each variable of `p` standing for some type. A pattern holds no
/// function type.
pub open spec fn instance_of(p: TyM, t: TyM) -> bool
    decreases p,
{
    match p {
        TyM::Var(_) => true,
        TyM::Const(c) => t == TyM::Const(c),
        TyM::Cap(k) => t == TyM::Cap(k),
        TyM::Never => t == TyM::Never,
        TyM::Arrow(..) => false,
        TyM::Tuple(ps) => match t {
            TyM::Tuple(ts) => instances(ps, ts),
            _ => false,
        },
        TyM::List(x) => match t {
            TyM::List(y) => instance_of(*x, *y),
            _ => false,
        },
        TyM::Adt(n, ps) => match t {
            TyM::Adt(n2, ts) => n == n2 && instances(ps, ts),
            _ => false,
        },
    }
}

/// Whether each type of `ts` is an instance of the pattern at its place.
pub open spec fn instances(ps: Seq<TyM>, ts: Seq<TyM>) -> bool
    decreases ps,
{
    if ps.len() == 0 {
        ts.len() == 0
    } else {
        ts.len() == ps.len() && instances(ps.drop_last(), ts.drop_last()) && instance_of(ps.last(), ts.last())
    }
}

/// Whether no variable occurs twice in a type.
pub open spec fn linear(p: TyM) -> bool
    decreases p,
{
    match p {
        TyM::Arrow(ps, r, _) => linears(ps) && linear(*r) && tys_vars(ps).disjoint(ty_vars(*r)),
        TyM::Tuple(ps) => linears(ps),
        TyM::List(x) => linear(*x),
        TyM::Adt(_, ps) => linears(ps),
        _ => true,
    }
}

/// Whether no variable occurs twice in a sequence of types.
pub open spec fn linears(s: Seq<TyM>) -> bool
    decreases s,
{
    if s.len() == 0 {
        true
    } else {
        linears(s.drop_last()) && linear(s.last()) && tys_vars(s.drop_last()).disjoint(ty_vars(s.last()))
    }
}

/// The parts of a linear sequence are linear and share no variable.
proof fn lemma_linears_elem(s: Seq<TyM>, i: int)
    requires
        linears(s),
        0 <= i < s.len(),
    ensures
        linear(s[i]),
        forall|j: int, v: TypeVarId| 0 <= j < i && #[trigger] ty_vars(s[j]).contains(v) ==> !ty_vars(s[i]).contains(v),
    decreases s.len(),
{
    if i < s.len() - 1 {
        lemma_linears_elem(s.drop_last(), i);
        assert(s.drop_last()[i] == s[i]);
        assert forall|j: int, v: TypeVarId| 0 <= j < i && #[trigger] ty_vars(s[j]).contains(v) implies !ty_vars(s[i]).contains(v) by {
            assert(s.drop_last()[j] == s[j]);
        }
    } else {
        assert forall|j: int, v: TypeVarId| 0 <= j < i && #[trigger] ty_vars(s[j]).contains(v) implies !ty_vars(s[i]).contains(v) by {
            lemma_seq_component(s.drop_last(), j);
            assert(s.drop_last()[j] == s[j]);
        }
    }
}

/// Each type of a sequence of instances is an instance of its pattern.
proof fn lemma_instances_elem(ps: Seq<TyM>, ts: Seq<TyM>, i: int)
    requires
        instances(ps, ts),
        0 <= i < ps.len(),
    ensures
        ts.len() == ps.len(),
        instance_of(ps[i], ts[i]),
    decreases ps.len(),
{
    if i < ps.len() - 1 {
        lemma_instances_elem(ps.drop_last(), ts.drop_last(), i);
        assert(ps.drop_last()[i] == ps[i]);
        assert(ts.drop_last()[i] == ts[i]);
    }
}

/// Resolving a type none of whose variables is bound does not depend on the
/// bindings.
proof fn lemma_resolve_unbound_same(
    m1: Map<TypeVarId, TyM>,
    m2: Map<TypeVarId, TyM>,
    em: Map<EffectVarId, EffectRow>,
    t: TyM,
    n: nat,
)
    requires
        forall|v: TypeVarId| #[trigger] ty_vars(t).contains(v) ==> !m1.contains_key(v) && !m2.contains_key(v),
    ensures
        resolve(m1, em, t, n) == resolve(m2, em, t, n),
    decreases t,
{
    match t {
        TyM::Var(v) => {
            assert(ty_vars(t).contains(v));
        },
        TyM::Arrow(ps, r, _) => {
            assert forall|v: TypeVarId| #[trigger] tys_vars(ps).contains(v) implies !m1.contains_key(v) && !m2.contains_key(v) by {
                assert(ty_vars(t).contains(v));
            }
            assert forall|v: TypeVarId| #[trigger] ty_vars(*r).contains(v) implies !m1.contains_key(v) && !m2.contains_key(v) by {
                assert(ty_vars(t).contains(v));
            }
            lemma_resolve_seq_unbound_same(m1, m2, em, ps, n);
            lemma_resolve_unbound_same(m1, m2, em, *r, n);
        },
        TyM::Tuple(xs) => {
            assert forall|v: TypeVarId| #[trigger] tys_vars(xs).contains(v) implies !m1.contains_key(v) && !m2.contains_key(v) by {
                assert(ty_vars(t).contains(v));
            }
            lemma_resolve_seq_unbound_same(m1, m2, em, xs, n);
        },
        TyM::List(x) => {
            assert forall|v: TypeVarId| #[trigger] ty_vars(*x).contains(v) implies !m1.contains_key(v) && !m2.contains_key(v) by {
                assert(ty_vars(t).contains(v));
            }
            lemma_resolve_unbound_same(m1, m2, em, *x, n);
        },
        TyM::Adt(_, args) => {
            assert forall|v: TypeVarId| #[trigger] tys_vars(args).contains(v) implies !m1.contains_key(v) && !m2.contains_key(v) by {
                assert(ty_vars(t).contains(v));
            }
            lemma_resolve_seq_unbound_same(m1, m2, em, args, n);
        },
        _ => {},
    }
}

proof fn lemma_resolve_seq_unbound_same(
    m1: Map<TypeVarId, TyM>,
    m2: Map<TypeVarId, TyM>,
    em: Map<EffectVarId, EffectRow>,
    s: Seq<TyM>,
    n: nat,
)
    requires
        forall|v: TypeVarId| #[trigger] tys_vars(s).contains(v) ==> !m1.contains_key(v) && !m2.contains_key(v),
    ensures
        resolve_seq(m1, em, s, n) == resolve_seq(m2, em, s, n),
    decreases s,
{
    if s.len() > 0 {
        assert forall|v: TypeVarId| #[trigger] tys_vars(s.drop_last()).contains(v) implies !m1.contains_key(v)
            && !m2.contains_key(v) by {
            assert(tys_vars(s).contains(v));
        }
        assert forall|v: TypeVarId| #[trigger] ty_vars(s.last()).contains(v) implies !m1.contains_key(v)
            && !m2.contains_key(v) by {
            assert(tys_vars(s).contains(v));
        }
        lemma_resolve_seq_unbound_same(m1, m2, em, s.drop_last(), n);
        lemma_resolve_unbound_same(m1, m2, em, s.last(), n);
    }
}

/// Whether `v` occurs in `t` once the substitution is applied; a type that
/// cannot be resolved counts as containing every variable.
pub open spec fn occurs_spec(s: SubstM, v: TypeVarId, t: TyM) -> bool {
    match applied(s, t) {
        Err(_) => true,
        Ok(x) => ty_vars(x).contains(v),
    }
}

/// Whether `v` occurs in `ty` once the substitution is applied.
///
/// A type that cannot be resolved counts as containing it, which makes the
/// binding fail rather than go wrong.
fn occurs_in(v: TypeVarId, ty: &Ty, subst: &Subst) -> (r: bool)
    requires
        subst.wf(),
    ensures
        r == occurs_spec(subst@, v, ty@),
    decreases ty_size(resolved_shape(subst@.types, ty@)), 1nat,
{
    let ghost m = subst@.types;
    let ghost em = subst@.effects;
    let ghost n = link_bound(m);
    let t = match subst.apply(ty) {
        Ok(t) => t,
        Err(_) => {
            return true;
        },
    };
    proof {
        subst.lemma_finite();
        lemma_unify_universe(m, ty@, ty@);
        lemma_resolved_facts(m, em, ty@, t@, unify_universe(m, ty@, ty@));
    }
    match t {
        Ty::Var(w) => w == v,
        Ty::Const(_) | Ty::Never | Ty::Cap(_) => false,
        Ty::Arrow(params, ret, eff) => {
            proof {
                lemma_tys_view(params@);
                lemma_resolve_seq_elems(m, em, tys_view(params@), n, tys_view(params@));
                assert forall|x: TypeVarId| #[trigger] tys_vars(tys_view(params@)).contains(x) implies !m.contains_key(x) by {
                    assert(ty_vars(t@).contains(x));
                }
                assert forall|i: int| 0 <= i < params@.len() implies #[trigger] resolve(m, em, params@[i]@, n)
                    == Some(Ok::<TyM, SubstError>(params@[i]@)) by {
                    assert(tys_view(params@)[i] == params@[i]@);
                }
            }
            if any_occurs(v, &params, subst) {
                return true;
            }
            proof {
                occurs_component(m, em, (*ret)@, t@);
            }
            occurs_in(v, &ret, subst)
        },
        Ty::Tuple(xs) => {
            proof {
                lemma_tys_view(xs@);
                lemma_resolve_seq_elems(m, em, tys_view(xs@), n, tys_view(xs@));
                assert forall|x: TypeVarId| #[trigger] tys_vars(tys_view(xs@)).contains(x) implies !m.contains_key(x) by {
                    assert(ty_vars(t@).contains(x));
                }
                assert forall|i: int| 0 <= i < xs@.len() implies #[trigger] resolve(m, em, xs@[i]@, n)
                    == Some(Ok::<TyM, SubstError>(xs@[i]@)) by {
                    assert(tys_view(xs@)[i] == xs@[i]@);
                }
            }
            any_occurs(v, &xs, subst)
        },
        Ty::List(x) => {
            proof {
                occurs_component(m, em, (*x)@, t@);
            }
            occurs_in(v, &x, subst)
        },
        Ty::Adt { name, args } => {
            proof {
                lemma_tys_view(args@);
                lemma_resolve_seq_elems(m, em, tys_view(args@), n, tys_view(args@));
                assert forall|x: TypeVarId| #[trigger] tys_vars(tys_view(args@)).contains(x) implies !m.contains_key(x) by {
                    assert(ty_vars(t@).contains(x));
                }
                assert forall|i: int| 0 <= i < args@.len() implies #[trigger] resolve(m, em, args@[i]@, n)
                    == Some(Ok::<TyM, SubstError>(args@[i]@)) by {
                    assert(tys_view(args@)[i] == args@[i]@);
                }
            }
            any_occurs(v, &args, subst)
        },
    }
}

/// A part of a resolved type is resolved, smaller, and has no bound variable.
proof fn occurs_component(m: Map<TypeVarId, TyM>, em: Map<EffectVarId, EffectRow>, p: TyM, t: TyM)
    requires
        acyclic(m),
        ty_size(p) < ty_size(t),
        ty_vars(p).subset_of(ty_vars(t)),
        forall|x: TypeVarId| #[trigger] ty_vars(t).contains(x) ==> !m.contains_key(x),
    ensures
        ty_size(resolved_shape(m, p)) < ty_size(t),
{
    lemma_shape_of_unbound(m, p, link_bound(m));
    lemma_erase_keeps(p);
}

/// Whether `v` occurs in any of a sequence of resolved types.
fn any_occurs(v: TypeVarId, s: &Vec<Ty>, subst: &Subst) -> (r: bool)
    requires
        subst.wf(),
        forall|i: int| 0 <= i < s@.len() ==> #[trigger] resolve(subst@.types, subst@.effects, s@[i]@, link_bound(subst@.types))
            == Some(Ok::<TyM, SubstError>(s@[i]@)),
        forall|x: TypeVarId| #[trigger] tys_vars(tys_view(s@)).contains(x) ==> !subst@.types.contains_key(x),
    ensures
        r == tys_vars(tys_view(s@)).contains(v),
    decreases tys_size(tys_view(s@)), 2nat,
{
    let ghost m = subst@.types;
    proof {
        lemma_tys_view(s@);
    }
    let mut i: usize = 0;
    while i < s.len()
        invariant
            subst.wf(),
            m == subst@.types,
            i <= s@.len(),
            tys_view(s@).len() == s@.len(),
            forall|j: int| 0 <= j < s@.len() ==> #[trigger] tys_view(s@)[j] == s@[j]@,
            forall|j: int| 0 <= j < s@.len() ==> #[trigger] resolve(subst@.types, subst@.effects, s@[j]@, link_bound(subst@.types))
                == Some(Ok::<TyM, SubstError>(s@[j]@)),
            forall|x: TypeVarId| #[trigger] tys_vars(tys_view(s@)).contains(x) ==> !m.contains_key(x),
            forall|j: int| 0 <= j < i ==> !#[trigger] ty_vars(s@[j]@).contains(v),
        decreases s@.len() - i,
    {
        proof {
            lemma_seq_component(tys_view(s@), i as int);
            lemma_shape_of_unbound(m, s@[i as int]@, link_bound(m));
            lemma_erase_keeps(s@[i as int]@);
        }
        if occurs_in(v, &s[i], subst) {
            proof {
                lemma_seq_component(tys_view(s@), i as int);
            }
            return true;
        }
        i = i + 1;
    }
    proof {
        if tys_vars(tys_view(s@)).contains(v) {
            lemma_seq_vars(tys_view(s@), v);
        }
    }
    false
}

/// Whether two resolved types have different outer forms, so that no
/// binding can make them agree: different constructors, constants,
/// capabilities or data type names, neither side a variable.
pub open spec fn heads_differ(ta: TyM, tb: TyM) -> bool {
    match (ta, tb) {
        (TyM::Var(_), _) => false,
        (_, TyM::Var(_)) => false,
        (TyM::Never, TyM::Never) => false,
        (TyM::Cap(k1), TyM::Cap(k2)) => k1 != k2,
        (TyM::Const(c1), TyM::Const(c2)) => c1 != c2,
        (TyM::Arrow(_, _, _), TyM::Arrow(_, _, _)) => false,
        (TyM::Tuple(_), TyM::Tuple(_)) => false,
        (TyM::List(_), TyM::List(_)) => false,
        (TyM::Adt(n1, _), TyM::Adt(n2, _)) => n1 != n2,
        _ => true,
    }
}

/// What unifying two resolved types gives without looking inside them: the
/// never type, a constant and a capability agree with themselves; types of different outer forms are a
/// mismatch of the two; tuples, parameter lists and type arguments of
/// different lengths are an arity error with the two lengths; a variable
/// against a larger type that contains it is an occurs error.
pub open spec fn unify_outer(ta: TyM, tb: TyM, r: Result<(), TypeError>) -> bool {
    &&& (ta == TyM::Never && tb == TyM::Never ==> r is Ok)
    &&& (ta is Const && ta == tb ==> r is Ok)
    &&& (ta is Cap && ta == tb ==> r is Ok)
    &&& (heads_differ(ta, tb) ==> (r matches Err(TypeError::Mismatch(x, y)) && x@ == ta && y@ == tb))
    &&& (ta matches TyM::Tuple(xs) ==> (tb matches TyM::Tuple(ys) ==> (xs.len() != ys.len() ==> r
        == Err::<(), TypeError>(TypeError::Arity { left: xs.len() as usize, right: ys.len() as usize }))))
    &&& (ta matches TyM::Arrow(xs, _, _) ==> (tb matches TyM::Arrow(ys, _, _) ==> (xs.len() != ys.len() ==> r
        == Err::<(), TypeError>(TypeError::Arity { left: xs.len() as usize, right: ys.len() as usize }))))
    &&& (ta matches TyM::Adt(n1, xs) ==> (tb matches TyM::Adt(n2, ys) ==> (n1 == n2 && xs.len() != ys.len() ==> r
        == Err::<(), TypeError>(TypeError::Arity { left: xs.len() as usize, right: ys.len() as usize }))))
    &&& (ta matches TyM::Var(v) ==> (tb != ta && ty_vars(tb).contains(v) ==> (r matches Err(
        TypeError::Occurs { var, ty },
    ) && var == v && ty@ == tb)))
    &&& (!(ta is Var) ==> (tb matches TyM::Var(v) ==> (ty_vars(ta).contains(v) ==> (r matches Err(
        TypeError::Occurs { var, ty },
    ) && var == v && ty@ == ta))))
}

/// A type unifier: the substitution built so far.
pub struct Unifier {
    subst: Subst,
    next_tail: u32,
}

impl View for Unifier {
    type V = SubstM;

    closed spec fn view(&self) -> SubstM {
        self.subst@
    }
}

impl Unifier {
    /// Whether the type bindings hold no cycle.
    pub open spec fn wf(&self) -> bool {
        acyclic(self@.types)
    }

    /// The number of the effect variable kept for the next fresh tail; fresh
    /// tails are numbered downwards from the top of the range.
    pub closed spec fn next_tail(&self) -> u32 {
        self.next_tail
    }

    /// A unifier binds finitely many variables.
    pub proof fn lemma_finite(&self)
        ensures
            self@.types.dom().finite(),
            self@.effects.dom().finite(),
    {
        self.subst.lemma_finite();
    }

    /// A unifier with nothing bound.
    pub fn new() -> (r: Self)
        ensures
            r@.types == Map::<TypeVarId, TyM>::empty(),
            r@.effects == Map::<EffectVarId, EffectRow>::empty(),
            r.wf(),
            r.next_tail() == u32::MAX,
    {
        Unifier { subst: Subst::new(), next_tail: u32::MAX }
    }

    /// The substitution built so far.
    pub fn subst(&self) -> (r: &Subst)
        ensures
            r@ == self@,
    {
        &self.subst
    }

    /// The substitution built so far, to change in place.
    pub fn subst_mut(&mut self) -> (r: &mut Subst)
        ensures
            r@ == old(self)@,
            final(self)@ == final(r)@,
            final(self).next_tail() == old(self).next_tail(),
    {
        &mut self.subst
    }

    /// The substitution built so far, taking the unifier apart.
    pub fn into_subst(self) -> (r: Subst)
        ensures
            r@ == self@,
    {
        self.subst
    }

    /// Unifies two types, extending the substitution so that they agree.
    ///
    /// Both types are first resolved. A variable is bound to the other side
    /// unless it occurs there; function, tuple, list and data types are
    /// unified part by part, and the effect rows of function types by row
    /// unification. On success both types resolve to the same shape.
    pub fn unify(&mut self, a: &Ty, b: &Ty) -> (r: Result<(), TypeError>)
        requires
            old(self).wf(),
        ensures
            final(self).wf(),
            extends(old(self)@.types, final(self)@.types),
            r is Ok ==> resolved_shape(final(self)@.types, a@) == resolved_shape(final(self)@.types, b@),
            applied(old(self)@, a@) matches Err(e) ==> r == Err::<(), TypeError>(type_error_of(e)),
            applied(old(self)@, a@) is Ok ==> (applied(old(self)@, b@) matches Err(e) ==> r == Err::<(), TypeError>(type_error_of(e))),
            applied(old(self)@, a@) matches Ok(ta) ==> (applied(old(self)@, b@) matches Ok(tb) ==> (ta is Var ==> (r is Ok
                <==> (tb == ta || !ty_vars(tb).contains(ta->Var_0))))),
            applied(old(self)@, a@) matches Ok(ta) ==> (applied(old(self)@, b@) matches Ok(tb) ==> (!(ta is Var) && tb is Var
                ==> (r is Ok <==> !ty_vars(ta).contains(tb->Var_0)))),
            applied(old(self)@, a@) matches Ok(ta) ==> (applied(old(self)@, b@) matches Ok(tb) ==> unify_outer(ta, tb, r)),
            applied(old(self)@, a@) is Ok && a@ == b@ ==> r is Ok && final(self)@ == old(self)@ && final(self).next_tail()
                == old(self).next_tail(),
            applied(old(self)@, a@) matches Ok(ta) ==> (applied(old(self)@, b@) matches Ok(tb) ==> (ta is Var && tb != ta
                && !ty_vars(tb).contains(ta->Var_0) ==> final(self)@ == (SubstM {
                types: old(self)@.types.insert(ta->Var_0, tb),
                effects: old(self)@.effects,
            }))),
            applied(old(self)@, a@) matches Ok(ta) ==> (applied(old(self)@, b@) matches Ok(tb) ==> (!(ta is Var) && tb is Var
                && !ty_vars(ta).contains(tb->Var_0) ==> final(self)@ == (SubstM {
                types: old(self)@.types.insert(tb->Var_0, ta),
                effects: old(self)@.effects,
            }))),
            applied(old(self)@, a@) matches Ok(ta) ==> (applied(old(self)@, b@) matches Ok(tb) ==> (instance_of(ta, tb) && linear(ta)
                && ty_vars(tb) == Set::<TypeVarId>::empty() ==> r is Ok && final(self)@.effects == old(self)@.effects
                && forall|k: TypeVarId| #[trigger] final(self)@.types.contains_key(k) ==> old(self)@.types.contains_key(k)
                || ty_vars(ta).contains(k))),
    {
        let ghost u = unify_universe(self@.types, a@, b@);
        proof {
            self.subst.lemma_finite();
            lemma_unify_universe(self@.types, a@, b@);
        }
        self.unify_in(a, b, Ghost(u))
    }

    #[verifier::rlimit(80)]
    fn unify_in(&mut self, a: &Ty, b: &Ty, Ghost(u): Ghost<Set<TypeVarId>>) -> (r: Result<(), TypeError>)
        requires
            old(self).wf(),
            closed_in(old(self)@.types, u),
            ty_vars(a@).subset_of(u),
            ty_vars(b@).subset_of(u),
        ensures
            final(self).wf(),
            closed_in(final(self)@.types, u),
            extends(old(self)@.types, final(self)@.types),
            r is Ok ==> resolved_shape(final(self)@.types, a@) == resolved_shape(final(self)@.types, b@),
            applied(old(self)@, a@) matches Err(e) ==> r == Err::<(), TypeError>(type_error_of(e)),
            applied(old(self)@, a@) is Ok ==> (applied(old(self)@, b@) matches Err(e) ==> r == Err::<(), TypeError>(type_error_of(e))),
            applied(old(self)@, a@) matches Ok(ta) ==> (applied(old(self)@, b@) matches Ok(tb) ==> (ta is Var ==> (r is Ok
                <==> (tb == ta || !ty_vars(tb).contains(ta->Var_0))))),
            applied(old(self)@, a@) matches Ok(ta) ==> (applied(old(self)@, b@) matches Ok(tb) ==> (!(ta is Var) && tb is Var
                ==> (r is Ok <==> !ty_vars(ta).contains(tb->Var_0)))),
            applied(old(self)@, a@) matches Ok(ta) ==> (applied(old(self)@, b@) matches Ok(tb) ==> unify_outer(ta, tb, r)),
            applied(old(self)@, a@) is Ok && a@ == b@ ==> r is Ok && final(self)@ == old(self)@ && final(self).next_tail()
                == old(self).next_tail(),
            applied(old(self)@, a@) matches Ok(ta) ==> (applied(old(self)@, b@) matches Ok(tb) ==> (ta is Var && tb != ta
                && !ty_vars(tb).contains(ta->Var_0) ==> final(self)@ == (SubstM {
                types: old(self)@.types.insert(ta->Var_0, tb),
                effects: old(self)@.effects,
            }))),
            applied(old(self)@, a@) matches Ok(ta) ==> (applied(old(self)@, b@) matches Ok(tb) ==> (!(ta is Var) && tb is Var
                && !ty_vars(ta).contains(tb->Var_0) ==> final(self)@ == (SubstM {
                types: old(self)@.types.insert(tb->Var_0, ta),
                effects: old(self)@.effects,
            }))),
            applied(old(self)@, a@) matches Ok(ta) ==> (applied(old(self)@, b@) matches Ok(tb) ==> (instance_of(ta, tb) && linear(ta)
                && ty_vars(tb) == Set::<TypeVarId>::empty() ==> r is Ok && final(self)@.effects == old(self)@.effects
                && forall|k: TypeVarId| #[trigger] final(self)@.types.contains_key(k) ==> old(self)@.types.contains_key(k)
                || ty_vars(ta).contains(k))),
        decreases u.difference(old(self)@.types.dom()).len(), ty_size(resolved_shape(old(self)@.types, a@))
            + ty_size(resolved_shape(old(self)@.types, b@)), 1nat,
    {
        let ghost m0 = self@.types;
        let ghost em0 = self@.effects;
        let ghost n0 = link_bound(m0);
        let ghost s0 = ty_size(resolved_shape(m0, a@)) + ty_size(resolved_shape(m0, b@));
        let ra = match self.subst.apply(a) {
            Ok(x) => x,
            Err(e) => {
                return Err(TypeError::from(e));
            },
        };
        let rb = match self.subst.apply(b) {
            Ok(x) => x,
            Err(e) => {
                return Err(TypeError::from(e));
            },
        };
        proof {
            lemma_resolved_facts(m0, em0, a@, ra@, u);
            lemma_resolved_facts(m0, em0, b@, rb@, u);
        }
        let ghost ra_v = ra@;
        let ghost rb_v = rb@;
        let r = match (ra, rb) {
            (Ty::Never, Ty::Never) => Ok(()),
            (Ty::Cap(k1), Ty::Cap(k2)) if k1 == k2 => Ok(()),
            (Ty::Var(v), t) => {
                proof {
                    assert(ty_vars(ra_v).contains(v));
                }
                self.unify_var(v, t, Ghost(u))
            },
            (t, Ty::Var(v)) => {
                proof {
                    assert(ty_vars(rb_v).contains(v));
                }
                self.unify_var(v, t, Ghost(u))
            },
            (Ty::Const(c1), Ty::Const(c2)) if c1 == c2 => Ok(()),
            (Ty::Arrow(params1, ret1, eff1), Ty::Arrow(params2, ret2, eff2)) => {
                proof {
                    lemma_tys_view(params1@);
                    lemma_tys_view(params2@);
                }
                if params1.len() != params2.len() {
                    return Err(TypeError::Arity { left: params1.len(), right: params2.len() });
                }
                proof {
                    lemma_tys_view(params1@);
                    lemma_tys_view(params2@);
                    lemma_parts_bounds(params1@, ra_v, u, m0);
                    lemma_parts_bounds(params2@, rb_v, u, m0);
                    if a@ == b@ {
                        assert(resolve(m0, em0, ra_v, n0) == Some(Ok::<TyM, SubstError>(ra_v)));
                        assert(resolve_seq(m0, em0, tys_view(params1@), n0) == Some(
                            Ok::<Seq<TyM>, SubstError>(tys_view(params1@)),
                        ));
                        lemma_resolve_seq_elems(m0, em0, tys_view(params1@), n0, tys_view(params1@));
                        assert forall|j: int| 0 <= j < params1@.len() implies #[trigger] params1@[j]@ == params2@[j]@
                            && applied(old(self)@, params1@[j]@) is Ok by {
                            assert(tys_view(params1@)[j] == params1@[j]@);
                            assert(tys_view(params2@)[j] == params2@[j]@);
                        }
                        assert(resolve(m0, em0, (*ret1)@, n0) == Some(Ok::<TyM, SubstError>((*ret1)@)));
                    }
                }
                match self.unify_all(&params1, &params2, Ghost(u), Ghost(m0), Ghost(s0)) {
                    Ok(()) => {},
                    Err(e) => {
                        return Err(e);
                    },
                }
                let ghost m1 = self@.types;
                proof {
                    lemma_measure_step(u, m0, m1);
                    lemma_part_bounds((*ret1)@, ra_v, u, m0);
                    lemma_part_bounds((*ret2)@, rb_v, u, m0);
                }
                match self.unify_in(&ret1, &ret2, Ghost(u)) {
                    Ok(()) => {},
                    Err(e) => {
                        return Err(e);
                    },
                }
                let ghost m2 = self@.types;
                proof {
                    assert forall|j: int| 0 <= j < params1@.len() implies #[trigger] resolved_shape(m2, params1@[j]@)
                        == resolved_shape(m2, params2@[j]@) by {
                        lemma_agree_extends(m1, m2, params1@[j]@, params2@[j]@);
                    }
                }
                proof {
                    if a@ == b@ {
                        assert(apply_row(em0, eff1) == Ok::<EffectRow, SubstError>(eff1));
                        assert(eff1 == eff2);
                    }
                }
                let re = self.unify_effect_rows(&eff1, &eff2);
                proof {
                    let mf = self@.types;
                    let nf = link_bound(mf);
                    assert(mf == m2);
                    assert forall|j: int| 0 <= j < tys_view(params1@).len() implies #[trigger] shape(mf, tys_view(params1@)[j], nf)
                        == shape(mf, tys_view(params2@)[j], nf) by {
                        assert(tys_view(params1@)[j] == params1@[j]@);
                        assert(tys_view(params2@)[j] == params2@[j]@);
                        assert(resolved_shape(mf, params1@[j]@) == resolved_shape(mf, params2@[j]@));
                    }
                    lemma_shapes_equal(mf, tys_view(params1@), tys_view(params2@), nf);
                }
                re
            },
            (Ty::Tuple(xs), Ty::Tuple(ys)) => {
                proof {
                    lemma_tys_view(xs@);
                    lemma_tys_view(ys@);
                }
                proof {
                    if instance_of(ra_v, rb_v) {
                        assert(instances(tys_view(xs@), tys_view(ys@)));
                        assert(tys_view(ys@).len() == tys_view(xs@).len());
                    }
                }
                if xs.len() != ys.len() {
                    return Err(TypeError::Arity { left: xs.len(), right: ys.len() });
                }
                proof {
                    lemma_tys_view(xs@);
                    lemma_tys_view(ys@);
                    lemma_parts_bounds(xs@, ra_v, u, m0);
                    lemma_parts_bounds(ys@, rb_v, u, m0);
                    if a@ == b@ {
                        assert(resolve(m0, em0, ra_v, n0) == Some(Ok::<TyM, SubstError>(ra_v)));
                        assert(resolve_seq(m0, em0, tys_view(xs@), n0) == Some(
                            Ok::<Seq<TyM>, SubstError>(tys_view(xs@)),
                        ));
                        lemma_resolve_seq_elems(m0, em0, tys_view(xs@), n0, tys_view(xs@));
                        assert forall|j: int| 0 <= j < xs@.len() implies #[trigger] xs@[j]@ == ys@[j]@
                            && applied(old(self)@, xs@[j]@) is Ok by {
                            assert(tys_view(xs@)[j] == xs@[j]@);
                            assert(tys_view(ys@)[j] == ys@[j]@);
                        }
                    }
                }
                proof {
                    if instance_of(ra_v, rb_v) && linear(ra_v) && ty_vars(rb_v) == Set::<TypeVarId>::empty() {
                        assert(resolve(m0, em0, ra_v, n0) == Some(Ok::<TyM, SubstError>(ra_v)));
                        assert(resolve(m0, em0, rb_v, n0) == Some(Ok::<TyM, SubstError>(rb_v)));
                        assert(resolve_seq(m0, em0, tys_view(xs@), n0) == Some(Ok::<Seq<TyM>, SubstError>(tys_view(xs@))));
                        assert(resolve_seq(m0, em0, tys_view(ys@), n0) == Some(Ok::<Seq<TyM>, SubstError>(tys_view(ys@))));
                        lemma_resolve_seq_elems(m0, em0, tys_view(xs@), n0, tys_view(xs@));
                        lemma_resolve_seq_elems(m0, em0, tys_view(ys@), n0, tys_view(ys@));
                        assert forall|j: int| 0 <= j < xs@.len() implies resolve(m0, em0, #[trigger] xs@[j]@, n0) == Some(
                            Ok::<TyM, SubstError>(xs@[j]@),
                        ) && resolve(m0, em0, ys@[j]@, n0) == Some(Ok::<TyM, SubstError>(ys@[j]@)) by {
                            assert(tys_view(xs@)[j] == xs@[j]@);
                            assert(tys_view(ys@)[j] == ys@[j]@);
                        }
                    }
                }
                let r = self.unify_all(&xs, &ys, Ghost(u), Ghost(m0), Ghost(s0));
                proof {
                    let mf = self@.types;
                    let nf = link_bound(mf);
                    if r is Ok {
                        assert forall|j: int| 0 <= j < tys_view(xs@).len() implies #[trigger] shape(mf, tys_view(xs@)[j], nf)
                            == shape(mf, tys_view(ys@)[j], nf) by {
                            assert(tys_view(xs@)[j] == xs@[j]@);
                            assert(tys_view(ys@)[j] == ys@[j]@);
                            assert(resolved_shape(mf, xs@[j]@) == resolved_shape(mf, ys@[j]@));
                        }
                        lemma_shapes_equal(mf, tys_view(xs@), tys_view(ys@), nf);
                    }
                }
                r
            },
            (Ty::List(x), Ty::List(y)) => {
                proof {
                    lemma_part_bounds((*x)@, ra_v, u, m0);
                    lemma_part_bounds((*y)@, rb_v, u, m0);
                    if a@ == b@ {
                        assert(resolve(m0, em0, ra_v, n0) == Some(Ok::<TyM, SubstError>(ra_v)));
                        assert(resolve(m0, em0, (*x)@, n0) == Some(Ok::<TyM, SubstError>((*x)@)));
                    }
                }
                proof {
                    if instance_of(ra_v, rb_v) && linear(ra_v) && ty_vars(rb_v) == Set::<TypeVarId>::empty() {
                        assert(resolve(m0, em0, ra_v, n0) == Some(Ok::<TyM, SubstError>(ra_v)));
                        assert(resolve(m0, em0, rb_v, n0) == Some(Ok::<TyM, SubstError>(rb_v)));
                        assert(resolve(m0, em0, (*x)@, n0) == Some(Ok::<TyM, SubstError>((*x)@)));
                        assert(resolve(m0, em0, (*y)@, n0) == Some(Ok::<TyM, SubstError>((*y)@)));
                        assert(applied(old(self)@, (*x)@) == Ok::<TyM, SubstError>((*x)@));
                        assert(applied(old(self)@, (*y)@) == Ok::<TyM, SubstError>((*y)@));
                    }
                }
                self.unify_in(&x, &y, Ghost(u))
            },
            (Ty::Adt { name: n1, args: a1 }, Ty::Adt { name: n2, args: a2 }) => {
                proof {
                    if a@ == b@ {
                        assert(n1@ == n2@);
                    }
                }
                if n1 != n2 {
                    return Err(TypeError::Mismatch(Ty::Adt { name: n1, args: a1 }, Ty::Adt { name: n2, args: a2 }));
                }
                proof {
                    lemma_tys_view(a1@);
                    lemma_tys_view(a2@);
                }
                proof {
                    if instance_of(ra_v, rb_v) {
                        assert(instances(tys_view(a1@), tys_view(a2@)));
                        assert(tys_view(a2@).len() == tys_view(a1@).len());
                    }
                }
                if a1.len() != a2.len() {
                    return Err(TypeError::Arity { left: a1.len(), right: a2.len() });
                }
                proof {
                    lemma_tys_view(a1@);
                    lemma_tys_view(a2@);
                    lemma_parts_bounds(a1@, ra_v, u, m0);
                    lemma_parts_bounds(a2@, rb_v, u, m0);
                    if a@ == b@ {
                        assert(resolve(m0, em0, ra_v, n0) == Some(Ok::<TyM, SubstError>(ra_v)));
                        assert(resolve_seq(m0, em0, tys_view(a1@), n0) == Some(
                            Ok::<Seq<TyM>, SubstError>(tys_view(a1@)),
                        ));
                        lemma_resolve_seq_elems(m0, em0, tys_view(a1@), n0, tys_view(a1@));
                        assert forall|j: int| 0 <= j < a1@.len() implies #[trigger] a1@[j]@ == a2@[j]@
                            && applied(old(self)@, a1@[j]@) is Ok by {
                            assert(tys_view(a1@)[j] == a1@[j]@);
                            assert(tys_view(a2@)[j] == a2@[j]@);
                        }
                    }
                }
                proof {
                    if instance_of(ra_v, rb_v) && linear(ra_v) && ty_vars(rb_v) == Set::<TypeVarId>::empty() {
                        assert(resolve(m0, em0, ra_v, n0) == Some(Ok::<TyM, SubstError>(ra_v)));
                        assert(resolve(m0, em0, rb_v, n0) == Some(Ok::<TyM, SubstError>(rb_v)));
                        assert(resolve_seq(m0, em0, tys_view(a1@), n0) == Some(Ok::<Seq<TyM>, SubstError>(tys_view(a1@))));
                        assert(resolve_seq(m0, em0, tys_view(a2@), n0) == Some(Ok::<Seq<TyM>, SubstError>(tys_view(a2@))));
                        lemma_resolve_seq_elems(m0, em0, tys_view(a1@), n0, tys_view(a1@));
                        lemma_resolve_seq_elems(m0, em0, tys_view(a2@), n0, tys_view(a2@));
                        assert forall|j: int| 0 <= j < a1@.len() implies resolve(m0, em0, #[trigger] a1@[j]@, n0) == Some(
                            Ok::<TyM, SubstError>(a1@[j]@),
                        ) && resolve(m0, em0, a2@[j]@, n0) == Some(Ok::<TyM, SubstError>(a2@[j]@)) by {
                            assert(tys_view(a1@)[j] == a1@[j]@);
                            assert(tys_view(a2@)[j] == a2@[j]@);
                        }
                    }
                }
                let r = self.unify_all(&a1, &a2, Ghost(u), Ghost(m0), Ghost(s0));
                proof {
                    let mf = self@.types;
                    let nf = link_bound(mf);
                    if r is Ok {
                        assert forall|j: int| 0 <= j < tys_view(a1@).len() implies #[trigger] shape(mf, tys_view(a1@)[j], nf)
                            == shape(mf, tys_view(a2@)[j], nf) by {
                            assert(tys_view(a1@)[j] == a1@[j]@);
                            assert(tys_view(a2@)[j] == a2@[j]@);
                            assert(resolved_shape(mf, a1@[j]@) == resolved_shape(mf, a2@[j]@));
                        }
                        lemma_shapes_equal(mf, tys_view(a1@), tys_view(a2@), nf);
                    }
                }
                r
            },
            (x, y) => Err(TypeError::Mismatch(x, y)),
        };
        proof {
            let mf = self@.types;
            if r is Ok {
                lemma_reduce_to_resolved(m0, mf, em0, a@, ra_v);
                lemma_reduce_to_resolved(m0, mf, em0, b@, rb_v);
            }
        }
        r
    }

    /// Unifies two sequences of resolved types of one length, pair by pair,
    /// stopping at the first error.
    fn unify_all(
        &mut self,
        xs: &Vec<Ty>,
        ys: &Vec<Ty>,
        Ghost(u): Ghost<Set<TypeVarId>>,
        Ghost(m0): Ghost<Map<TypeVarId, TyM>>,
        Ghost(s0): Ghost<nat>,
    ) -> (r: Result<(), TypeError>)
        requires
            old(self).wf(),
            closed_in(old(self)@.types, u),
            old(self)@.types == m0,
            xs@.len() == ys@.len(),
            forall|j: int| 0 <= j < xs@.len() ==> ty_vars(#[trigger] xs@[j]@).subset_of(u),
            forall|j: int| 0 <= j < ys@.len() ==> ty_vars(#[trigger] ys@[j]@).subset_of(u),
            forall|j: int, x: TypeVarId| 0 <= j < xs@.len() && #[trigger] ty_vars(xs@[j]@).contains(x) ==> !m0.contains_key(x),
            forall|j: int, x: TypeVarId| 0 <= j < ys@.len() && #[trigger] ty_vars(ys@[j]@).contains(x) ==> !m0.contains_key(x),
            forall|j: int| 0 <= j < xs@.len() ==> ty_size(#[trigger] xs@[j]@) + ty_size(ys@[j]@) < s0,
        ensures
            final(self).wf(),
            closed_in(final(self)@.types, u),
            extends(m0, final(self)@.types),
            r is Ok ==> forall|j: int| 0 <= j < xs@.len() ==> #[trigger] resolved_shape(final(self)@.types, xs@[j]@)
                == resolved_shape(final(self)@.types, ys@[j]@),
            xs@.len() == 0 ==> r is Ok && final(self)@ == old(self)@,
            (forall|j: int| 0 <= j < xs@.len() ==> #[trigger] xs@[j]@ == ys@[j]@ && applied(old(self)@, xs@[j]@) is Ok) ==> r is Ok
                && final(self)@ == old(self)@ && final(self).next_tail() == old(self).next_tail(),
            instances(tys_view(xs@), tys_view(ys@)) && linears(tys_view(xs@)) && tys_vars(tys_view(ys@)) == Set::<TypeVarId>::empty()
                && (forall|j: int| 0 <= j < xs@.len() ==> resolve(m0, old(self)@.effects, #[trigger] xs@[j]@, link_bound(m0))
                == Some(Ok::<TyM, SubstError>(xs@[j]@)) && resolve(m0, old(self)@.effects, ys@[j]@, link_bound(m0)) == Some(
                Ok::<TyM, SubstError>(ys@[j]@),
            )) ==> r is Ok && final(self)@.effects == old(self)@.effects && forall|k: TypeVarId| #[trigger] final(self)@.types.contains_key(k)
                ==> m0.contains_key(k) || tys_vars(tys_view(xs@)).contains(k),
        decreases u.difference(m0.dom()).len(), s0, 0nat,
    {
        let ghost inst = instances(tys_view(xs@), tys_view(ys@)) && linears(tys_view(xs@)) && tys_vars(tys_view(ys@))
            == Set::<TypeVarId>::empty() && (forall|j: int| 0 <= j < xs@.len() ==> resolve(m0, old(self)@.effects, #[trigger] xs@[j]@, link_bound(m0))
            == Some(Ok::<TyM, SubstError>(xs@[j]@)) && resolve(m0, old(self)@.effects, ys@[j]@, link_bound(m0)) == Some(
            Ok::<TyM, SubstError>(ys@[j]@),
        ));
        let mut i: usize = 0;
        while i < xs.len()
            invariant
                self.wf(),
                i == 0 ==> self@ == old(self)@,
                (forall|j: int| 0 <= j < xs@.len() ==> #[trigger] xs@[j]@ == ys@[j]@ && applied(old(self)@, xs@[j]@) is Ok) ==> self@
                    == old(self)@ && self.next_tail() == old(self).next_tail(),
                closed_in(self@.types, u),
                closed_in(m0, u),
                extends(m0, self@.types),
                i <= xs@.len(),
                xs@.len() == ys@.len(),
                forall|j: int| 0 <= j < xs@.len() ==> ty_vars(#[trigger] xs@[j]@).subset_of(u),
                forall|j: int| 0 <= j < ys@.len() ==> ty_vars(#[trigger] ys@[j]@).subset_of(u),
                forall|j: int, x: TypeVarId| 0 <= j < xs@.len() && #[trigger] ty_vars(xs@[j]@).contains(x) ==> !m0.contains_key(x),
                forall|j: int, x: TypeVarId| 0 <= j < ys@.len() && #[trigger] ty_vars(ys@[j]@).contains(x) ==> !m0.contains_key(x),
                forall|j: int| 0 <= j < xs@.len() ==> ty_size(#[trigger] xs@[j]@) + ty_size(ys@[j]@) < s0,
                forall|j: int| 0 <= j < i ==> #[trigger] resolved_shape(self@.types, xs@[j]@)
                    == resolved_shape(self@.types, ys@[j]@),
                inst ==> instances(tys_view(xs@), tys_view(ys@)) && linears(tys_view(xs@)) && tys_vars(tys_view(ys@))
                    == Set::<TypeVarId>::empty(),
                inst ==> forall|j: int| 0 <= j < xs@.len() ==> resolve(m0, old(self)@.effects, #[trigger] xs@[j]@, link_bound(m0))
                    == Some(Ok::<TyM, SubstError>(xs@[j]@)) && resolve(m0, old(self)@.effects, ys@[j]@, link_bound(m0)) == Some(
                    Ok::<TyM, SubstError>(ys@[j]@),
                ),
                inst == (instances(tys_view(xs@), tys_view(ys@)) && linears(tys_view(xs@)) && tys_vars(tys_view(ys@))
                    == Set::<TypeVarId>::empty() && (forall|j: int| 0 <= j < xs@.len() ==> resolve(m0, old(self)@.effects, #[trigger] xs@[j]@, link_bound(m0))
                    == Some(Ok::<TyM, SubstError>(xs@[j]@)) && resolve(m0, old(self)@.effects, ys@[j]@, link_bound(m0)) == Some(
                    Ok::<TyM, SubstError>(ys@[j]@),
                ))),
                inst ==> self@.effects == old(self)@.effects,
                inst ==> forall|k: TypeVarId| #[trigger] self@.types.contains_key(k) && !m0.contains_key(k) ==> tys_vars(
                    tys_view(xs@).take(i as int),
                ).contains(k),
            decreases xs@.len() - i,
        {
            let ghost mi = self@.types;
            proof {
                lemma_measure_step(u, m0, mi);
                if mi == m0 {
                    lemma_shape_of_unbound(m0, xs@[i as int]@, link_bound(m0));
                    lemma_shape_of_unbound(m0, ys@[i as int]@, link_bound(m0));
                    lemma_erase_keeps(xs@[i as int]@);
                    lemma_erase_keeps(ys@[i as int]@);
                }
            }
            proof {
                if inst {
                    let x = xs@[i as int]@;
                    let y = ys@[i as int]@;
                    let xv = tys_view(xs@);
                    let yv = tys_view(ys@);
                    lemma_tys_view(xs@);
                    lemma_tys_view(ys@);
                    assert(xv[i as int] == x && yv[i as int] == y);
                    lemma_instances_elem(xv, yv, i as int);
                    lemma_linears_elem(xv, i as int);
                    lemma_seq_component(yv, i as int);
                    assert(ty_vars(y) =~= Set::<TypeVarId>::empty());
                    assert forall|v: TypeVarId| #[trigger] ty_vars(x).contains(v) implies !mi.contains_key(v) && !m0.contains_key(v) by {
                        if mi.contains_key(v) {
                            assert(tys_vars(xv.take(i as int)).contains(v));
                            lemma_seq_vars(xv.take(i as int), v);
                            let j = choose|j: int| 0 <= j < xv.take(i as int).len() && #[trigger] ty_vars(xv.take(i as int)[j]).contains(v);
                            assert(xv.take(i as int)[j] == xv[j]);
                        }
                    }
                    let nmi = link_bound(mi);
                    lemma_resolve_resolved(m0, old(self)@.effects, x, link_bound(m0), x, nmi);
                    lemma_resolve_resolved(m0, old(self)@.effects, y, link_bound(m0), y, nmi);
                    lemma_resolve_unbound_same(mi, m0, old(self)@.effects, x, nmi);
                    lemma_resolve_unbound_same(mi, m0, old(self)@.effects, y, nmi);
                    assert(self@ == (SubstM { types: mi, effects: old(self)@.effects }));
                    assert(applied(self@, x) == Ok::<TyM, SubstError>(x));
                    assert(applied(self@, y) == Ok::<TyM, SubstError>(y));
                }
            }
            match self.unify_in(&xs[i], &ys[i], Ghost(u)) {
                Ok(()) => {},
                Err(e) => {
                    return Err(e);
                },
            }
            proof {
                let mj = self@.types;
                assert forall|j: int| 0 <= j <= i implies #[trigger] resolved_shape(mj, xs@[j]@)
                    == resolved_shape(mj, ys@[j]@) by {
                    if j < i {
                        lemma_agree_extends(mi, mj, xs@[j]@, ys@[j]@);
                    }
                }
            }
            proof {
                if inst {
                    let xv = tys_view(xs@);
                    assert(xv.take(i + 1).drop_last() =~= xv.take(i as int));
                    assert(xv.take(i + 1).last() == xs@[i as int]@);
                }
            }
            i = i + 1;
        }
        proof {
            if inst {
                lemma_tys_view(xs@);
                assert(tys_view(xs@).take(xs@.len() as int) =~= tys_view(xs@));
            }
        }
        Ok(())
    }

    /// Binds the unbound variable `v` to the resolved type `t`, unless `t` is
    /// `v` itself or contains it.
    fn unify_var(&mut self, v: TypeVarId, t: Ty, Ghost(u): Ghost<Set<TypeVarId>>) -> (r: Result<(), TypeError>)
        requires
            old(self).wf(),
            closed_in(old(self)@.types, u),
            !old(self)@.types.contains_key(v),
            u.contains(v),
            ty_vars(t@).subset_of(u),
            forall|x: TypeVarId| #[trigger] ty_vars(t@).contains(x) ==> !old(self)@.types.contains_key(x),
            applied(old(self)@, t@) == Ok::<TyM, SubstError>(t@),
        ensures
            final(self).wf(),
            closed_in(final(self)@.types, u),
            extends(old(self)@.types, final(self)@.types),
            final(self)@.effects == old(self)@.effects,
            r is Ok ==> resolved_shape(final(self)@.types, TyM::Var(v)) == resolved_shape(final(self)@.types, t@),
            r is Err ==> r == Err::<(), TypeError>(TypeError::Occurs { var: v, ty: t }),
            r is Ok <==> (t@ == TyM::Var(v) || !ty_vars(t@).contains(v)),
            t@ == TyM::Var(v) ==> final(self)@ == old(self)@ && final(self).next_tail() == old(self).next_tail(),
            r is Ok && t@ != TyM::Var(v) ==> final(self)@.types == old(self)@.types.insert(v, t@),
            final(self).next_tail() == old(self).next_tail(),
        decreases u.difference(old(self)@.types.dom()).len(), ty_size(resolved_shape(old(self)@.types, TyM::Var(v)))
            + ty_size(resolved_shape(old(self)@.types, t@)), 0nat,
    {
        match self.subst.get(&v) {
            Some(existing) => {
                let e = existing.copy();
                return self.unify_in(&e, &t, Ghost(u));
            },
            None => {},
        }
        match t {
            Ty::Var(w) => {
                if w == v {
                    return Ok(());
                }
            },
            _ => {},
        }
        if occurs_in(v, &t, &self.subst) {
            return Err(TypeError::Occurs { var: v, ty: t });
        }
        let ghost m = self@.types;
        let ghost tv = t@;
        proof {
            lemma_insert_acyclic(m, v, tv);
        }
        self.subst.insert(v, t);
        proof {
            let m2 = self@.types;
            let n2 = link_bound(m2);
            assert(m2 == m.insert(v, tv));
            assert(extends(m, m2));
            assert(m2.dom() =~= m.dom().insert(v));
            assert(terminates_var(m2, v, n2));
            lemma_shape_fuel(m2, tv, (n2 - 1) as nat, n2);
        }
        Ok(())
    }

    /// Unifies two effect rows after resolving them (Rémy-style).
    ///
    /// Closed with closed: the same effects. Closed with open: the open tail
    /// is bound to the closed rest. Open with open over different tails: a
    /// fresh tail is taken and both tails are bound over it, so that the two
    /// rows resolve alike afterwards.
    pub fn unify_effect_rows(&mut self, a: &EffectRow, b: &EffectRow) -> (r: Result<(), TypeError>)
        ensures
            final(self)@.types == old(self)@.types,
            match (apply_row(old(self)@.effects, *a), apply_row(old(self)@.effects, *b)) {
                (Err(e), _) => r == Err::<(), TypeError>(type_error_of(e)) && final(self)@.effects == old(self)@.effects
                    && final(self).next_tail() == old(self).next_tail(),
                (Ok(_), Err(e)) => r == Err::<(), TypeError>(type_error_of(e)) && final(self)@.effects == old(self)@.effects
                    && final(self).next_tail() == old(self).next_tail(),
                (Ok(ra), Ok(rb)) => {
                    &&& (r, final(self)@.effects) == unify_rows_outcome(old(self)@.effects, ra, rb, old(self).next_tail())
                    &&& final(self).next_tail() == (if takes_fresh_tail(old(self)@.effects, ra, rb, old(self).next_tail()) {
                        (old(self).next_tail() - 1) as u32
                    } else {
                        old(self).next_tail()
                    })
                    &&& r is Ok ==> apply_row(final(self)@.effects, ra) == apply_row(final(self)@.effects, rb)
                    &&& r is Ok ==> apply_row(final(self)@.effects, ra) is Ok
                },
            },
    {
        let ghost a0 = *a;
        let ghost b0 = *b;
        let ghost em = self@.effects;
        let a = match self.subst.apply_effect_row(a) {
            Ok(x) => x,
            Err(e) => {
                return Err(TypeError::from(e));
            },
        };
        let b = match self.subst.apply_effect_row(b) {
            Ok(x) => x,
            Err(e) => {
                return Err(TypeError::from(e));
            },
        };
        proof {
            lemma_chase_result(em, a0, Set::empty(), 0, a);
            lemma_chase_result(em, b0, Set::empty(), 0, b);
            reveal_with_fuel(crate::subst::chase, 3);
        }
        match (a.tail, b.tail) {
            (None, None) => {
                if a.concrete == b.concrete {
                    Ok(())
                } else {
                    Err(TypeError::EffectMismatch { expected: a, found: b })
                }
            },
            (None, Some(var_b)) => {
                if (b.concrete & !a.concrete) != 0 {
                    return Err(TypeError::EffectMismatch { expected: a, found: b });
                }
                let residual = a.concrete & !b.concrete;
                self.subst.insert_effect(var_b, EffectRow::closed(residual));
                proof {
                    let ac = a.concrete;
                    let bc = b.concrete;
                    assert(bc & !ac == 0 ==> bc | (ac & !bc) == ac) by (bit_vector);
                }
                Ok(())
            },
            (Some(var_a), None) => {
                if (a.concrete & !b.concrete) != 0 {
                    return Err(TypeError::EffectMismatch { expected: a, found: b });
                }
                let residual = b.concrete & !a.concrete;
                self.subst.insert_effect(var_a, EffectRow::closed(residual));
                proof {
                    let ac = a.concrete;
                    let bc = b.concrete;
                    assert(ac & !bc == 0 ==> ac | (bc & !ac) == bc) by (bit_vector);
                }
                Ok(())
            },
            (Some(var_a), Some(var_b)) => {
                if var_a == var_b {
                    if a.concrete != b.concrete {
                        return Err(TypeError::EffectMismatch { expected: a, found: b });
                    }
                    return Ok(());
                }
                let n = self.next_tail;
                let fresh = EffectVarId(n);
                if n == 0 || self.subst.get_effect(&fresh).is_some() || fresh == var_a || fresh == var_b {
                    return Err(TypeError::EffectMismatch { expected: a, found: b });
                }
                self.next_tail = n - 1;
                self.subst.insert_effect(var_a, EffectRow::open(b.concrete & !a.concrete, fresh));
                self.subst.insert_effect(var_b, EffectRow::open(a.concrete & !b.concrete, fresh));
                proof {
                    let ac = a.concrete;
                    let bc = b.concrete;
                    assert(ac | (bc & !ac) == bc | (ac & !bc)) by (bit_vector);
                }
                Ok(())
            },
        }
    }
}

/// A bound variable resolves through its binding.
pub open spec fn terminates_var(m: Map<TypeVarId, TyM>, v: TypeVarId, n: nat) -> bool {
    crate::subst::terminates(m, TyM::Var(v), n)
}

/// A part of a resolved compound type lies in the set, has no bound variable,
/// and keeps its size when resolved again.
proof fn lemma_part_bounds(p: TyM, whole: TyM, u: Set<TypeVarId>, m: Map<TypeVarId, TyM>)
    requires
        acyclic(m),
        ty_vars(p).subset_of(ty_vars(whole)),
        ty_vars(whole).subset_of(u),
        forall|x: TypeVarId| #[trigger] ty_vars(whole).contains(x) ==> !m.contains_key(x),
    ensures
        ty_vars(p).subset_of(u),
        forall|x: TypeVarId| #[trigger] ty_vars(p).contains(x) ==> !m.contains_key(x),
        ty_size(resolved_shape(m, p)) == ty_size(p),
{
    assert forall|x: TypeVarId| #[trigger] ty_vars(p).contains(x) implies !m.contains_key(x) by {
        assert(ty_vars(whole).contains(x));
    }
    lemma_shape_of_unbound(m, p, link_bound(m));
    lemma_erase_keeps(p);
}

/// The parts of a resolved compound type: each lies in the set, has no bound
/// variable, and is no larger than all the parts together.
proof fn lemma_parts_bounds(s: Seq<Ty>, whole: TyM, u: Set<TypeVarId>, m: Map<TypeVarId, TyM>)
    requires
        tys_vars(tys_view(s)).subset_of(ty_vars(whole)),
        ty_vars(whole).subset_of(u),
        forall|x: TypeVarId| #[trigger] ty_vars(whole).contains(x) ==> !m.contains_key(x),
    ensures
        forall|j: int| 0 <= j < s.len() ==> ty_vars(#[trigger] s[j]@).subset_of(u),
        forall|j: int, x: TypeVarId| 0 <= j < s.len() && #[trigger] ty_vars(s[j]@).contains(x) ==> !m.contains_key(x),
        forall|j: int| 0 <= j < s.len() ==> ty_size(#[trigger] s[j]@) <= tys_size(tys_view(s)),
{
    lemma_tys_view(s);
    assert forall|j: int| 0 <= j < s.len() implies ty_vars(#[trigger] s[j]@).subset_of(u) && ty_size(s[j]@)
        <= tys_size(tys_view(s)) by {
        assert(tys_view(s)[j] == s[j]@);
        lemma_seq_component(tys_view(s), j);
    }
    assert forall|j: int, x: TypeVarId| 0 <= j < s.len() && #[trigger] ty_vars(s[j]@).contains(x) implies !m.contains_key(x) by {
        assert(tys_view(s)[j] == s[j]@);
        lemma_seq_component(tys_view(s), j);
        assert(ty_vars(whole).contains(x));
    }
}

} // verus!
