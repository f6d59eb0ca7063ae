//! The shape of a type under a substitution: the type with its type bindings
//! applied and its effect rows set aside, and the facts about it on which
//! unification rests.
use vstd::prelude::*;
use crate::effects::{EffectRow, EffectVarId};
use crate::ty::{TyM, TypeVarId, ty_vars, tys_vars};
use crate::subst::{
    Subst, SubstError, SubstM, applied, lemma_terminates_resolves, apply_row, chase, lemma_all_terminate, link_bound, resolve, resolve_seq,
    resolves_within, terminates, terminates_seq, acyclic,
};

verus! {

/// The number of nodes of a type, effect rows not counted.
pub open spec fn ty_size(t: TyM) -> nat
    decreases t,
{
    match t {
        TyM::Arrow(ps, r, _) => 1 + tys_size(ps) + ty_size(*r),
        TyM::Tuple(xs) => 1 + tys_size(xs),
        TyM::List(x) => 1 + ty_size(*x),
        TyM::Adt(_, args) => 1 + tys_size(args),
        _ => 1,
    }
}

/// The number of nodes of a sequence of types.
pub open spec fn tys_size(s: Seq<TyM>) -> nat
    decreases s,
{
    if s.len() == 0 {
        0
    } else {
        tys_size(s.drop_last()) + ty_size(s.last())
    }
}

/// The row without effects.
pub open spec fn pure_row() -> EffectRow {
    EffectRow { concrete: 0, tail: None }
}

/// The type `t` with the type bindings of `m` applied, following at most `n`
/// links at a time, and every effect row replaced by the pure row.
pub open spec fn shape(m: Map<TypeVarId, TyM>, t: TyM, n: nat) -> TyM
    decreases n, t,
{
    match t {
        TyM::Var(v) => if m.contains_key(v) && n > 0 {
            shape(m, m[v], (n - 1) as nat)
        } else {
            t
        },
        TyM::Arrow(ps, r, _) => TyM::Arrow(shapes(m, ps, n), Box::new(shape(m, *r, n)), pure_row()),
        TyM::Tuple(xs) => TyM::Tuple(shapes(m, xs, n)),
        TyM::List(x) => TyM::List(Box::new(shape(m, *x, n))),
        TyM::Adt(name, args) => TyM::Adt(name, shapes(m, args, n)),
        _ => t,
    }
}

/// The shapes of a sequence of types.
pub open spec fn shapes(m: Map<TypeVarId, TyM>, s: Seq<TyM>, n: nat) -> Seq<TyM>
    decreases n, s,
{
    if s.len() == 0 {
        Seq::empty()
    } else {
        shapes(m, s.drop_last(), n).push(shape(m, s.last(), n))
    }
}

/// A type with its effect rows set aside.
pub open spec fn erase(t: TyM) -> TyM {
    shape(Map::empty(), t, 0)
}

/// The shape of a type under an acyclic map of type bindings.
pub open spec fn resolved_shape(m: Map<TypeVarId, TyM>, t: TyM) -> TyM {
    shape(m, t, link_bound(m))
}

/// Whether every binding of `m` is kept, unchanged, in `m2`.
pub open spec fn extends(m: Map<TypeVarId, TyM>, m2: Map<TypeVarId, TyM>) -> bool {
    forall|v: TypeVarId| #[trigger] m.contains_key(v) ==> m2.contains_key(v) && m2[v] == m[v]
}

/// Whether the bound variables, and the variables of the bound types, all lie
/// in the finite set `u`.
pub open spec fn closed_in(m: Map<TypeVarId, TyM>, u: Set<TypeVarId>) -> bool {
    &&& u.finite()
    &&& m.dom().subset_of(u)
    &&& forall|v: TypeVarId| #[trigger] m.contains_key(v) ==> ty_vars(m[v]).subset_of(u)
}

// ---------------------------------------------------------------------------
// Sequences
// ---------------------------------------------------------------------------

/// The shapes of a sequence, element by element.
pub proof fn lemma_shapes_index(m: Map<TypeVarId, TyM>, s: Seq<TyM>, n: nat)
    ensures
        shapes(m, s, n).len() == s.len(),
        forall|i: int| 0 <= i < s.len() ==> #[trigger] shapes(m, s, n)[i] == shape(m, s[i], n),
    decreases s.len(),
{
    if s.len() > 0 {
        lemma_shapes_index(m, s.drop_last(), n);
    }
}

/// An element of a sequence is no larger than the sequence, and its
/// variables are among the sequence's.
pub proof fn lemma_seq_component(s: Seq<TyM>, i: int)
    requires
        0 <= i < s.len(),
    ensures
        ty_size(s[i]) < tys_size(s) + 1,
        ty_vars(s[i]).subset_of(tys_vars(s)),
    decreases s.len(),
{
    if i < s.len() - 1 {
        lemma_seq_component(s.drop_last(), i);
        assert(s.drop_last()[i] == s[i]);
    }
}

/// The variables of a sequence all come from its elements.
pub proof fn lemma_seq_vars(s: Seq<TyM>, v: TypeVarId)
    requires
        tys_vars(s).contains(v),
    ensures
        exists|i: int| 0 <= i < s.len() && #[trigger] ty_vars(s[i]).contains(v),
    decreases s.len(),
{
    if tys_vars(s.drop_last()).contains(v) {
        lemma_seq_vars(s.drop_last(), v);
        let i = choose|i: int| 0 <= i < s.drop_last().len() && #[trigger] ty_vars(s.drop_last()[i]).contains(v);
        assert(s.drop_last()[i] == s[i]);
    } else {
        assert(ty_vars(s[s.len() - 1]).contains(v));
    }
}

/// Two sequences whose elements have equal shapes have equal shapes.
pub proof fn lemma_shapes_equal(m: Map<TypeVarId, TyM>, s1: Seq<TyM>, s2: Seq<TyM>, n: nat)
    requires
        s1.len() == s2.len(),
        forall|i: int| 0 <= i < s1.len() ==> #[trigger] shape(m, s1[i], n) == shape(m, s2[i], n),
    ensures
        shapes(m, s1, n) == shapes(m, s2, n),
{
    lemma_shapes_index(m, s1, n);
    lemma_shapes_index(m, s2, n);
    assert(shapes(m, s1, n) =~= shapes(m, s2, n));
}

// ---------------------------------------------------------------------------
// Fuel
// ---------------------------------------------------------------------------

/// More links than needed change nothing.
pub proof fn lemma_shape_fuel(m: Map<TypeVarId, TyM>, t: TyM, n: nat, k: nat)
    requires
        terminates(m, t, n),
        n <= k,
    ensures
        terminates(m, t, k),
        shape(m, t, n) == shape(m, t, k),
    decreases n, t,
{
    match t {
        TyM::Var(v) => {
            if m.contains_key(v) {
                lemma_shape_fuel(m, m[v], (n - 1) as nat, (k - 1) as nat);
            }
        },
        TyM::Arrow(ps, r, _) => {
            lemma_shapes_fuel(m, ps, n, k);
            lemma_shape_fuel(m, *r, n, k);
        },
        TyM::Tuple(xs) => {
            lemma_shapes_fuel(m, xs, n, k);
        },
        TyM::List(x) => {
            lemma_shape_fuel(m, *x, n, k);
        },
        TyM::Adt(_, args) => {
            lemma_shapes_fuel(m, args, n, k);
        },
        _ => {},
    }
}

/// More links than needed change nothing, for sequences.
pub proof fn lemma_shapes_fuel(m: Map<TypeVarId, TyM>, s: Seq<TyM>, n: nat, k: nat)
    requires
        terminates_seq(m, s, n),
        n <= k,
    ensures
        terminates_seq(m, s, k),
        shapes(m, s, n) == shapes(m, s, k),
    decreases n, s,
{
    if s.len() > 0 {
        lemma_shapes_fuel(m, s.drop_last(), n, k);
        lemma_shape_fuel(m, s.last(), n, k);
    }
}

// ---------------------------------------------------------------------------
// Shapes of resolved types
// ---------------------------------------------------------------------------

/// A type that resolves has, with its effect rows set aside, the shape of
/// what it was resolved from.
pub proof fn lemma_resolve_shape(
    m: Map<TypeVarId, TyM>,
    em: Map<EffectVarId, EffectRow>,
    t: TyM,
    n: nat,
    r: TyM,
)
    requires
        resolve(m, em, t, n) == Some(Ok::<TyM, SubstError>(r)),
    ensures
        erase(r) == shape(m, t, n),
    decreases n, t,
{
    match t {
        TyM::Var(v) => {
            if m.contains_key(v) {
                lemma_resolve_shape(m, em, m[v], (n - 1) as nat, r);
            }
        },
        TyM::Arrow(ps, rt, e) => {
            let rps = resolve_seq(m, em, ps, n)->Some_0->Ok_0;
            let rr = resolve(m, em, *rt, n)->Some_0->Ok_0;
            lemma_resolve_shapes(m, em, ps, n, rps);
            lemma_resolve_shape(m, em, *rt, n, rr);
        },
        TyM::Tuple(xs) => {
            lemma_resolve_shapes(m, em, xs, n, resolve_seq(m, em, xs, n)->Some_0->Ok_0);
        },
        TyM::List(x) => {
            lemma_resolve_shape(m, em, *x, n, resolve(m, em, *x, n)->Some_0->Ok_0);
        },
        TyM::Adt(_, args) => {
            lemma_resolve_shapes(m, em, args, n, resolve_seq(m, em, args, n)->Some_0->Ok_0);
        },
        _ => {},
    }
}

/// A sequence that resolves has, with its effect rows set aside, the shapes
/// of what it was resolved from.
pub proof fn lemma_resolve_shapes(
    m: Map<TypeVarId, TyM>,
    em: Map<EffectVarId, EffectRow>,
    s: Seq<TyM>,
    n: nat,
    rs: Seq<TyM>,
)
    requires
        resolve_seq(m, em, s, n) == Some(Ok::<Seq<TyM>, SubstError>(rs)),
    ensures
        shapes(Map::empty(), rs, 0) == shapes(m, s, n),
    decreases n, s,
{
    if s.len() > 0 {
        let prefix = resolve_seq(m, em, s.drop_last(), n)->Some_0->Ok_0;
        let h = resolve(m, em, s.last(), n)->Some_0->Ok_0;
        lemma_resolve_shapes(m, em, s.drop_last(), n, prefix);
        lemma_resolve_shape(m, em, s.last(), n, h);
        assert(rs.drop_last() =~= prefix);
    }
}

/// The variables left in a shape are unbound.
pub proof fn lemma_shape_unbound(m: Map<TypeVarId, TyM>, t: TyM, n: nat)
    requires
        terminates(m, t, n),
    ensures
        forall|v: TypeVarId| #[trigger] ty_vars(shape(m, t, n)).contains(v) ==> !m.contains_key(v),
    decreases n, t,
{
    match t {
        TyM::Var(w) => {
            if m.contains_key(w) {
                assert(n > 0);
                assert(terminates(m, m[w], (n - 1) as nat));
                assert(shape(m, t, n) == shape(m, m[w], (n - 1) as nat));
                lemma_shape_unbound(m, m[w], (n - 1) as nat);
                assert(forall|x: TypeVarId| #[trigger] ty_vars(shape(m, m[w], (n - 1) as nat)).contains(x) ==> !m.contains_key(x));
                assert(forall|x: TypeVarId| #[trigger] ty_vars(shape(m, t, n)).contains(x) ==> !m.contains_key(x));
            } else {
                assert(shape(m, t, n) == t);
                assert forall|x: TypeVarId| #[trigger] ty_vars(shape(m, t, n)).contains(x) implies !m.contains_key(x) by {
                    assert(ty_vars(t) =~= set![w]);
                    assert(x == w);
                }
            }
        },
        TyM::Arrow(ps, r, _) => {
            lemma_shapes_unbound(m, ps, n);
            lemma_shape_unbound(m, *r, n);
            assert(ty_vars(shape(m, t, n)) == tys_vars(shapes(m, ps, n)).union(ty_vars(shape(m, *r, n))));
        },
        TyM::Tuple(xs) => {
            lemma_shapes_unbound(m, xs, n);
            assert(ty_vars(shape(m, t, n)) == tys_vars(shapes(m, xs, n)));
        },
        TyM::List(y) => {
            lemma_shape_unbound(m, *y, n);
            assert(ty_vars(shape(m, t, n)) == ty_vars(shape(m, *y, n)));
        },
        TyM::Adt(_, args) => {
            lemma_shapes_unbound(m, args, n);
            assert(ty_vars(shape(m, t, n)) == tys_vars(shapes(m, args, n)));
        },
        _ => {},
    }
}

/// The variables left in the shapes of a sequence are unbound.
pub proof fn lemma_shapes_unbound(m: Map<TypeVarId, TyM>, s: Seq<TyM>, n: nat)
    requires
        terminates_seq(m, s, n),
    ensures
        forall|v: TypeVarId| #[trigger] tys_vars(shapes(m, s, n)).contains(v) ==> !m.contains_key(v),
    decreases n, s,
{
    if s.len() > 0 {
        lemma_shapes_unbound(m, s.drop_last(), n);
        lemma_shape_unbound(m, s.last(), n);
        let sh = shapes(m, s, n);
        assert(sh.drop_last() =~= shapes(m, s.drop_last(), n));
        assert(sh.last() == shape(m, s.last(), n));
        assert(tys_vars(sh) == tys_vars(sh.drop_last()).union(ty_vars(sh.last())));
    }
}

/// A type whose variables are all unbound keeps its shape: its effect rows
/// are set aside and nothing else changes.
pub proof fn lemma_shape_of_unbound(m: Map<TypeVarId, TyM>, t: TyM, n: nat)
    requires
        forall|v: TypeVarId| #[trigger] ty_vars(t).contains(v) ==> !m.contains_key(v),
    ensures
        shape(m, t, n) == erase(t),
    decreases t,
{
    match t {
        TyM::Var(v) => {
            assert(ty_vars(t).contains(v));
        },
        TyM::Arrow(ps, r, _) => {
            assert forall|v: TypeVarId| #[trigger] tys_vars(ps).contains(v) implies !m.contains_key(v) by {
                assert(ty_vars(t).contains(v));
            }
            assert forall|v: TypeVarId| #[trigger] ty_vars(*r).contains(v) implies !m.contains_key(v) by {
                assert(ty_vars(t).contains(v));
            }
            lemma_shapes_of_unbound(m, ps, n);
            lemma_shape_of_unbound(m, *r, n);
        },
        TyM::Tuple(xs) => {
            assert forall|v: TypeVarId| #[trigger] tys_vars(xs).contains(v) implies !m.contains_key(v) by {
                assert(ty_vars(t).contains(v));
            }
            lemma_shapes_of_unbound(m, xs, n);
        },
        TyM::List(x) => {
            assert forall|v: TypeVarId| #[trigger] ty_vars(*x).contains(v) implies !m.contains_key(v) by {
                assert(ty_vars(t).contains(v));
            }
            lemma_shape_of_unbound(m, *x, n);
        },
        TyM::Adt(_, args) => {
            assert forall|v: TypeVarId| #[trigger] tys_vars(args).contains(v) implies !m.contains_key(v) by {
                assert(ty_vars(t).contains(v));
            }
            lemma_shapes_of_unbound(m, args, n);
        },
        _ => {},
    }
}

/// A sequence whose variables are all unbound keeps its shapes.
pub proof fn lemma_shapes_of_unbound(m: Map<TypeVarId, TyM>, s: Seq<TyM>, n: nat)
    requires
        forall|v: TypeVarId| #[trigger] tys_vars(s).contains(v) ==> !m.contains_key(v),
    ensures
        shapes(m, s, n) == shapes(Map::empty(), s, 0),
    decreases s,
{
    if s.len() > 0 {
        assert forall|v: TypeVarId| #[trigger] tys_vars(s.drop_last()).contains(v) implies !m.contains_key(v) by {
            assert(tys_vars(s).contains(v));
        }
        assert forall|v: TypeVarId| #[trigger] ty_vars(s.last()).contains(v) implies !m.contains_key(v) by {
            assert(tys_vars(s).contains(v));
        }
        lemma_shapes_of_unbound(m, s.drop_last(), n);
        lemma_shape_of_unbound(m, s.last(), n);
    }
}

/// Setting effect rows aside keeps the variables and the size.
pub proof fn lemma_erase_keeps(t: TyM)
    ensures
        ty_vars(erase(t)) == ty_vars(t),
        ty_size(erase(t)) == ty_size(t),
    decreases t,
{
    match t {
        TyM::Arrow(ps, r, _) => {
            lemma_erases_keep(ps);
            lemma_erase_keeps(*r);
        },
        TyM::Tuple(xs) => {
            lemma_erases_keep(xs);
        },
        TyM::List(x) => {
            lemma_erase_keeps(*x);
        },
        TyM::Adt(_, args) => {
            lemma_erases_keep(args);
        },
        _ => {},
    }
}

/// Setting effect rows aside keeps the variables and the size of a sequence.
pub proof fn lemma_erases_keep(s: Seq<TyM>)
    ensures
        tys_vars(shapes(Map::empty(), s, 0)) == tys_vars(s),
        tys_size(shapes(Map::empty(), s, 0)) == tys_size(s),
    decreases s,
{
    if s.len() > 0 {
        lemma_erases_keep(s.drop_last());
        lemma_erase_keeps(s.last());
        assert(shapes(Map::empty(), s, 0).drop_last() =~= shapes(Map::empty(), s.drop_last(), 0));
    }
}

/// The shape of a type does not depend on its effect rows.
pub proof fn lemma_shape_erase(m: Map<TypeVarId, TyM>, t: TyM, n: nat)
    ensures
        shape(m, erase(t), n) == shape(m, t, n),
    decreases t,
{
    match t {
        TyM::Arrow(ps, r, _) => {
            lemma_shapes_erase(m, ps, n);
            lemma_shape_erase(m, *r, n);
        },
        TyM::Tuple(xs) => {
            lemma_shapes_erase(m, xs, n);
        },
        TyM::List(x) => {
            lemma_shape_erase(m, *x, n);
        },
        TyM::Adt(_, args) => {
            lemma_shapes_erase(m, args, n);
        },
        _ => {},
    }
}

/// The shapes of a sequence do not depend on its effect rows.
pub proof fn lemma_shapes_erase(m: Map<TypeVarId, TyM>, s: Seq<TyM>, n: nat)
    ensures
        shapes(m, shapes(Map::empty(), s, 0), n) == shapes(m, s, n),
    decreases s,
{
    if s.len() > 0 {
        lemma_shapes_erase(m, s.drop_last(), n);
        lemma_shape_erase(m, s.last(), n);
        let e = shapes(Map::empty(), s, 0);
        assert(e.drop_last() =~= shapes(Map::empty(), s.drop_last(), 0));
    }
}

/// The variables of a shape lie in any set that holds the type's variables
/// and those of every bound type.
pub proof fn lemma_shape_vars_within(m: Map<TypeVarId, TyM>, t: TyM, n: nat, u: Set<TypeVarId>)
    requires
        ty_vars(t).subset_of(u),
        forall|v: TypeVarId| #[trigger] m.contains_key(v) ==> ty_vars(m[v]).subset_of(u),
    ensures
        ty_vars(shape(m, t, n)).subset_of(u),
    decreases n, t,
{
    match t {
        TyM::Var(v) => {
            if m.contains_key(v) && n > 0 {
                lemma_shape_vars_within(m, m[v], (n - 1) as nat, u);
            }
        },
        TyM::Arrow(ps, r, _) => {
            lemma_shapes_vars_within(m, ps, n, u);
            lemma_shape_vars_within(m, *r, n, u);
        },
        TyM::Tuple(xs) => {
            lemma_shapes_vars_within(m, xs, n, u);
        },
        TyM::List(x) => {
            lemma_shape_vars_within(m, *x, n, u);
        },
        TyM::Adt(_, args) => {
            lemma_shapes_vars_within(m, args, n, u);
        },
        _ => {},
    }
}

/// The variables of the shapes of a sequence lie in such a set too.
pub proof fn lemma_shapes_vars_within(m: Map<TypeVarId, TyM>, s: Seq<TyM>, n: nat, u: Set<TypeVarId>)
    requires
        tys_vars(s).subset_of(u),
        forall|v: TypeVarId| #[trigger] m.contains_key(v) ==> ty_vars(m[v]).subset_of(u),
    ensures
        tys_vars(shapes(m, s, n)).subset_of(u),
    decreases n, s,
{
    if s.len() > 0 {
        lemma_shapes_vars_within(m, s.drop_last(), n, u);
        lemma_shape_vars_within(m, s.last(), n, u);
        assert(shapes(m, s, n).drop_last() =~= shapes(m, s.drop_last(), n));
    }
}

// ---------------------------------------------------------------------------
// Extending a map of bindings
// ---------------------------------------------------------------------------

/// Resolving under a larger map is resolving under the smaller one first.
pub proof fn lemma_shape_compose(
    m: Map<TypeVarId, TyM>,
    m2: Map<TypeVarId, TyM>,
    t: TyM,
    n: nat,
    n2: nat,
)
    requires
        terminates(m, t, n),
        extends(m, m2),
        resolves_within(m2, n2),
    ensures
        shape(m2, t, n2) == shape(m2, shape(m, t, n), n2),
    decreases n, t,
{
    match t {
        TyM::Var(v) => {
            if m.contains_key(v) {
                assert(m2.contains_key(v));
                assert(terminates(m2, TyM::Var(v), n2));
                lemma_all_terminate(m2, m[v], n2);
                lemma_shape_fuel(m2, m[v], (n2 - 1) as nat, n2);
                lemma_shape_compose(m, m2, m[v], (n - 1) as nat, n2);
            }
        },
        TyM::Arrow(ps, r, _) => {
            lemma_shapes_compose(m, m2, ps, n, n2);
            lemma_shape_compose(m, m2, *r, n, n2);
        },
        TyM::Tuple(xs) => {
            lemma_shapes_compose(m, m2, xs, n, n2);
        },
        TyM::List(x) => {
            lemma_shape_compose(m, m2, *x, n, n2);
        },
        TyM::Adt(_, args) => {
            lemma_shapes_compose(m, m2, args, n, n2);
        },
        _ => {},
    }
}

/// Resolving a sequence under a larger map is resolving under the smaller one first.
pub proof fn lemma_shapes_compose(
    m: Map<TypeVarId, TyM>,
    m2: Map<TypeVarId, TyM>,
    s: Seq<TyM>,
    n: nat,
    n2: nat,
)
    requires
        terminates_seq(m, s, n),
        extends(m, m2),
        resolves_within(m2, n2),
    ensures
        shapes(m2, s, n2) == shapes(m2, shapes(m, s, n), n2),
    decreases n, s,
{
    if s.len() > 0 {
        lemma_shapes_compose(m, m2, s.drop_last(), n, n2);
        lemma_shape_compose(m, m2, s.last(), n, n2);
        assert(shapes(m, s, n).drop_last() =~= shapes(m, s.drop_last(), n));
    }
}

/// Under an acyclic extension, shapes that agree keep agreeing.
pub proof fn lemma_agree_extends(m: Map<TypeVarId, TyM>, m2: Map<TypeVarId, TyM>, a: TyM, b: TyM)
    requires
        acyclic(m),
        acyclic(m2),
        extends(m, m2),
        resolved_shape(m, a) == resolved_shape(m, b),
    ensures
        resolved_shape(m2, a) == resolved_shape(m2, b),
{
    let n = link_bound(m);
    let n2 = link_bound(m2);
    lemma_all_terminate(m, a, n);
    lemma_all_terminate(m, b, n);
    lemma_shape_compose(m, m2, a, n, n2);
    lemma_shape_compose(m, m2, b, n, n2);
}

/// Binding one more variable, to a type whose variables are all unbound and
/// differ from it, adds at most one link.
pub proof fn lemma_insert_terminates(
    m: Map<TypeVarId, TyM>,
    v: TypeVarId,
    t: TyM,
    x: TyM,
    n: nat,
)
    requires
        !m.contains_key(v),
        forall|u: TypeVarId| #[trigger] ty_vars(t).contains(u) ==> !m.contains_key(u) && u != v,
        terminates(m, x, n),
    ensures
        terminates(m.insert(v, t), x, n + 1),
    decreases n, x,
{
    let m2 = m.insert(v, t);
    match x {
        TyM::Var(u) => {
            if m.contains_key(u) {
                lemma_insert_terminates(m, v, t, m[u], (n - 1) as nat);
            } else if u == v {
                lemma_unbound_terminates_here(m2, t, n);
            }
        },
        TyM::Arrow(ps, r, _) => {
            lemma_insert_terminates_seq(m, v, t, ps, n);
            lemma_insert_terminates(m, v, t, *r, n);
        },
        TyM::Tuple(xs) => {
            lemma_insert_terminates_seq(m, v, t, xs, n);
        },
        TyM::List(y) => {
            lemma_insert_terminates(m, v, t, *y, n);
        },
        TyM::Adt(_, args) => {
            lemma_insert_terminates_seq(m, v, t, args, n);
        },
        _ => {},
    }
}

/// Binding one more variable adds at most one link, for sequences.
pub proof fn lemma_insert_terminates_seq(
    m: Map<TypeVarId, TyM>,
    v: TypeVarId,
    t: TyM,
    s: Seq<TyM>,
    n: nat,
)
    requires
        !m.contains_key(v),
        forall|u: TypeVarId| #[trigger] ty_vars(t).contains(u) ==> !m.contains_key(u) && u != v,
        terminates_seq(m, s, n),
    ensures
        terminates_seq(m.insert(v, t), s, n + 1),
    decreases n, s,
{
    if s.len() > 0 {
        lemma_insert_terminates_seq(m, v, t, s.drop_last(), n);
        lemma_insert_terminates(m, v, t, s.last(), n);
    }
}

/// A type none of whose variables is bound resolves within any number of links.
proof fn lemma_unbound_terminates_here(m: Map<TypeVarId, TyM>, t: TyM, n: nat)
    requires
        forall|u: TypeVarId| #[trigger] ty_vars(t).contains(u) ==> !m.contains_key(u),
    ensures
        terminates(m, t, n),
{
    crate::subst::lemma_unbound_terminates(m, t, n);
}

/// Binding an unbound variable to a type whose variables are all unbound and
/// differ from it keeps the bindings free of cycles.
pub proof fn lemma_insert_acyclic(m: Map<TypeVarId, TyM>, v: TypeVarId, t: TyM)
    requires
        acyclic(m),
        !m.contains_key(v),
        forall|u: TypeVarId| #[trigger] ty_vars(t).contains(u) ==> !m.contains_key(u) && u != v,
    ensures
        acyclic(m.insert(v, t)),
{
    let n = link_bound(m);
    let m2 = m.insert(v, t);
    assert forall|k: TypeVarId| #[trigger] m2.contains_key(k) implies terminates(m2, TyM::Var(k), n + 1) by {
        if m.contains_key(k) {
            assert(terminates(m, TyM::Var(k), n));
            lemma_insert_terminates(m, v, t, TyM::Var(k), n);
        } else {
            assert(k == v);
            assert forall|u: TypeVarId| #[trigger] ty_vars(t).contains(u) implies !m2.contains_key(u) by {}
            lemma_unbound_terminates_here(m2, t, n);
        }
    }
    assert(resolves_within(m2, n + 1));
}

// ---------------------------------------------------------------------------
// Resolving what is already resolved
// ---------------------------------------------------------------------------

/// A row that the effect bindings resolve to has a tail that is unbound.
pub proof fn lemma_chase_result(
    em: Map<EffectVarId, EffectRow>,
    cur: EffectRow,
    visited: Set<EffectVarId>,
    depth: nat,
    out: EffectRow,
)
    requires
        chase(em, cur, visited, depth) == Ok::<EffectRow, SubstError>(out),
    ensures
        out.tail matches Some(v) ==> !em.contains_key(v),
    decreases 256 - depth,
{
    if depth < 256 {
        if let Some(v) = cur.tail {
            if em.contains_key(v) && !visited.contains(v) && depth + 1 < 256 {
                lemma_chase_result(em, EffectRow { concrete: cur.concrete | em[v].concrete, tail: em[v].tail }, visited.insert(v), depth + 1, out);
            }
        }
    }
}

/// Resolving a resolved type gives it back.
pub proof fn lemma_resolve_resolved(
    m: Map<TypeVarId, TyM>,
    em: Map<EffectVarId, EffectRow>,
    t: TyM,
    n: nat,
    r: TyM,
    k: nat,
)
    requires
        resolve(m, em, t, n) == Some(Ok::<TyM, SubstError>(r)),
    ensures
        resolve(m, em, r, k) == Some(Ok::<TyM, SubstError>(r)),
    decreases n, t,
{
    match t {
        TyM::Var(v) => {
            if m.contains_key(v) {
                lemma_resolve_resolved(m, em, m[v], (n - 1) as nat, r, k);
            }
        },
        TyM::Arrow(ps, rt, e) => {
            let rps = resolve_seq(m, em, ps, n)->Some_0->Ok_0;
            let rr = resolve(m, em, *rt, n)->Some_0->Ok_0;
            let re = apply_row(em, e)->Ok_0;
            lemma_resolve_resolved_seq(m, em, ps, n, rps, k);
            lemma_resolve_resolved(m, em, *rt, n, rr, k);
            lemma_chase_result(em, e, Set::empty(), 0, re);
        },
        TyM::Tuple(xs) => {
            lemma_resolve_resolved_seq(m, em, xs, n, resolve_seq(m, em, xs, n)->Some_0->Ok_0, k);
        },
        TyM::List(x) => {
            lemma_resolve_resolved(m, em, *x, n, resolve(m, em, *x, n)->Some_0->Ok_0, k);
        },
        TyM::Adt(_, args) => {
            lemma_resolve_resolved_seq(m, em, args, n, resolve_seq(m, em, args, n)->Some_0->Ok_0, k);
        },
        _ => {},
    }
}

/// Resolving a resolved sequence gives it back.
pub proof fn lemma_resolve_resolved_seq(
    m: Map<TypeVarId, TyM>,
    em: Map<EffectVarId, EffectRow>,
    s: Seq<TyM>,
    n: nat,
    rs: Seq<TyM>,
    k: nat,
)
    requires
        resolve_seq(m, em, s, n) == Some(Ok::<Seq<TyM>, SubstError>(rs)),
    ensures
        resolve_seq(m, em, rs, k) == Some(Ok::<Seq<TyM>, SubstError>(rs)),
    decreases n, s,
{
    if s.len() > 0 {
        let prefix = resolve_seq(m, em, s.drop_last(), n)->Some_0->Ok_0;
        let h = resolve(m, em, s.last(), n)->Some_0->Ok_0;
        lemma_resolve_resolved_seq(m, em, s.drop_last(), n, prefix, k);
        lemma_resolve_resolved(m, em, s.last(), n, h, k);
        assert(rs.drop_last() =~= prefix);
    }
}


// ---------------------------------------------------------------------------
// Finiteness and the measure of unification
// ---------------------------------------------------------------------------

/// A type has finitely many variables.
pub proof fn lemma_ty_vars_finite(t: TyM)
    ensures
        ty_vars(t).finite(),
    decreases t,
{
    match t {
        TyM::Arrow(ps, r, _) => {
            lemma_tys_vars_finite(ps);
            lemma_ty_vars_finite(*r);
        },
        TyM::Tuple(xs) => {
            lemma_tys_vars_finite(xs);
        },
        TyM::List(x) => {
            lemma_ty_vars_finite(*x);
        },
        TyM::Adt(_, args) => {
            lemma_tys_vars_finite(args);
        },
        _ => {},
    }
}

/// A sequence of types has finitely many variables.
pub proof fn lemma_tys_vars_finite(s: Seq<TyM>)
    ensures
        tys_vars(s).finite(),
    decreases s,
{
    if s.len() > 0 {
        lemma_tys_vars_finite(s.drop_last());
        lemma_ty_vars_finite(s.last());
    }
}

/// The variables of the bound types.
pub open spec fn range_vars(m: Map<TypeVarId, TyM>) -> Set<TypeVarId> {
    Set::new(|x: TypeVarId| exists|k: TypeVarId| #[trigger] m.contains_key(k) && ty_vars(m[k]).contains(x))
}

/// Finitely many bindings mention finitely many variables.
pub proof fn lemma_range_vars_finite(m: Map<TypeVarId, TyM>)
    requires
        m.dom().finite(),
    ensures
        range_vars(m).finite(),
    decreases m.dom().len(),
{
    if m.dom().len() == 0 {
        assert forall|k: TypeVarId| !m.contains_key(k) by {
            if m.contains_key(k) {
                assert(m.dom().contains(k));
            }
        }
        assert(range_vars(m) =~= Set::empty());
    } else {
        let k = m.dom().choose();
        let m2 = m.remove(k);
        assert(m2.dom() =~= m.dom().remove(k));
        lemma_range_vars_finite(m2);
        lemma_ty_vars_finite(m[k]);
        let bigger = range_vars(m2).union(ty_vars(m[k]));
        assert forall|x: TypeVarId| #[trigger] range_vars(m).contains(x) implies bigger.contains(x) by {
            let j = choose|j: TypeVarId| #[trigger] m.contains_key(j) && ty_vars(m[j]).contains(x);
            if j != k {
                assert(m2.contains_key(j));
            }
        }
        vstd::set_lib::lemma_set_subset_finite(bigger, range_vars(m));
    }
}

/// The variables that unifying `a` and `b` under `m` can ever touch.
pub open spec fn unify_universe(m: Map<TypeVarId, TyM>, a: TyM, b: TyM) -> Set<TypeVarId> {
    ty_vars(a).union(ty_vars(b)).union(m.dom()).union(range_vars(m))
}

/// That set is finite and closed under the bindings.
pub proof fn lemma_unify_universe(m: Map<TypeVarId, TyM>, a: TyM, b: TyM)
    requires
        m.dom().finite(),
    ensures
        closed_in(m, unify_universe(m, a, b)),
        ty_vars(a).subset_of(unify_universe(m, a, b)),
        ty_vars(b).subset_of(unify_universe(m, a, b)),
{
    lemma_ty_vars_finite(a);
    lemma_ty_vars_finite(b);
    lemma_range_vars_finite(m);
    let u = unify_universe(m, a, b);
    assert forall|v: TypeVarId| #[trigger] m.contains_key(v) implies ty_vars(m[v]).subset_of(u) by {
        assert forall|x: TypeVarId| #[trigger] ty_vars(m[v]).contains(x) implies u.contains(x) by {
            assert(range_vars(m).contains(x));
        }
    }
}

/// Binding more variables of a finite set leaves fewer of it unbound; leaving
/// as many unbound means binding nothing new.
pub proof fn lemma_measure_step(u: Set<TypeVarId>, m: Map<TypeVarId, TyM>, m2: Map<TypeVarId, TyM>)
    requires
        closed_in(m, u),
        closed_in(m2, u),
        extends(m, m2),
    ensures
        u.difference(m2.dom()).len() <= u.difference(m.dom()).len(),
        u.difference(m2.dom()).len() == u.difference(m.dom()).len() ==> m2 == m,
{
    let d = u.difference(m.dom());
    let d2 = u.difference(m2.dom());
    assert(d2.subset_of(d));
    vstd::set_lib::lemma_len_subset(d2, d);
    if exists|x: TypeVarId| #[trigger] m2.contains_key(x) && !m.contains_key(x) {
        let x = choose|x: TypeVarId| #[trigger] m2.contains_key(x) && !m.contains_key(x);
        d2.lemma_subset_not_in_lt(d, x);
    } else {
        assert(m2 =~= m);
    }
}

/// Resolving a sequence resolves each element.
pub proof fn lemma_resolve_seq_elems(
    m: Map<TypeVarId, TyM>,
    em: Map<EffectVarId, EffectRow>,
    s: Seq<TyM>,
    n: nat,
    rs: Seq<TyM>,
)
    requires
        resolve_seq(m, em, s, n) == Some(Ok::<Seq<TyM>, SubstError>(rs)),
    ensures
        rs.len() == s.len(),
        forall|i: int| 0 <= i < s.len() ==> #[trigger] resolve(m, em, s[i], n) == Some(
            Ok::<TyM, SubstError>(rs[i]),
        ),
    decreases s.len(),
{
    if s.len() > 0 {
        let prefix = resolve_seq(m, em, s.drop_last(), n)->Some_0->Ok_0;
        lemma_resolve_seq_elems(m, em, s.drop_last(), n, prefix);
        assert forall|i: int| 0 <= i < s.len() implies #[trigger] resolve(m, em, s[i], n) == Some(
            Ok::<TyM, SubstError>(rs[i]),
        ) by {
            if i < s.len() - 1 {
                assert(s.drop_last()[i] == s[i]);
            }
        }
    }
}

/// After extending the bindings, a type has the shape of what it first
/// resolved to.
pub proof fn lemma_reduce_to_resolved(
    m: Map<TypeVarId, TyM>,
    m2: Map<TypeVarId, TyM>,
    em: Map<EffectVarId, EffectRow>,
    a: TyM,
    ra: TyM,
)
    requires
        acyclic(m),
        acyclic(m2),
        extends(m, m2),
        applied(SubstM { types: m, effects: em }, a) == Ok::<TyM, SubstError>(ra),
    ensures
        resolved_shape(m2, a) == resolved_shape(m2, ra),
{
    let n = link_bound(m);
    lemma_all_terminate(m, a, n);
    lemma_terminates_resolves(m, em, a, n);
    let n2 = link_bound(m2);
    lemma_all_terminate(m, a, n);
    lemma_shape_compose(m, m2, a, n, n2);
    lemma_resolve_shape(m, em, a, n, ra);
    lemma_shape_erase(m2, ra, n2);
}

/// Applying a substitution twice gives what applying it once gives: a
/// resolved type has no bound variable and no bound effect tail left.
pub proof fn lemma_apply_idempotent(s: Subst, t: TyM)
    requires
        s.wf(),
        applied(s@, t) is Ok,
    ensures
        applied(s@, applied(s@, t)->Ok_0) == applied(s@, t),
{
    s.lemma_finite();
    let m = s@.types;
    lemma_unify_universe(m, t, t);
    assert(s@ == SubstM { types: m, effects: s@.effects });
    lemma_resolved_facts(m, s@.effects, t, applied(s@, t)->Ok_0, unify_universe(m, t, t));
}

/// What a resolved type shows of itself: its variables are unbound and lie in
/// the set, and its size is that of its shape.
pub proof fn lemma_resolved_facts(
    m: Map<TypeVarId, TyM>,
    em: Map<EffectVarId, EffectRow>,
    a: TyM,
    ra: TyM,
    u: Set<TypeVarId>,
)
    requires
        acyclic(m),
        closed_in(m, u),
        ty_vars(a).subset_of(u),
        applied(SubstM { types: m, effects: em }, a) == Ok::<TyM, SubstError>(ra),
    ensures
        ty_vars(ra).subset_of(u),
        forall|x: TypeVarId| #[trigger] ty_vars(ra).contains(x) ==> !m.contains_key(x),
        ty_size(ra) == ty_size(resolved_shape(m, a)),
        resolve(m, em, ra, link_bound(m)) == Some(Ok::<TyM, SubstError>(ra)),
        resolved_shape(m, ra) == erase(ra),
        ty_size(resolved_shape(m, ra)) == ty_size(ra),
{
    let n = link_bound(m);
    lemma_all_terminate(m, a, n);
    lemma_terminates_resolves(m, em, a, n);
    lemma_resolve_shape(m, em, a, n, ra);
    lemma_erase_keeps(ra);
    lemma_shape_unbound(m, a, n);
    lemma_shape_vars_within(m, a, n, u);
    lemma_resolve_resolved(m, em, a, n, ra, n);
    lemma_shape_of_unbound(m, ra, n);
}

} // verus!
