//! Substitutions of types for type variables and of effect rows for effect
//! variables, and their application to types.
use vstd::prelude::*;
use crate::assoc::{AssocMap, MapKey, has_key};
use crate::effects::{EffectRow, EffectVarId};
use crate::ty::{Scheme, Ty, TyM, TypeVarId, tys_view, ty_view, ty_vars, tys_vars, lemma_tys_view, holds_effect_var};

verus! {

/// Errors of applying a substitution.
#[derive(Debug, Clone, Copy, PartialEq, Eq, Structural)]
pub enum SubstError {
    /// An effect variable's chain of bindings comes back to it.
    EffectCycle { var: EffectVarId },
    /// An effect chain is longer than the limit.
    EffectChainTooDeep { depth: usize },
    /// A scheme was instantiated with the wrong number of fresh variables.
    InstantiationArityMismatch {
        expected_types: usize,
        got_types: usize,
        expected_effects: usize,
        got_effects: usize,
    },
}

/// Longest chain of effect bindings that is followed.
pub const MAX_CHAIN_DEPTH: usize = 256;

/// What a substitution stands for: two finite maps.
pub struct SubstM {
    pub types: Map<TypeVarId, TyM>,
    pub effects: Map<EffectVarId, EffectRow>,
}

// ---------------------------------------------------------------------------
// Effect rows
// ---------------------------------------------------------------------------

/// The row with `rep` merged in place of the tail of `cur`.
pub open spec fn merge_row(cur: EffectRow, rep: EffectRow) -> EffectRow {
    EffectRow { concrete: cur.concrete | rep.concrete, tail: rep.tail }
}

/// Following the chain of effect bindings from `cur`, `depth` links in, having
/// passed through `visited`.
pub open spec fn chase(
    em: Map<EffectVarId, EffectRow>,
    cur: EffectRow,
    visited: Set<EffectVarId>,
    depth: nat,
) -> Result<EffectRow, SubstError>
    decreases 256 - depth,
{
    if depth >= 256 {
        Err(SubstError::EffectChainTooDeep { depth: 256 })
    } else {
        match cur.tail {
            None => Ok(cur),
            Some(v) => if em.contains_key(v) {
                if visited.contains(v) {
                    Err(SubstError::EffectCycle { var: v })
                } else if depth + 1 >= 256 {
                    Err(SubstError::EffectChainTooDeep { depth: 256 })
                } else {
                    chase(em, merge_row(cur, em[v]), visited.insert(v), depth + 1)
                }
            } else {
                Ok(cur)
            },
        }
    }
}

/// An effect row with the effect bindings applied.
pub open spec fn apply_row(em: Map<EffectVarId, EffectRow>, row: EffectRow) -> Result<EffectRow, SubstError> {
    chase(em, row, Set::empty(), 0)
}

// ---------------------------------------------------------------------------
// Types
// ---------------------------------------------------------------------------

/// Whether resolving `t` follows at most `n` type-variable links at a time.
pub open spec fn terminates(m: Map<TypeVarId, TyM>, t: TyM, n: nat) -> bool
    decreases n, t,
{
    match t {
        TyM::Var(v) => if m.contains_key(v) {
            n > 0 && terminates(m, m[v], (n - 1) as nat)
        } else {
            true
        },
        TyM::Const(_) => true,
        TyM::Cap(_) => true,
        TyM::Never => true,
        TyM::Arrow(ps, r, _) => terminates_seq(m, ps, n) && terminates(m, *r, n),
        TyM::Tuple(xs) => terminates_seq(m, xs, n),
        TyM::List(x) => terminates(m, *x, n),
        TyM::Adt(_, args) => terminates_seq(m, args, n),
    }
}

/// Whether every type of a sequence resolves within `n` links.
pub open spec fn terminates_seq(m: Map<TypeVarId, TyM>, s: Seq<TyM>, n: nat) -> bool
    decreases n, s,
{
    if s.len() == 0 {
        true
    } else {
        terminates_seq(m, s.drop_last(), n) && terminates(m, s.last(), n)
    }
}

/// The type `t` with all bindings applied, following at most `n` type links at
/// a time; `None` when that is not enough.
pub open spec fn resolve(
    m: Map<TypeVarId, TyM>,
    em: Map<EffectVarId, EffectRow>,
    t: TyM,
    n: nat,
) -> Option<Result<TyM, SubstError>>
    decreases n, t,
{
    match t {
        TyM::Var(v) => if m.contains_key(v) {
            if n == 0 {
                None
            } else {
                resolve(m, em, m[v], (n - 1) as nat)
            }
        } else {
            Some(Ok(t))
        },
        TyM::Const(_) => Some(Ok(t)),
        TyM::Cap(_) => Some(Ok(t)),
        TyM::Never => Some(Ok(t)),
        TyM::Arrow(ps, r, e) => match resolve_seq(m, em, ps, n) {
            None => None,
            Some(rp) => match resolve(m, em, *r, n) {
                None => None,
                Some(Err(err)) => Some(Err(err)),
                Some(Ok(rr)) => match apply_row(em, e) {
                    Err(err) => Some(Err(err)),
                    Ok(re) => match rp {
                        Err(err) => Some(Err(err)),
                        Ok(rps) => Some(Ok(TyM::Arrow(rps, Box::new(rr), re))),
                    },
                },
            },
        },
        TyM::Tuple(xs) => match resolve_seq(m, em, xs, n) {
            None => None,
            Some(Err(err)) => Some(Err(err)),
            Some(Ok(rxs)) => Some(Ok(TyM::Tuple(rxs))),
        },
        TyM::List(x) => match resolve(m, em, *x, n) {
            None => None,
            Some(Err(err)) => Some(Err(err)),
            Some(Ok(rx)) => Some(Ok(TyM::List(Box::new(rx)))),
        },
        TyM::Adt(name, args) => match resolve_seq(m, em, args, n) {
            None => None,
            Some(Err(err)) => Some(Err(err)),
            Some(Ok(rargs)) => Some(Ok(TyM::Adt(name, rargs))),
        },
    }
}

/// A sequence of types with all bindings applied, left to right, stopping at
/// the first error.
pub open spec fn resolve_seq(
    m: Map<TypeVarId, TyM>,
    em: Map<EffectVarId, EffectRow>,
    s: Seq<TyM>,
    n: nat,
) -> Option<Result<Seq<TyM>, SubstError>>
    decreases n, s,
{
    if s.len() == 0 {
        Some(Ok(Seq::empty()))
    } else {
        match resolve_seq(m, em, s.drop_last(), n) {
            None => None,
            Some(Err(err)) => Some(Err(err)),
            Some(Ok(prefix)) => match resolve(m, em, s.last(), n) {
                None => None,
                Some(Err(err)) => Some(Err(err)),
                Some(Ok(h)) => Some(Ok(prefix.push(h))),
            },
        }
    }
}

/// Whether resolving every type variable of the map takes at most `n` links:
/// the bindings hold no cycle.
pub open spec fn resolves_within(m: Map<TypeVarId, TyM>, n: nat) -> bool {
    forall|v: TypeVarId| #[trigger] m.contains_key(v) ==> terminates(m, TyM::Var(v), n)
}

/// Whether the type bindings hold no cycle.
pub open spec fn acyclic(m: Map<TypeVarId, TyM>) -> bool {
    exists|n: nat| resolves_within(m, n)
}

/// A number of links that suffices for every binding of an acyclic map.
pub open spec fn link_bound(m: Map<TypeVarId, TyM>) -> nat {
    choose|n: nat| resolves_within(m, n)
}

/// A type with a substitution applied, for a substitution without cycles.
pub open spec fn applied(s: SubstM, t: TyM) -> Result<TyM, SubstError> {
    resolve(s.types, s.effects, t, link_bound(s.types)).unwrap()
}

/// The model of a result that holds a type.
pub open spec fn result_view(r: Result<Ty, SubstError>) -> Result<TyM, SubstError> {
    match r {
        Ok(t) => Ok(t@),
        Err(e) => Err(e),
    }
}

/// The model of a result that holds types.
pub open spec fn results_view(r: Result<Vec<Ty>, SubstError>) -> Result<Seq<TyM>, SubstError> {
    match r {
        Ok(t) => Ok(tys_view(t@)),
        Err(e) => Err(e),
    }
}

// ---------------------------------------------------------------------------
// Lemmas on resolution
// ---------------------------------------------------------------------------

/// A type whose links all resolve within `n` steps resolves to something.
pub proof fn lemma_terminates_resolves(
    m: Map<TypeVarId, TyM>,
    em: Map<EffectVarId, EffectRow>,
    t: TyM,
    n: nat,
)
    requires
        terminates(m, t, n),
    ensures
        resolve(m, em, t, n) is Some,
    decreases n, t,
{
    match t {
        TyM::Var(v) => {
            if m.contains_key(v) {
                lemma_terminates_resolves(m, em, m[v], (n - 1) as nat);
            }
        },
        TyM::Arrow(ps, r, _) => {
            lemma_terminates_resolves_seq(m, em, ps, n);
            lemma_terminates_resolves(m, em, *r, n);
        },
        TyM::Tuple(xs) => {
            lemma_terminates_resolves_seq(m, em, xs, n);
        },
        TyM::List(x) => {
            lemma_terminates_resolves(m, em, *x, n);
        },
        TyM::Adt(_, args) => {
            lemma_terminates_resolves_seq(m, em, args, n);
        },
        _ => {},
    }
}

/// A sequence whose links all resolve within `n` steps resolves to something.
pub proof fn lemma_terminates_resolves_seq(
    m: Map<TypeVarId, TyM>,
    em: Map<EffectVarId, EffectRow>,
    s: Seq<TyM>,
    n: nat,
)
    requires
        terminates_seq(m, s, n),
    ensures
        resolve_seq(m, em, s, n) is Some,
    decreases n, s,
{
    if s.len() > 0 {
        lemma_terminates_resolves_seq(m, em, s.drop_last(), n);
        lemma_terminates_resolves(m, em, s.last(), n);
    }
}

/// In a map whose bindings all resolve within `n` links, every type does.
pub proof fn lemma_all_terminate(m: Map<TypeVarId, TyM>, t: TyM, n: nat)
    requires
        resolves_within(m, n),
    ensures
        terminates(m, t, n),
    decreases t,
{
    match t {
        TyM::Var(v) => {
            if m.contains_key(v) {
                assert(terminates(m, TyM::Var(v), n));
            }
        },
        TyM::Arrow(ps, r, _) => {
            lemma_all_terminate_seq(m, ps, n);
            lemma_all_terminate(m, *r, n);
        },
        TyM::Tuple(xs) => {
            lemma_all_terminate_seq(m, xs, n);
        },
        TyM::List(x) => {
            lemma_all_terminate(m, *x, n);
        },
        TyM::Adt(_, args) => {
            lemma_all_terminate_seq(m, args, n);
        },
        _ => {},
    }
}

/// In a map whose bindings all resolve within `n` links, every sequence does.
pub proof fn lemma_all_terminate_seq(m: Map<TypeVarId, TyM>, s: Seq<TyM>, n: nat)
    requires
        resolves_within(m, n),
    ensures
        terminates_seq(m, s, n),
    decreases s,
{
    if s.len() > 0 {
        lemma_all_terminate_seq(m, s.drop_last(), n);
        lemma_all_terminate(m, s.last(), n);
    }
}

/// Once a prefix of a sequence fails, the whole sequence fails the same way.
pub proof fn lemma_resolve_seq_err_prefix(
    m: Map<TypeVarId, TyM>,
    em: Map<EffectVarId, EffectRow>,
    s: Seq<TyM>,
    k: int,
    n: nat,
    e: SubstError,
)
    requires
        0 <= k <= s.len(),
        resolve_seq(m, em, s.take(k), n) == Some(Err::<Seq<TyM>, SubstError>(e)),
    ensures
        resolve_seq(m, em, s, n) == Some(Err::<Seq<TyM>, SubstError>(e)),
    decreases s.len() - k,
{
    if k == s.len() {
        assert(s.take(k) =~= s);
    } else {
        assert(s.take(k + 1).drop_last() =~= s.take(k));
        lemma_resolve_seq_err_prefix(m, em, s, k + 1, n, e);
    }
}

// ---------------------------------------------------------------------------
// The substitution
// ---------------------------------------------------------------------------

/// A substitution: bindings of type variables and of effect variables.
pub struct Subst {
    map: AssocMap<TypeVarId, Ty>,
    effect_map: AssocMap<EffectVarId, EffectRow>,
}

impl View for Subst {
    type V = SubstM;

    closed spec fn view(&self) -> SubstM {
        SubstM {
            types: Map::new(
                |v: TypeVarId| self.map@.contains_key(v.0),
                |v: TypeVarId| self.map@[v.0]@,
            ),
            effects: Map::new(
                |v: EffectVarId| self.effect_map@.contains_key(v.0),
                |v: EffectVarId| self.effect_map@[v.0],
            ),
        }
    }
}

impl Subst {
    /// A substitution binds finitely many variables.
    pub proof fn lemma_finite(&self)
        ensures
            self@.types.dom().finite(),
            self@.effects.dom().finite(),
    {
        self.map.lemma_view_finite();
        self.effect_map.lemma_view_finite();
        assert(self@.types.dom() =~= self.map@.dom().map(|k: u32| TypeVarId(k)));
        assert(self@.effects.dom() =~= self.effect_map@.dom().map(|k: u32| EffectVarId(k)));
        self.map@.dom().lemma_map_finite(|k: u32| TypeVarId(k));
        self.effect_map@.dom().lemma_map_finite(|k: u32| EffectVarId(k));
    }

    /// Whether the type bindings hold no cycle, so that applying terminates.
    pub open spec fn wf(&self) -> bool {
        acyclic(self@.types)
    }

    /// The empty substitution.
    pub fn new() -> (r: Self)
        ensures
            r@.types == Map::<TypeVarId, TyM>::empty(),
            r@.effects == Map::<EffectVarId, EffectRow>::empty(),
            r.wf(),
    {
        let r = Subst { map: AssocMap::new(), effect_map: AssocMap::new() };
        assert(r@.types =~= Map::<TypeVarId, TyM>::empty());
        assert(r@.effects =~= Map::<EffectVarId, EffectRow>::empty());
        assert(resolves_within(r@.types, 0));
        r
    }

    /// The binding of a type variable.
    pub fn get(&self, v: &TypeVarId) -> (r: Option<&Ty>)
        ensures
            r is Some <==> self@.types.contains_key(*v),
            r matches Some(t) ==> t@ == self@.types[*v],
    {
        self.map.get(v)
    }

    /// Binds a type variable, replacing any earlier binding.
    pub fn insert(&mut self, v: TypeVarId, t: Ty)
        ensures
            final(self)@.types == old(self)@.types.insert(v, t@),
            final(self)@.effects == old(self)@.effects,
    {
        let ghost tv = t@;
        self.map.insert(v, t);
        assert(self@.types =~= old(self)@.types.insert(v, tv));
        assert(self@.effects =~= old(self)@.effects);
    }

    /// True if there are no bindings at all.
    pub fn is_empty(&self) -> (r: bool)
        ensures
            r == (self@.types.dom().len() == 0 && self@.effects.dom().len() == 0),
    {
        let a = self.map.len();
        let b = self.effect_map.len();
        proof {
            assert(self@.types.dom() =~= self.map@.dom().map(|k: u32| TypeVarId(k)));
            assert(self@.effects.dom() =~= self.effect_map@.dom().map(|k: u32| EffectVarId(k)));
            if a == 0 {
                assert(self.map@.dom() =~= Set::empty());
                assert(self@.types.dom() =~= Set::empty());
            } else {
                let k = self.map@.dom().choose();
                assert(self.map@.dom().contains(k));
                assert(self@.types.dom().contains(TypeVarId(k)));
                assert(self@.types.dom().finite()) by {
                    self.map@.dom().lemma_map_finite(|k: u32| TypeVarId(k));
                }
            }
            if b == 0 {
                assert(self.effect_map@.dom() =~= Set::empty());
                assert(self@.effects.dom() =~= Set::empty());
            } else {
                let k = self.effect_map@.dom().choose();
                assert(self.effect_map@.dom().contains(k));
                assert(self@.effects.dom().contains(EffectVarId(k)));
                assert(self@.effects.dom().finite()) by {
                    self.effect_map@.dom().lemma_map_finite(|k: u32| EffectVarId(k));
                }
            }
        }
        a == 0 && b == 0
    }

    /// The binding of an effect variable.
    pub fn get_effect(&self, v: &EffectVarId) -> (r: Option<&EffectRow>)
        ensures
            r is Some <==> self@.effects.contains_key(*v),
            r matches Some(row) ==> *row == self@.effects[*v],
    {
        self.effect_map.get(v)
    }

    /// Binds an effect variable, replacing any earlier binding.
    pub fn insert_effect(&mut self, v: EffectVarId, row: EffectRow)
        ensures
            final(self)@.types == old(self)@.types,
            final(self)@.effects == old(self)@.effects.insert(v, row),
    {
        self.effect_map.insert(v, row);
        assert(self@.types =~= old(self)@.types);
        assert(self@.effects =~= old(self)@.effects.insert(v, row));
    }

    /// Whether binding `var` to `row` would make a cycle of effect bindings:
    /// whether `var` lies on the chain of bindings that starts at the row's tail.
    pub fn effect_var_occurs_in(&self, var: EffectVarId, row: &EffectRow) -> (r: bool)
        ensures
            r == effect_reaches(self@.effects, var, *row),
    {
        let ghost em = self@.effects;
        let start = match row.tail {
            None => {
                return false;
            },
            Some(t) => t,
        };
        let mut current = start;
        let mut visited: Vec<EffectVarId> = Vec::new();
        visited.push(var);
        let ghost mut k: nat = 0;
        let n = self.effect_map.len();
        proof {
            assert(self.effect_map@.dom().finite());
        }
        loop
            invariant
                em == self@.effects,
                row.tail == Some(start),
                n == self.effect_map@.dom().len(),
                self.effect_map@.dom().finite(),
                tail_chain(em, start, k) == Some(current),
                visited@.len() == k + 1,
                visited@[0] == var,
                forall|q: nat| q < k ==> Some(#[trigger] visited@[q as int + 1]) == tail_chain(em, start, q),
                forall|q: nat| q < k ==> #[trigger] tail_chain(em, start, q) != Some(var),
                forall|q: nat| q < k ==> self.effect_map@.contains_key(#[trigger] visited@[q as int + 1].0),
                visited@.no_duplicates(),
                k <= n,
            decreases n - k,
        {
            if current == var {
                proof {
                    assert(tail_chain(em, start, k) == Some(var));
                }
                return true;
            }
            if holds_effect_var(&visited, current) {
                proof {
                    let p = choose|p: int| 0 <= p < visited@.len() && visited@[p] == current;
                    assert(p != 0);
                    let j = (p - 1) as nat;
                    assert(visited@[j as int + 1] == current);
                    assert forall|i: nat| #[trigger] tail_chain(em, start, i) != Some(var) by {
                        lemma_chain_loop_avoids(em, start, var, j, k, i);
                    }
                    assert(!effect_reaches(em, var, *row));
                }
                return false;
            }
            let ghost before = visited@;
            visited.push(current);
            match self.effect_map.get(&current) {
                Some(replacement) => match replacement.tail {
                    Some(next) => {
                        proof {
                            assert(em.contains_key(current));
                            assert(tail_chain(em, start, k + 1) == Some(next));
                            assert(visited@[k as int + 1] == current);
                            assert(visited@.no_duplicates()) by {
                                assert forall|a: int, b: int|
                                    0 <= a < visited@.len() && 0 <= b < visited@.len() && a != b
                                    implies visited@[a] != visited@[b] by {
                                    if a < before.len() && b < before.len() {
                                        assert(visited@[a] == before[a] && visited@[b] == before[b]);
                                    } else if a == before.len() {
                                        assert(visited@[b] == before[b]);
                                        assert(!before.contains(current));
                                    } else {
                                        assert(visited@[a] == before[a]);
                                        assert(!before.contains(current));
                                    }
                                }
                            }
                            // The bound keys seen so far are distinct, so there are
                            // at most as many as the map has.
                            let d = visited@.drop_first().map_values(|e: EffectVarId| e.0);
                            assert forall|a: int| 0 <= a < d.len() implies self.effect_map@.contains_key(
                                #[trigger] d[a],
                            ) by {
                                if a < k {
                                    assert(d[a] == visited@[(a as nat) as int + 1].0);
                                }
                            }
                            assert(d.to_set().subset_of(self.effect_map@.dom()));
                            assert(d.no_duplicates()) by {
                                assert forall|a: int, b: int| 0 <= a < d.len() && 0 <= b < d.len() && a != b
                                    implies d[a] != d[b] by {
                                    assert(visited@[a + 1] != visited@[b + 1]);
                                }
                            }
                            d.unique_seq_to_set();
                            vstd::set_lib::lemma_len_subset(d.to_set(), self.effect_map@.dom());
                            k = k + 1;
                        }
                        current = next;
                    },
                    None => {
                        proof {
                            assert(tail_chain(em, start, k + 1) is None);
                            assert forall|i: nat| #[trigger] tail_chain(em, start, i) != Some(var) by {
                                if i > k {
                                    lemma_chain_ended(em, start, k + 1, i);
                                }
                            }
                        }
                        return false;
                    },
                },
                None => {
                    proof {
                        assert(!em.contains_key(current));
                        assert(tail_chain(em, start, k + 1) is None);
                        assert forall|i: nat| #[trigger] tail_chain(em, start, i) != Some(var) by {
                            if i > k {
                                lemma_chain_ended(em, start, k + 1, i);
                            }
                        }
                    }
                    return false;
                },
            }
        }
    }

    /// Applies the effect bindings to a row, following chains of bindings.
    ///
    /// Fails when the chain comes back to a variable it already passed, or is
    /// longer than the limit.
    pub fn apply_effect_row(&self, row: &EffectRow) -> (r: Result<EffectRow, SubstError>)
        ensures
            r == apply_row(self@.effects, *row),
    {
        let mut current = *row;
        let mut visited: Vec<EffectVarId> = Vec::new();
        let mut depth: usize = 0;
        let ghost em = self@.effects;
        assert(visited@.to_set() =~= Set::empty());
        while depth < MAX_CHAIN_DEPTH
            invariant
                depth <= 256,
                em == self@.effects,
                chase(em, current, visited@.to_set(), depth as nat) == apply_row(em, *row),
            decreases 256 - depth,
        {
            match current.tail {
                None => {
                    return Ok(current);
                },
                Some(var) => {
                    match self.effect_map.get(&var) {
                        Some(replacement) => {
                            if holds_effect_var(&visited, var) {
                                return Err(SubstError::EffectCycle { var });
                            }
                            let ghost before = visited@;
                            visited.push(var);
                            proof {
                                before.lemma_push_to_set_commute(var);
                            }
                            current = EffectRow {
                                concrete: current.concrete | replacement.concrete,
                                tail: replacement.tail,
                            };
                        },
                        None => {
                            return Ok(current);
                        },
                    }
                },
            }
            if depth == MAX_CHAIN_DEPTH - 1 {
                return Err(SubstError::EffectChainTooDeep { depth: MAX_CHAIN_DEPTH });
            }
            depth = depth + 1;
        }
        Err(SubstError::EffectChainTooDeep { depth: MAX_CHAIN_DEPTH })
    }

    /// The composition `self ∘ other`: `other`'s bindings with `self` applied
    /// to them, then `self`'s bindings for the variables `other` leaves unbound.
    ///
    /// Fails with the first error met when applying `self` to a binding of `other`.
    pub fn compose(&self, other: &Subst) -> (r: Result<Subst, SubstError>)
        requires
            self.wf(),
        ensures
            r is Ok <==> compose_ok(self@, other@),
            r matches Ok(c) ==> c@ == composed(self@, other@),
            r matches Err(e) ==> (exists|v: TypeVarId| #[trigger] other@.types.contains_key(v)
                && applied(self@, other@.types[v]) == Err::<TyM, SubstError>(e))
                || (exists|v: EffectVarId| #[trigger] other@.effects.contains_key(v)
                && apply_row(self@.effects, other@.effects[v]) == Err::<EffectRow, SubstError>(e)),
    {
        let ghost sv = self@;
        let ghost ov = other@;
        let mut out = Subst::new();
        // Bindings of `other`, with `self` applied.
        let n = other.map.len();
        let mut i: usize = 0;
        while i < n
            invariant
                sv == self@,
                ov == other@,
                self.wf(),
                n == other.map.entries().len(),
                i <= n,
                forall|k: u32| #[trigger] other.map@.contains_key(k) ==> has_key(other.map.entries(), k),
                forall|j: int| 0 <= j < n ==> #[trigger] other.map@.contains_key(other.map.entries()[j].0@)
                    && other.map@[other.map.entries()[j].0@] == other.map.entries()[j].1,
                out@.effects == Map::<EffectVarId, EffectRow>::empty(),
                forall|v: TypeVarId| #[trigger] out@.types.contains_key(v) <==> exists|j: int| 0 <= j < i && #[trigger] other.map.entries()[j].0 == v,
                forall|v: TypeVarId| #[trigger] out@.types.contains_key(v) ==> ov.types.contains_key(v)
                    && applied(sv, ov.types[v]) == Ok::<TyM, SubstError>(out@.types[v]),
            decreases n - i,
        {
            let (k, t) = other.map.entry(i);
            let ghost kv = *k;
            assert(ov.types.contains_key(kv) && ov.types[kv] == t@);
            match self.apply(t) {
                Ok(a) => {
                    out.insert(*k, a);
                },
                Err(e) => {
                    return Err(e);
                },
            }
            i = i + 1;
        }
        assert forall|v: TypeVarId| #[trigger] ov.types.contains_key(v) implies out@.types.contains_key(v) by {
            assert(has_key(other.map.entries(), v.0));
            let j = choose|j: int| 0 <= j < other.map.entries().len() && #[trigger] other.map.entries()[j].0@ == v.0;
            assert(other.map.entries()[j].0 == v);
        }
        // Bindings of `self` for the variables `other` leaves unbound.
        let n2 = self.map.len();
        let mut i2: usize = 0;
        while i2 < n2
            invariant
                sv == self@,
                ov == other@,
                n2 == self.map.entries().len(),
                i2 <= n2,
                forall|k: u32| #[trigger] self.map@.contains_key(k) ==> has_key(self.map.entries(), k),
                forall|j: int| 0 <= j < n2 ==> #[trigger] self.map@.contains_key(self.map.entries()[j].0@)
                    && self.map@[self.map.entries()[j].0@] == self.map.entries()[j].1,
                out@.effects == Map::<EffectVarId, EffectRow>::empty(),
                forall|v: TypeVarId| #[trigger] out@.types.contains_key(v) <==> (ov.types.contains_key(v)
                    || exists|j: int| 0 <= j < i2 && #[trigger] self.map.entries()[j].0 == v),
                forall|v: TypeVarId| #[trigger] ov.types.contains_key(v) ==>
                    applied(sv, ov.types[v]) == Ok::<TyM, SubstError>(out@.types[v]),
                forall|v: TypeVarId| #[trigger] out@.types.contains_key(v) && !ov.types.contains_key(v) ==>
                    sv.types.contains_key(v) && out@.types[v] == sv.types[v],
            decreases n2 - i2,
        {
            let (k, t) = self.map.entry(i2);
            if !other.map.contains_key(k) {
                out.insert(*k, t.copy());
            }
            i2 = i2 + 1;
        }
        assert forall|v: TypeVarId| #[trigger] sv.types.contains_key(v) implies out@.types.contains_key(v) by {
            assert(has_key(self.map.entries(), v.0));
            let j = choose|j: int| 0 <= j < self.map.entries().len() && #[trigger] self.map.entries()[j].0@ == v.0;
            assert(self.map.entries()[j].0 == v);
        }
        assert(out@.types =~= composed(sv, ov).types);
        // Effect bindings of `other`, with `self` applied.
        let n3 = other.effect_map.len();
        let mut i3: usize = 0;
        while i3 < n3
            invariant
                sv == self@,
                ov == other@,
                n3 == other.effect_map.entries().len(),
                i3 <= n3,
                forall|k: u32| #[trigger] other.effect_map@.contains_key(k) ==> has_key(other.effect_map.entries(), k),
                forall|v: TypeVarId| #[trigger] ov.types.contains_key(v) ==> applied(sv, ov.types[v]) is Ok,
                forall|j: int| 0 <= j < n3 ==> #[trigger] other.effect_map@.contains_key(other.effect_map.entries()[j].0@)
                    && other.effect_map@[other.effect_map.entries()[j].0@] == other.effect_map.entries()[j].1,
                out@.types == composed(sv, ov).types,
                forall|v: EffectVarId| #[trigger] out@.effects.contains_key(v) <==> exists|j: int| 0 <= j < i3 && #[trigger] other.effect_map.entries()[j].0 == v,
                forall|v: EffectVarId| #[trigger] out@.effects.contains_key(v) ==> ov.effects.contains_key(v)
                    && apply_row(sv.effects, ov.effects[v]) == Ok::<EffectRow, SubstError>(out@.effects[v]),
            decreases n3 - i3,
        {
            let (k, row) = other.effect_map.entry(i3);
            let ghost kv = *k;
            assert(ov.effects.contains_key(kv) && ov.effects[kv] == *row);
            match self.apply_effect_row(row) {
                Ok(a) => {
                    out.insert_effect(*k, a);
                },
                Err(e) => {
                    return Err(e);
                },
            }
            i3 = i3 + 1;
        }
        assert forall|v: EffectVarId| #[trigger] ov.effects.contains_key(v) implies out@.effects.contains_key(v) by {
            assert(has_key(other.effect_map.entries(), v.0));
            let j = choose|j: int| 0 <= j < other.effect_map.entries().len() && #[trigger] other.effect_map.entries()[j].0@ == v.0;
            assert(other.effect_map.entries()[j].0 == v);
        }
        let n4 = self.effect_map.len();
        let mut i4: usize = 0;
        while i4 < n4
            invariant
                sv == self@,
                ov == other@,
                n4 == self.effect_map.entries().len(),
                i4 <= n4,
                forall|k: u32| #[trigger] self.effect_map@.contains_key(k) ==> has_key(self.effect_map.entries(), k),
                forall|v: TypeVarId| #[trigger] ov.types.contains_key(v) ==> applied(sv, ov.types[v]) is Ok,
                forall|j: int| 0 <= j < n4 ==> #[trigger] self.effect_map@.contains_key(self.effect_map.entries()[j].0@)
                    && self.effect_map@[self.effect_map.entries()[j].0@] == self.effect_map.entries()[j].1,
                out@.types == composed(sv, ov).types,
                forall|v: EffectVarId| #[trigger] out@.effects.contains_key(v) <==> (ov.effects.contains_key(v)
                    || exists|j: int| 0 <= j < i4 && #[trigger] self.effect_map.entries()[j].0 == v),
                forall|v: EffectVarId| #[trigger] ov.effects.contains_key(v) ==>
                    apply_row(sv.effects, ov.effects[v]) == Ok::<EffectRow, SubstError>(out@.effects[v]),
                forall|v: EffectVarId| #[trigger] out@.effects.contains_key(v) && !ov.effects.contains_key(v) ==>
                    sv.effects.contains_key(v) && out@.effects[v] == sv.effects[v],
            decreases n4 - i4,
        {
            let (k, row) = self.effect_map.entry(i4);
            if !other.effect_map.contains_key(k) {
                out.insert_effect(*k, *row);
            }
            i4 = i4 + 1;
        }
        assert forall|v: EffectVarId| #[trigger] sv.effects.contains_key(v) implies out@.effects.contains_key(v) by {
            assert(has_key(self.effect_map.entries(), v.0));
            let j = choose|j: int| 0 <= j < self.effect_map.entries().len() && #[trigger] self.effect_map.entries()[j].0@ == v.0;
            assert(self.effect_map.entries()[j].0 == v);
        }
        assert(out@.effects =~= composed(sv, ov).effects);
        Ok(out)
    }

    /// A copy of the substitution with the same bindings.
    pub fn copy(&self) -> (r: Subst)
        ensures
            r@ == self@,
    {
        let ghost sv = self@;
        let mut out = Subst::new();
        let n = self.map.len();
        let mut i: usize = 0;
        while i < n
            invariant
                sv == self@,
                n == self.map.entries().len(),
                i <= n,
                forall|k: u32| #[trigger] self.map@.contains_key(k) ==> has_key(self.map.entries(), k),
                forall|j: int| 0 <= j < n ==> #[trigger] self.map@.contains_key(self.map.entries()[j].0@)
                    && self.map@[self.map.entries()[j].0@] == self.map.entries()[j].1,
                out@.effects == Map::<EffectVarId, EffectRow>::empty(),
                forall|v: TypeVarId| #[trigger] out@.types.contains_key(v) <==> exists|j: int| 0 <= j < i && #[trigger] self.map.entries()[j].0 == v,
                forall|v: TypeVarId| #[trigger] out@.types.contains_key(v) ==> sv.types.contains_key(v) && out@.types[v] == sv.types[v],
            decreases n - i,
        {
            let (k, t) = self.map.entry(i);
            out.insert(*k, t.copy());
            i = i + 1;
        }
        assert forall|v: TypeVarId| #[trigger] sv.types.contains_key(v) implies out@.types.contains_key(v) by {
            assert(has_key(self.map.entries(), v.0));
            let j = choose|j: int| 0 <= j < self.map.entries().len() && #[trigger] self.map.entries()[j].0@ == v.0;
            assert(self.map.entries()[j].0 == v);
        }
        assert(out@.types =~= sv.types);
        let n2 = self.effect_map.len();
        let mut i2: usize = 0;
        while i2 < n2
            invariant
                sv == self@,
                n2 == self.effect_map.entries().len(),
                i2 <= n2,
                forall|k: u32| #[trigger] self.effect_map@.contains_key(k) ==> has_key(self.effect_map.entries(), k),
                forall|j: int| 0 <= j < n2 ==> #[trigger] self.effect_map@.contains_key(self.effect_map.entries()[j].0@)
                    && self.effect_map@[self.effect_map.entries()[j].0@] == self.effect_map.entries()[j].1,
                out@.types == sv.types,
                forall|v: EffectVarId| #[trigger] out@.effects.contains_key(v) <==> exists|j: int| 0 <= j < i2 && #[trigger] self.effect_map.entries()[j].0 == v,
                forall|v: EffectVarId| #[trigger] out@.effects.contains_key(v) ==> sv.effects.contains_key(v) && out@.effects[v] == sv.effects[v],
            decreases n2 - i2,
        {
            let (k, row) = self.effect_map.entry(i2);
            out.insert_effect(*k, *row);
            i2 = i2 + 1;
        }
        assert forall|v: EffectVarId| #[trigger] sv.effects.contains_key(v) implies out@.effects.contains_key(v) by {
            assert(has_key(self.effect_map.entries(), v.0));
            let j = choose|j: int| 0 <= j < self.effect_map.entries().len() && #[trigger] self.effect_map.entries()[j].0@ == v.0;
            assert(self.effect_map.entries()[j].0 == v);
        }
        assert(out@.effects =~= sv.effects);
        out
    }

    /// Applies the bindings to a type, following at most `n` type links at a time.
    fn apply_within(&self, t: &Ty, Ghost(n): Ghost<nat>) -> (r: Result<Ty, SubstError>)
        requires
            terminates(self@.types, t@, n),
        ensures
            resolve(self@.types, self@.effects, t@, n) == Some(result_view(r)),
        decreases n, t,
    {
        match t {
            Ty::Var(v) => {
                match self.map.get(v) {
                    Some(bound) => {
                        assert(self@.types.contains_key(*v));
                        self.apply_within(bound, Ghost((n - 1) as nat))
                    },
                    None => {
                        assert(!self@.types.contains_key(*v));
                        Ok(Ty::Var(*v))
                    },
                }
            },
            Ty::Const(c) => Ok(Ty::Const(*c)),
            Ty::Cap(k) => Ok(Ty::Cap(*k)),
            Ty::Never => Ok(Ty::Never),
            Ty::Arrow(params, ret, eff) => {
                let new_params = self.apply_seq_within(params, Ghost(n));
                let new_ret = match self.apply_within(ret, Ghost(n)) {
                    Ok(x) => x,
                    Err(e) => {
                        return Err(e);
                    },
                };
                let new_eff = match self.apply_effect_row(eff) {
                    Ok(x) => x,
                    Err(e) => {
                        return Err(e);
                    },
                };
                match new_params {
                    Ok(ps) => Ok(Ty::Arrow(ps, Box::new(new_ret), new_eff)),
                    Err(e) => Err(e),
                }
            },
            Ty::Tuple(xs) => {
                match self.apply_seq_within(xs, Ghost(n)) {
                    Ok(ys) => Ok(Ty::Tuple(ys)),
                    Err(e) => Err(e),
                }
            },
            Ty::List(x) => {
                match self.apply_within(x, Ghost(n)) {
                    Ok(y) => Ok(Ty::List(Box::new(y))),
                    Err(e) => Err(e),
                }
            },
            Ty::Adt { name, args } => {
                match self.apply_seq_within(args, Ghost(n)) {
                    Ok(ys) => Ok(Ty::Adt { name: name.clone(), args: ys }),
                    Err(e) => Err(e),
                }
            },
        }
    }

    /// Applies the bindings to each type of a sequence, stopping at the first error.
    fn apply_seq_within(&self, s: &Vec<Ty>, Ghost(n): Ghost<nat>) -> (r: Result<
        Vec<Ty>,
        SubstError,
    >)
        requires
            terminates_seq(self@.types, tys_view(s@), n),
        ensures
            resolve_seq(self@.types, self@.effects, tys_view(s@), n) == Some(results_view(r)),
        decreases n, s,
    {
        let ghost m = self@.types;
        let ghost em = self@.effects;
        let ghost sv = tys_view(s@);
        proof {
            lemma_tys_view(s@);
        }
        let mut out: Vec<Ty> = Vec::new();
        let mut i: usize = 0;
        while i < s.len()
            invariant
                i <= s@.len(),
                m == self@.types,
                em == self@.effects,
                sv == tys_view(s@),
                sv.len() == s@.len(),
                forall|j: int| 0 <= j < s@.len() ==> #[trigger] sv[j] == ty_view(s@[j]),
                terminates_seq(m, sv, n),
                resolve_seq(m, em, sv.take(i as int), n) == Some(
                    Ok::<Seq<TyM>, SubstError>(tys_view(out@)),
                ),
            decreases s@.len() - i,
        {
            proof {
                lemma_take_terminates(m, sv, i as int, n);
                assert(sv.take(i + 1).drop_last() =~= sv.take(i as int));
                assert(sv.take(i + 1).last() == ty_view(s@[i as int]));
            }
            assert(decreases_to!(s => s@[i as int]));
            match self.apply_within(&s[i], Ghost(n)) {
                Ok(t) => {
                    let ghost before = out@;
                    out.push(t);
                    proof {
                        assert(out@.drop_last() =~= before);
                    }
                },
                Err(e) => {
                    proof {
                        lemma_resolve_seq_err_prefix(m, em, sv, i + 1, n, e);
                    }
                    return Err(e);
                },
            }
            i = i + 1;
        }
        assert(sv.take(s@.len() as int) =~= sv);
        Ok(out)
    }

    /// Applies the substitution to a type, following chains of bindings.
    ///
    /// Fails only when an effect row on the way cannot be resolved.
    pub fn apply(&self, t: &Ty) -> (r: Result<Ty, SubstError>)
        requires
            self.wf(),
        ensures
            result_view(r) == applied(self@, t@),
            r matches Ok(x) ==> (t@ is Arrow ==> x@ is Arrow),
    {
        let ghost n = link_bound(self@.types);
        proof {
            lemma_all_terminate(self@.types, t@, n);
            lemma_terminates_resolves(self@.types, self@.effects, t@, n);
        }
        self.apply_within(t, Ghost(n))
    }
}

/// Whether every binding of `o` survives having `s` applied to it.
pub open spec fn compose_ok(s: SubstM, o: SubstM) -> bool {
    &&& forall|v: TypeVarId| #[trigger] o.types.contains_key(v) ==> applied(s, o.types[v]) is Ok
    &&& forall|v: EffectVarId| #[trigger] o.effects.contains_key(v) ==> apply_row(s.effects, o.effects[v]) is Ok
}

/// The composition `s ∘ o`: the bindings of `o` with `s` applied to them, and
/// the bindings of `s` for the variables that `o` leaves unbound.
pub open spec fn composed(s: SubstM, o: SubstM) -> SubstM {
    SubstM {
        types: Map::new(
            |v: TypeVarId| o.types.contains_key(v) || s.types.contains_key(v),
            |v: TypeVarId| if o.types.contains_key(v) { applied(s, o.types[v])->Ok_0 } else { s.types[v] },
        ),
        effects: Map::new(
            |v: EffectVarId| o.effects.contains_key(v) || s.effects.contains_key(v),
            |v: EffectVarId| if o.effects.contains_key(v) {
                apply_row(s.effects, o.effects[v])->Ok_0
            } else {
                s.effects[v]
            },
        ),
    }
}

/// The type bindings that instantiate the first `k` bound variables, each to
/// its fresh type; a later pair wins over an earlier one for the same variable.
pub open spec fn inst_types(vars: Seq<TypeVarId>, fresh: Seq<TyM>, k: nat) -> Map<TypeVarId, TyM>
    decreases k,
{
    if k == 0 {
        Map::empty()
    } else {
        inst_types(vars, fresh, (k - 1) as nat).insert(vars[k - 1], fresh[k - 1])
    }
}

/// The effect bindings that send the first `k` bound effect variables each to
/// an open row over its fresh variable.
pub open spec fn inst_effects(vars: Seq<EffectVarId>, fresh: Seq<EffectVarId>, k: nat) -> Map<
    EffectVarId,
    EffectRow,
>
    decreases k,
{
    if k == 0 {
        Map::empty()
    } else {
        inst_effects(vars, fresh, (k - 1) as nat).insert(
            vars[k - 1],
            EffectRow { concrete: 0, tail: Some(fresh[k - 1]) },
        )
    }
}

/// The substitution that instantiates a scheme.
pub open spec fn inst_subst(s: Scheme, fresh: Seq<TyM>, fresh_effects: Seq<EffectVarId>) -> SubstM {
    SubstM {
        types: inst_types(s.type_vars@, fresh, s.type_vars@.len()),
        effects: inst_effects(s.effect_vars@, fresh_effects, s.effect_vars@.len()),
    }
}

/// A type none of whose variables is bound resolves within any number of links.
pub proof fn lemma_unbound_terminates(m: Map<TypeVarId, TyM>, t: TyM, n: nat)
    requires
        forall|v: TypeVarId| #[trigger] ty_vars(t).contains(v) ==> !m.contains_key(v),
    ensures
        terminates(m, t, n),
    decreases t,
{
    match t {
        TyM::Var(v) => {
            assert(ty_vars(t).contains(v));
        },
        TyM::Arrow(ps, r, _) => {
            assert forall|v: TypeVarId| #[trigger] tys_vars(ps).contains(v) implies !m.contains_key(v) by {
                assert(ty_vars(t).contains(v));
            }
            assert forall|v: TypeVarId| #[trigger] ty_vars(*r).contains(v) implies !m.contains_key(v) by {
                assert(ty_vars(t).contains(v));
            }
            lemma_unbound_terminates_seq(m, ps, n);
            lemma_unbound_terminates(m, *r, n);
        },
        TyM::Tuple(xs) => {
            assert forall|v: TypeVarId| #[trigger] tys_vars(xs).contains(v) implies !m.contains_key(v) by {
                assert(ty_vars(t).contains(v));
            }
            lemma_unbound_terminates_seq(m, xs, n);
        },
        TyM::List(x) => {
            assert forall|v: TypeVarId| #[trigger] ty_vars(*x).contains(v) implies !m.contains_key(v) by {
                assert(ty_vars(t).contains(v));
            }
            lemma_unbound_terminates(m, *x, n);
        },
        TyM::Adt(_, args) => {
            assert forall|v: TypeVarId| #[trigger] tys_vars(args).contains(v) implies !m.contains_key(v) by {
                assert(ty_vars(t).contains(v));
            }
            lemma_unbound_terminates_seq(m, args, n);
        },
        _ => {},
    }
}

/// A sequence none of whose variables is bound resolves within any number of links.
pub proof fn lemma_unbound_terminates_seq(m: Map<TypeVarId, TyM>, s: Seq<TyM>, n: nat)
    requires
        forall|v: TypeVarId| #[trigger] tys_vars(s).contains(v) ==> !m.contains_key(v),
    ensures
        terminates_seq(m, s, n),
    decreases s,
{
    if s.len() > 0 {
        assert forall|v: TypeVarId| #[trigger] tys_vars(s.drop_last()).contains(v) implies !m.contains_key(v) by {
            assert(tys_vars(s).contains(v));
        }
        assert forall|v: TypeVarId| #[trigger] ty_vars(s.last()).contains(v) implies !m.contains_key(v) by {
            assert(tys_vars(s).contains(v));
        }
        lemma_unbound_terminates_seq(m, s.drop_last(), n);
        lemma_unbound_terminates(m, s.last(), n);
    }
}

/// Instantiating with fresh types that mention none of the bound variables
/// gives bindings without cycles.
pub proof fn lemma_fresh_instantiation_acyclic(vars: Seq<TypeVarId>, fresh: Seq<TyM>)
    requires
        fresh.len() == vars.len(),
        forall|i: int, v: TypeVarId| 0 <= i < fresh.len() && #[trigger] ty_vars(fresh[i]).contains(v)
            ==> !vars.contains(v),
    ensures
        acyclic(inst_types(vars, fresh, vars.len())),
{
    let m = inst_types(vars, fresh, vars.len());
    lemma_inst_types_entries(vars, fresh, vars.len());
    assert forall|v: TypeVarId| #[trigger] m.contains_key(v) implies terminates(m, TyM::Var(v), 1) by {
        let i = choose|i: int| 0 <= i < vars.len() && vars[i] == v && m[v] == fresh[i];
        assert forall|u: TypeVarId| #[trigger] ty_vars(fresh[i]).contains(u) implies !m.contains_key(u) by {
            if m.contains_key(u) {
                let j = choose|j: int| 0 <= j < vars.len() && vars[j] == u && m[u] == fresh[j];
                assert(vars.contains(u));
            }
        }
        lemma_unbound_terminates(m, fresh[i], 0);
    }
    assert(resolves_within(m, 1));
}

/// Each binding of an instantiation comes from one of its pairs.
pub proof fn lemma_inst_types_entries(vars: Seq<TypeVarId>, fresh: Seq<TyM>, k: nat)
    ensures
        forall|v: TypeVarId| #[trigger] inst_types(vars, fresh, k).contains_key(v)
            ==> (exists|i: int| 0 <= i < k && vars[i] == v && inst_types(vars, fresh, k)[v] == fresh[i]),
    decreases k,
{
    if k > 0 {
        lemma_inst_types_entries(vars, fresh, (k - 1) as nat);
        assert forall|v: TypeVarId| #[trigger] inst_types(vars, fresh, k).contains_key(v)
            implies (exists|i: int| 0 <= i < k && vars[i] == v && inst_types(vars, fresh, k)[v] == fresh[i]) by {
            if v == vars[k - 1] {
                assert(inst_types(vars, fresh, k)[v] == fresh[k - 1]);
            } else {
                assert(inst_types(vars, fresh, (k - 1) as nat).contains_key(v));
            }
        }
    }
}

/// The effects that closing an unbound tail adds: those of the closed row
/// the tail is bound to in `em2` but not in `em`.
pub open spec fn closing_extra(em: Map<EffectVarId, EffectRow>, em2: Map<EffectVarId, EffectRow>, x: EffectRow) -> u64 {
    match x.tail {
        Some(t) => if em2.contains_key(t) && !em.contains_key(t) {
            em2[t].concrete
        } else {
            0
        },
        None => 0,
    }
}

/// Binding unbound effect variables to closed rows only ever closes a chain
/// at its end: what comes out holds the effects of before, plus those of the
/// closed row that its tail is now bound to.
pub proof fn lemma_chase_closing(
    em: Map<EffectVarId, EffectRow>,
    em2: Map<EffectVarId, EffectRow>,
    cur: EffectRow,
    visited: Set<EffectVarId>,
    depth: nat,
    x: EffectRow,
)
    requires
        chase(em, cur, visited, depth) == Ok::<EffectRow, SubstError>(x),
        forall|k: EffectVarId| #[trigger] em.contains_key(k) ==> em2.contains_key(k) && em2[k] == em[k],
        forall|k: EffectVarId| #[trigger] em2.contains_key(k) && !em.contains_key(k) ==> em2[k].tail is None,
        forall|k: EffectVarId| #[trigger] visited.contains(k) ==> em.contains_key(k),
    ensures
        chase(em2, cur, visited, depth) matches Ok(y) ==> y.concrete == x.concrete | closing_extra(em, em2, x),
    decreases 256 - depth,
{
    if depth < 256 {
        match cur.tail {
            None => {
                assert(x == cur);
                assert(closing_extra(em, em2, x) == 0);
                assert(x.concrete | 0u64 == x.concrete) by (bit_vector);
            },
            Some(v) => {
                if em.contains_key(v) {
                    if !visited.contains(v) && depth + 1 < 256 {
                        let next = EffectRow { concrete: cur.concrete | em[v].concrete, tail: em[v].tail };
                        lemma_chase_closing(em, em2, next, visited.insert(v), depth + 1, x);
                    }
                } else {
                    assert(x == cur);
                    if em2.contains_key(v) {
                        let t2 = em2[v];
                        assert(t2.tail is None);
                        if !visited.contains(v) && depth + 1 < 256 {
                            let merged = EffectRow { concrete: cur.concrete | t2.concrete, tail: t2.tail };
                            assert(chase(em2, merged, visited.insert(v), depth + 1) == Ok::<EffectRow, SubstError>(merged));
                        }
                    } else {
                        assert(closing_extra(em, em2, x) == 0);
                        assert(x.concrete | 0u64 == x.concrete) by (bit_vector);
                    }
                }
            },
        }
    }
}

/// The `k`-th variable on the chain of effect bindings that starts at `start`,
/// following the tail of each bound row; `None` once the chain has ended.
pub open spec fn tail_chain(em: Map<EffectVarId, EffectRow>, start: EffectVarId, k: nat) -> Option<EffectVarId>
    decreases k,
{
    if k == 0 {
        Some(start)
    } else {
        match tail_chain(em, start, (k - 1) as nat) {
            Some(x) => if em.contains_key(x) { em[x].tail } else { None },
            None => None,
        }
    }
}

/// Whether `var` lies on the chain of effect bindings from the tail of `row`:
/// binding `var` to `row` would then close a cycle.
pub open spec fn effect_reaches(em: Map<EffectVarId, EffectRow>, var: EffectVarId, row: EffectRow) -> bool {
    match row.tail {
        None => false,
        Some(t) => exists|k: nat| tail_chain(em, t, k) == Some(var),
    }
}

/// Once the chain repeats a variable it goes round the same loop for ever.
pub proof fn lemma_chain_shift(em: Map<EffectVarId, EffectRow>, start: EffectVarId, j: nat, k: nat, t: nat)
    requires
        tail_chain(em, start, j) == tail_chain(em, start, k),
    ensures
        tail_chain(em, start, j + t) == tail_chain(em, start, k + t),
    decreases t,
{
    if t > 0 {
        lemma_chain_shift(em, start, j, k, (t - 1) as nat);
    }
}

/// A chain that repeats itself before meeting `var` never meets it.
pub proof fn lemma_chain_loop_avoids(
    em: Map<EffectVarId, EffectRow>,
    start: EffectVarId,
    var: EffectVarId,
    j: nat,
    k: nat,
    i: nat,
)
    requires
        j < k,
        tail_chain(em, start, j) == tail_chain(em, start, k),
        forall|q: nat| q < k ==> tail_chain(em, start, q) != Some(var),
    ensures
        tail_chain(em, start, i) != Some(var),
    decreases i,
{
    if i >= k {
        let t = (i - k) as nat;
        lemma_chain_shift(em, start, j, k, t);
        lemma_chain_loop_avoids(em, start, var, j, k, (j + t) as nat);
    }
}

/// Once the chain has ended it stays ended.
pub proof fn lemma_chain_ended(em: Map<EffectVarId, EffectRow>, start: EffectVarId, k: nat, i: nat)
    requires
        tail_chain(em, start, k) is None,
        k <= i,
    ensures
        tail_chain(em, start, i) is None,
    decreases i - k,
{
    if i > k {
        lemma_chain_ended(em, start, k, (i - 1) as nat);
    }
}

/// The first `k` types of a sequence resolve when the whole sequence does.
pub proof fn lemma_take_terminates(m: Map<TypeVarId, TyM>, s: Seq<TyM>, k: int, n: nat)
    requires
        terminates_seq(m, s, n),
        0 <= k < s.len(),
    ensures
        terminates_seq(m, s.take(k + 1), n),
        terminates(m, s[k], n),
    decreases s.len() - k,
{
    if k + 1 == s.len() {
        assert(s.take(k + 1) =~= s);
        assert(s.drop_last().len() == k);
    } else {
        lemma_take_terminates(m, s.drop_last(), k, n);
        assert(s.drop_last().take(k + 1) =~= s.take(k + 1));
    }
}

impl Scheme {
    /// Instantiates the scheme: each bound type variable becomes its fresh
    /// type and each bound effect variable an open row over its fresh variable.
    ///
    /// A scheme with nothing bound gives its type back. Otherwise there must
    /// be exactly one fresh type per bound type variable and one fresh effect
    /// variable per bound effect variable, or the result is an arity error.
    pub fn instantiate(&self, fresh_types: &[Ty], fresh_effects: &[EffectVarId]) -> (r: Result<
        Ty,
        SubstError,
    >)
        requires
            !(self.type_vars@.len() == 0 && self.effect_vars@.len() == 0) && fresh_types@.len()
                == self.type_vars@.len() && fresh_effects@.len() == self.effect_vars@.len() ==> acyclic(
                inst_subst(*self, tys_view(fresh_types@), fresh_effects@).types,
            ),
        ensures
            self.type_vars@.len() == 0 && self.effect_vars@.len() == 0 ==> (r matches Ok(t) && t@
                == self.ty@),
            !(self.type_vars@.len() == 0 && self.effect_vars@.len() == 0) && (fresh_types@.len()
                != self.type_vars@.len() || fresh_effects@.len() != self.effect_vars@.len()) ==> r
                == Err::<Ty, SubstError>(
                SubstError::InstantiationArityMismatch {
                    expected_types: self.type_vars@.len() as usize,
                    got_types: fresh_types@.len() as usize,
                    expected_effects: self.effect_vars@.len() as usize,
                    got_effects: fresh_effects@.len() as usize,
                },
            ),
            !(self.type_vars@.len() == 0 && self.effect_vars@.len() == 0) && fresh_types@.len()
                == self.type_vars@.len() && fresh_effects@.len() == self.effect_vars@.len()
                ==> result_view(r) == applied(
                inst_subst(*self, tys_view(fresh_types@), fresh_effects@),
                self.ty@,
            ),
    {
        if self.type_vars.len() == 0 && self.effect_vars.len() == 0 {
            return Ok(self.ty.copy());
        }
        if fresh_types.len() != self.type_vars.len() || fresh_effects.len() != self.effect_vars.len() {
            return Err(
                SubstError::InstantiationArityMismatch {
                    expected_types: self.type_vars.len(),
                    got_types: fresh_types.len(),
                    expected_effects: self.effect_vars.len(),
                    got_effects: fresh_effects.len(),
                },
            );
        }
        let ghost fv = tys_view(fresh_types@);
        proof {
            lemma_tys_view(fresh_types@);
        }
        let mut subst = Subst::new();
        let mut i: usize = 0;
        while i < self.type_vars.len()
            invariant
                i <= self.type_vars@.len(),
                fresh_types@.len() == self.type_vars@.len(),
                fv == tys_view(fresh_types@),
                forall|j: int| 0 <= j < fresh_types@.len() ==> #[trigger] fv[j] == ty_view(fresh_types@[j]),
                subst@.types == inst_types(self.type_vars@, fv, i as nat),
                subst@.effects == Map::<EffectVarId, EffectRow>::empty(),
            decreases self.type_vars@.len() - i,
        {
            subst.insert(self.type_vars[i], fresh_types[i].copy());
            i = i + 1;
        }
        let mut j: usize = 0;
        while j < self.effect_vars.len()
            invariant
                j <= self.effect_vars@.len(),
                fresh_effects@.len() == self.effect_vars@.len(),
                subst@.types == inst_types(self.type_vars@, fv, self.type_vars@.len()),
                subst@.effects == inst_effects(self.effect_vars@, fresh_effects@, j as nat),
            decreases self.effect_vars@.len() - j,
        {
            subst.insert_effect(self.effect_vars[j], EffectRow::open(0, fresh_effects[j]));
            j = j + 1;
        }
        subst.apply(&self.ty)
    }
}

} // verus!
