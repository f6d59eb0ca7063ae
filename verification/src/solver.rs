//! Solving collected constraints: type equalities by unification, then effect
//! inclusions, first by linking open tails and then by accumulating the
//! effects each tail must hold until nothing changes.
use vstd::prelude::*;
use crate::assoc::{AssocMap, has_key};
use crate::ast::Span;
use crate::effects::{EffectRow, EffectVarId};
use crate::shape::{extends, lemma_agree_extends, resolved_shape};
use crate::subst::{
    Subst, SubstM, acyclic, applied, apply_row, closing_extra, lemma_chase_closing,
};
use crate::shape::lemma_chase_result;
use crate::ty::{Constraint, Ty, TyM, ty_vars};
use crate::unifier::{TypeError, Unifier, heads_differ};

verus! {

/// Error from constraint solving, with the span of the constraint that failed.
#[derive(Debug, Clone)]
pub struct SolveError {
    /// The underlying unification error.
    pub error: TypeError,
    /// The span of the constraint that failed.
    pub span: Span,
}

/// Most rounds of effect accumulation before giving up.
pub const MAX_EFFECT_ITERATIONS: usize = 64;

/// Whether an equality constraint holds of a substitution: both sides resolve
/// to the same shape. Other constraints hold trivially here.
pub open spec fn equality_holds(s: SubstM, c: Constraint) -> bool {
    match c {
        Constraint::Equal(t1, t2, _) => resolved_shape(s.types, t1@) == resolved_shape(s.types, t2@),
        _ => true,
    }
}

/// Whether an effect inclusion holds of a substitution: the known effects of
/// the smaller row are among those of the larger, when both rows resolve.
pub open spec fn inclusion_holds(s: SubstM, c: Constraint) -> bool {
    match c {
        Constraint::EffectSubset(sub, sup, _) => match (apply_row(s.effects, sub), apply_row(s.effects, sup)) {
            (Ok(x), Ok(y)) => x.concrete & !y.concrete == 0,
            _ => true,
        },
        _ => true,
    }
}

/// Whether a constraint is an equality of a type with itself that the
/// substitution applies to.
pub open spec fn trivial_equality(s: SubstM, c: Constraint) -> bool {
    match c {
        Constraint::Equal(a, b, _) => a@ == b@ && applied(s, a@) is Ok,
        _ => false,
    }
}

/// The error for a list of equalities that holds trivially up to the `j`-th,
/// whose two sides resolve to types of different outer forms: their
/// mismatch, at its span.
pub open spec fn first_clash(s: SubstM, cs: Seq<Constraint>, j: int, e: SolveError) -> bool {
    &&& 0 <= j < cs.len()
    &&& forall|k: int| 0 <= k < j ==> #[trigger] trivial_equality(s, cs[k])
    &&& cs[j] matches Constraint::Equal(a, b, sp)
    &&& applied(s, a@) matches Ok(ta)
    &&& applied(s, b@) matches Ok(tb)
    &&& heads_differ(ta, tb)
    &&& e.span == sp
    &&& e.error matches TypeError::Mismatch(x, y)
    &&& x@ == ta
    &&& y@ == tb
}

/// Whether every constraint is an equality.
pub open spec fn all_equalities(cs: Seq<Constraint>) -> bool {
    forall|i: int| 0 <= i < cs.len() ==> (#[trigger] cs[i]) is Equal
}

/// Whether the `j`-th equality is the first that cannot hold: those before
/// it hold trivially, and its two sides resolve to types of different
/// outer forms.
pub open spec fn clash_at(s: SubstM, cs: Seq<Constraint>, j: int) -> bool {
    &&& 0 <= j < cs.len()
    &&& forall|k: int| 0 <= k < j ==> #[trigger] trivial_equality(s, cs[k])
    &&& cs[j] matches Constraint::Equal(a, b, _)
    &&& applied(s, a@) matches Ok(ta)
    &&& applied(s, b@) matches Ok(tb)
    &&& heads_differ(ta, tb)
}

/// The span of a constraint.
pub open spec fn constraint_span(c: Constraint) -> Span {
    match c {
        Constraint::Equal(_, _, sp) => sp,
        Constraint::EffectSubset(_, _, sp) => sp,
    }
}

/// Whether some constraint of the list has the span.
pub open spec fn has_span(cs: Seq<Constraint>, sp: Span) -> bool {
    exists|j: int| 0 <= j < cs.len() && constraint_span(#[trigger] cs[j]) == sp
}

/// Whether every constraint is an inclusion between two closed rows.
pub open spec fn closed_inclusions(cs: Seq<Constraint>) -> bool {
    forall|i: int| 0 <= i < cs.len() ==> (#[trigger] cs[i] matches Constraint::EffectSubset(a, b, _) && a.tail is None
        && b.tail is None)
}

/// Whether an inclusion between closed rows holds: the effects of the first
/// are among those of the second.
pub open spec fn closed_holds(c: Constraint) -> bool {
    match c {
        Constraint::EffectSubset(a, b, _) => a.concrete & !b.concrete == 0,
        _ => true,
    }
}

/// The error for the first inclusion of closed rows that fails: the larger
/// row is expected, the smaller found, at that constraint's span.
pub open spec fn first_closed_failure(cs: Seq<Constraint>, e: SolveError) -> bool {
    exists|j: int| #![trigger cs[j]] 0 <= j < cs.len() && !closed_holds(cs[j]) && (forall|k: int| 0 <= k < j ==> closed_holds(
        #[trigger] cs[k],
    )) && (cs[j] matches Constraint::EffectSubset(a, b, sp) && e.span == sp && e.error == TypeError::EffectMismatch {
        expected: EffectRow { concrete: b.concrete, tail: None },
        found: EffectRow { concrete: a.concrete, tail: None },
    })
}

/// The known effects of a resolved row, with those required of its tail.
pub open spec fn known_with(req: Map<u32, u64>, x: EffectRow) -> u64 {
    match x.tail {
        Some(t) => x.concrete | (if req.contains_key(t.0) { req[t.0] } else { 0u64 }),
        None => x.concrete,
    }
}

/// The substitution after an equality that binds a variable: one side
/// resolves to a variable that the other side, resolved, differs from and
/// does not mention, and that variable is bound to the other side.
pub open spec fn binding_step(s: SubstM, c: Constraint) -> Option<SubstM> {
    match c {
        Constraint::Equal(a, b, _) => match (applied(s, a@), applied(s, b@)) {
            (Ok(ta), Ok(tb)) => if ta is Var && tb != ta && !ty_vars(tb).contains(ta->Var_0) {
                Some(SubstM { types: s.types.insert(ta->Var_0, tb), effects: s.effects })
            } else if !(ta is Var) && tb is Var && !ty_vars(ta).contains(tb->Var_0) {
                Some(SubstM { types: s.types.insert(tb->Var_0, ta), effects: s.effects })
            } else {
                None
            },
            _ => None,
        },
        Constraint::EffectSubset(..) => None,
    }
}

/// The substitution after a list of equalities each of which, in turn,
/// binds a variable; `None` where one of them does not.
pub open spec fn binding_chain(s: SubstM, cs: Seq<Constraint>) -> Option<SubstM>
    decreases cs.len(),
{
    if cs.len() == 0 {
        Some(s)
    } else {
        match binding_chain(s, cs.drop_last()) {
            Some(p) => binding_step(p, cs.last()),
            None => None,
        }
    }
}

/// A list that binds in turn is made of equalities, and each of its
/// prefixes binds in turn.
proof fn lemma_chain_prefix(s: SubstM, cs: Seq<Constraint>, k: int)
    requires
        0 <= k < cs.len(),
        binding_chain(s, cs) is Some,
    ensures
        binding_chain(s, cs.take(k)) is Some,
        binding_chain(s, cs.take(k + 1)) is Some,
        binding_chain(s, cs.take(k + 1)) == binding_step(binding_chain(s, cs.take(k))->Some_0, cs[k]),
        cs[k] is Equal,
    decreases cs.len(),
{
    if k + 1 == cs.len() {
        assert(cs.take(k + 1) =~= cs);
        assert(cs.drop_last() =~= cs.take(k));
    } else {
        lemma_chain_prefix(s, cs.drop_last(), k);
        assert(cs.drop_last().take(k) =~= cs.take(k));
        assert(cs.drop_last().take(k + 1) =~= cs.take(k + 1));
    }
    assert(cs.take(k + 1).drop_last() =~= cs.take(k));
}

/// Whether the list is a single inclusion of a closed row into a row that
/// resolves to an open one.
pub open spec fn open_inclusion(em: Map<EffectVarId, EffectRow>, cs: Seq<Constraint>) -> bool {
    &&& cs.len() == 1
    &&& cs[0] matches Constraint::EffectSubset(a, b, _)
    &&& a.tail is None
    &&& apply_row(em, b) matches Ok(rb)
    &&& rb.tail is Some
}

/// The least way to meet an inclusion of a closed row into an open one: the
/// open row's tail is bound, as a closed row, to exactly the effects of the
/// smaller row that the larger lacks, and left unbound when there are none.
pub open spec fn least_binding(em: Map<EffectVarId, EffectRow>, c: Constraint, out: Map<EffectVarId, EffectRow>) -> bool {
    match c {
        Constraint::EffectSubset(a, b, _) => match apply_row(em, b) {
            Ok(rb) => match rb.tail {
                Some(t) => if a.concrete & !rb.concrete != 0 {
                    out.contains_key(t) && out[t] == (EffectRow { concrete: a.concrete & !rb.concrete, tail: None })
                } else {
                    !out.contains_key(t)
                },
                None => true,
            },
            Err(_) => true,
        },
        Constraint::Equal(..) => true,
    }
}

spec fn inc_sub(cs: Seq<Constraint>) -> EffectRow {
    cs[0]->EffectSubset_0
}

spec fn inc_sup(cs: Seq<Constraint>) -> EffectRow {
    cs[0]->EffectSubset_1
}

spec fn inc_resolved(em: Map<EffectVarId, EffectRow>, cs: Seq<Constraint>) -> EffectRow {
    apply_row(em, inc_sup(cs))->Ok_0
}

spec fn inc_need(em: Map<EffectVarId, EffectRow>, cs: Seq<Constraint>) -> u64 {
    inc_sub(cs).concrete & !inc_resolved(em, cs).concrete
}

/// The requirements that a single inclusion into an open row settles on.
spec fn inc_req(em: Map<EffectVarId, EffectRow>, cs: Seq<Constraint>) -> Map<u32, u64> {
    if inc_need(em, cs) != 0 {
        Map::<u32, u64>::empty().insert(inc_resolved(em, cs).tail->Some_0.0, inc_need(em, cs))
    } else {
        Map::<u32, u64>::empty()
    }
}

/// The inclusions to check are exactly the single one of the list.
spec fn single_listed(cs: Seq<Constraint>, es: Seq<(EffectRow, EffectRow, Span)>) -> bool {
    es.len() == 1 && es[0].0 == inc_sub(cs) && es[0].1 == inc_sup(cs)
}

/// Adding to an open row what a closed row has beyond it covers the closed row.
proof fn lemma_need_covered(a: u64, b: u64)
    ensures
        b | 0u64 == b,
        a & !(b | (a & !b)) == 0,
        a & !b == 0 ==> a & !(b | 0u64) == 0,
        0u64 | (a & !b) == a & !b,
{
    assert(b | 0u64 == b) by (bit_vector);
    assert(a & !(b | (a & !b)) == 0) by (bit_vector);
    assert(a & !b == 0 ==> a & !(b | 0u64) == 0) by (bit_vector);
    assert(0u64 | (a & !b) == a & !b) by (bit_vector);
}

/// The constraint solver; it keeps its unifier from one call to the next.
pub struct Solver {
    unifier: Unifier,
}

/// A sequence of distinct keys, all in a finite set, is no longer than the set.
proof fn lemma_distinct_within(vs: Seq<EffectVarId>, dom: Set<u32>)
    requires
        vs.no_duplicates(),
        dom.finite(),
        forall|i: int| 0 <= i < vs.len() ==> dom.contains(#[trigger] vs[i].0),
    ensures
        vs.len() <= dom.len(),
{
    let d = vs.map_values(|e: EffectVarId| e.0);
    assert(d.no_duplicates()) by {
        assert forall|a: int, b: int| 0 <= a < d.len() && 0 <= b < d.len() && a != b implies d[a] != d[b] by {
            assert(vs[a] != vs[b]);
        }
    }
    assert forall|x: u32| #[trigger] d.to_set().contains(x) implies dom.contains(x) by {
        let i = choose|i: int| 0 <= i < d.len() && d[i] == x;
        assert(dom.contains(vs[i].0));
    }
    d.unique_seq_to_set();
    vstd::set_lib::lemma_len_subset(d.to_set(), dom);
}

impl Solver {
    /// Whether the unifier's type bindings hold no cycle.
    pub closed spec fn wf(&self) -> bool {
        self.unifier.wf()
    }

    /// The substitution the solver has built so far.
    pub closed spec fn current(&self) -> SubstM {
        self.unifier@
    }

    /// A solver with nothing bound.
    pub fn new() -> (r: Self)
        ensures
            r.wf(),
            r.current().types == Map::<crate::ty::TypeVarId, TyM>::empty(),
            r.current().effects == Map::<EffectVarId, EffectRow>::empty(),
    {
        Solver { unifier: Unifier::new() }
    }

    /// Follows the chain of effect bindings from a tail to its end: the last
    /// unbound variable, or `None` when the chain ends in a closed row.
    fn canonical_effect_var(&self, var: Option<EffectVarId>) -> (r: Option<EffectVarId>)
        ensures
            var is None ==> r is None,
            var matches Some(v) ==> (!self.current().effects.contains_key(v) ==> r == Some(v)),
    {
        let mut current = match var {
            Some(v) => v,
            None => {
                return None;
            },
        };
        let ghost em = self.current().effects;
        let mut visited: Vec<EffectVarId> = Vec::new();
        let ghost dom = Set::new(|k: u32| em.contains_key(EffectVarId(k)));
        proof {
            self.unifier.lemma_finite();
            assert(dom =~= em.dom().map(|e: EffectVarId| e.0));
            em.dom().lemma_map_finite(|e: EffectVarId| e.0);
        }
        loop
            invariant
                em == self.current().effects,
                dom.finite(),
                forall|k: u32| #[trigger] dom.contains(k) == em.contains_key(EffectVarId(k)),
                visited@.no_duplicates(),
                forall|i: int| 0 <= i < visited@.len() ==> dom.contains(#[trigger] visited@[i].0),
                var is Some,
                var matches Some(v) ==> (!em.contains_key(v) ==> current == v && visited@.len() == 0),
            decreases dom.len() - visited@.len(),
        {
            if crate::ty::holds_effect_var(&visited, current) {
                return Some(current);
            }
            let ghost before = visited@;
            visited.push(current);
            match self.unifier.subst().get_effect(&current) {
                Some(replacement) => match replacement.tail {
                    Some(next) => {
                        proof {
                            assert(em.contains_key(current));
                            assert(dom.contains(current.0));
                            assert(visited@.no_duplicates()) by {
                                assert forall|a: int, b: int|
                                    0 <= a < visited@.len() && 0 <= b < visited@.len() && a != b
                                    implies visited@[a] != visited@[b] by {
                                    if a < before.len() && b < before.len() {
                                        assert(visited@[a] == before[a] && visited@[b] == before[b]);
                                    } else if a == before.len() {
                                        assert(visited@[b] == before[b]);
                                        assert(!before.contains(current));
                                    } else {
                                        assert(visited@[a] == before[a]);
                                        assert(!before.contains(current));
                                    }
                                }
                            }
                            assert forall|i: int| 0 <= i < visited@.len() implies dom.contains(#[trigger] visited@[i].0) by {
                                if i < before.len() {
                                    assert(visited@[i] == before[i]);
                                }
                            }
                            lemma_distinct_within(visited@, dom);
                        }
                        current = next;
                    },
                    None => {
                        return None;
                    },
                },
                None => {
                    return Some(current);
                },
            }
        }
    }

    /// Solves a list of constraints, returning the resulting substitution.
    ///
    /// Type equalities are unified in order. Then, for effect inclusions,
    /// an open larger row over a different tail is linked to follow the
    /// smaller row; after that the effects required of each open tail are
    /// accumulated until they stop changing, every inclusion is checked
    /// against them, and each unbound tail with requirements is closed over
    /// them. On success every equality and every inclusion holds of the
    /// result.
    #[verifier::rlimit(60)]
    pub fn solve(&mut self, constraints: Vec<Constraint>) -> (r: Result<Subst, SolveError>)
        requires
            old(self).wf(),
        ensures
            final(self).wf(),
            extends(old(self).current().types, final(self).current().types),
            r matches Ok(s) ==> s@ == final(self).current(),
            r matches Ok(s) ==> s.wf(),
            constraints@.len() == 0 ==> r is Ok,
            r matches Ok(s) ==> forall|i: int| 0 <= i < constraints@.len() ==> #[trigger] equality_holds(s@, constraints@[i]),
            r matches Ok(s) ==> forall|i: int| 0 <= i < constraints@.len() ==> #[trigger] inclusion_holds(s@, constraints@[i]),
            closed_inclusions(constraints@) ==> (r is Ok <==> forall|i: int| 0 <= i < constraints@.len() ==> #[trigger] closed_holds(
                constraints@[i],
            )),
            closed_inclusions(constraints@) ==> (r matches Err(e) ==> first_closed_failure(constraints@, e)),
            r matches Err(e) ==> has_span(constraints@, e.span),
            (forall|i: int| 0 <= i < constraints@.len() ==> #[trigger] trivial_equality(old(self).current(), constraints@[i]))
                ==> r is Ok,
            forall|j: int| all_equalities(constraints@) && #[trigger] clash_at(old(self).current(), constraints@, j) ==> (r matches Err(e)
                && first_clash(old(self).current(), constraints@, j, e)),
            binding_chain(old(self).current(), constraints@) matches Some(sf) ==> (r matches Ok(s) && s@ == sf),
            open_inclusion(old(self).current().effects, constraints@) ==> (r matches Ok(s) && least_binding(
                old(self).current().effects,
                constraints@[0],
                s@.effects,
            )),
    {
        let ghost triv = forall|i: int| 0 <= i < constraints@.len() ==> #[trigger] trivial_equality(
            old(self).current(),
            constraints@[i],
        );
        let ghost cl = closed_inclusions(constraints@);
        let ghost m_start = self.current().types;
        assert(m_start == old(self).current().types);
        // Separate equality and effect constraints.
        let mut equalities: Vec<(Ty, Ty, Span)> = Vec::new();
        let mut effect_subsets: Vec<(EffectRow, EffectRow, Span)> = Vec::new();
        let mut i: usize = 0;
        while i < constraints.len()
            invariant
                i <= constraints@.len(),
                equalities@.len() + effect_subsets@.len() <= i,
                cl == closed_inclusions(constraints@),
                triv == (forall|i: int| 0 <= i < constraints@.len() ==> #[trigger] trivial_equality(old(self).current(), constraints@[i])),
                triv ==> effect_subsets@.len() == 0,
                triv ==> forall|k: int| 0 <= k < equalities@.len() ==> (#[trigger] equalities@[k]).0@ == equalities@[k].1@
                    && applied(old(self).current(), equalities@[k].0@) is Ok,
                forall|k: int| 0 <= k < equalities@.len() ==> has_span(constraints@, #[trigger] equalities@[k].2),
                forall|k: int| 0 <= k < effect_subsets@.len() ==> has_span(constraints@, #[trigger] effect_subsets@[k].2),
                cl ==> equalities@.len() == 0 && effect_subsets@.len() == i,
                all_equalities(constraints@) ==> equalities@.len() == i && forall|k: int| 0 <= k < i ==> (#[trigger] constraints@[k]
                    matches Constraint::Equal(x, y, sp) && x@ == equalities@[k].0@ && y@ == equalities@[k].1@ && sp
                    == equalities@[k].2),
                cl ==> forall|k: int| 0 <= k < effect_subsets@.len() ==> #[trigger] constraints@[k] == Constraint::EffectSubset(
                    effect_subsets@[k].0,
                    effect_subsets@[k].1,
                    effect_subsets@[k].2,
                ),
                forall|j: int| #![trigger constraints@[j]] 0 <= j < i ==> (constraints@[j] matches Constraint::Equal(t1, t2, _) ==> exists|k: int|
                    0 <= k < equalities@.len() && (#[trigger] equalities@[k]).0@ == t1@ && equalities@[k].1@ == t2@),
                forall|j: int| #![trigger constraints@[j]] 0 <= j < i ==> (constraints@[j] matches Constraint::EffectSubset(a, b, _) ==> exists|k: int|
                    0 <= k < effect_subsets@.len() && (#[trigger] effect_subsets@[k]).0 == a && effect_subsets@[k].1 == b),
            decreases constraints@.len() - i,
        {
            match &constraints[i] {
                Constraint::Equal(t1, t2, sp) => {
                    let ghost before = equalities@;
                    equalities.push((t1.copy(), t2.copy(), *sp));
                    proof {
                        assert(constraint_span(constraints@[i as int]) == *sp);
                        if triv {
                            assert(trivial_equality(old(self).current(), constraints@[i as int]));
                            assert forall|k: int| 0 <= k < equalities@.len() implies (#[trigger] equalities@[k]).0@ == equalities@[k].1@
                                && applied(old(self).current(), equalities@[k].0@) is Ok by {
                                if k < before.len() {
                                    assert(equalities@[k] == before[k]);
                                }
                            }
                        }
                        assert forall|k: int| 0 <= k < equalities@.len() implies has_span(constraints@, #[trigger] equalities@[k].2) by {
                            if k < before.len() {
                                assert(equalities@[k] == before[k]);
                            }
                        }
                    }
                    proof {
                        assert forall|j: int| #![trigger constraints@[j]] 0 <= j <= i implies (constraints@[j] matches Constraint::Equal(x1, x2, _) ==> exists|k: int|
                            0 <= k < equalities@.len() && (#[trigger] equalities@[k]).0@ == x1@ && equalities@[k].1@ == x2@) by {
                            if j < i {
                                if let Constraint::Equal(x1, x2, _) = constraints@[j] {
                                    let k = choose|k: int| 0 <= k < before.len() && (#[trigger] before[k]).0@ == x1@ && before[k].1@ == x2@;
                                    assert(equalities@[k] == before[k]);
                                }
                            } else {
                                assert(equalities@[before.len() as int].0@ == t1@);
                            }
                        }
                        assert forall|j: int| #![trigger constraints@[j]] 0 <= j <= i implies (constraints@[j] matches Constraint::EffectSubset(a, b, _) ==> exists|k: int|
                            0 <= k < effect_subsets@.len() && (#[trigger] effect_subsets@[k]).0 == a && effect_subsets@[k].1 == b) by {
                            if j < i {
                            }
                        }
                    }
                },
                Constraint::EffectSubset(a, b, sp) => {
                    let ghost before = effect_subsets@;
                    effect_subsets.push((*a, *b, *sp));
                    proof {
                        assert(constraint_span(constraints@[i as int]) == *sp);
                        if triv {
                            assert(trivial_equality(old(self).current(), constraints@[i as int]));
                        }
                        assert forall|k: int| 0 <= k < effect_subsets@.len() implies has_span(constraints@, #[trigger] effect_subsets@[k].2) by {
                            if k < before.len() {
                                assert(effect_subsets@[k] == before[k]);
                            }
                        }
                    }
                    proof {
                        assert forall|j: int| #![trigger constraints@[j]] 0 <= j <= i implies (constraints@[j] matches Constraint::EffectSubset(x1, x2, _) ==> exists|k: int|
                            0 <= k < effect_subsets@.len() && (#[trigger] effect_subsets@[k]).0 == x1 && effect_subsets@[k].1 == x2) by {
                            if j < i {
                                if let Constraint::EffectSubset(x1, x2, _) = constraints@[j] {
                                    let k = choose|k: int| 0 <= k < before.len() && (#[trigger] before[k]).0 == x1 && before[k].1 == x2;
                                    assert(effect_subsets@[k] == before[k]);
                                }
                            } else {
                                assert(effect_subsets@[before.len() as int].0 == *a);
                            }
                        }
                    }
                },
            }
            i = i + 1;
        }

        let ghost single = open_inclusion(old(self).current().effects, constraints@);
        proof {
            if single {
                assert(constraints@[0] is EffectSubset);
                assert(equalities@.len() == 0 && effect_subsets@.len() == 1);
                assert(effect_subsets@[0].0 == inc_sub(constraints@) && effect_subsets@[0].1 == inc_sup(constraints@));
            }
        }
        let ghost chained = binding_chain(old(self).current(), constraints@) is Some;
        proof {
            if chained {
                assert forall|k: int| 0 <= k < constraints@.len() implies (#[trigger] constraints@[k]) is Equal by {
                    lemma_chain_prefix(old(self).current(), constraints@, k);
                }
                assert(constraints@.take(0) =~= Seq::<Constraint>::empty());
            }
        }
        // Phase A: unify the type equalities in order.
        let mut e: usize = 0;
        while e < equalities.len()
            invariant
                self.wf(),
                constraints@.len() == 0 ==> equalities@.len() == 0 && effect_subsets@.len() == 0,
                m_start == old(self).current().types,
                e <= equalities@.len(),
                triv ==> self.current() == old(self).current(),
                all_equalities(constraints@) ==> equalities@.len() == constraints@.len() && forall|k: int| 0 <= k < constraints@.len()
                    ==> (#[trigger] constraints@[k] matches Constraint::Equal(x, y, sp) && x@ == equalities@[k].0@ && y@
                    == equalities@[k].1@ && sp == equalities@[k].2),
                forall|j: int| all_equalities(constraints@) && #[trigger] clash_at(old(self).current(), constraints@, j) ==> e <= j
                    && self.current() == old(self).current(),
                cl == closed_inclusions(constraints@),
                triv == (forall|i: int| 0 <= i < constraints@.len() ==> #[trigger] trivial_equality(old(self).current(), constraints@[i])),
                triv ==> effect_subsets@.len() == 0,
                triv ==> forall|k: int| 0 <= k < equalities@.len() ==> (#[trigger] equalities@[k]).0@ == equalities@[k].1@
                    && applied(old(self).current(), equalities@[k].0@) is Ok,
                forall|k: int| 0 <= k < equalities@.len() ==> has_span(constraints@, #[trigger] equalities@[k].2),
                forall|k: int| 0 <= k < effect_subsets@.len() ==> has_span(constraints@, #[trigger] effect_subsets@[k].2),
                cl ==> equalities@.len() == 0 && effect_subsets@.len() == constraints@.len(),
                cl ==> forall|k: int| 0 <= k < effect_subsets@.len() ==> #[trigger] constraints@[k] == Constraint::EffectSubset(
                    effect_subsets@[k].0,
                    effect_subsets@[k].1,
                    effect_subsets@[k].2,
                ),
                extends(m_start, self.current().types),
                forall|k: int| 0 <= k < e ==> #[trigger] resolved_shape(self.current().types, equalities@[k].0@)
                    == resolved_shape(self.current().types, equalities@[k].1@),
                chained ==> binding_chain(old(self).current(), constraints@) is Some && all_equalities(constraints@)
                    && effect_subsets@.len() == 0,
                chained ==> binding_chain(old(self).current(), constraints@.take(e as int)) == Some(self.current()),
                chained == (binding_chain(old(self).current(), constraints@) is Some),
                single == open_inclusion(old(self).current().effects, constraints@),
                single ==> single_listed(constraints@, effect_subsets@),
                single ==> equalities@.len() == 0 && self.current() == old(self).current(),
            decreases equalities@.len() - e,
        {
            let ghost m_before = self.current().types;
            let (t1, t2, span) = (&equalities[e].0, &equalities[e].1, equalities[e].2);
            proof {
                if chained {
                    lemma_chain_prefix(old(self).current(), constraints@, e as int);
                    assert(constraints@[e as int] matches Constraint::Equal(x, y, sp) && x@ == t1@ && y@ == t2@);
                }
            }
            match self.unifier.unify(t1, t2) {
                Ok(()) => {},
                Err(error) => {
                    proof {
                        assert(!chained);
                    }
                    proof {
                        assert forall|j: int| all_equalities(constraints@) && #[trigger] clash_at(old(self).current(), constraints@, j)
                            implies first_clash(old(self).current(), constraints@, j, SolveError { error, span }) by {
                            if (e as int) < j {
                                assert(trivial_equality(old(self).current(), constraints@[e as int]));
                            }
                            assert(constraints@[e as int] matches Constraint::Equal(x, y, sp) && x@ == t1@ && y@ == t2@);
                        }
                        let m_after = self.current().types;
                        assert forall|v: crate::ty::TypeVarId| #[trigger] m_start.contains_key(v) implies m_after.contains_key(v)
                            && m_after[v] == m_start[v] by {
                            assert(m_before.contains_key(v));
                        }
                    }
                    return Err(SolveError { error, span });
                },
            }
            proof {
                assert forall|j: int| all_equalities(constraints@) && #[trigger] clash_at(old(self).current(), constraints@, j)
                    implies e + 1 <= j && self.current() == old(self).current() by {
                    if e as int == j {
                        assert(constraints@[e as int] matches Constraint::Equal(x, y, sp) && x@ == t1@ && y@ == t2@);
                    } else {
                        assert(trivial_equality(old(self).current(), constraints@[e as int]));
                        assert(constraints@[e as int] matches Constraint::Equal(x, y, sp) && x@ == t1@ && y@ == t2@);
                    }
                }
                let m_after = self.current().types;
                assert forall|v: crate::ty::TypeVarId| #[trigger] m_start.contains_key(v) implies m_after.contains_key(v)
                    && m_after[v] == m_start[v] by {
                    assert(m_before.contains_key(v));
                }
                assert forall|k: int| 0 <= k <= e implies #[trigger] resolved_shape(m_after, equalities@[k].0@)
                    == resolved_shape(m_after, equalities@[k].1@) by {
                    if k < e {
                        lemma_agree_extends(m_before, m_after, equalities@[k].0@, equalities@[k].1@);
                    }
                }
            }
            e = e + 1;
        }
        let ghost m_a = self.current().types;
        let ghost sa = self.current();
        proof {
            if chained {
                assert(constraints@.take(constraints@.len() as int) =~= constraints@);
            }
        }
        proof {
            assert forall|j: int| !(all_equalities(constraints@) && #[trigger] clash_at(old(self).current(), constraints@, j)) by {
                if all_equalities(constraints@) && clash_at(old(self).current(), constraints@, j) {
                    assert(e <= j);
                }
            }
        }

        // Phase B, step 1: link the tails of open rows.
        let mut s1: usize = 0;
        while s1 < effect_subsets.len()
            invariant
                self.wf(),
                constraints@.len() == 0 ==> equalities@.len() == 0 && effect_subsets@.len() == 0,
                extends(m_start, m_a),
                m_start == old(self).current().types,
                self.current().types == m_a,
                s1 <= effect_subsets@.len(),
                cl == closed_inclusions(constraints@),
                forall|j: int| !(all_equalities(constraints@) && #[trigger] clash_at(old(self).current(), constraints@, j)),
                triv == (forall|i: int| 0 <= i < constraints@.len() ==> #[trigger] trivial_equality(old(self).current(), constraints@[i])),
                triv ==> effect_subsets@.len() == 0,
                triv ==> forall|k: int| 0 <= k < equalities@.len() ==> (#[trigger] equalities@[k]).0@ == equalities@[k].1@
                    && applied(old(self).current(), equalities@[k].0@) is Ok,
                forall|k: int| 0 <= k < equalities@.len() ==> has_span(constraints@, #[trigger] equalities@[k].2),
                forall|k: int| 0 <= k < effect_subsets@.len() ==> has_span(constraints@, #[trigger] effect_subsets@[k].2),
                cl ==> equalities@.len() == 0 && effect_subsets@.len() == constraints@.len(),
                cl ==> forall|k: int| 0 <= k < effect_subsets@.len() ==> #[trigger] constraints@[k] == Constraint::EffectSubset(
                    effect_subsets@[k].0,
                    effect_subsets@[k].1,
                    effect_subsets@[k].2,
                ),
                chained ==> effect_subsets@.len() == 0 && self.current() == sa,
                chained == (binding_chain(old(self).current(), constraints@) is Some),
                single == open_inclusion(old(self).current().effects, constraints@),
                single ==> single_listed(constraints@, effect_subsets@),
                single ==> old(self).current() == self.current(),
            decreases effect_subsets@.len() - s1,
        {
            let (sub, sup, span) = effect_subsets[s1];
            proof {
                if cl {
                    assert(constraints@[s1 as int] == Constraint::EffectSubset(sub, sup, span));
                }
            }
            let sub_resolved = match self.unifier.subst().apply_effect_row(&sub) {
                Ok(x) => x,
                Err(err) => {
                    return Err(SolveError { error: TypeError::from(err), span });
                },
            };
            let sup_resolved = match self.unifier.subst().apply_effect_row(&sup) {
                Ok(x) => x,
                Err(err) => {
                    return Err(SolveError { error: TypeError::from(err), span });
                },
            };
            match (sub_resolved.tail, sup_resolved.tail) {
                (Some(sub_tail), Some(sup_tail)) => {
                    if sub_tail == sup_tail {
                        if (sub_resolved.concrete & !sup_resolved.concrete) != 0 {
                            return Err(
                                SolveError {
                                    error: TypeError::EffectMismatch { expected: sup_resolved, found: sub_resolved },
                                    span,
                                },
                            );
                        }
                    } else {
                        let extra_concrete = sub_resolved.concrete & !sup_resolved.concrete;
                        let target_row = EffectRow::open(extra_concrete, sub_tail);
                        if self.unifier.subst().effect_var_occurs_in(sup_tail, &target_row) {
                            return Err(SolveError { error: TypeError::EffectCycle { var: sup_tail }, span });
                        }
                        self.unifier.subst_mut().insert_effect(sup_tail, target_row);
                    }
                },
                _ => {},
            }
            s1 = s1 + 1;
        }
        let ghost e1 = self.current().effects;

        // Step 2: accumulate the effects each tail must hold, to a fixpoint.
        let mut required: AssocMap<EffectVarId, u64> = AssocMap::new();
        let ghost req0 = required@;
        let mut converged = false;
        let first_effect_span = if effect_subsets.len() > 0 {
            effect_subsets[0].2
        } else {
            Span { start: 0, end: 0 }
        };
        let mut round: usize = 0;
        while round < MAX_EFFECT_ITERATIONS && !converged
            invariant
                self.wf(),
                constraints@.len() == 0 ==> equalities@.len() == 0 && effect_subsets@.len() == 0,
                extends(m_start, m_a),
                m_start == old(self).current().types,
                self.current().types == m_a,
                self.current().effects == e1,
                round <= MAX_EFFECT_ITERATIONS,
                effect_subsets@.len() == 0 && round > 0 ==> converged,
                cl == closed_inclusions(constraints@),
                forall|j: int| !(all_equalities(constraints@) && #[trigger] clash_at(old(self).current(), constraints@, j)),
                triv == (forall|i: int| 0 <= i < constraints@.len() ==> #[trigger] trivial_equality(old(self).current(), constraints@[i])),
                triv ==> effect_subsets@.len() == 0,
                triv ==> forall|k: int| 0 <= k < equalities@.len() ==> (#[trigger] equalities@[k]).0@ == equalities@[k].1@
                    && applied(old(self).current(), equalities@[k].0@) is Ok,
                forall|k: int| 0 <= k < equalities@.len() ==> has_span(constraints@, #[trigger] equalities@[k].2),
                forall|k: int| 0 <= k < effect_subsets@.len() ==> has_span(constraints@, #[trigger] effect_subsets@[k].2),
                cl ==> equalities@.len() == 0 && effect_subsets@.len() == constraints@.len(),
                cl ==> forall|k: int| 0 <= k < effect_subsets@.len() ==> #[trigger] constraints@[k] == Constraint::EffectSubset(
                    effect_subsets@[k].0,
                    effect_subsets@[k].1,
                    effect_subsets@[k].2,
                ),
                cl ==> required@ == req0,
                cl && round > 0 ==> converged,
                chained ==> effect_subsets@.len() == 0 && required@ == req0 && e1 == sa.effects,
                chained == (binding_chain(old(self).current(), constraints@) is Some),
                single == open_inclusion(old(self).current().effects, constraints@),
                single ==> single_listed(constraints@, effect_subsets@),
                single ==> e1 == old(self).current().effects,
                single ==> (round == 0 ==> required@ == req0 && !converged),
                single ==> (round > 0 ==> required@ == inc_req(old(self).current().effects, constraints@)),
                single ==> (round > 0 && (inc_need(old(self).current().effects, constraints@) == 0 || round > 1) ==> converged),
                req0 == Map::<u32, u64>::empty(),
            decreases MAX_EFFECT_ITERATIONS - round,
        {
            let mut changed = false;
            let ghost rs = required@;
            let mut j: usize = 0;
            while j < effect_subsets.len()
                invariant
                    self.wf(),
                    constraints@.len() == 0 ==> equalities@.len() == 0 && effect_subsets@.len() == 0,
                    extends(m_start, m_a),
                    m_start == old(self).current().types,
                m_start == old(self).current().types,
                    self.current().types == m_a,
                    self.current().effects == e1,
                    j <= effect_subsets@.len(),
                    effect_subsets@.len() == 0 ==> !changed,
                    cl == closed_inclusions(constraints@),
                    forall|j: int| !(all_equalities(constraints@) && #[trigger] clash_at(old(self).current(), constraints@, j)),
                forall|j: int| !(all_equalities(constraints@) && #[trigger] clash_at(old(self).current(), constraints@, j)),
                    triv == (forall|i: int| 0 <= i < constraints@.len() ==> #[trigger] trivial_equality(old(self).current(), constraints@[i])),
                    triv ==> effect_subsets@.len() == 0,
                    triv ==> forall|k: int| 0 <= k < equalities@.len() ==> (#[trigger] equalities@[k]).0@ == equalities@[k].1@
                        && applied(old(self).current(), equalities@[k].0@) is Ok,
                triv == (forall|i: int| 0 <= i < constraints@.len() ==> #[trigger] trivial_equality(old(self).current(), constraints@[i])),
                triv ==> effect_subsets@.len() == 0,
                triv ==> forall|k: int| 0 <= k < equalities@.len() ==> (#[trigger] equalities@[k]).0@ == equalities@[k].1@
                    && applied(old(self).current(), equalities@[k].0@) is Ok,
                    forall|k: int| 0 <= k < equalities@.len() ==> has_span(constraints@, #[trigger] equalities@[k].2),
                    forall|k: int| 0 <= k < effect_subsets@.len() ==> has_span(constraints@, #[trigger] effect_subsets@[k].2),
                forall|k: int| 0 <= k < equalities@.len() ==> has_span(constraints@, #[trigger] equalities@[k].2),
                forall|k: int| 0 <= k < effect_subsets@.len() ==> has_span(constraints@, #[trigger] effect_subsets@[k].2),
                    cl ==> equalities@.len() == 0 && effect_subsets@.len() == constraints@.len(),
                    cl ==> forall|k: int| 0 <= k < effect_subsets@.len() ==> #[trigger] constraints@[k] == Constraint::EffectSubset(
                        effect_subsets@[k].0,
                        effect_subsets@[k].1,
                        effect_subsets@[k].2,
                    ),
                    cl ==> required@ == req0 && !changed,
                    chained ==> effect_subsets@.len() == 0 && required@ == req0 && e1 == sa.effects,
                    chained == (binding_chain(old(self).current(), constraints@) is Some),
                    single == open_inclusion(old(self).current().effects, constraints@),
                    single ==> single_listed(constraints@, effect_subsets@),
                    single ==> e1 == old(self).current().effects,
                    single ==> (rs == req0 || rs == inc_req(old(self).current().effects, constraints@)),
                    single ==> (j == 0 ==> required@ == rs && !changed),
                    single ==> (j == 1 ==> required@ == inc_req(old(self).current().effects, constraints@) && (changed <==> (rs == req0 && inc_need(old(self).current().effects, constraints@) != 0))),
                    req0 == Map::<u32, u64>::empty(),
                decreases effect_subsets@.len() - j,
            {
                let (sub, sup, span) = effect_subsets[j];
                proof {
                    if single {
                        lemma_chase_result(old(self).current().effects, inc_sup(constraints@), Set::empty(), 0, inc_resolved(old(self).current().effects, constraints@));
                        lemma_need_covered(inc_sub(constraints@).concrete, inc_resolved(old(self).current().effects, constraints@).concrete);
                    }
                }
                proof {
                    if cl {
                        assert(constraints@[j as int] == Constraint::EffectSubset(sub, sup, span));
                    }
                }
                let sub_resolved = match self.unifier.subst().apply_effect_row(&sub) {
                    Ok(x) => x,
                    Err(err) => {
                        return Err(SolveError { error: TypeError::from(err), span });
                    },
                };
                let sub_canonical_tail = self.canonical_effect_var(sub_resolved.tail);
                let sub_concrete = match sub_canonical_tail {
                    None => sub_resolved.concrete,
                    Some(var) => sub_resolved.concrete | match required.get(&var) {
                        Some(x) => *x,
                        None => 0,
                    },
                };
                let sup_resolved = match self.unifier.subst().apply_effect_row(&sup) {
                    Ok(x) => x,
                    Err(err) => {
                        return Err(SolveError { error: TypeError::from(err), span });
                    },
                };
                let sup_canonical_tail = self.canonical_effect_var(sup_resolved.tail);
                let sup_concrete_with_req = match sup_canonical_tail {
                    None => sup_resolved.concrete,
                    Some(var) => sup_resolved.concrete | match required.get(&var) {
                        Some(x) => *x,
                        None => 0,
                    },
                };
                let needed = sub_concrete & !sup_concrete_with_req;
                if needed != 0 {
                    match sup_canonical_tail {
                        Some(sup_var) => {
                            let old = match required.get(&sup_var) {
                                Some(x) => *x,
                                None => 0,
                            };
                            let new = old | needed;
                            required.insert(sup_var, new);
                            if new != old {
                                changed = true;
                            }
                        },
                        None => {},
                    }
                }
                j = j + 1;
            }
            proof {
                if single && inc_need(old(self).current().effects, constraints@) != 0 {
                    let k = inc_resolved(old(self).current().effects, constraints@).tail->Some_0.0;
                    assert(inc_req(old(self).current().effects, constraints@).contains_key(k));
                    assert(!req0.contains_key(k));
                }
            }
            if !changed {
                converged = true;
            }
            round = round + 1;
        }
        if !converged {
            return Err(
                SolveError {
                    error: TypeError::EffectChainTooDeep { depth: MAX_EFFECT_ITERATIONS },
                    span: first_effect_span,
                },
            );
        }

        // Check every inclusion against the accumulated requirements.
        let ghost req = required@;
        let mut c: usize = 0;
        while c < effect_subsets.len()
            invariant
                self.wf(),
                constraints@.len() == 0 ==> equalities@.len() == 0 && effect_subsets@.len() == 0,
                extends(m_start, m_a),
                m_start == old(self).current().types,
                self.current().types == m_a,
                self.current().effects == e1,
                required@ == req,
                c <= effect_subsets@.len(),
                cl == closed_inclusions(constraints@),
                forall|j: int| !(all_equalities(constraints@) && #[trigger] clash_at(old(self).current(), constraints@, j)),
                triv == (forall|i: int| 0 <= i < constraints@.len() ==> #[trigger] trivial_equality(old(self).current(), constraints@[i])),
                triv ==> effect_subsets@.len() == 0,
                triv ==> forall|k: int| 0 <= k < equalities@.len() ==> (#[trigger] equalities@[k]).0@ == equalities@[k].1@
                    && applied(old(self).current(), equalities@[k].0@) is Ok,
                forall|k: int| 0 <= k < equalities@.len() ==> has_span(constraints@, #[trigger] equalities@[k].2),
                forall|k: int| 0 <= k < effect_subsets@.len() ==> has_span(constraints@, #[trigger] effect_subsets@[k].2),
                cl ==> equalities@.len() == 0 && effect_subsets@.len() == constraints@.len(),
                cl ==> forall|k: int| 0 <= k < effect_subsets@.len() ==> #[trigger] constraints@[k] == Constraint::EffectSubset(
                    effect_subsets@[k].0,
                    effect_subsets@[k].1,
                    effect_subsets@[k].2,
                ),
                cl ==> forall|k: int| 0 <= k < c ==> closed_holds(#[trigger] constraints@[k]),
                forall|k: int| 0 <= k < c ==> (#[trigger] apply_row(e1, effect_subsets@[k].0)) is Ok
                    && apply_row(e1, effect_subsets@[k].1) is Ok
                    && known_with(req, apply_row(e1, effect_subsets@[k].0)->Ok_0)
                    & !known_with(req, apply_row(e1, effect_subsets@[k].1)->Ok_0) == 0,
                chained ==> effect_subsets@.len() == 0 && required@ == req0 && e1 == sa.effects,
                chained == (binding_chain(old(self).current(), constraints@) is Some),
                single == open_inclusion(old(self).current().effects, constraints@),
                single ==> single_listed(constraints@, effect_subsets@),
                single ==> e1 == old(self).current().effects,
                single ==> required@ == inc_req(old(self).current().effects, constraints@),
            decreases effect_subsets@.len() - c,
        {
            let (sub, sup, span) = effect_subsets[c];
            proof {
                if single {
                    lemma_chase_result(old(self).current().effects, inc_sup(constraints@), Set::empty(), 0, inc_resolved(old(self).current().effects, constraints@));
                    lemma_need_covered(inc_sub(constraints@).concrete, inc_resolved(old(self).current().effects, constraints@).concrete);
                }
            }
            proof {
                if cl {
                    assert(constraints@[c as int] == Constraint::EffectSubset(sub, sup, span));
                }
            }
            let sub_resolved = match self.unifier.subst().apply_effect_row(&sub) {
                Ok(x) => x,
                Err(err) => {
                    return Err(SolveError { error: TypeError::from(err), span });
                },
            };
            proof {
                lemma_chase_result(e1, sub, Set::empty(), 0, sub_resolved);
            }
            let sub_canonical_tail = self.canonical_effect_var(sub_resolved.tail);
            let sub_concrete = match sub_canonical_tail {
                None => sub_resolved.concrete,
                Some(var) => sub_resolved.concrete | match required.get(&var) {
                    Some(x) => *x,
                    None => 0,
                },
            };
            let sup_resolved = match self.unifier.subst().apply_effect_row(&sup) {
                Ok(x) => x,
                Err(err) => {
                    return Err(SolveError { error: TypeError::from(err), span });
                },
            };
            proof {
                lemma_chase_result(e1, sup, Set::empty(), 0, sup_resolved);
            }
            let sup_canonical_tail = self.canonical_effect_var(sup_resolved.tail);
            let sup_concrete = match sup_canonical_tail {
                None => sup_resolved.concrete,
                Some(var) => sup_resolved.concrete | match required.get(&var) {
                    Some(x) => *x,
                    None => 0,
                },
            };
            if (sub_concrete & !sup_concrete) != 0 {
                let found = EffectRow::closed(sub_concrete);
                let expected = EffectRow::closed(sup_concrete);
                let err = SolveError { error: TypeError::EffectMismatch { expected, found }, span };
                proof {
                    if cl {
                        assert(!closed_holds(constraints@[c as int]));
                        assert(first_closed_failure(constraints@, err));
                    }
                }
                return Err(err);
            }
            proof {
                assert(sub_concrete == known_with(req, sub_resolved));
                assert(sup_concrete == known_with(req, sup_resolved));
            }
            c = c + 1;
        }

        // Close each unbound tail over the effects it must hold.
        let n = required.len();
        let mut b: usize = 0;
        while b < n
            invariant
                self.wf(),
                constraints@.len() == 0 ==> equalities@.len() == 0 && effect_subsets@.len() == 0,
                extends(m_start, m_a),
                m_start == old(self).current().types,
                self.current().types == m_a,
                required@ == req,
                n == required.entries().len(),
                b <= n,
                forall|j: int| !(all_equalities(constraints@) && #[trigger] clash_at(old(self).current(), constraints@, j)),
                cl ==> forall|k: int| 0 <= k < constraints@.len() ==> closed_holds(#[trigger] constraints@[k]),
                forall|j: int| 0 <= j < n ==> #[trigger] required@.contains_key(required.entries()[j].0@)
                    && required@[required.entries()[j].0@] == required.entries()[j].1,
                forall|k: EffectVarId| #[trigger] e1.contains_key(k) ==> self.current().effects.contains_key(k)
                    && self.current().effects[k] == e1[k],
                forall|k: EffectVarId| #[trigger] self.current().effects.contains_key(k) && !e1.contains_key(k)
                    ==> req.contains_key(k.0) && self.current().effects[k] == (EffectRow { concrete: req[k.0], tail: None }),
                forall|j: int| 0 <= j < b ==> #[trigger] self.current().effects.contains_key(required.entries()[j].0),
                chained ==> effect_subsets@.len() == 0 && required@ == req0 && e1 == sa.effects,
                chained == (binding_chain(old(self).current(), constraints@) is Some),
                single == open_inclusion(old(self).current().effects, constraints@),
                single ==> single_listed(constraints@, effect_subsets@),
                single ==> e1 == old(self).current().effects,
            decreases n - b,
        {
            let (var, effects) = required.entry(b);
            if self.unifier.subst().get_effect(var).is_none() {
                self.unifier.subst_mut().insert_effect(*var, EffectRow::closed(*effects));
            }
            b = b + 1;
        }
        let ghost e2 = self.current().effects;
        proof {
            // Every key of the requirements is now bound.
            assert forall|k: EffectVarId| #[trigger] req.contains_key(k.0) implies e2.contains_key(k) by {
                assert(has_key(required.entries(), k.0));
                let j = choose|j: int| 0 <= j < required.entries().len() && #[trigger] required.entries()[j].0@ == k.0;
                assert(required.entries()[j].0 == k);
            }
            // Equalities: the type bindings are those after phase A.
            assert forall|i: int| 0 <= i < constraints@.len() implies #[trigger] equality_holds(self.current(), constraints@[i]) by {
                if let Constraint::Equal(t1, t2, _) = constraints@[i] {
                    let k = choose|k: int| 0 <= k < equalities@.len() && (#[trigger] equalities@[k]).0@ == t1@ && equalities@[k].1@ == t2@;
                    assert(resolved_shape(m_a, equalities@[k].0@) == resolved_shape(m_a, equalities@[k].1@));
                }
            }
            // Inclusions: closing tails adds exactly the required effects.
            assert forall|i: int| 0 <= i < constraints@.len() implies #[trigger] inclusion_holds(self.current(), constraints@[i]) by {
                if let Constraint::EffectSubset(sub, sup, _) = constraints@[i] {
                    let k = choose|k: int| 0 <= k < effect_subsets@.len() && (#[trigger] effect_subsets@[k]).0 == sub && effect_subsets@[k].1 == sup;
                    assert(apply_row(e1, effect_subsets@[k].0) is Ok);
                    let x = apply_row(e1, sub)->Ok_0;
                    let y = apply_row(e1, sup)->Ok_0;
                    lemma_chase_result(e1, sub, Set::empty(), 0, x);
                    lemma_chase_result(e1, sup, Set::empty(), 0, y);
                    lemma_chase_closing(e1, e2, sub, Set::empty(), 0, x);
                    lemma_chase_closing(e1, e2, sup, Set::empty(), 0, y);
                    assert(closing_extra(e1, e2, x) == (match x.tail {
                        Some(t) => if req.contains_key(t.0) { req[t.0] } else { 0u64 },
                        None => 0u64,
                    }));
                    assert(closing_extra(e1, e2, y) == (match y.tail {
                        Some(t) => if req.contains_key(t.0) { req[t.0] } else { 0u64 },
                        None => 0u64,
                    }));
                    let xc = x.concrete;
                    let yc = y.concrete;
                    assert(xc | 0u64 == xc) by (bit_vector);
                    assert(yc | 0u64 == yc) by (bit_vector);
                }
            }
        }
        proof {
            if chained {
                assert(self.current().effects =~= e1);
                assert(self.current() == sa);
            }
        }
        proof {
            if single {
                let rb = inc_resolved(old(self).current().effects, constraints@);
                let t = rb.tail->Some_0;
                lemma_chase_result(e1, inc_sup(constraints@), Set::empty(), 0, rb);
                if inc_need(old(self).current().effects, constraints@) != 0 {
                    assert(req.contains_key(t.0));
                    assert(self.current().effects.contains_key(t));
                } else {
                    assert(req =~= Map::<u32, u64>::empty());
                    assert(!self.current().effects.contains_key(t));
                }
            }
        }
        Ok(self.unifier.subst().copy())
    }
}

impl Default for Solver {
    fn default() -> (r: Self)
        ensures
            r.wf(),
    {
        Self::new()
    }
}

} // verus!
