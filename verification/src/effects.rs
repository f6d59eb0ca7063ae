//! Effect algebra.
//!
//! A row of effects holds a `u64` bitmask of the concrete (known) effects and,
//! when it is *open*, a tail variable standing for further unknown effects.
use vstd::prelude::*;
use crate::text::{decimal, push_decimal, str_equals};

verus! {

/// Identifier of an effect-row variable.
#[derive(Clone, Copy, PartialEq, Eq, Structural, Debug, Hash, PartialOrd, Ord)]
pub struct EffectVarId(pub u32);

impl EffectVarId {
    /// How the variable is written: `e` followed by its number.
    pub open spec fn spec_text(self) -> Seq<char> {
        seq!['e'] + decimal(self.0 as nat)
    }

    /// The written form of the variable, such as `e42`.
    pub fn display(&self) -> (r: String)
        ensures
            r@ == self.spec_text(),
    {
        let mut s = String::new();
        s.append("e");
        push_decimal(&mut s, self.0 as u64);
        proof {
            reveal_strlit("e");
        }
        assert(s@ =~= self.spec_text());
        s
    }
}

/// The built-in effects.
#[derive(Debug, Clone, Copy, PartialEq, Eq, Structural, Hash)]
pub enum Effect {
    Fs,
    Net,
    Time,
    Rand,
    Ai,
}

/// The bit that stands for an effect in a row's mask.
pub open spec fn effect_bit(e: Effect) -> u64 {
    match e {
        Effect::Fs => 1,
        Effect::Net => 2,
        Effect::Time => 4,
        Effect::Rand => 8,
        Effect::Ai => 16,
    }
}

/// The name of an effect as it is printed.
pub open spec fn effect_name(e: Effect) -> Seq<char> {
    match e {
        Effect::Fs => "Fs"@,
        Effect::Net => "Net"@,
        Effect::Time => "Time"@,
        Effect::Rand => "Rand"@,
        Effect::Ai => "Ai"@,
    }
}

/// The effects in their fixed order.
pub open spec fn all_effects() -> Seq<Effect> {
    seq![Effect::Fs, Effect::Net, Effect::Time, Effect::Rand, Effect::Ai]
}

impl Effect {
    /// The mask bit of this effect.
    pub fn bit(self) -> (r: u64)
        ensures
            r == effect_bit(self),
    {
        match self {
            Effect::Fs => 1,
            Effect::Net => 2,
            Effect::Time => 4,
            Effect::Rand => 8,
            Effect::Ai => 16,
        }
    }

    /// The name of the effect, such as `Fs`.
    pub fn name(self) -> (r: &'static str)
        ensures
            r@ == effect_name(self),
    {
        match self {
            Effect::Fs => "Fs",
            Effect::Net => "Net",
            Effect::Time => "Time",
            Effect::Rand => "Rand",
            Effect::Ai => "Ai",
        }
    }
}

/// Capability kind: each capability gates exactly one effect.
#[derive(Debug, Clone, Copy, PartialEq, Eq, Structural, Hash)]
pub enum CapKind {
    Fs,
    Net,
    Time,
    Rand,
    Ai,
}

/// The effect that a capability gates.
pub open spec fn gated_effect(k: CapKind) -> Effect {
    match k {
        CapKind::Fs => Effect::Fs,
        CapKind::Net => Effect::Net,
        CapKind::Time => Effect::Time,
        CapKind::Rand => Effect::Rand,
        CapKind::Ai => Effect::Ai,
    }
}

/// The capability that gates an effect.
pub open spec fn gating_cap(e: Effect) -> CapKind {
    match e {
        Effect::Fs => CapKind::Fs,
        Effect::Net => CapKind::Net,
        Effect::Time => CapKind::Time,
        Effect::Rand => CapKind::Rand,
        Effect::Ai => CapKind::Ai,
    }
}

/// The type name of a capability.
pub open spec fn cap_type_text(k: CapKind) -> Seq<char> {
    match k {
        CapKind::Fs => "FsCap"@,
        CapKind::Net => "NetCap"@,
        CapKind::Time => "TimeCap"@,
        CapKind::Rand => "RandCap"@,
        CapKind::Ai => "AiCap"@,
    }
}

/// The capability whose type is called `name`, if any.
pub open spec fn cap_named(name: Seq<char>) -> Option<CapKind> {
    if name == "FsCap"@ {
        Some(CapKind::Fs)
    } else if name == "NetCap"@ {
        Some(CapKind::Net)
    } else if name == "TimeCap"@ {
        Some(CapKind::Time)
    } else if name == "RandCap"@ {
        Some(CapKind::Rand)
    } else if name == "AiCap"@ {
        Some(CapKind::Ai)
    } else {
        None
    }
}

impl CapKind {
    /// Which effect this capability gates.
    pub fn gates_effect(self) -> (r: Effect)
        ensures
            r == gated_effect(self),
    {
        match self {
            CapKind::Fs => Effect::Fs,
            CapKind::Net => Effect::Net,
            CapKind::Time => Effect::Time,
            CapKind::Rand => Effect::Rand,
            CapKind::Ai => Effect::Ai,
        }
    }

    /// Which capability gates this effect.
    pub fn from_effect(e: Effect) -> (r: CapKind)
        ensures
            r == gating_cap(e),
    {
        match e {
            Effect::Fs => CapKind::Fs,
            Effect::Net => CapKind::Net,
            Effect::Time => CapKind::Time,
            Effect::Rand => CapKind::Rand,
            Effect::Ai => CapKind::Ai,
        }
    }

    /// Parses a capability type name such as `FsCap`.
    pub fn from_name(name: &str) -> (r: Option<CapKind>)
        ensures
            r == cap_named(name@),
    {
        if str_equals(name, "FsCap") {
            Some(CapKind::Fs)
        } else if str_equals(name, "NetCap") {
            Some(CapKind::Net)
        } else if str_equals(name, "TimeCap") {
            Some(CapKind::Time)
        } else if str_equals(name, "RandCap") {
            Some(CapKind::Rand)
        } else if str_equals(name, "AiCap") {
            Some(CapKind::Ai)
        } else {
            None
        }
    }

    /// The type name of this capability, such as `FsCap`.
    pub fn type_name_str(self) -> (r: &'static str)
        ensures
            r@ == cap_type_text(self),
    {
        match self {
            CapKind::Fs => "FsCap",
            CapKind::Net => "NetCap",
            CapKind::Time => "TimeCap",
            CapKind::Rand => "RandCap",
            CapKind::Ai => "AiCap",
        }
    }
}

/// A row of effects, closed (no tail) or open (with a tail variable).
#[derive(Clone, Copy, PartialEq, Eq, Structural, Debug, Hash)]
pub struct EffectRow {
    /// Bitmask of known-present effects.
    pub concrete: u64,
    /// When present, the row is open: the variable may stand for more effects.
    pub tail: Option<EffectVarId>,
}

/// Whether a mask holds the bit of effect `e`.
pub open spec fn mask_has(mask: u64, e: Effect) -> bool {
    mask & effect_bit(e) != 0
}

/// The effects of a mask, in the fixed order.
pub open spec fn mask_effects(mask: u64) -> Seq<Effect> {
    all_effects().filter(|e: Effect| mask_has(mask, e))
}

/// The items printed inside the braces of a row: effect names, then the tail.
pub open spec fn row_items(row: EffectRow) -> Seq<Seq<char>> {
    let names = mask_effects(row.concrete).map_values(|e: Effect| effect_name(e));
    match row.tail {
        Some(v) => names.push(v.spec_text()),
        None => names,
    }
}

/// Items joined with `, `.
pub open spec fn join_items(items: Seq<Seq<char>>) -> Seq<char>
    decreases items.len(),
{
    if items.len() == 0 {
        Seq::empty()
    } else if items.len() == 1 {
        items[0]
    } else {
        join_items(items.drop_last()) + ", "@ + items.last()
    }
}

/// How a row is printed, such as `{Fs, Net, e3}`.
pub open spec fn row_text(row: EffectRow) -> Seq<char> {
    "{"@ + join_items(row_items(row)) + "}"@
}

impl Default for EffectRow {
    fn default() -> (r: Self)
        ensures
            r == (EffectRow { concrete: 0, tail: None }),
    {
        Self::pure()
    }
}

impl EffectRow {
    /// Empty, closed row: no effects.
    pub fn pure() -> (r: Self)
        ensures
            r == (EffectRow { concrete: 0, tail: None }),
    {
        Self { concrete: 0, tail: None }
    }

    /// Closed row with the given bitmask.
    pub fn closed(mask: u64) -> (r: Self)
        ensures
            r == (EffectRow { concrete: mask, tail: None }),
    {
        Self { concrete: mask, tail: None }
    }

    /// Open row: known effects and a tail variable.
    pub fn open(concrete: u64, tail: EffectVarId) -> (r: Self)
        ensures
            r == (EffectRow { concrete, tail: Some(tail) }),
    {
        Self { concrete, tail: Some(tail) }
    }

    /// Closed row holding one effect.
    pub fn singleton(e: Effect) -> (r: Self)
        ensures
            r == (EffectRow { concrete: effect_bit(e), tail: None }),
    {
        Self { concrete: e.bit(), tail: None }
    }

    /// True if the row has no tail variable.
    pub fn is_closed(&self) -> (r: bool)
        ensures
            r == (self.tail is None),
    {
        self.tail.is_none()
    }

    /// True if the row is empty and closed.
    pub fn is_empty(&self) -> (r: bool)
        ensures
            r == (self.concrete == 0 && self.tail is None),
    {
        self.concrete == 0 && self.tail.is_none()
    }

    /// Whether the concrete part holds the given effect.
    pub fn contains(&self, e: Effect) -> (r: bool)
        ensures
            r == mask_has(self.concrete, e),
    {
        (self.concrete & e.bit()) != 0
    }

    /// Adds an effect to the concrete part.
    pub fn insert(&mut self, e: Effect)
        ensures
            final(self).concrete == old(self).concrete | effect_bit(e),
            final(self).tail == old(self).tail,
    {
        self.concrete = self.concrete | e.bit();
    }

    /// Union of two closed rows.
    pub fn union(self, other: Self) -> (r: Self)
        requires
            self.tail is None,
            other.tail is None,
        ensures
            r == (EffectRow { concrete: self.concrete | other.concrete, tail: None }),
    {
        Self { concrete: self.concrete | other.concrete, tail: None }
    }

    /// Subset test for closed rows: is every effect of `self` in `other`?
    pub fn is_subset_of(&self, other: &Self) -> (r: bool)
        requires
            self.tail is None,
            other.tail is None,
        ensures
            r == ((self.concrete | other.concrete) == other.concrete),
    {
        (self.concrete | other.concrete) == other.concrete
    }

    /// The effects present in the concrete part, in the fixed order.
    pub fn iter(&self) -> (r: Vec<Effect>)
        ensures
            r@ == mask_effects(self.concrete),
    {
        let all: Vec<Effect> = vec![Effect::Fs, Effect::Net, Effect::Time, Effect::Rand, Effect::Ai];
        assert(all@ =~= all_effects());
        let mut out: Vec<Effect> = Vec::new();
        let mut i: usize = 0;
        while i < all.len()
            invariant
                i <= all.len(),
                all@ == all_effects(),
                out@ == all_effects().take(i as int).filter(|e: Effect| mask_has(self.concrete, e)),
            decreases all.len() - i,
        {
            let e = all[i];
            reveal_with_fuel(Seq::filter, 1);
            assert(all_effects().take(i + 1).drop_last() =~= all_effects().take(i as int));
            if self.contains(e) {
                out.push(e);
            }
            i = i + 1;
        }
        assert(all_effects().take(5) =~= all_effects());
        out
    }

    /// How the row is printed, such as `{Fs, Net, e3}`.
    pub fn display(&self) -> (r: String)
        ensures
            r@ == row_text(*self),
    {
        let effs = self.iter();
        let mut s = String::new();
        s.append("{");
        let ghost names = mask_effects(self.concrete).map_values(|e: Effect| effect_name(e));
        let mut i: usize = 0;
        while i < effs.len()
            invariant
                i <= effs.len(),
                effs@ == mask_effects(self.concrete),
                names == mask_effects(self.concrete).map_values(|e: Effect| effect_name(e)),
                s@ == "{"@ + join_items(names.take(i as int)),
            decreases effs.len() - i,
        {
            assert(names.take(i + 1).drop_last() =~= names.take(i as int));
            if i > 0 {
                s.append(", ");
            }
            s.append(effs[i].name());
            assert(names.take(i + 1).last() == effect_name(effs@[i as int]));
            if i == 0 {
                assert(join_items(names.take(0)) =~= Seq::<char>::empty());
                assert(s@ =~= "{"@ + join_items(names.take(1)));
            } else {
                assert(s@ =~= "{"@ + join_items(names.take(i + 1)));
            }
            i = i + 1;
        }
        assert(names.take(effs.len() as int) =~= names);
        match self.tail {
            Some(v) => {
                if effs.len() > 0 {
                    s.append(", ");
                }
                let t = v.display();
                s.append(t.as_str());
                proof {
                    let items = names.push(v.spec_text());
                    assert(items.drop_last() =~= names);
                    if names.len() == 0 {
                        assert(join_items(names) =~= Seq::<char>::empty());
                        assert(join_items(items) == v.spec_text());
                    }
                    assert(s@ =~= "{"@ + join_items(items));
                }
            },
            None => {},
        }
        s.append("}");
        assert(s@ =~= row_text(*self));
        s
    }
}

// ---------------------------------------------------------------------------
// The algebra of closed rows
// ---------------------------------------------------------------------------

/// The union of two rows, as `union` computes it for closed rows.
pub open spec fn row_union(a: EffectRow, b: EffectRow) -> EffectRow {
    EffectRow { concrete: a.concrete | b.concrete, tail: None }
}

/// Whether every effect of `a` is in `b`, as `is_subset_of` decides it for
/// closed rows.
pub open spec fn row_subset(a: EffectRow, b: EffectRow) -> bool {
    (a.concrete | b.concrete) == b.concrete
}

/// Union of closed rows is commutative, associative and idempotent, and the
/// pure row is its identity.
pub proof fn lemma_union_laws(a: EffectRow, b: EffectRow, c: EffectRow)
    requires
        a.tail is None,
        b.tail is None,
        c.tail is None,
    ensures
        row_union(a, b) == row_union(b, a),
        row_union(row_union(a, b), c) == row_union(a, row_union(b, c)),
        row_union(a, a) == a,
        row_union(a, EffectRow { concrete: 0, tail: None }) == a,
{
    let (x, y, z) = (a.concrete, b.concrete, c.concrete);
    assert(x | y == y | x) by (bit_vector);
    assert((x | y) | z == x | (y | z)) by (bit_vector);
    assert(x | x == x) by (bit_vector);
    assert(x | 0 == x) by (bit_vector);
}

/// Inclusion of closed rows is a partial order.
pub proof fn lemma_subset_order(a: EffectRow, b: EffectRow, c: EffectRow)
    requires
        a.tail is None,
        b.tail is None,
        c.tail is None,
    ensures
        row_subset(a, a),
        row_subset(a, b) && row_subset(b, c) ==> row_subset(a, c),
        row_subset(a, b) && row_subset(b, a) ==> a == b,
{
    let (x, y, z) = (a.concrete, b.concrete, c.concrete);
    assert(x | x == x) by (bit_vector);
    assert((x | y) == y && (y | z) == z ==> (x | z) == z) by (bit_vector);
    assert((x | y) == y && (y | x) == x ==> x == y) by (bit_vector);
}

/// The union of two closed rows is their least upper bound under inclusion.
pub proof fn lemma_union_is_least_upper_bound(a: EffectRow, b: EffectRow, c: EffectRow)
    requires
        a.tail is None,
        b.tail is None,
        c.tail is None,
    ensures
        row_subset(a, row_union(a, b)),
        row_subset(b, row_union(a, b)),
        row_subset(a, c) && row_subset(b, c) ==> row_subset(row_union(a, b), c),
{
    let (x, y, z) = (a.concrete, b.concrete, c.concrete);
    assert((x | (x | y)) == (x | y)) by (bit_vector);
    assert((y | (x | y)) == (x | y)) by (bit_vector);
    assert((x | z) == z && (y | z) == z ==> ((x | y) | z) == z) by (bit_vector);
}

/// An effect is in a union exactly when it is in one of the two rows.
pub proof fn lemma_union_contains(a: EffectRow, b: EffectRow, e: Effect)
    ensures
        mask_has(row_union(a, b).concrete, e) == (mask_has(a.concrete, e) || mask_has(b.concrete, e)),
{
    let (x, y) = (a.concrete, b.concrete);
    let k = effect_bit(e);
    assert((x | y) & k != 0 <==> (x & k != 0 || y & k != 0)) by (bit_vector);
}

/// For rows of known effects only, inclusion is inclusion of their effects.
pub proof fn lemma_subset_means_every_effect(a: EffectRow, b: EffectRow)
    requires
        a.concrete & !31u64 == 0,
        b.concrete & !31u64 == 0,
    ensures
        row_subset(a, b) <==> forall|e: Effect| mask_has(a.concrete, e) ==> #[trigger] mask_has(b.concrete, e),
{
    let (x, y) = (a.concrete, b.concrete);
    if forall|e: Effect| mask_has(x, e) ==> #[trigger] mask_has(y, e) {
        assert(mask_has(x, Effect::Fs) ==> mask_has(y, Effect::Fs));
        assert(mask_has(x, Effect::Net) ==> mask_has(y, Effect::Net));
        assert(mask_has(x, Effect::Time) ==> mask_has(y, Effect::Time));
        assert(mask_has(x, Effect::Rand) ==> mask_has(y, Effect::Rand));
        assert(mask_has(x, Effect::Ai) ==> mask_has(y, Effect::Ai));
        assert(x & !31u64 == 0 && y & !31u64 == 0 && (x & 1 != 0 ==> y & 1 != 0) && (x & 2 != 0 ==> y & 2 != 0) && (
        x & 4 != 0 ==> y & 4 != 0) && (x & 8 != 0 ==> y & 8 != 0) && (x & 16 != 0 ==> y & 16 != 0) ==> (x | y) == y)
            by (bit_vector);
    }
    if row_subset(a, b) {
        assert forall|e: Effect| mask_has(x, e) implies #[trigger] mask_has(y, e) by {
            let k = effect_bit(e);
            assert((x | y) == y ==> (x & k != 0 ==> y & k != 0)) by (bit_vector);
        }
    }
}

} // verus!
