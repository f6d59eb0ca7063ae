use strata::effects::{CapKind, Effect, EffectRow, EffectVarId};

#[test]
fn empty_subset() {
    let a = EffectRow::pure();
    let b = EffectRow::singleton(Effect::Fs);
    assert!(a.is_subset_of(&b));
    assert!(a.is_subset_of(&a));
}

#[test]
fn union_and_contains() {
    let a = EffectRow::singleton(Effect::Fs);
    let b = EffectRow::singleton(Effect::Net);
    let u = a.union(b);
    assert!(u.contains(Effect::Fs));
    assert!(u.contains(Effect::Net));
    assert!(!u.contains(Effect::Time));
}

#[test]
fn subset_logic() {
    let mut a = EffectRow::pure();
    a.insert(Effect::Fs);
    a.insert(Effect::Net);

    let mut b = EffectRow::pure();
    b.insert(Effect::Fs);
    b.insert(Effect::Net);
    b.insert(Effect::Time);

    assert!(a.is_subset_of(&b));
    assert!(!b.is_subset_of(&a));
}

#[test]
fn iter_lists_present_effects() {
    let mut r = EffectRow::pure();
    r.insert(Effect::Rand);
    r.insert(Effect::Time);
    let got = r.iter();
    assert!(got.contains(&Effect::Rand));
    assert!(got.contains(&Effect::Time));
    assert_eq!(got.len(), 2);
}

#[test]
fn effect_var_id_display() {
    assert_eq!(EffectVarId(0).display(), "e0");
    assert_eq!(EffectVarId(42).display(), "e42");
}

#[test]
fn pure_is_empty_and_closed() {
    let p = EffectRow::pure();
    assert!(p.is_empty());
    assert!(p.is_closed());
}

#[test]
fn open_row_is_not_closed() {
    let o = EffectRow::open(0, EffectVarId(0));
    assert!(!o.is_closed());
    assert!(!o.is_empty());
}

#[test]
fn display_closed() {
    let r = EffectRow::closed(Effect::Fs.bit() | Effect::Net.bit());
    assert_eq!(r.display(), "{Fs, Net}");
}

#[test]
fn display_open() {
    let r = EffectRow::open(Effect::Fs.bit(), EffectVarId(3));
    assert_eq!(r.display(), "{Fs, e3}");
}

#[test]
fn display_pure() {
    assert_eq!(EffectRow::pure().display(), "{}");
}

#[test]
fn effects_come_out_in_fixed_order() {
    let mut r = EffectRow::pure();
    r.insert(Effect::Ai);
    r.insert(Effect::Fs);
    r.insert(Effect::Rand);
    assert_eq!(r.iter(), vec![Effect::Fs, Effect::Rand, Effect::Ai]);
}

#[test]
fn union_is_commutative_on_an_example() {
    let a = EffectRow::closed(Effect::Fs.bit() | Effect::Time.bit());
    let b = EffectRow::closed(Effect::Net.bit());
    assert_eq!(a.union(b), b.union(a));
    assert!(a.is_subset_of(&a.union(b)));
}

#[test]
fn insert_is_idempotent() {
    let mut a = EffectRow::singleton(Effect::Net);
    let before = a;
    a.insert(Effect::Net);
    assert_eq!(a, before);
}

#[test]
fn capabilities_gate_their_effects() {
    for kind in [CapKind::Fs, CapKind::Net, CapKind::Time, CapKind::Rand, CapKind::Ai] {
        assert_eq!(CapKind::from_effect(kind.gates_effect()), kind);
        assert_eq!(CapKind::from_name(kind.type_name_str()), Some(kind));
    }
    assert_eq!(CapKind::Fs.type_name_str(), "FsCap");
    assert_eq!(CapKind::from_name("Int"), None);
}

#[test]
fn effect_bits_are_distinct_powers_of_two() {
    let all = [Effect::Fs, Effect::Net, Effect::Time, Effect::Rand, Effect::Ai];
    for (i, a) in all.iter().enumerate() {
        assert_eq!(a.bit().count_ones(), 1);
        for b in all.iter().skip(i + 1) {
            assert_ne!(a.bit(), b.bit());
        }
    }
}

#[test]
fn inclusion_is_transitive_and_union_is_an_upper_bound() {
    let a = EffectRow::singleton(Effect::Fs);
    let b = EffectRow::closed(Effect::Fs.bit() | Effect::Net.bit());
    let c = EffectRow::closed(Effect::Fs.bit() | Effect::Net.bit() | Effect::Ai.bit());
    assert!(a.is_subset_of(&b) && b.is_subset_of(&c) && a.is_subset_of(&c));
    let u = a.union(EffectRow::singleton(Effect::Time));
    assert!(a.is_subset_of(&u));
    assert!(EffectRow::singleton(Effect::Time).is_subset_of(&u));
    assert!(!u.is_subset_of(&c));
    assert_eq!(a.union(EffectRow::pure()), a);
    assert_eq!(b.union(b), b);
}
