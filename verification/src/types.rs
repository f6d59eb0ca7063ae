//! Nominal types of the surface language.
use vstd::prelude::*;
use crate::effects::EffectRow;

verus! {

/// Primitive types.
#[derive(Debug, Clone, Copy, PartialEq, Eq, Structural, Hash)]
pub enum PrimType {
    Unit,
    Bool,
    I64,
    F64,
    Str,
}

/// Types as written in the surface language.
#[derive(Debug)]
pub enum Type {
    /// A primitive type.
    Prim(PrimType),
    /// A tuple type.
    Tuple(Vec<Type>),
    /// A nominal type, such as a user-defined data type.
    Nominal(String),
    /// A capability marker type.
    Capability(String),
    /// A function type: parameters, result and effects.
    Fun { params: Vec<Type>, ret: Box<Type>, effects: EffectRow },
}

impl Type {
    /// A function type.
    pub fn fun(params: Vec<Type>, ret: Type, effects: EffectRow) -> (r: Self)
        ensures
            r matches Type::Fun { params: p, ret: rt, effects: e } && p@ == params@ && *rt == ret
                && e == effects,
    {
        Type::Fun { params, ret: Box::new(ret), effects }
    }

    /// The unit type.
    pub fn unit() -> (r: Self)
        ensures
            r matches Type::Prim(PrimType::Unit),
    {
        Type::Prim(PrimType::Unit)
    }

    /// The boolean type.
    pub fn bool() -> (r: Self)
        ensures
            r matches Type::Prim(PrimType::Bool),
    {
        Type::Prim(PrimType::Bool)
    }

    /// The 64-bit integer type.
    pub fn i64() -> (r: Self)
        ensures
            r matches Type::Prim(PrimType::I64),
    {
        Type::Prim(PrimType::I64)
    }

    /// The 64-bit floating-point type.
    pub fn f64_() -> (r: Self)
        ensures
            r matches Type::Prim(PrimType::F64),
    {
        Type::Prim(PrimType::F64)
    }

    /// The string type.
    pub fn str_() -> (r: Self)
        ensures
            r matches Type::Prim(PrimType::Str),
    {
        Type::Prim(PrimType::Str)
    }
}

/// Build profile that a context can be tagged with.
#[derive(Debug, Clone, Copy, PartialEq, Eq, Structural, Hash)]
pub enum Profile {
    /// Safety first, restricted effects.
    Safe,
    /// Full system capabilities available.
    System,
    /// Test builds; may allow extra effects and fixtures.
    Test,
    /// Constrained embedded environment.
    Embedded,
    /// No standard library; affects which capabilities and effects exist.
    NoStd,
}

} // verus!
