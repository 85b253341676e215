//! Polarised literals over user-defined variables.

use vstd::prelude::*;
use vstd::std_specs::convert::FromSpecImpl;
use vstd::std_specs::ops::NotSpecImpl;

verus! {

/// A user variable together with a polarity.
#[derive(Debug, Clone, Copy, Hash, PartialEq, Eq, Structural)]
pub enum Lit<V> {
    Pos(V),
    Neg(V),
}

impl<V> Lit<V> {
    /// The variable under the polarity tag.
    pub open spec fn spec_var(self) -> V {
        match self {
            Lit::Pos(v) => v,
            Lit::Neg(v) => v,
        }
    }

    /// The same variable with the opposite polarity.
    pub open spec fn negated(self) -> Lit<V> {
        match self {
            Lit::Pos(v) => Lit::Neg(v),
            Lit::Neg(v) => Lit::Pos(v),
        }
    }

    /// Returns the underlying variable.
    pub fn var(&self) -> (v: &V)
        ensures
            *v == self.spec_var(),
    {
        match self {
            Lit::Pos(v) => v,
            Lit::Neg(v) => v,
        }
    }

    /// Returns the owned underlying variable.
    pub fn unwrap(self) -> (v: V)
        ensures
            v == self.spec_var(),
    {
        match self {
            Lit::Pos(v) => v,
            Lit::Neg(v) => v,
        }
    }

    /// Returns true exactly for `Pos`.
    pub fn is_pos(&self) -> (b: bool)
        ensures
            b == (*self is Pos),
    {
        match self {
            Lit::Pos(_) => true,
            Lit::Neg(_) => false,
        }
    }

    /// Returns true exactly for `Neg`.
    pub fn is_neg(&self) -> (b: bool)
        ensures
            b == (*self is Neg),
    {
        match self {
            Lit::Pos(_) => false,
            Lit::Neg(_) => true,
        }
    }
}

impl<V> core::ops::Not for Lit<V> {
    type Output = Lit<V>;

    fn not(self) -> (r: Lit<V>) {
        match self {
            Lit::Pos(v) => Lit::Neg(v),
            Lit::Neg(v) => Lit::Pos(v),
        }
    }
}

impl<V> NotSpecImpl for Lit<V> {
    open spec fn obeys_not_spec() -> bool {
        true
    }

    open spec fn not_req(self) -> bool {
        true
    }

    open spec fn not_spec(self) -> Lit<V> {
        self.negated()
    }
}

/// Any literal an encoder works with: a polarised user variable, or a signed
/// solver variable that has no name.
#[derive(Debug, Clone, Copy, Hash, PartialEq, Eq, Structural, PartialOrd)]
pub enum VarType<V> {
    Named(Lit<V>),
    Unnamed(i32),
}

impl<V> VarType<V> {
    /// The same variable with the opposite polarity.
    pub open spec fn negated(self) -> VarType<V> {
        match self {
            VarType::Named(l) => VarType::Named(l.negated()),
            VarType::Unnamed(i) => VarType::Unnamed((-i) as i32),
        }
    }

    /// Whether an unnamed literal is a proper signed variable: nonzero, and
    /// with a negation that fits the integer type.
    pub open spec fn well_formed(self) -> bool {
        match self {
            VarType::Named(_) => true,
            VarType::Unnamed(i) => i != 0 && i != i32::MIN,
        }
    }
}

impl<V> core::ops::Not for VarType<V> {
    type Output = VarType<V>;

    fn not(self) -> (r: VarType<V>) {
        match self {
            VarType::Named(l) => VarType::Named(l.not()),
            VarType::Unnamed(i) => VarType::Unnamed(-i),
        }
    }
}

impl<V> NotSpecImpl for VarType<V> {
    open spec fn obeys_not_spec() -> bool {
        true
    }

    open spec fn not_req(self) -> bool {
        self.well_formed()
    }

    open spec fn not_spec(self) -> VarType<V> {
        self.negated()
    }
}

impl<V> From<Lit<V>> for VarType<V> {
    fn from(l: Lit<V>) -> (r: VarType<V>) {
        VarType::Named(l)
    }
}

impl<V> FromSpecImpl<Lit<V>> for VarType<V> {
    open spec fn obeys_from_spec() -> bool {
        true
    }

    open spec fn from_spec(l: Lit<V>) -> VarType<V> {
        VarType::Named(l)
    }
}

impl<V> From<V> for VarType<V> {
    fn from(v: V) -> (r: VarType<V>) {
        VarType::Named(Lit::Pos(v))
    }
}

impl<V> FromSpecImpl<V> for VarType<V> {
    open spec fn obeys_from_spec() -> bool {
        true
    }

    open spec fn from_spec(v: V) -> VarType<V> {
        VarType::Named(Lit::Pos(v))
    }
}

/// Negating a literal twice gives the literal back.
pub proof fn lit_double_negation<V>(l: Lit<V>)
    ensures
        l.negated().negated() == l,
{
}

/// Negating a well-formed literal twice gives the literal back, and the
/// negation is well-formed too.
pub proof fn var_type_double_negation<V>(l: VarType<V>)
    requires
        l.well_formed(),
    ensures
        l.negated().well_formed(),
        l.negated().negated() == l,
{
}

} // verus!
