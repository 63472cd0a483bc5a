//! Three-valued memory variables: true, false, or unspecified.
use vstd::prelude::*;

verus! {

/// Part of the state-set predicate. `T` and `F` are the specific values
/// true and false; `X` is generic over both (an unspecified value).
#[derive(Debug, Copy, Clone, PartialEq, Eq, Hash, Structural)]
pub enum Var {
    T,
    F,
    X,
}

/// The outcome of comparing two values by specificity.
#[derive(Debug, Copy, Clone, PartialEq, Eq, Hash, Structural)]
pub enum Order {
    Less,
    Equal,
    Greater,
}

/// The reverse of an order.
pub open spec fn order_rev(o: Option<Order>) -> Option<Order> {
    match o {
        Some(Order::Less) => Some(Order::Greater),
        Some(Order::Greater) => Some(Order::Less),
        other => other,
    }
}

/// Ordering on specificity: `X < T`, `X < F`, and `T`, `F` are incomparable.
pub open spec fn var_order(a: Var, b: Var) -> Option<Order> {
    if a == b {
        Some(Order::Equal)
    } else if a == Var::X {
        Some(Order::Less)
    } else if b == Var::X {
        Some(Order::Greater)
    } else {
        None
    }
}

/// `a` is at most as specific as `b`: equal to it, or generic.
pub open spec fn var_le(a: Var, b: Var) -> bool {
    a == b || a == Var::X
}

/// The negation of a variable: `T` and `F` swap, `X` stays.
pub open spec fn var_neg(v: Var) -> Var {
    match v {
        Var::X => Var::X,
        Var::T => Var::F,
        Var::F => Var::T,
    }
}

impl core::ops::Neg for Var {
    type Output = Var;

    /// `T` and `F` swap; `X` stays `X`.
    fn neg(self) -> (r: Var) {
        match self {
            Var::X => Var::X,
            Var::T => Var::F,
            Var::F => Var::T,
        }
    }
}

impl vstd::std_specs::ops::NegSpecImpl for Var {
    open spec fn obeys_neg_spec() -> bool {
        true
    }

    open spec fn neg_req(self) -> bool {
        true
    }

    open spec fn neg_spec(self) -> Var {
        var_neg(self)
    }
}

impl Var {
    /// Compares two variables by specificity.
    pub fn order(self, other: Var) -> (r: Option<Order>)
        ensures
            r == var_order(self, other),
    {
        if self == other {
            Some(Order::Equal)
        } else if self == Var::X {
            Some(Order::Less)
        } else if other == Var::X {
            Some(Order::Greater)
        } else {
            None
        }
    }

    pub fn is_generic(self) -> (r: bool)
        ensures
            r == (self == Var::X),
    {
        self == Var::X
    }

    pub fn is_specific(self) -> (r: bool)
        ensures
            r == (self != Var::X),
    {
        !self.is_generic()
    }

    /// The two variables are incomparable: they are `T` and `F`.
    pub fn mismatches(self, other: Self) -> (r: bool)
        ensures
            r == (var_order(self, other) is None),
            r == (self != other && self != Var::X && other != Var::X),
    {
        self.order(other).is_none()
    }
}

/// Specificity is a partial order on variables: comparing the other way
/// round gives the reverse outcome, and `X` is below everything.
pub proof fn lemma_var_order_reverses(a: Var, b: Var)
    ensures
        var_order(b, a) == order_rev(var_order(a, b)),
        var_order(a, a) == Some(Order::Equal),
        var_order(Var::X, a) is Some,
{
}

/// `var_le` is reflexive, antisymmetric and transitive, and agrees with `var_order`.
pub proof fn lemma_var_le_partial_order(a: Var, b: Var, c: Var)
    ensures
        var_le(a, a),
        var_le(a, b) && var_le(b, a) ==> a == b,
        var_le(a, b) && var_le(b, c) ==> var_le(a, c),
        var_le(a, b) <==> (var_order(a, b) == Some(Order::Less) || var_order(a, b) == Some(Order::Equal)),
{
}

} // verus!
