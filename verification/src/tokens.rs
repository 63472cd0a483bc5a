//! Zero-sized session tokens: typed coupons that guard access to port
//! operations, and type-level ternary variables.
use vstd::prelude::*;
use std::marker::PhantomData;
use std::sync::Arc;
use crate::{PortId, RuleId};

verus! {

/// A token: a zero-sized type whose values carry no data, so a fresh one
/// can be made whenever the type system allows it.
pub trait Token: Sized {
    fn fresh() -> Self;
}

/// A token for a decimal digit of a protocol state.
pub trait Decimal: Token + Default {}

#[derive(Default)]
pub struct D0<N>(PhantomData<N>);
#[derive(Default)]
pub struct D1<N>(PhantomData<N>);
#[derive(Default)]
pub struct D2<N>(PhantomData<N>);
#[derive(Default)]
pub struct D3<N>(PhantomData<N>);
#[derive(Default)]
pub struct D4<N>(PhantomData<N>);
#[derive(Default)]
pub struct D5<N>(PhantomData<N>);
#[derive(Default)]
pub struct D6<N>(PhantomData<N>);
#[derive(Default)]
pub struct D7<N>(PhantomData<N>);
#[derive(Default)]
pub struct D8<N>(PhantomData<N>);
#[derive(Default)]
pub struct D9<N>(PhantomData<N>);

/// A port end that hands out data.
pub trait DataGetter {
    type Datum;

    fn get(&self) -> Self::Datum;
}

/// A port end that accepts data.
pub trait DataPutter {
    type Datum;

    fn put(&self, datum: Self::Datum);
}

/// A port end that may only be used while holding a coupon for state `D`.
pub struct Safe<D: Decimal, P> {
    port_ids: Arc<Vec<PortId>>,
    inner: P,
    d: D,
}

impl<D: Decimal, P> Safe<D, P> {
    pub fn new(inner: P, port_ids: Arc<Vec<PortId>>) -> (r: Self)
        ensures
            r.inner() == inner,
            r.port_ids() == port_ids,
    {
        Self { port_ids, inner, d: D::default() }
    }

    pub closed spec fn inner(self) -> P {
        self.inner
    }

    pub closed spec fn port_ids(self) -> Arc<Vec<PortId>> {
        self.port_ids
    }
}

impl<D: Decimal, G: DataGetter> Safe<D, G> {
    /// Spends a coupon for state `D` to get a datum, receiving the token of
    /// the next state.
    pub fn get<R: Token>(&self, coupon: Coupon<D, R>) -> (r: (G::Datum, R))
        ensures
            call_ensures(G::get, (&self.inner(),), r.0),
            call_ensures(R::fresh, (), r.1),
    {
        let _ = coupon;
        (self.inner.get(), R::fresh())
    }
}

impl<D: Decimal, Q: DataPutter> Safe<D, Q> {
    /// Spends a coupon for state `D` to put a datum, receiving the token of
    /// the next state.
    pub fn put<R: Token>(&self, coupon: Coupon<D, R>, datum: Q::Datum) -> (r: R)
        ensures
            call_ensures(Q::put, (&self.inner(), datum), ()),
            call_ensures(R::fresh, (), r),
    {
        let _ = coupon;
        self.inner.put(datum);
        R::fresh()
    }
}

/// Permission to take a step from state `D`, resulting in token `R`.
pub struct Coupon<D: Decimal, R: Token> {
    phantom: PhantomData<(D, R)>,
}

/// Type-level true.
pub struct T;
/// Type-level false.
pub struct F;
/// Type-level unspecified.
pub struct X;

/// A ternary type-level value.
pub trait Tern: Token {}

impl Token for T {
    fn fresh() -> Self {
        T
    }
}

impl Token for F {
    fn fresh() -> Self {
        F
    }
}

impl Token for X {
    fn fresh() -> Self {
        X
    }
}

/// Type-level negation.
pub struct Neg<V: Var> {
    phantom: PhantomData<V>,
}

impl<V: Var> Token for Neg<V> {
    fn fresh() -> Self {
        Neg { phantom: PhantomData }
    }
}

/// Type-level values, and pairs of them, that are not all true.
pub trait Nand {}

impl Nand for F {}

impl Nand for Neg<T> {}

// only the left is NAND
impl<A: Nand> Nand for (A, T) {}

impl<A: Nand> Nand for (A, Neg<F>) {}

impl<A: Nand> Nand for (A, X) {}

impl<A: Nand> Nand for (A, Neg<X>) {}

// only the right is NAND
impl<A: Nand> Nand for (T, A) {}

impl<A: Nand> Nand for (Neg<F>, A) {}

impl<A: Nand> Nand for (X, A) {}

impl<A: Nand> Nand for (Neg<X>, A) {}

// both sides are NAND
impl<A: Nand, B: Nand> Nand for (A, B) {}

/// A type-level variable.
pub trait Var {}

impl Var for T {}

impl Var for F {}

impl Var for X {}

/// A type that names the protocol rule that fired.
pub trait Transition<P>: Sized {
    fn from_rule_id(proto_rule_id: RuleId) -> Self;
}

/// A state from which the protocol advances by one of the transitions `Opts`.
pub trait Advance<P>: Sized {
    type Opts: Transition<P>;

    /// Hands the transition that the port group determined to `handler`,
    /// and gives back what the handler returns.
    fn advance<H, R>(self, choice: Self::Opts, handler: H) -> (r: R) where H: FnOnce(Self::Opts) -> R
        requires
            call_requires(handler, (choice,)),
        ensures
            call_ensures(handler, (choice,), r),
    {
        handler(choice)
    }
}

} // verus!
