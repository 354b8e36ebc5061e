//! Pure boolean tests over one input symbol, shared by reference counting.

use std::rc::Rc;
use vstd::prelude::*;

verus! {

/// What a test answers on a symbol: the outcome `true` is one that a call may produce.
pub open spec fn accepts<I, F: Fn(&I) -> bool>(f: &F, x: &I) -> bool {
    call_ensures(f, (x,), true)
}

/// The test answers on the symbol: a call has an outcome.
pub open spec fn decided<I, F: Fn(&I) -> bool>(f: &F, x: &I) -> bool {
    call_ensures(f, (x,), true) || call_ensures(f, (x,), false)
}

/// A test is pure when it may be called on every symbol and its answer is
/// determined by the symbol alone.
pub open spec fn pure_test<I, F: Fn(&I) -> bool>(f: &F) -> bool {
    &&& forall|x: &I| #[trigger] call_requires(f, (x,))
    &&& forall|x: &I|
        !(#[trigger] call_ensures(f, (x,), true) && #[trigger] call_ensures(f, (x,), false))
}

/// Another handle to the same shared value.
///
/// This stands for `Rc::clone`: the new handle points to the allocation of
/// the old one, so both denote the same value. Verus takes that on trust.
#[verifier::external_body]
pub(crate) fn share<T>(r: &Rc<T>) -> (res: Rc<T>)
    ensures
        res == *r,
{
    Rc::clone(r)
}

/// Runs a shared pure test on one symbol.
pub fn apply<I, F: Fn(&I) -> bool>(f: &Rc<F>, x: &I) -> (b: bool)
    requires
        pure_test::<I, F>(&**f),
    ensures
        b == accepts::<I, F>(&**f, x),
        decided::<I, F>(&**f, x),
{
    let g: &F = &**f;
    g(x)
}

/// A handle to a pure test over one symbol: either the test that accepts
/// every symbol, or a caller's test behind shared ownership.
pub enum Test<F> {
    Always,
    With(Rc<F>),
}

impl<F> Test<F> {
    /// The test may be called on every symbol and answers by the symbol alone.
    pub open spec fn is_pure<I>(&self) -> bool where F: Fn(&I) -> bool {
        match self {
            Test::Always => true,
            Test::With(f) => pure_test::<I, F>(&**f),
        }
    }

    /// Whether the test accepts the symbol.
    pub open spec fn holds<I>(&self, x: &I) -> bool where F: Fn(&I) -> bool {
        match self {
            Test::Always => true,
            Test::With(f) => accepts::<I, F>(&**f, x),
        }
    }

    /// The test answers on the symbol: a call has an outcome.
    pub open spec fn answers<I>(&self, x: &I) -> bool where F: Fn(&I) -> bool {
        match self {
            Test::Always => true,
            Test::With(f) => decided::<I, F>(&**f, x),
        }
    }

    /// A handle to the caller's test `f`.
    pub fn new(f: F) -> (t: Self)
        ensures
            t == Test::With(Rc::new(f)),
    {
        Test::With(Rc::new(f))
    }

    /// The test that accepts every symbol.
    pub fn any() -> (t: Self)
        ensures
            t == Test::<F>::Always,
    {
        Test::Always
    }

    /// A second handle to the same test.
    pub fn share(&self) -> (t: Self)
        ensures
            t == *self,
    {
        match self {
            Test::Always => Test::Always,
            Test::With(f) => Test::With(share(f)),
        }
    }

    /// Runs the test on one symbol.
    pub fn check<I>(&self, x: &I) -> (b: bool) where F: Fn(&I) -> bool
        requires
            self.is_pure::<I>(),
        ensures
            b == self.holds(x),
            self.answers(x),
    {
        match self {
            Test::Always => true,
            Test::With(f) => apply(f, x),
        }
    }
}

} // verus!
