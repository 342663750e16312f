use crate::point::Point;
use vstd::prelude::*;

verus! {

/// Value-to-value conversion which consumes the input value and reads a context, such as
/// the tile classification rules of one puzzle.
///
/// Implement this trait in preference to [`ContextInto`].
///
/// There is no blanket implementation for types with a plain `From` conversion: std's
/// `From::from` promises its result only when the target type opts into a specification,
/// so such an implementation could not meet `ctx_from`'s contract. A type with a
/// context-free conversion implements this trait with `type Context = ();` and ignores the
/// position and context.
pub trait ContextFrom<T>: Sized {
    type Context;

    /// The value that `ctx_from` produces; every verified implementation defines it.
    open spec fn ctx_from_spec(t: T, position: Point, context: &Self::Context) -> Self {
        arbitrary()
    }

    fn ctx_from(t: T, position: Point, context: &Self::Context) -> (r: Self)
        ensures
            r == Self::ctx_from_spec(t, position, context),
    ;
}

/// Value-to-value conversion which consumes the input value and reads a context.
///
/// Every `ContextFrom` conversion is also a `ContextInto` conversion.
pub trait ContextInto<T>: Sized {
    type Context;

    /// The value that `ctx_into` produces; every verified implementation defines it.
    open spec fn ctx_into_spec(self, position: Point, context: &Self::Context) -> T {
        arbitrary()
    }

    fn ctx_into(self, position: Point, context: &Self::Context) -> (r: T)
        ensures
            r == self.ctx_into_spec(position, context),
    ;
}

impl<A, B: ContextFrom<A>> ContextInto<B> for A {
    type Context = <B as ContextFrom<A>>::Context;

    open spec fn ctx_into_spec(self, position: Point, context: &Self::Context) -> B {
        B::ctx_from_spec(self, position, context)
    }

    fn ctx_into(self, position: Point, context: &Self::Context) -> (r: B) {
        B::ctx_from(self, position, context)
    }
}

} // verus!
