//! What the engine asks of a body, and what one meeting of two bodies does to them.
use vstd::prelude::*;

verus! {

/// A body that can be put into a system.
///
/// The engine never looks inside a body. It only applies these four operations, and states
/// what a tick does in terms of whatever each of them guarantees for the body type at hand.
/// Each operation leaves its arguments alone and returns the new state.
pub trait Body: Sized {
    /// This body after `other` has pulled on it for one tick.
    fn influence(&self, other: &Self) -> Self;

    /// Whether this body and `other` are close enough to bounce off each other.
    fn collision(&self, other: &Self) -> bool;

    /// This body and `other`, in that order, after they have bounced off each other.
    fn rebound(&self, other: &Self) -> (Self, Self);

    /// This body after it has moved for one tick.
    fn movement(&self) -> Self;
}

/// The second half of a meeting in which the bodies collide: `pulled` and `b` rebound,
/// which gives `bounced` and `b_after`, and then `bounced` moves, which gives `a_after`.
pub open spec fn bounces<B: Body>(pulled: B, b: B, bounced: B, a_after: B, b_after: B) -> bool {
    &&& call_ensures(B::rebound, (&pulled, &b), (bounced, b_after))
    &&& call_ensures(B::movement, (&bounced,), a_after)
}

/// A meeting of `a` with `b` that goes through the given steps: `b` pulls on `a`, which
/// gives `pulled`; the test for a collision of `pulled` and `b` gives `hit`; if they
/// collide they rebound and `a` moves, otherwise `b` stays as it was and `a` moves.
pub open spec fn meets<B: Body>(a: B, b: B, pulled: B, hit: bool, a_after: B, b_after: B) -> bool {
    &&& call_ensures(B::influence, (&a, &b), pulled)
    &&& call_ensures(B::collision, (&pulled, &b), hit)
    &&& if hit {
        exists|bounced: B| #[trigger] bounces(pulled, b, bounced, a_after, b_after)
    } else {
        &&& b_after == b
        &&& call_ensures(B::movement, (&pulled,), a_after)
    }
}

/// One meeting of body `a`, whose turn it is, with body `b` may leave them as `a_after`
/// and `b_after`.
pub open spec fn meeting<B: Body>(a: B, b: B, a_after: B, b_after: B) -> bool {
    exists|pulled: B, hit: bool| #[trigger] meets(a, b, pulled, hit, a_after, b_after)
}

} // verus!
