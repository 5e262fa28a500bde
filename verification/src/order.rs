//! The order in which the bodies of a system meet during one tick.
//!
//! Bodies take turns by ascending index. In its turn a body meets every other body once,
//! again by ascending index, so a tick over `count` bodies is the list of all ordered pairs
//! of distinct indices below `count`, sorted by the first index and then by the second.
use vstd::arithmetic::div_mod::lemma_fundamental_div_mod;
use vstd::arithmetic::div_mod::lemma_fundamental_div_mod_converse;
use vstd::arithmetic::div_mod::lemma_mod_bound;
use vstd::prelude::*;

verus! {

/// The `nth` body that the body at `turn` meets: the indices other than `turn`, ascending.
pub open spec fn partner(turn: int, nth: int) -> int {
    if nth < turn {
        nth
    } else {
        nth + 1
    }
}

/// The place that `other` has among the partners of `turn`: the inverse of [`partner`].
pub open spec fn partner_rank(turn: int, other: int) -> int {
    if other < turn {
        other
    } else {
        other - 1
    }
}

/// The pair met at step `at` of a tick over `count` bodies: the body whose turn it is,
/// then the body it meets.
pub open spec fn pair_at(count: int, at: int) -> (int, int) {
    let turn = at / (count - 1);
    (turn, partner(turn, at % (count - 1)))
}

/// The step of a tick over `count` bodies at which body `turn` meets body `other`.
pub open spec fn step_of(count: int, turn: int, other: int) -> int {
    turn * (count - 1) + partner_rank(turn, other)
}

/// Every meeting of one tick over `count` bodies, in the order in which they happen.
pub open spec fn tick_pairs(count: nat) -> Seq<(int, int)> {
    Seq::new((count * (count - 1)) as nat, |at: int| pair_at(count as int, at))
}

/// A tick over `count` bodies has `count * (count - 1)` meetings: none at all for an empty
/// system or a single body.
pub proof fn lemma_tick_pairs_len(count: nat)
    ensures
        tick_pairs(count).len() == count * (count - 1),
        count <= 1 ==> tick_pairs(count).len() == 0,
{
    assert(count * (count - 1) >= 0) by (nonlinear_arith)
        requires
            count >= 0,
    ;
    assert(count <= 1 ==> count * (count - 1) == 0) by (nonlinear_arith)
        requires
            count >= 0,
    ;
}

/// The `nth` meeting in the turn of body `turn` is step `turn * (count - 1) + nth` of the
/// tick, and it is the meeting with `partner(turn, nth)`.
pub proof fn lemma_step_in_turn(count: nat, turn: int, nth: int)
    requires
        0 <= turn < count,
        0 <= nth < count - 1,
    ensures
        0 <= turn * (count - 1) + nth < tick_pairs(count).len(),
        tick_pairs(count)[turn * (count - 1) + nth] == (turn, partner(turn, nth)),
{
    let width = count - 1;
    let at = turn * width + nth;
    lemma_tick_pairs_len(count);
    assert(0 <= turn * width + nth < count * width) by (nonlinear_arith)
        requires
            0 <= turn < count,
            0 <= nth < width,
    ;
    lemma_fundamental_div_mod_converse(at, width, turn, nth);
}

/// No body meets itself, and no meeting names a body outside the system.
pub proof fn lemma_pairs_are_distinct(count: nat, at: int)
    requires
        0 <= at < tick_pairs(count).len(),
    ensures
        0 <= tick_pairs(count)[at].0 < count,
        0 <= tick_pairs(count)[at].1 < count,
        tick_pairs(count)[at].0 != tick_pairs(count)[at].1,
        at == step_of(count as int, tick_pairs(count)[at].0, tick_pairs(count)[at].1),
{
    let width = count - 1;
    lemma_tick_pairs_len(count);
    assert(width > 0) by (nonlinear_arith)
        requires
            0 <= at < count * width,
            count >= 0,
    ;
    let turn = at / width;
    let nth = at % width;
    lemma_fundamental_div_mod(at, width);
    lemma_mod_bound(at, width);
    assert(0 <= turn < count) by (nonlinear_arith)
        requires
            0 <= at < count * width,
            at == width * turn + nth,
            0 <= nth < width,
    ;
    assert(width * turn == turn * width) by (nonlinear_arith);
}

/// Every body meets every other body exactly once in a tick: the meeting of `turn` with
/// `other` stands at step `step_of(count, turn, other)` and at no other step.
pub proof fn lemma_pair_met_once(count: nat, turn: int, other: int)
    requires
        0 <= turn < count,
        0 <= other < count,
        turn != other,
    ensures
        0 <= step_of(count as int, turn, other) < tick_pairs(count).len(),
        tick_pairs(count)[step_of(count as int, turn, other)] == (turn, other),
        forall|at: int|
            0 <= at < tick_pairs(count).len() && tick_pairs(count)[at] == (turn, other) ==> at
                == step_of(count as int, turn, other),
{
    lemma_step_in_turn(count, turn, partner_rank(turn, other));
    assert forall|at: int|
        0 <= at < tick_pairs(count).len() && tick_pairs(count)[at] == (turn, other) implies at
        == step_of(count as int, turn, other) by {
        lemma_pairs_are_distinct(count, at);
    }
}

/// The meetings of a tick are sorted: an earlier step belongs to an earlier turn, or to the
/// same turn and a partner of lower index.
pub proof fn lemma_pairs_ascend(count: nat, earlier: int, later: int)
    requires
        0 <= earlier < later < tick_pairs(count).len(),
    ensures
        tick_pairs(count)[earlier].0 < tick_pairs(count)[later].0 || (tick_pairs(
            count,
        )[earlier].0 == tick_pairs(count)[later].0 && tick_pairs(count)[earlier].1 < tick_pairs(
            count,
        )[later].1),
{
    let width = count - 1;
    lemma_pairs_are_distinct(count, earlier);
    lemma_pairs_are_distinct(count, later);
    let (a1, b1) = tick_pairs(count)[earlier];
    let (a2, b2) = tick_pairs(count)[later];
    let r1 = partner_rank(a1, b1);
    let r2 = partner_rank(a2, b2);
    assert(0 <= r1 < width && 0 <= r2 < width);
    assert(a1 <= a2) by (nonlinear_arith)
        requires
            a1 * width + r1 < a2 * width + r2,
            0 <= r1 < width,
            0 <= r2 < width,
    ;
}

} // verus!
