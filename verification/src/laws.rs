//! What holds of every tick, whatever the bodies are.
use crate::body::bounces;
use crate::body::meeting;
use crate::body::meets;
use crate::body::Body;
use crate::order::lemma_pairs_are_distinct;
use crate::order::lemma_tick_pairs_len;
use crate::order::tick_pairs;
use crate::simulation::follows;
use crate::simulation::meeting_step;
use crate::simulation::tick;
use crate::simulation::tick_run;
use vstd::prelude::*;

verus! {

/// A run of `count` ticks may turn the system `before` into the system `after`.
pub open spec fn ticks<B: Body>(before: Seq<B>, count: nat, after: Seq<B>) -> bool
    decreases count,
{
    if count == 0 {
        after == before
    } else {
        exists|between: Seq<B>|
            ticks(before, (count - 1) as nat, between) && #[trigger] tick(between, after)
    }
}

/// The operations of `B` leave `key` alone: whatever they return has the key of the body
/// it came from.
pub open spec fn keeps<B: Body, K>(key: spec_fn(B) -> K) -> bool {
    &&& forall|a: B, b: B, r: B| #[trigger]
        call_ensures(B::influence, (&a, &b), r) ==> key(r) == key(a)
    &&& forall|a: B, b: B, r: (B, B)| #[trigger]
        call_ensures(B::rebound, (&a, &b), r) ==> key(r.0) == key(a) && key(r.1) == key(b)
    &&& forall|a: B, r: B| #[trigger] call_ensures(B::movement, (&a,), r) ==> key(r) == key(a)
}

/// The operations of `B` are functions of their arguments: the same bodies always give
/// the same result.
pub open spec fn determined<B: Body>() -> bool {
    &&& forall|a: B, b: B, r1: B, r2: B|
        #![trigger call_ensures(B::influence, (&a, &b), r1), call_ensures(B::influence, (&a, &b), r2)]
        call_ensures(B::influence, (&a, &b), r1) && call_ensures(B::influence, (&a, &b), r2)
            ==> r1 == r2
    &&& forall|a: B, b: B, r1: bool, r2: bool|
        #![trigger call_ensures(B::collision, (&a, &b), r1), call_ensures(B::collision, (&a, &b), r2)]
        call_ensures(B::collision, (&a, &b), r1) && call_ensures(B::collision, (&a, &b), r2)
            ==> r1 == r2
    &&& forall|a: B, b: B, r1: (B, B), r2: (B, B)|
        #![trigger call_ensures(B::rebound, (&a, &b), r1), call_ensures(B::rebound, (&a, &b), r2)]
        call_ensures(B::rebound, (&a, &b), r1) && call_ensures(B::rebound, (&a, &b), r2) ==> r1
            == r2
    &&& forall|a: B, r1: B, r2: B|
        #![trigger call_ensures(B::movement, (&a,), r1), call_ensures(B::movement, (&a,), r2)]
        call_ensures(B::movement, (&a,), r1) && call_ensures(B::movement, (&a,), r2) ==> r1
            == r2
}

/// A tick neither adds nor removes a body.
pub proof fn lemma_tick_keeps_count<B: Body>(before: Seq<B>, after: Seq<B>)
    requires
        tick(before, after),
    ensures
        after.len() == before.len(),
{
    let pairs = tick_pairs(before.len());
    let states = choose|states: Seq<Seq<B>>| #[trigger] tick_run(before, states, after);
    lemma_run_keeps_count(pairs, pairs.len() as int, states, pairs.len() as int);
}

/// Every state of a run has as many bodies as the first.
proof fn lemma_run_keeps_count<B: Body>(
    pairs: Seq<(int, int)>,
    steps: int,
    states: Seq<Seq<B>>,
    upto: int,
)
    requires
        follows(pairs, steps, states),
        0 <= upto <= steps,
    ensures
        states[upto].len() == states[0].len(),
    decreases upto,
{
    if upto > 0 {
        lemma_run_keeps_count(pairs, steps, states, upto - 1);
        assert(meeting_step(states[upto - 1], pairs[upto - 1], states[upto]));
    }
}

/// A body that is alone never changes, however many ticks pass: it meets nobody, so
/// nothing pulls on it, nothing hits it and it does not move. The same holds of the
/// empty system.
pub proof fn lemma_lone_body_rests<B: Body>(before: Seq<B>, count: nat, after: Seq<B>)
    requires
        before.len() <= 1,
        ticks(before, count, after),
    ensures
        after == before,
    decreases count,
{
    if count > 0 {
        let between = choose|between: Seq<B>|
            ticks(before, (count - 1) as nat, between) && #[trigger] tick(between, after);
        lemma_lone_body_rests(before, (count - 1) as nat, between);
        lemma_tick_pairs_len(before.len());
        let states = choose|states: Seq<Seq<B>>| #[trigger] tick_run(before, states, after);
    }
}

/// What no operation of the body type changes, no tick changes: if `influence`, `rebound`
/// and `movement` all keep `key`, then every body has after a tick the key that it had
/// before.
pub proof fn lemma_tick_keeps<B: Body, K>(key: spec_fn(B) -> K, before: Seq<B>, after: Seq<B>)
    requires
        keeps(key),
        tick(before, after),
    ensures
        after.len() == before.len(),
        forall|i: int| 0 <= i < before.len() ==> key(#[trigger] after[i]) == key(before[i]),
{
    let pairs = tick_pairs(before.len());
    let states = choose|states: Seq<Seq<B>>| #[trigger] tick_run(before, states, after);
    lemma_run_keeps(key, before.len(), states, pairs.len() as int);
}

/// Every state of a run of a tick gives each body the key that it had at the start.
proof fn lemma_run_keeps<B: Body, K>(
    key: spec_fn(B) -> K,
    count: nat,
    states: Seq<Seq<B>>,
    upto: int,
)
    requires
        keeps(key),
        follows(tick_pairs(count), tick_pairs(count).len() as int, states),
        states[0].len() == count,
        0 <= upto <= tick_pairs(count).len(),
    ensures
        states[upto].len() == count,
        forall|i: int| 0 <= i < count ==> key(#[trigger] states[upto][i]) == key(states[0][i]),
    decreases upto,
{
    if upto > 0 {
        let pairs = tick_pairs(count);
        lemma_run_keeps(key, count, states, upto - 1);
        lemma_pairs_are_distinct(count, upto - 1);
        let was = states[upto - 1];
        let now = states[upto];
        let (a, b) = pairs[upto - 1];
        assert(meeting_step(was, pairs[upto - 1], now));
        lemma_meeting_keeps(key, was[a], was[b], now[a], now[b]);
        assert forall|i: int| 0 <= i < count implies key(#[trigger] now[i]) == key(
            states[0][i],
        ) by {
            assert(key(was[i]) == key(states[0][i]));
            if i != a && i != b {
                assert(now[i] == was[i]);
            }
        }
    }
}

/// A meeting keeps what every operation keeps.
proof fn lemma_meeting_keeps<B: Body, K>(key: spec_fn(B) -> K, a: B, b: B, a_after: B, b_after: B)
    requires
        keeps(key),
        meeting(a, b, a_after, b_after),
    ensures
        key(a_after) == key(a),
        key(b_after) == key(b),
{
    let (pulled, hit) = choose|pulled: B, hit: bool| #[trigger]
        meets(a, b, pulled, hit, a_after, b_after);
    if hit {
        let bounced = choose|bounced: B| #[trigger] bounces(pulled, b, bounced, a_after, b_after);
    }
}

/// A meeting of two given bodies has one outcome, where the operations are functions of
/// their arguments.
proof fn lemma_meeting_is_determined<B: Body>(a: B, b: B, a1: B, b1: B, a2: B, b2: B)
    requires
        determined::<B>(),
        meeting(a, b, a1, b1),
        meeting(a, b, a2, b2),
    ensures
        a1 == a2,
        b1 == b2,
{
    let (p1, h1) = choose|pulled: B, hit: bool| #[trigger] meets(a, b, pulled, hit, a1, b1);
    let (p2, h2) = choose|pulled: B, hit: bool| #[trigger] meets(a, b, pulled, hit, a2, b2);
    assert(p1 == p2);
    assert(h1 == h2);
    if h1 {
        let c1 = choose|bounced: B| #[trigger] bounces(p1, b, bounced, a1, b1);
        let c2 = choose|bounced: B| #[trigger] bounces(p2, b, bounced, a2, b2);
        assert((c1, b1) == (c2, b2));
    }
}

/// Two runs of the same meetings from the same state agree at every step, where the
/// operations are functions of their arguments.
proof fn lemma_run_is_determined<B: Body>(
    count: nat,
    first: Seq<Seq<B>>,
    second: Seq<Seq<B>>,
    upto: int,
)
    requires
        determined::<B>(),
        follows(tick_pairs(count), tick_pairs(count).len() as int, first),
        follows(tick_pairs(count), tick_pairs(count).len() as int, second),
        first[0] == second[0],
        first[0].len() == count,
        0 <= upto <= tick_pairs(count).len(),
    ensures
        first[upto] == second[upto],
        first[upto].len() == count,
    decreases upto,
{
    if upto > 0 {
        let pairs = tick_pairs(count);
        lemma_run_is_determined(count, first, second, upto - 1);
        lemma_pairs_are_distinct(count, upto - 1);
        let was = first[upto - 1];
        let (a, b) = pairs[upto - 1];
        assert(meeting_step(was, pairs[upto - 1], first[upto]));
        assert(meeting_step(was, pairs[upto - 1], second[upto]));
        lemma_meeting_is_determined(
            was[a],
            was[b],
            first[upto][a],
            first[upto][b],
            second[upto][a],
            second[upto][b],
        );
        assert(first[upto] =~= second[upto]);
    }
}

/// A tick has one outcome, where the operations of the body type are functions of their
/// arguments: the order of the meetings leaves nothing open, so the same system always
/// goes to the same system.
pub proof fn lemma_tick_is_determined<B: Body>(before: Seq<B>, first: Seq<B>, second: Seq<B>)
    requires
        determined::<B>(),
        tick(before, first),
        tick(before, second),
    ensures
        first == second,
{
    let pairs = tick_pairs(before.len());
    let run1 = choose|states: Seq<Seq<B>>| #[trigger] tick_run(before, states, first);
    let run2 = choose|states: Seq<Seq<B>>| #[trigger] tick_run(before, states, second);
    lemma_run_is_determined(before.len(), run1, run2, pairs.len() as int);
}

} // verus!
