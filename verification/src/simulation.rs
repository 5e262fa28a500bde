//! The system of bodies and its tick.
use crate::body::bounces;
use crate::body::meeting;
use crate::body::meets;
use crate::body::Body;
use crate::order::lemma_step_in_turn;
use crate::order::lemma_tick_pairs_len;
use crate::order::tick_pairs;
use vstd::prelude::*;

verus! {

/// One meeting may turn the system `before` into the system `after`: the two bodies of
/// `pair` change as a meeting allows, and every other body stays as it was.
pub open spec fn meeting_step<B: Body>(before: Seq<B>, pair: (int, int), after: Seq<B>) -> bool {
    &&& after.len() == before.len()
    &&& meeting(before[pair.0], before[pair.1], after[pair.0], after[pair.1])
    &&& forall|i: int|
        0 <= i < before.len() && i != pair.0 && i != pair.1 ==> after[i] == before[i]
}

/// `states` lists the system before and after each of the first `steps` meetings of
/// `pairs`: every meeting starts from the state that the one before it left behind.
pub open spec fn follows<B: Body>(pairs: Seq<(int, int)>, steps: int, states: Seq<Seq<B>>) -> bool {
    &&& states.len() == steps + 1
    &&& forall|k: int|
        0 <= k < steps ==> meeting_step(states[k], #[trigger] pairs[k], states[k + 1])
}

/// `states` is a run of one tick from `before` to `after`: it starts at `before`, goes
/// through all the meetings of a tick in their order, and ends at `after`.
pub open spec fn tick_run<B: Body>(before: Seq<B>, states: Seq<Seq<B>>, after: Seq<B>) -> bool {
    &&& follows(tick_pairs(before.len()), tick_pairs(before.len()).len() as int, states)
    &&& states.first() == before
    &&& states.last() == after
}

/// One tick may turn the system `before` into the system `after`.
pub open spec fn tick<B: Body>(before: Seq<B>, after: Seq<B>) -> bool {
    exists|states: Seq<Seq<B>>| #[trigger] tick_run(before, states, after)
}

/// A system of bodies, in a fixed order. Bodies are neither added nor removed once the
/// system is made.
pub struct App<B> {
    planets: Vec<B>,
}

impl<B> View for App<B> {
    type V = Seq<B>;

    closed spec fn view(&self) -> Seq<B> {
        self.planets@
    }
}

impl<B: Body> App<B> {
    /// A system of the given bodies, in the given order.
    pub fn new(planets: Vec<B>) -> (app: App<B>)
        ensures
            app@ == planets@,
    {
        App { planets }
    }

    /// The bodies as they now are, in their order.
    pub fn planets(&self) -> (planets: &Vec<B>)
        ensures
            planets@ == self@,
    {
        &self.planets
    }

    /// Lets the body at `turn` meet the body at `other`.
    fn meet(&mut self, turn: usize, other: usize)
        requires
            turn < old(self)@.len(),
            other < old(self)@.len(),
            turn != other,
        ensures
            meeting_step(old(self)@, (turn as int, other as int), final(self)@),
    {
        let pulled = self.planets[turn].influence(&self.planets[other]);
        let hit = pulled.collision(&self.planets[other]);
        if hit {
            let (bounced, struck) = pulled.rebound(&self.planets[other]);
            let moved = bounced.movement();
            assert(bounces(pulled, self@[other as int], bounced, moved, struck));
            self.planets[other] = struck;
            self.planets[turn] = moved;
        } else {
            self.planets[turn] = pulled.movement();
        }
        assert(meets(
            old(self)@[turn as int],
            old(self)@[other as int],
            pulled,
            hit,
            self@[turn as int],
            self@[other as int],
        ));
    }

    /// Runs one tick: every body, by ascending index, meets every other body, by
    /// ascending index.
    pub fn mass_update(&mut self)
        ensures
            tick(old(self)@, final(self)@),
            final(self)@.len() == old(self)@.len(),
            old(self)@.len() <= 1 ==> final(self)@ == old(self)@,
    {
        let count = self.planets.len();
        let ghost pairs = tick_pairs(count as nat);
        let ghost mut states: Seq<Seq<B>> = seq![self@];
        let ghost mut done: int = 0;
        let mut turn: usize = 0;
        while turn < count
            invariant
                self@.len() == count,
                turn <= count,
                pairs == tick_pairs(count as nat),
                done == turn * (count - 1),
                follows(pairs, done, states),
                states.first() == old(self)@,
                states.last() == self@,
            decreases count - turn,
        {
            let mut other: usize = 0;
            while other < count
                invariant
                    self@.len() == count,
                    turn < count,
                    other <= count,
                    pairs == tick_pairs(count as nat),
                    done == turn * (count - 1) + if other <= turn {
                        other as int
                    } else {
                        other - 1
                    },
                    follows(pairs, done, states),
                    states.first() == old(self)@,
                    states.last() == self@,
                decreases count - other,
            {
                if other != turn {
                    proof {
                        lemma_step_in_turn(count as nat, turn as int, done - turn * (count - 1));
                    }
                    self.meet(turn, other);
                    proof {
                        states = states.push(self@);
                        done = done + 1;
                    }
                }
                other += 1;
            }
            proof {
                assert(turn * (count - 1) + (count - 1) == (turn + 1) * (count - 1))
                    by (nonlinear_arith);
            }
            turn += 1;
        }
        proof {
            lemma_tick_pairs_len(count as nat);
            assert(tick_run(old(self)@, states, self@));
        }
    }

    /// Advances the system by one tick.
    pub fn update(&mut self)
        ensures
            tick(old(self)@, final(self)@),
            final(self)@.len() == old(self)@.len(),
            old(self)@.len() <= 1 ==> final(self)@ == old(self)@,
    {
        self.mass_update();
    }
}

} // verus!
