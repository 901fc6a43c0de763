use vstd::prelude::*;
use crate::rng::{chacha_word, MazeRng};

verus! {

/// The four cardinal directions.
///
/// Also defines convenience functions to work with them.
#[derive(Debug, Copy, Clone, PartialEq, Eq, Structural)]
pub enum Direction {
    /// *North* or *up* direction
    North,
    /// *East* or *right* direction
    East,
    /// *South* or *down* direction
    South,
    /// *West* or *left* direction
    West,
}

impl Direction {
    /// The opposite of a direction, as a mathematical value.
    pub open spec fn spec_opposite(self) -> Direction {
        match self {
            Direction::North => Direction::South,
            Direction::East => Direction::West,
            Direction::South => Direction::North,
            Direction::West => Direction::East,
        }
    }

    /// Return the opposite direction of self.
    pub fn opposite(&self) -> (r: Direction)
        ensures
            r == self.spec_opposite(),
    {
        match self {
            Direction::North => Direction::South,
            Direction::East => Direction::West,
            Direction::South => Direction::North,
            Direction::West => Direction::East,
        }
    }

    /// The four directions in their fixed canonical order.
    pub open spec fn all_directions() -> Seq<Direction> {
        seq![Direction::North, Direction::East, Direction::South, Direction::West]
    }

    /// Return all directions as an array, in the canonical order.
    pub fn all() -> (r: [Direction; 4])
        ensures
            r@ == Direction::all_directions(),
    {
        let r = [Direction::North, Direction::East, Direction::South, Direction::West];
        proof {
            assert(r@ =~= Direction::all_directions());
        }
        r
    }

    /// The permutation that the draws starting at position `drawn` of the
    /// seed's word stream select from `pool`: each draw removes the chosen
    /// remaining element.
    pub open spec fn spec_draw_order(pool: Seq<Direction>, seed: Seq<u8>, drawn: nat) -> Seq<
        Direction,
    >
        decreases pool.len(),
    {
        if pool.len() == 0 {
            Seq::empty()
        } else {
            let i = (chacha_word(seed, drawn) as int) % (pool.len() as int);
            seq![pool[i]] + Direction::spec_draw_order(pool.remove(i), seed, drawn + 1)
        }
    }

    /// Generate a list of all directions but in random order.
    ///
    /// The permutation is drawn from the generator's random source by
    /// removing a randomly chosen remaining direction, four times; the result
    /// holds each of the four directions exactly once and is a function of the
    /// seed and of the source's position alone.
    pub fn gen_random_order(rng: &mut MazeRng) -> (r: [Direction; 4])
        ensures
            forall|d: Direction| #[trigger] r@.contains(d),
            r@ == Direction::spec_draw_order(
                Direction::all_directions(),
                old(rng).seed(),
                old(rng).drawn(),
            ),
            final(rng).seed() == old(rng).seed(),
            final(rng).drawn() == old(rng).drawn() + 4,
    {
        let ghost seed0 = rng.seed();
        let ghost drawn0 = rng.drawn();
        let mut pool: Vec<Direction> = Vec::new();
        pool.push(Direction::North);
        pool.push(Direction::East);
        pool.push(Direction::South);
        pool.push(Direction::West);
        let mut out: Vec<Direction> = Vec::new();
        proof {
            broadcast use vstd::seq_lib::group_seq_properties;

            assert forall|d: Direction| pool@.contains(d) || out@.contains(d) by {
                match d {
                    Direction::North => assert(pool@[0] == Direction::North),
                    Direction::East => assert(pool@[1] == Direction::East),
                    Direction::South => assert(pool@[2] == Direction::South),
                    Direction::West => assert(pool@[3] == Direction::West),
                }
            }
            assert(pool@ =~= Direction::all_directions());
            assert(out@ + Direction::spec_draw_order(pool@, seed0, drawn0 + out@.len())
                =~= Direction::spec_draw_order(Direction::all_directions(), seed0, drawn0));
        }
        while out.len() < 4
            invariant
                pool@.len() + out@.len() == 4,
                forall|d: Direction| pool@.contains(d) || out@.contains(d),
                rng.seed() == seed0,
                rng.drawn() == drawn0 + out@.len(),
                out@ + Direction::spec_draw_order(pool@, seed0, drawn0 + out@.len())
                    == Direction::spec_draw_order(Direction::all_directions(), seed0, drawn0),
            decreases 4 - out@.len(),
        {
            let i = rng.below(pool.len());
            let ghost old_pool = pool@;
            let ghost old_out = out@;
            let ghost dn = drawn0 + old_out.len();
            let d = pool.remove(i);
            out.push(d);
            proof {
                broadcast use vstd::seq_lib::group_seq_properties;

                assert forall|x: Direction| pool@.contains(x) || out@.contains(x) by {
                    if old_pool.contains(x) {
                        let j = choose|j: int| 0 <= j < old_pool.len() && old_pool[j] == x;
                        if j < i {
                            assert(pool@[j] == x);
                        } else if j > i {
                            assert(pool@[j - 1] == x);
                        } else {
                            assert(out@.last() == x);
                        }
                    }
                }
                // the drawn index matches the one the specification selects,
                // so one unfolding step keeps the decomposition
                assert(i as int == (chacha_word(seed0, dn) as int) % (old_pool.len() as int));
                assert(Direction::spec_draw_order(old_pool, seed0, dn) == seq![old_pool[i as int]]
                    + Direction::spec_draw_order(old_pool.remove(i as int), seed0, dn + 1));
                assert(out@ + Direction::spec_draw_order(pool@, seed0, dn + 1)
                    =~= old_out + Direction::spec_draw_order(old_pool, seed0, dn));
            }
        }
        let r = [out[0], out[1], out[2], out[3]];
        proof {
            assert forall|d: Direction| #[trigger] r@.contains(d) by {
                assert(out@.contains(d));
                let j = choose|j: int| 0 <= j < out@.len() && out@[j] == d;
                assert(r@[j] == d);
            }
            assert(r@ =~= out@);
            assert(out@ =~= out@ + Direction::spec_draw_order(pool@, seed0, drawn0 + 4));
        }
        r
    }
}

} // verus!
