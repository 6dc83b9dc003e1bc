//! The spoken-number memory game.

use vstd::prelude::*;

use std::collections::HashMap;

verus! {

/// The memory after seeding: each starting number maps to the one-based
/// turn it was last spoken on; a repeated starting number keeps its later
/// turn.
pub open spec fn seeded_map(input: Seq<usize>, i: int) -> Map<usize, usize>
    decreases i,
    when 0 <= i
{
    if i <= 0 {
        Map::empty()
    } else {
        seeded_map(input, i - 1).insert(input[i - 1], (i - 1 + 1) as usize)
    }
}

/// The game state after turn `t` (with `t` at least the seed length):
/// the memory of last-spoken turns, without the number just spoken, and
/// that number itself.
pub open spec fn game_state(input: Seq<usize>, t: int) -> (Map<usize, usize>, usize)
    decreases t,
    when t >= input.len() >= 1
{
    if t <= input.len() {
        (seeded_map(input, input.len() as int).remove(input.last()), input.last())
    } else {
        let p = game_state(input, t - 1);
        let m = p.0;
        let last = p.1;
        (
            m.insert(last, (t - 1) as usize),
            if m.contains_key(last) {
                (t - 1 - m[last]) as usize
            } else {
                0
            },
        )
    }
}

/// Every turn stored in the memory after turn `t` is below `t`.
pub proof fn lemma_seeded_map_bounds(input: Seq<usize>, i: int)
    requires
        0 <= i,
    ensures
        forall|k: usize|
            seeded_map(input, i).contains_key(k) ==> #[trigger] seeded_map(input, i)[k] <= i,
    decreases i,
{
    if i > 0 {
        lemma_seeded_map_bounds(input, i - 1);
        assert forall|k: usize|
            seeded_map(input, i).contains_key(k) implies #[trigger] seeded_map(input, i)[k]
            <= i by {
            if k == input[i - 1] {
                assert(seeded_map(input, i)[k] == (i - 1 + 1) as usize);
            } else {
                assert(seeded_map(input, i)[k] == seeded_map(input, i - 1)[k]);
            }
        }
    }
}

/// Every turn stored in the game memory after turn `t` is below `t`.
pub proof fn lemma_game_state_bounds(input: Seq<usize>, t: int)
    requires
        t >= input.len() >= 1,
    ensures
        forall|k: usize|
            game_state(input, t).0.contains_key(k) ==> #[trigger] game_state(input, t).0[k] < t,
    decreases t,
{
    if t <= input.len() {
        let n = input.len() as int;
        lemma_seeded_map_bounds(input, n - 1);
        assert forall|k: usize|
            game_state(input, t).0.contains_key(k) implies #[trigger] game_state(input, t).0[k]
            < t by {
            assert(k != input.last());
            assert(game_state(input, t).0[k] == seeded_map(input, n)[k]);
            assert(seeded_map(input, n)[k] == seeded_map(input, n - 1)[k]);
            assert(seeded_map(input, n - 1)[k] <= n - 1);
        }
    } else {
        lemma_game_state_bounds(input, t - 1);
        assert forall|k: usize|
            game_state(input, t).0.contains_key(k) implies #[trigger] game_state(input, t).0[k]
            < t by {
            let p = game_state(input, t - 1);
            if k == p.1 {
                assert(game_state(input, t).0[k] == (t - 1) as usize);
                assert(game_state(input, t).0[k] <= usize::MAX);
            } else {
                assert(game_state(input, t).0[k] == p.0[k]);
                assert(p.0[k] < t - 1);
            }
        }
    }
}

/// Plays the memory game seeded with `input` for `length` turns and
/// returns the number spoken on the final turn.
pub fn solve_part_one(input: &[usize], length: usize) -> (r: usize)
    requires
        1 <= input@.len() <= length < usize::MAX,
    ensures
        r == game_state(input@, length as int).1,
{
    let n = input.len();
    let mut spoken: HashMap<usize, usize> = HashMap::new();
    for i in 0..n
        invariant
            n == input@.len(),
            spoken@ == seeded_map(input@, i as int),
    {
        spoken.insert(input[i], i + 1);
    }
    let mut last_spoken = input[n - 1];
    spoken.remove(&last_spoken);
    proof {
        assert(game_state(input@, n as int).0 =~= spoken@);
    }
    let mut current = n + 1;
    while current <= length
        invariant
            n >= 1,
            n == input@.len(),
            n + 1 <= current <= length + 1,
            length < usize::MAX,
            spoken@ == game_state(input@, current as int - 1).0,
            last_spoken == game_state(input@, current as int - 1).1,
        decreases length + 1 - current,
    {
        proof {
            lemma_game_state_bounds(input@, current as int - 1);
        }
        match spoken.insert(last_spoken, current - 1) {
            Some(x) => {
                last_spoken = current - 1 - x;
            },
            None => {
                last_spoken = 0;
            },
        }
        current = current + 1;
    }
    last_spoken
}

} // verus!
