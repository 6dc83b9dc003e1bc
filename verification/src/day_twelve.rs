//! Navigating a ship by heading instructions and by waypoint instructions.

use vstd::prelude::*;

verus! {

/// The four compass headings a ship can sail.
#[derive(Clone, Copy, PartialEq, Eq, Structural, Debug)]
pub enum Heading {
    North,
    East,
    South,
    West,
}

/// Whether a move or turn goes the instruction's way or its reverse.
#[derive(Clone, Copy, PartialEq, Eq, Structural, Debug)]
pub enum Direction {
    Forward,
    Backward,
}

/// Headings numbered anti-clockwise from east.
pub open spec fn heading_index(h: Heading) -> int {
    match h {
        Heading::East => 0,
        Heading::North => 1,
        Heading::West => 2,
        Heading::South => 3,
    }
}

/// The heading with the given anti-clockwise index.
pub open spec fn heading_of_index(d: int) -> Heading {
    if d == 0 {
        Heading::East
    } else if d == 1 {
        Heading::North
    } else if d == 2 {
        Heading::West
    } else {
        Heading::South
    }
}

/// The quarter turns of a degree amount: the amount divided by ninety
/// rounding towards zero, then taken modulo four into `0..=3`. A negative
/// amount turns the other way round, so ninety degrees back is three
/// quarter turns forward.
pub open spec fn quarter_turns(amount: int) -> int {
    (if amount >= 0 {
        amount / 90
    } else {
        -((-amount) / 90)
    }) % 4
}

/// The waypoint after turning `amount` degrees around the ship, in quarter
/// turns: anti-clockwise when going forward, clockwise when backward.
pub open spec fn spec_rotate_around(
    way_point: (int, int),
    amount: int,
    direction: Direction,
) -> (int, int) {
    let q = quarter_turns(amount);
    if q == 1 {
        if direction == Direction::Forward {
            (-way_point.1, way_point.0)
        } else {
            (way_point.1, -way_point.0)
        }
    } else if q == 2 {
        (-way_point.0, -way_point.1)
    } else if q == 3 {
        if direction == Direction::Forward {
            (way_point.1, -way_point.0)
        } else {
            (-way_point.1, way_point.0)
        }
    } else {
        way_point
    }
}

/// The heading after turning `amount` degrees: anti-clockwise when going
/// forward, clockwise when backward.
pub open spec fn spec_rotate(h: Heading, amount: int, direction: Direction) -> Heading {
    let q = quarter_turns(amount);
    if direction == Direction::Forward {
        heading_of_index((heading_index(h) + q) % 4)
    } else {
        heading_of_index((heading_index(h) - q) % 4)
    }
}

/// The quarter turns of a degree amount, as a number in `0..=3`.
fn quarter_turns_of(amount: &isize) -> (q: usize)
    ensures
        q as int == quarter_turns(*amount as int),
        q < 4,
{
    if *amount >= 0 {
        let a = *amount as usize;
        (a / 90) % 4
    } else {
        let neg = (-(*amount as i128)) as u128;
        let down = ((neg / 90) % 4) as usize;
        proof {
            let a = *amount as int;
            let d = (-a) / 90;
            assert(neg == -a);
            assert(down == d % 4);
            assert((-d) % 4 == (4 - d % 4) % 4) by (nonlinear_arith)
                requires
                    d >= 0,
            ;
        }
        (4 - down) % 4
    }
}

/// The position after moving `amount` along the heading, forward or
/// backward.
pub open spec fn spec_translate(h: Heading, pos: (int, int), amount: int, direction: Direction) -> (
    int,
    int,
) {
    let t: int = if direction == Direction::Forward {
        amount
    } else {
        -amount
    };
    match h {
        Heading::East => (pos.0 + t, pos.1),
        Heading::West => (pos.0 - t, pos.1),
        Heading::North => (pos.0, pos.1 + t),
        Heading::South => (pos.0, pos.1 - t),
    }
}

/// Turns the waypoint around the ship by `amount` degrees.
pub fn rotate_around(way_point: (isize, isize), amount: &isize, direction: Direction) -> (r: (
    isize,
    isize,
))
    requires
        -isize::MAX <= way_point.0,
        -isize::MAX <= way_point.1,
    ensures
        (r.0 as int, r.1 as int) == spec_rotate_around(
            (way_point.0 as int, way_point.1 as int),
            *amount as int,
            direction,
        ),
{
    let quarter_turns = quarter_turns_of(amount);
    if quarter_turns == 1 {
        if direction == Direction::Forward {
            (-way_point.1, way_point.0)
        } else {
            (way_point.1, -way_point.0)
        }
    } else if quarter_turns == 2 {
        (-way_point.0, -way_point.1)
    } else if quarter_turns == 3 {
        if direction == Direction::Forward {
            (way_point.1, -way_point.0)
        } else {
            (-way_point.1, way_point.0)
        }
    } else {
        way_point
    }
}

/// Turns the ship's heading by `amount` degrees, keeping its position.
pub fn rotate(position: (Heading, (isize, isize)), amount: &isize, direction: Direction) -> (r: (
    Heading,
    (isize, isize),
))
    ensures
        r.0 == spec_rotate(position.0, *amount as int, direction),
        r.1 == position.1,
{
    let base: usize = match position.0 {
        Heading::East => 0,
        Heading::North => 1,
        Heading::West => 2,
        Heading::South => 3,
    };
    let q = quarter_turns_of(amount);
    let idx = if direction == Direction::Forward {
        (base + q) % 4
    } else {
        (base + 4 - q) % 4
    };
    proof {
        if direction != Direction::Forward {
            assert((base + 4 - q) % 4 == (base - q) % 4) by (nonlinear_arith)
                requires
                    0 <= base <= 3,
                    0 <= q <= 3,
            ;
        }
    }
    let next_heading = if idx == 0 {
        Heading::East
    } else if idx == 1 {
        Heading::North
    } else if idx == 2 {
        Heading::West
    } else {
        Heading::South
    };
    (next_heading, position.1)
}

/// Moves the ship `amount` along its heading, forward or backward.
pub fn translate(position: (Heading, (isize, isize)), amount: &isize, direction: Direction) -> (r: (
    Heading,
    (isize, isize),
))
    requires
        *amount > isize::MIN,
        ({
            let t = spec_translate(
                position.0,
                (position.1.0 as int, position.1.1 as int),
                *amount as int,
                direction,
            );
            isize::MIN <= t.0 <= isize::MAX && isize::MIN <= t.1 <= isize::MAX
        }),
    ensures
        r.0 == position.0,
        (r.1.0 as int, r.1.1 as int) == spec_translate(
            position.0,
            (position.1.0 as int, position.1.1 as int),
            *amount as int,
            direction,
        ),
{
    let translation: isize = if direction == Direction::Forward {
        *amount
    } else {
        -*amount
    };
    let heading = position.0;
    match heading {
        Heading::East => (heading, (position.1.0 + translation, position.1.1)),
        Heading::West => (heading, (position.1.0 - translation, position.1.1)),
        Heading::North => (heading, (position.1.0, position.1.1 + translation)),
        Heading::South => (heading, (position.1.0, position.1.1 - translation)),
    }
}

/// The ship's heading and position after the first `i` instructions,
/// starting facing east at the origin. Moves by heading letter or forward
/// and backward along the current heading; turns left or right in
/// degrees; an unknown letter changes nothing.
pub open spec fn nav_state(inst: Seq<(char, int)>, i: int) -> (Heading, (int, int))
    decreases i,
    when 0 <= i
{
    if i == 0 {
        (Heading::East, (0, 0))
    } else {
        let p = nav_state(inst, i - 1);
        let c = inst[i - 1].0;
        let v = inst[i - 1].1;
        if c == 'F' {
            (p.0, spec_translate(p.0, p.1, v, Direction::Forward))
        } else if c == 'B' {
            (p.0, spec_translate(p.0, p.1, v, Direction::Backward))
        } else if c == 'L' {
            (spec_rotate(p.0, v, Direction::Forward), p.1)
        } else if c == 'R' {
            (spec_rotate(p.0, v, Direction::Backward), p.1)
        } else if c == 'N' {
            (p.0, (p.1.0, p.1.1 + v))
        } else if c == 'E' {
            (p.0, (p.1.0 + v, p.1.1))
        } else if c == 'S' {
            (p.0, (p.1.0, p.1.1 - v))
        } else if c == 'W' {
            (p.0, (p.1.0 - v, p.1.1))
        } else {
            p
        }
    }
}

/// The waypoint and ship position after the first `i` instructions of the
/// waypoint reading: the waypoint starts ten east and one north, the ship
/// at the origin. Letters move the waypoint; forward and backward move the
/// ship towards or away from the waypoint `v` times; turns rotate the
/// waypoint around the ship.
pub open spec fn waypoint_state(inst: Seq<(char, int)>, i: int) -> ((int, int), (int, int))
    decreases i,
    when 0 <= i
{
    if i == 0 {
        ((10, 1), (0, 0))
    } else {
        let p = waypoint_state(inst, i - 1);
        let wp = p.0;
        let ship = p.1;
        let c = inst[i - 1].0;
        let v = inst[i - 1].1;
        if c == 'F' {
            (wp, (ship.0 + v * wp.0, ship.1 + v * wp.1))
        } else if c == 'B' {
            (wp, (ship.0 - v * wp.0, ship.1 - v * wp.1))
        } else if c == 'L' {
            (spec_rotate_around(wp, v, Direction::Forward), ship)
        } else if c == 'R' {
            (spec_rotate_around(wp, v, Direction::Backward), ship)
        } else if c == 'N' {
            ((wp.0, wp.1 + v), ship)
        } else if c == 'E' {
            ((wp.0 + v, wp.1), ship)
        } else if c == 'S' {
            ((wp.0, wp.1 - v), ship)
        } else {
            ((wp.0 - v, wp.1), ship)
        }
    }
}

/// The instruction list seen as character and integer amount pairs.
pub open spec fn inst_view(inst: Seq<(char, isize)>) -> Seq<(char, int)> {
    inst.map_values(|p: (char, isize)| (p.0, p.1 as int))
}

/// Follows the instructions by moving and turning the ship itself and
/// returns its final position.
pub fn solve_part_one(inst: &[(char, isize)]) -> (r: (isize, isize))
    requires
        forall|k: int| 0 <= k < inst@.len() ==> (#[trigger] inst@[k]).1 > isize::MIN,
        forall|i: int|
            0 <= i <= inst@.len() ==> {
                let p = #[trigger] nav_state(inst_view(inst@), i);
                -isize::MAX <= p.1.0 <= isize::MAX && -isize::MAX <= p.1.1 <= isize::MAX
            },
    ensures
        (r.0 as int, r.1 as int) == nav_state(inst_view(inst@), inst@.len() as int).1,
{
    let ghost iv = inst_view(inst@);
    let mut heading = Heading::East;
    let mut pos: (isize, isize) = (0, 0);
    let n = inst.len();
    for k in 0..n
        invariant
            n == inst@.len(),
            iv == inst_view(inst@),
            forall|j: int| 0 <= j < inst@.len() ==> (#[trigger] inst@[j]).1 > isize::MIN,
            forall|i: int|
                0 <= i <= inst@.len() ==> {
                    let p = #[trigger] nav_state(iv, i);
                    -isize::MAX <= p.1.0 <= isize::MAX && -isize::MAX <= p.1.1 <= isize::MAX
                },
            heading == nav_state(iv, k as int).0,
            (pos.0 as int, pos.1 as int) == nav_state(iv, k as int).1,
    {
        let (c, v) = inst[k];
        proof {
            assert(iv[k as int] == (inst@[k as int].0, inst@[k as int].1 as int));
            lemma_nav_step(iv, k as int);
        }
        if c == 'F' {
            let t = translate((heading, pos), &v, Direction::Forward);
            pos = t.1;
        } else if c == 'B' {
            let t = translate((heading, pos), &v, Direction::Backward);
            pos = t.1;
        } else if c == 'L' {
            let t = rotate((heading, pos), &v, Direction::Forward);
            heading = t.0;
        } else if c == 'R' {
            let t = rotate((heading, pos), &v, Direction::Backward);
            heading = t.0;
        } else if c == 'N' {
            pos = (pos.0, pos.1 + v);
        } else if c == 'E' {
            pos = (pos.0 + v, pos.1);
        } else if c == 'S' {
            pos = (pos.0, pos.1 - v);
        } else if c == 'W' {
            pos = (pos.0 - v, pos.1);
        }
    }
    pos
}

/// Follows the instructions by moving the waypoint and sailing the ship
/// towards it, and returns the ship's final position.
pub fn solve_part_two(inst: &[(char, isize)]) -> (r: (isize, isize))
    requires
        forall|k: int| 0 <= k < inst@.len() ==> (#[trigger] inst@[k]).1 > isize::MIN,
        forall|i: int|
            0 <= i <= inst@.len() ==> {
                let p = #[trigger] waypoint_state(inst_view(inst@), i);
                &&& -isize::MAX <= p.0.0 <= isize::MAX
                &&& -isize::MAX <= p.0.1 <= isize::MAX
                &&& -isize::MAX <= p.1.0 <= isize::MAX
                &&& -isize::MAX <= p.1.1 <= isize::MAX
            },
        forall|i: int|
            0 <= i < inst@.len() ==> {
                let p = #[trigger] waypoint_state(inst_view(inst@), i);
                let v = inst_view(inst@)[i].1;
                &&& isize::MIN <= v * p.0.0 <= isize::MAX
                &&& isize::MIN <= v * p.0.1 <= isize::MAX
            },
    ensures
        (r.0 as int, r.1 as int) == waypoint_state(inst_view(inst@), inst@.len() as int).1,
{
    let ghost iv = inst_view(inst@);
    let mut wp: (isize, isize) = (10, 1);
    let mut ship: (isize, isize) = (0, 0);
    let n = inst.len();
    for k in 0..n
        invariant
            n == inst@.len(),
            iv == inst_view(inst@),
            forall|j: int| 0 <= j < inst@.len() ==> (#[trigger] inst@[j]).1 > isize::MIN,
            forall|i: int|
                0 <= i <= inst@.len() ==> {
                    let p = #[trigger] waypoint_state(iv, i);
                    &&& -isize::MAX <= p.0.0 <= isize::MAX
                    &&& -isize::MAX <= p.0.1 <= isize::MAX
                    &&& -isize::MAX <= p.1.0 <= isize::MAX
                    &&& -isize::MAX <= p.1.1 <= isize::MAX
                },
            forall|i: int|
                0 <= i < inst@.len() ==> {
                    let p = #[trigger] waypoint_state(iv, i);
                    let v = iv[i].1;
                    &&& isize::MIN <= v * p.0.0 <= isize::MAX
                    &&& isize::MIN <= v * p.0.1 <= isize::MAX
                },
            (wp.0 as int, wp.1 as int) == waypoint_state(iv, k as int).0,
            (ship.0 as int, ship.1 as int) == waypoint_state(iv, k as int).1,
    {
        let (c, v) = inst[k];
        proof {
            assert(iv[k as int] == (inst@[k as int].0, inst@[k as int].1 as int));
            lemma_waypoint_step(iv, k as int);
        }
        if c == 'F' {
            let dx = v * wp.0;
            let dy = v * wp.1;
            ship = (ship.0 + dx, ship.1 + dy);
        } else if c == 'B' {
            let dx = v * wp.0;
            let dy = v * wp.1;
            ship = (ship.0 - dx, ship.1 - dy);
        } else if c == 'L' {
            wp = rotate_around(wp, &v, Direction::Forward);
        } else if c == 'R' {
            wp = rotate_around(wp, &v, Direction::Backward);
        } else if c == 'N' {
            wp = (wp.0, wp.1 + v);
        } else if c == 'E' {
            wp = (wp.0 + v, wp.1);
        } else if c == 'S' {
            wp = (wp.0, wp.1 - v);
        } else {
            wp = (wp.0 - v, wp.1);
        }
    }
    ship
}

/// Unfolds one step of the waypoint state.
proof fn lemma_waypoint_step(iv: Seq<(char, int)>, k: int)
    requires
        0 <= k < iv.len(),
    ensures
        waypoint_state(iv, k + 1) == ({
            let p = waypoint_state(iv, k);
            let wp = p.0;
            let ship = p.1;
            let c = iv[k].0;
            let v = iv[k].1;
            if c == 'F' {
                (wp, (ship.0 + v * wp.0, ship.1 + v * wp.1))
            } else if c == 'B' {
                (wp, (ship.0 - v * wp.0, ship.1 - v * wp.1))
            } else if c == 'L' {
                (spec_rotate_around(wp, v, Direction::Forward), ship)
            } else if c == 'R' {
                (spec_rotate_around(wp, v, Direction::Backward), ship)
            } else if c == 'N' {
                ((wp.0, wp.1 + v), ship)
            } else if c == 'E' {
                ((wp.0 + v, wp.1), ship)
            } else if c == 'S' {
                ((wp.0, wp.1 - v), ship)
            } else {
                ((wp.0 - v, wp.1), ship)
            }
        }),
{
}

/// Unfolds one step of the ship state.
proof fn lemma_nav_step(iv: Seq<(char, int)>, k: int)
    requires
        0 <= k < iv.len(),
    ensures
        nav_state(iv, k + 1) == ({
            let p = nav_state(iv, k);
            let c = iv[k].0;
            let v = iv[k].1;
            if c == 'F' {
                (p.0, spec_translate(p.0, p.1, v, Direction::Forward))
            } else if c == 'B' {
                (p.0, spec_translate(p.0, p.1, v, Direction::Backward))
            } else if c == 'L' {
                (spec_rotate(p.0, v, Direction::Forward), p.1)
            } else if c == 'R' {
                (spec_rotate(p.0, v, Direction::Backward), p.1)
            } else if c == 'N' {
                (p.0, (p.1.0, p.1.1 + v))
            } else if c == 'E' {
                (p.0, (p.1.0 + v, p.1.1))
            } else if c == 'S' {
                (p.0, (p.1.0, p.1.1 - v))
            } else if c == 'W' {
                (p.0, (p.1.0 - v, p.1.1))
            } else {
                p
            }
        }),
{
}

} // verus!
