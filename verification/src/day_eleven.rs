//! Seat maps: neighbourhood lookups on a grid stored as one flat row-major
//! list.

use vstd::prelude::*;

verus! {

/// One cell of the seat map.
#[derive(Clone, Copy, PartialEq, Eq, Structural, Debug)]
pub enum Seat {
    TAKEN,
    EMPTY,
    FLOOR,
}

/// The seat at a position, when the position lies within the map.
pub open spec fn spec_seat_at(seats: Seq<Seat>, index: int) -> Option<Seat> {
    if 0 <= index < seats.len() {
        Some(seats[index])
    } else {
        None
    }
}

/// The cell stands in the leftmost column.
pub fn on_left(index: isize, row_width: isize) -> (r: bool)
    requires
        index >= 0,
        row_width >= 1,
    ensures
        r == (index as int % row_width as int == 0),
{
    index % row_width == 0
}

/// The cell stands in the rightmost column.
pub fn on_right(index: isize, row_width: isize) -> (r: bool)
    requires
        index >= 0,
        row_width >= 1,
        index < isize::MAX,
    ensures
        r == ((index + 1) as int % row_width as int == 0),
{
    (index + 1) % row_width == 0
}

/// The index one row up and one column left, unless the cell is leftmost.
pub fn get_top_left_index(i: isize, row_width: isize) -> (r: Option<isize>)
    requires
        i >= 0,
        1 <= row_width,
    ensures
        r == if i as int % row_width as int == 0 {
            None::<isize>
        } else {
            Some((i - row_width - 1) as isize)
        },
{
    if on_left(i, row_width) {
        None
    } else {
        Some(i - row_width - 1)
    }
}

/// The index one row up and one column right, unless the cell is
/// rightmost.
pub fn get_top_right_index(i: isize, row_width: isize) -> (r: Option<isize>)
    requires
        i >= 0,
        1 <= row_width,
        i < isize::MAX,
    ensures
        r == if (i + 1) as int % row_width as int == 0 {
            None::<isize>
        } else {
            Some((i - row_width + 1) as isize)
        },
{
    if on_right(i, row_width) {
        None
    } else {
        Some(i - row_width + 1)
    }
}

/// The index one row up.
pub fn get_top_middle_index(i: isize, row_width: isize) -> (r: Option<isize>)
    requires
        i >= 0,
        1 <= row_width,
    ensures
        r == Some((i - row_width) as isize),
{
    Some(i - row_width)
}

/// The index one column left, unless the cell is leftmost.
pub fn get_left_index(i: isize, row_width: isize) -> (r: Option<isize>)
    requires
        i >= 0,
        1 <= row_width,
    ensures
        r == if i as int % row_width as int == 0 {
            None::<isize>
        } else {
            Some((i - 1) as isize)
        },
{
    if on_left(i, row_width) {
        None
    } else {
        Some(i - 1)
    }
}

/// The index one column right, unless the cell is rightmost.
pub fn get_right_index(i: isize, row_width: isize) -> (r: Option<isize>)
    requires
        i >= 0,
        1 <= row_width,
        i < isize::MAX,
    ensures
        r == if (i + 1) as int % row_width as int == 0 {
            None::<isize>
        } else {
            Some((i + 1) as isize)
        },
{
    if on_right(i, row_width) {
        None
    } else {
        Some(i + 1)
    }
}

/// The index one row down and one column left, unless the cell is
/// leftmost.
pub fn get_bottom_left_index(i: isize, row_width: isize) -> (r: Option<isize>)
    requires
        i >= 0,
        1 <= row_width,
        i + row_width <= isize::MAX,
    ensures
        r == if i as int % row_width as int == 0 {
            None::<isize>
        } else {
            Some((i + row_width - 1) as isize)
        },
{
    if on_left(i, row_width) {
        None
    } else {
        Some(i + row_width - 1)
    }
}

/// The index one row down.
pub fn get_bottom_middle_index(i: isize, row_width: isize) -> (r: Option<isize>)
    requires
        i >= 0,
        1 <= row_width,
        i + row_width <= isize::MAX,
    ensures
        r == Some((i + row_width) as isize),
{
    Some(i + row_width)
}

/// The index one row down and one column right, unless the cell is
/// rightmost.
pub fn get_bottom_right_index(i: isize, row_width: isize) -> (r: Option<isize>)
    requires
        i >= 0,
        1 <= row_width,
        i + row_width + 1 <= isize::MAX,
    ensures
        r == if (i + 1) as int % row_width as int == 0 {
            None::<isize>
        } else {
            Some((i + row_width + 1) as isize)
        },
{
    if on_right(i, row_width) {
        None
    } else {
        Some(i + row_width + 1)
    }
}

/// The seat at a neighbouring index, when that index is on the map.
pub fn retrieve(maybe_index: Option<isize>, seats: &[Seat]) -> (r: Option<Seat>)
    ensures
        r == match maybe_index {
            None => None::<Seat>,
            Some(i) => spec_seat_at(seats@, i as int),
        },
{
    match maybe_index {
        None => None,
        Some(i) => {
            if i < 0 {
                None
            } else {
                let u = i as usize;
                if u < seats.len() {
                    Some(seats[u])
                } else {
                    None
                }
            }
        },
    }
}

/// The eight directly neighbouring cells of `index` in reading order, as
/// far as they lie on the map.
pub fn get_adjacent_seats(index: usize, row_width: usize, seats: &[Seat]) -> (r: Vec<Option<Seat>>)
    requires
        1 <= row_width <= isize::MAX,
        index + row_width + 1 <= isize::MAX,
    ensures
        r@.len() == 8,
        ({
            let i = index as int;
            let w = row_width as int;
            let left_edge = i % w == 0;
            let right_edge = (i + 1) % w == 0;
            &&& r@[0] == if left_edge {
                None::<Seat>
            } else {
                spec_seat_at(seats@, i - w - 1)
            }
            &&& r@[1] == spec_seat_at(seats@, i - w)
            &&& r@[2] == if right_edge {
                None::<Seat>
            } else {
                spec_seat_at(seats@, i - w + 1)
            }
            &&& r@[3] == if left_edge {
                None::<Seat>
            } else {
                spec_seat_at(seats@, i - 1)
            }
            &&& r@[4] == if right_edge {
                None::<Seat>
            } else {
                spec_seat_at(seats@, i + 1)
            }
            &&& r@[5] == if left_edge {
                None::<Seat>
            } else {
                spec_seat_at(seats@, i + w - 1)
            }
            &&& r@[6] == spec_seat_at(seats@, i + w)
            &&& r@[7] == if right_edge {
                None::<Seat>
            } else {
                spec_seat_at(seats@, i + w + 1)
            }
        }),
{
    let i = index as isize;
    let w = row_width as isize;
    let mut out: Vec<Option<Seat>> = Vec::new();
    out.push(retrieve(get_top_left_index(i, w), seats));
    out.push(retrieve(get_top_middle_index(i, w), seats));
    out.push(retrieve(get_top_right_index(i, w), seats));
    out.push(retrieve(get_left_index(i, w), seats));
    out.push(retrieve(get_right_index(i, w), seats));
    out.push(retrieve(get_bottom_left_index(i, w), seats));
    out.push(retrieve(get_bottom_middle_index(i, w), seats));
    out.push(retrieve(get_bottom_right_index(i, w), seats));
    out
}

/// The eight directions a look can travel over the map.
#[derive(Clone, Copy, PartialEq, Eq, Structural, Debug)]
pub enum Direction8 {
    TopLeft,
    TopMiddle,
    TopRight,
    Left,
    Right,
    BottomLeft,
    BottomMiddle,
    BottomRight,
}

/// The index one step along the direction, unless the step leaves the map
/// at its left or right edge.
pub open spec fn step_index(d: Direction8, i: int, w: int) -> Option<int> {
    let left_edge = i % w == 0;
    let right_edge = (i + 1) % w == 0;
    match d {
        Direction8::TopLeft => if left_edge {
            None
        } else {
            Some(i - w - 1)
        },
        Direction8::TopMiddle => Some(i - w),
        Direction8::TopRight => if right_edge {
            None
        } else {
            Some(i - w + 1)
        },
        Direction8::Left => if left_edge {
            None
        } else {
            Some(i - 1)
        },
        Direction8::Right => if right_edge {
            None
        } else {
            Some(i + 1)
        },
        Direction8::BottomLeft => if left_edge {
            None
        } else {
            Some(i + w - 1)
        },
        Direction8::BottomMiddle => Some(i + w),
        Direction8::BottomRight => if right_edge {
            None
        } else {
            Some(i + w + 1)
        },
    }
}

/// A bound that shrinks along every step a look can take.
pub open spec fn walk_measure(d: Direction8, i: int, n: int) -> int {
    match d {
        Direction8::TopLeft | Direction8::TopMiddle | Direction8::TopRight | Direction8::Left => i
            + 1,
        _ => n - i,
    }
}

/// The first seat visible along the direction: floor cells are looked
/// through, and a look that leaves the map sees nothing.
pub open spec fn spec_walk(seats: Seq<Seat>, i: int, w: int, d: Direction8) -> Option<Seat>
    decreases walk_measure(d, i, seats.len() as int),
    when 0 <= i < seats.len() && w >= 1
    via spec_walk_decreases
{
    match step_index(d, i, w) {
        None => None,
        Some(loc) => {
            if loc < 0 || loc >= seats.len() {
                None
            } else if seats[loc] != Seat::FLOOR {
                Some(seats[loc])
            } else {
                spec_walk(seats, loc, w, d)
            }
        },
    }
}

/// Every in-map step strictly shrinks the walk bound.
proof fn lemma_step_measure(d: Direction8, i: int, w: int, n: int)
    requires
        0 <= i < n,
        w >= 1,
        step_index(d, i, w) is Some,
        0 <= step_index(d, i, w)->Some_0 < n,
    ensures
        walk_measure(d, step_index(d, i, w)->Some_0, n) < walk_measure(d, i, n),
        walk_measure(d, step_index(d, i, w)->Some_0, n) >= 0,
{
    match d {
        Direction8::TopRight => {
            if w == 1 {
                assert((i + 1) % 1int == 0);
            }
        },
        Direction8::BottomLeft => {
            if w == 1 {
                assert(i % 1int == 0);
            }
        },
        _ => {},
    }
}

#[via_fn]
proof fn spec_walk_decreases(seats: Seq<Seat>, i: int, w: int, d: Direction8) {
    match step_index(d, i, w) {
        None => {},
        Some(loc) => {
            if 0 <= loc < seats.len() && seats[loc] == Seat::FLOOR {
                lemma_step_measure(d, i, w, seats.len() as int);
            }
        },
    }
}

/// Looks along the direction and returns the first visible seat, looking
/// through floor cells.
pub fn find_non_floor_seat(
    index: isize,
    row_width: isize,
    seats: &[Seat],
    direction: Direction8,
) -> (r: Option<Seat>)
    requires
        0 <= index < seats@.len(),
        row_width >= 1,
        seats@.len() + row_width + 1 <= isize::MAX,
    ensures
        r == spec_walk(seats@, index as int, row_width as int, direction),
{
    let n = seats.len();
    let mut i = index;
    loop
        invariant
            0 <= i < n,
            n == seats@.len(),
            row_width >= 1,
            n + row_width + 1 <= isize::MAX,
            spec_walk(seats@, index as int, row_width as int, direction) == spec_walk(
                seats@,
                i as int,
                row_width as int,
                direction,
            ),
        decreases walk_measure(direction, i as int, n as int),
    {
        let next: Option<isize> = match direction {
            Direction8::TopLeft => get_top_left_index(i, row_width),
            Direction8::TopMiddle => get_top_middle_index(i, row_width),
            Direction8::TopRight => get_top_right_index(i, row_width),
            Direction8::Left => get_left_index(i, row_width),
            Direction8::Right => get_right_index(i, row_width),
            Direction8::BottomLeft => get_bottom_left_index(i, row_width),
            Direction8::BottomMiddle => get_bottom_middle_index(i, row_width),
            Direction8::BottomRight => get_bottom_right_index(i, row_width),
        };
        proof {
            assert(match next {
                None => step_index(direction, i as int, row_width as int) is None,
                Some(loc) => step_index(direction, i as int, row_width as int) == Some(
                    loc as int,
                ),
            });
        }
        match next {
            None => {
                return None;
            },
            Some(loc) => {
                if loc < 0 {
                    return None;
                }
                let u = loc as usize;
                if u >= n {
                    return None;
                }
                let s = seats[u];
                if s != Seat::FLOOR {
                    return Some(s);
                }
                proof {
                    lemma_step_measure(
                        direction,
                        i as int,
                        row_width as int,
                        n as int,
                    );
                }
                i = loc;
            },
        }
    }
}

/// The eight first-visible seats around `index` in reading order.
pub fn get_non_floor_adjacent_seats(index: usize, row_width: usize, seats: &[Seat]) -> (r: Vec<
    Option<Seat>,
>)
    requires
        1 <= row_width <= isize::MAX,
        index < seats@.len(),
        seats@.len() + row_width + 1 <= isize::MAX,
    ensures
        r@.len() == 8,
        r@[0] == spec_walk(seats@, index as int, row_width as int, Direction8::TopLeft),
        r@[1] == spec_walk(seats@, index as int, row_width as int, Direction8::TopMiddle),
        r@[2] == spec_walk(seats@, index as int, row_width as int, Direction8::TopRight),
        r@[3] == spec_walk(seats@, index as int, row_width as int, Direction8::Left),
        r@[4] == spec_walk(seats@, index as int, row_width as int, Direction8::Right),
        r@[5] == spec_walk(seats@, index as int, row_width as int, Direction8::BottomLeft),
        r@[6] == spec_walk(seats@, index as int, row_width as int, Direction8::BottomMiddle),
        r@[7] == spec_walk(seats@, index as int, row_width as int, Direction8::BottomRight),
{
    let i = index as isize;
    let w = row_width as isize;
    let mut out: Vec<Option<Seat>> = Vec::new();
    out.push(find_non_floor_seat(i, w, seats, Direction8::TopLeft));
    out.push(find_non_floor_seat(i, w, seats, Direction8::TopMiddle));
    out.push(find_non_floor_seat(i, w, seats, Direction8::TopRight));
    out.push(find_non_floor_seat(i, w, seats, Direction8::Left));
    out.push(find_non_floor_seat(i, w, seats, Direction8::Right));
    out.push(find_non_floor_seat(i, w, seats, Direction8::BottomLeft));
    out.push(find_non_floor_seat(i, w, seats, Direction8::BottomMiddle));
    out.push(find_non_floor_seat(i, w, seats, Direction8::BottomRight));
    out
}

/// The number of taken seats among the given neighbours.
pub open spec fn spec_number_taken(seats: Seq<Option<Seat>>) -> int
    decreases seats.len(),
{
    if seats.len() == 0 {
        0
    } else {
        spec_number_taken(seats.drop_last()) + if seats.last() == Some(Seat::TAKEN) {
            1int
        } else {
            0int
        }
    }
}

/// Counts the taken seats among the given neighbours.
pub fn number_taken(seats: &[Option<Seat>]) -> (r: usize)
    ensures
        r == spec_number_taken(seats@),
        r <= seats@.len(),
{
    let n = seats.len();
    let mut count: usize = 0;
    for k in 0..n
        invariant
            n == seats@.len(),
            count == spec_number_taken(seats@.take(k as int)),
            count <= k,
    {
        proof {
            assert(seats@.take(k + 1).drop_last() =~= seats@.take(k as int));
            assert(seats@.take(k + 1).last() == seats@[k as int]);
        }
        if let Some(seat) = seats[k] {
            if seat == Seat::TAKEN {
                count = count + 1;
            }
        }
    }
    proof {
        assert(seats@.take(n as int) =~= seats@);
    }
    count
}

/// How a cell finds the seats it counts: the eight directly neighbouring
/// cells, or the first visible seat along each of the eight directions.
#[derive(Clone, Copy, PartialEq, Eq, Structural, Debug)]
pub enum NeighbourRule {
    Adjacent,
    FirstVisible,
}

/// The neighbours a cell counts under the rule, in reading order.
#[verifier::opaque]
pub open spec fn spec_neighbours(
    seats: Seq<Seat>,
    w: int,
    i: int,
    rule: NeighbourRule,
) -> Seq<Option<Seat>> {
    match rule {
        NeighbourRule::Adjacent => {
            let left_edge = i % w == 0;
            let right_edge = (i + 1) % w == 0;
            seq![
                if left_edge {
                    None
                } else {
                    spec_seat_at(seats, i - w - 1)
                },
                spec_seat_at(seats, i - w),
                if right_edge {
                    None
                } else {
                    spec_seat_at(seats, i - w + 1)
                },
                if left_edge {
                    None
                } else {
                    spec_seat_at(seats, i - 1)
                },
                if right_edge {
                    None
                } else {
                    spec_seat_at(seats, i + 1)
                },
                if left_edge {
                    None
                } else {
                    spec_seat_at(seats, i + w - 1)
                },
                spec_seat_at(seats, i + w),
                if right_edge {
                    None
                } else {
                    spec_seat_at(seats, i + w + 1)
                },
            ]
        },
        NeighbourRule::FirstVisible => seq![
            spec_walk(seats, i, w, Direction8::TopLeft),
            spec_walk(seats, i, w, Direction8::TopMiddle),
            spec_walk(seats, i, w, Direction8::TopRight),
            spec_walk(seats, i, w, Direction8::Left),
            spec_walk(seats, i, w, Direction8::Right),
            spec_walk(seats, i, w, Direction8::BottomLeft),
            spec_walk(seats, i, w, Direction8::BottomMiddle),
            spec_walk(seats, i, w, Direction8::BottomRight),
        ],
    }
}

/// The cell's state after one revision round: an empty seat with no
/// counted taken seat fills, a taken seat with more than `max_taken`
/// counted taken seats empties, and every other cell keeps its state.
pub open spec fn next_seat(
    seats: Seq<Seat>,
    w: int,
    max_taken: int,
    rule: NeighbourRule,
    i: int,
) -> Seat {
    let ns = spec_neighbours(seats, w, i, rule);
    if seats[i] == Seat::EMPTY && !(exists|k: int|
        0 <= k < ns.len() && ns[k] == Some(Seat::TAKEN)) {
        Seat::TAKEN
    } else if seats[i] == Seat::TAKEN && spec_number_taken(ns) > max_taken {
        Seat::EMPTY
    } else {
        seats[i]
    }
}

/// The changes one revision round makes among the first `upto` cells, in
/// cell order: each cell whose next state differs, with that state.
pub open spec fn spec_changes(
    s0: Seq<Seat>,
    w: int,
    max_taken: int,
    rule: NeighbourRule,
    upto: int,
) -> Seq<(usize, Seat)>
    decreases upto,
    when 0 <= upto
{
    if upto <= 0 {
        Seq::empty()
    } else {
        let pre = spec_changes(s0, w, max_taken, rule, upto - 1);
        let ns = next_seat(s0, w, max_taken, rule, upto - 1);
        if ns != s0[upto - 1] {
            pre.push(((upto - 1) as usize, ns))
        } else {
            pre
        }
    }
}

/// The map after writing the changes in order.
pub open spec fn apply_changes(s: Seq<Seat>, cs: Seq<(usize, Seat)>) -> Seq<Seat>
    decreases cs.len(),
{
    if cs.len() == 0 {
        s
    } else {
        apply_changes(s, cs.drop_last()).update(cs.last().0 as int, cs.last().1)
    }
}

/// Every change targets a judged cell with its differing next state, and
/// there are changes exactly when some judged cell differs.
proof fn lemma_changes_bounds(s0: Seq<Seat>, w: int, max_taken: int, rule: NeighbourRule, upto: int)
    requires
        0 <= upto <= usize::MAX,
    ensures
        forall|q: int|
            0 <= q < spec_changes(s0, w, max_taken, rule, upto).len() ==> {
                let ch = #[trigger] spec_changes(s0, w, max_taken, rule, upto)[q];
                0 <= ch.0 < upto && ch.1 == next_seat(s0, w, max_taken, rule, ch.0 as int)
                    && ch.1 != s0[ch.0 as int]
            },
        spec_changes(s0, w, max_taken, rule, upto).len() > 0 <==> exists|i: int|
            0 <= i < upto && next_seat(s0, w, max_taken, rule, i) != s0[i],
    decreases upto,
{
    if upto > 0 {
        lemma_changes_bounds(s0, w, max_taken, rule, upto - 1);
        let pre = spec_changes(s0, w, max_taken, rule, upto - 1);
        let cs = spec_changes(s0, w, max_taken, rule, upto);
        let ns = next_seat(s0, w, max_taken, rule, upto - 1);
        assert forall|q: int|
            0 <= q < cs.len() implies {
            let ch = #[trigger] cs[q];
            0 <= ch.0 < upto && ch.1 == next_seat(s0, w, max_taken, rule, ch.0 as int) && ch.1
                != s0[ch.0 as int]
        } by {
            if ns != s0[upto - 1] {
                if q < pre.len() {
                    assert(cs[q] == pre[q]);
                } else {
                    assert(cs[q] == (((upto - 1) as usize), ns));
                }
            } else {
                assert(cs[q] == pre[q]);
            }
        }
    }
}

/// Applying the changes of a round rewrites exactly the judged cells to
/// their next states.
proof fn lemma_changes_apply(s0: Seq<Seat>, w: int, max_taken: int, rule: NeighbourRule, upto: int)
    requires
        0 <= upto <= s0.len(),
        upto <= usize::MAX,
    ensures
        apply_changes(s0, spec_changes(s0, w, max_taken, rule, upto)).len() == s0.len(),
        forall|i: int|
            0 <= i < s0.len() ==> #[trigger] apply_changes(
                s0,
                spec_changes(s0, w, max_taken, rule, upto),
            )[i] == if i < upto {
                next_seat(s0, w, max_taken, rule, i)
            } else {
                s0[i]
            },
    decreases upto,
{
    if upto > 0 {
        lemma_changes_apply(s0, w, max_taken, rule, upto - 1);
        let pre = spec_changes(s0, w, max_taken, rule, upto - 1);
        let ns = next_seat(s0, w, max_taken, rule, upto - 1);
        if ns != s0[upto - 1] {
            let cs = pre.push(((upto - 1) as usize, ns));
            assert(cs.drop_last() =~= pre);
            assert(cs.last() == ((upto - 1) as usize, ns));
            assert(apply_changes(s0, cs) == apply_changes(s0, pre).update(upto - 1, ns));
            assert forall|i: int|
                0 <= i < s0.len() implies #[trigger] apply_changes(s0, cs)[i] == if i < upto {
                next_seat(s0, w, max_taken, rule, i)
            } else {
                s0[i]
            } by {
                if i != upto - 1 {
                    assert(apply_changes(s0, cs)[i] == apply_changes(s0, pre)[i]);
                }
            }
        } else {
            assert forall|i: int|
                0 <= i < s0.len() implies #[trigger] apply_changes(
                s0,
                spec_changes(s0, w, max_taken, rule, upto),
            )[i] == if i < upto {
                next_seat(s0, w, max_taken, rule, i)
            } else {
                s0[i]
            } by {
                if i == upto - 1 {
                    assert(next_seat(s0, w, max_taken, rule, i) == s0[i]);
                }
            }
        }
    }
}

/// Runs one revision round over the whole map at once and reports whether
/// anything changed: every cell's new state is judged against the map
/// before the round.
pub fn revise_seats(
    row_width: usize,
    max_taken: usize,
    seats: &mut Vec<Seat>,
    rule: NeighbourRule,
) -> (changed: bool)
    requires
        1 <= row_width <= isize::MAX,
        old(seats)@.len() + row_width + 1 <= isize::MAX,
    ensures
        final(seats)@.len() == old(seats)@.len(),
        forall|i: int|
            0 <= i < old(seats)@.len() ==> #[trigger] final(seats)@[i] == next_seat(
                old(seats)@,
                row_width as int,
                max_taken as int,
                rule,
                i,
            ),
        changed == (final(seats)@ != old(seats)@),
{
    let ghost s0 = seats@;
    let ghost w = row_width as int;
    let ghost mx = max_taken as int;
    let n = seats.len();
    let mut changes: Vec<(usize, Seat)> = Vec::new();
    for index in 0..n
        invariant
            s0 == seats@,
            n == seats@.len(),
            1 <= row_width <= isize::MAX,
            n + row_width + 1 <= isize::MAX,
            w == row_width as int,
            mx == max_taken as int,
            changes@ == spec_changes(s0, w, mx, rule, index as int),
    {
        let neighbours = match rule {
            NeighbourRule::Adjacent => get_adjacent_seats(index, row_width, seats.as_slice()),
            NeighbourRule::FirstVisible => get_non_floor_adjacent_seats(
                index,
                row_width,
                seats.as_slice(),
            ),
        };
        proof {
            reveal(spec_neighbours);
            assert(neighbours@ =~= spec_neighbours(s0, w, index as int, rule));
        }
        let here = seats[index];
        if here == Seat::EMPTY && !is_any_taken(neighbours.as_slice()) {
            changes.push((index, Seat::TAKEN));
        } else if here == Seat::TAKEN && number_taken(neighbours.as_slice()) > max_taken {
            changes.push((index, Seat::EMPTY));
        }
        proof {
            assert(changes@ =~= spec_changes(s0, w, mx, rule, index + 1));
        }
    }
    let changed = changes.len() > 0;
    proof {
        lemma_changes_bounds(s0, w, mx, rule, n as int);
        lemma_changes_apply(s0, w, mx, rule, n as int);
    }
    let m = changes.len();
    for q in 0..m
        invariant
            m == changes@.len(),
            changes@ == spec_changes(s0, w, mx, rule, n as int),
            s0.len() == n,
            seats@.len() == n,
            forall|q1: int|
                0 <= q1 < m ==> 0 <= (#[trigger] changes@[q1]).0 < n,
            seats@ == apply_changes(s0, changes@.take(q as int)),
    {
        proof {
            assert(changes@.take(q + 1).drop_last() =~= changes@.take(q as int));
            assert(changes@.take(q + 1).last() == changes@[q as int]);
        }
        let (at, to) = changes[q];
        seats[at] = to;
    }
    proof {
        assert(changes@.take(m as int) =~= changes@);
        assert(seats@ == apply_changes(s0, spec_changes(s0, w, mx, rule, n as int)));
        if changes@.len() > 0 {
            let ch = changes@[0];
            assert(seats@[ch.0 as int] == next_seat(s0, w, mx, rule, ch.0 as int));
            assert(seats@[ch.0 as int] != s0[ch.0 as int]);
        } else {
            assert(seats@ =~= s0);
        }
    }
    changed
}

/// True when any of the given neighbours is a taken seat.
pub fn is_any_taken(seats: &[Option<Seat>]) -> (r: bool)
    ensures
        r == exists|k: int| 0 <= k < seats@.len() && seats@[k] == Some(Seat::TAKEN),
{
    let n = seats.len();
    for k in 0..n
        invariant
            n == seats@.len(),
            forall|j: int| 0 <= j < k ==> seats@[j] != Some(Seat::TAKEN),
    {
        if let Some(seat) = seats[k] {
            if seat == Seat::TAKEN {
                proof {
                    assert(seats@[k as int] == Some(Seat::TAKEN));
                }
                return true;
            }
        }
    }
    false
}

} // verus!
