//! Counting tree collisions while sledding down a repeating slope.

use vstd::prelude::*;

verus! {

/// A horizontal position and the number of trees hit so far.
pub struct Position {
    pub horizontal: usize,
    pub count: usize,
}

/// The column indices of the tree cells of one slope row: every index
/// whose character is not open ground.
pub open spec fn tree_positions(s: Seq<char>) -> Seq<int>
    decreases s.len(),
{
    if s.len() == 0 {
        Seq::empty()
    } else {
        tree_positions(s.drop_last()) + if s.last() == '.' {
            Seq::empty()
        } else {
            seq![s.len() - 1]
        }
    }
}

/// Converts slope rows into per-row lists of tree column indices.
pub fn convert_to_collision_vec(lines: &Vec<String>) -> (r: Vec<Vec<usize>>)
    ensures
        r@.len() == lines@.len(),
        forall|k: int|
            0 <= k < lines@.len() ==> (#[trigger] r@[k])@.len() == tree_positions(
                lines@[k]@,
            ).len() && forall|m: int|
                0 <= m < r@[k]@.len() ==> r@[k]@[m] as int == tree_positions(lines@[k]@)[m],
{
    let mut out: Vec<Vec<usize>> = Vec::new();
    let n = lines.len();
    for k in 0..n
        invariant
            n == lines@.len(),
            out@.len() == k,
            forall|j: int|
                0 <= j < k ==> (#[trigger] out@[j])@.len() == tree_positions(
                    lines@[j]@,
                ).len() && forall|m: int|
                    0 <= m < out@[j]@.len() ==> out@[j]@[m] as int == tree_positions(
                        lines@[j]@,
                    )[m],
    {
        let line = &lines[k];
        let len = line.as_str().unicode_len();
        let mut row: Vec<usize> = Vec::new();
        for i in 0..len
            invariant
                len == line@.len(),
                line@ == lines@[k as int]@,
                row@.len() == tree_positions(line@.take(i as int)).len(),
                forall|m: int|
                    0 <= m < row@.len() ==> #[trigger] row@[m] as int == tree_positions(
                        line@.take(i as int),
                    )[m],
        {
            let c = line.as_str().get_char(i);
            proof {
                assert(line@.take(i + 1).drop_last() =~= line@.take(i as int));
                assert(line@.take(i + 1).last() == line@[i as int]);
            }
            if c != '.' {
                row.push(i);
            }
        }
        proof {
            assert(line@.take(len as int) =~= line@);
        }
        out.push(row);
    }
    out
}

/// The final position after sliding from row `row` with position `h` and
/// `count` trees hit: each visited row adds a hit when its tree columns
/// include the current horizontal position, which then advances by the
/// horizontal step, wrapped at the board width.
pub open spec fn spec_collisions(
    slope: Seq<Seq<usize>>,
    board_size: int,
    horizontal_step: int,
    vertical_step: int,
    row: int,
    h: int,
    count: int,
) -> (int, int)
    decreases
            if slope.len() - row >= 0 {
                slope.len() - row
            } else {
                0
            },
    when 0 <= row && vertical_step >= 1 && board_size >= 1
{
    if row >= slope.len() {
        (h, count)
    } else {
        spec_collisions(
            slope,
            board_size,
            horizontal_step,
            vertical_step,
            row + vertical_step,
            (h + horizontal_step) % board_size,
            count + if slope[row].contains(h as usize) {
                1int
            } else {
                0int
            },
        )
    }
}

/// True when `x` occurs in the vector.
fn contains_usize(v: &Vec<usize>, x: usize) -> (r: bool)
    ensures
        r == v@.contains(x),
{
    let n = v.len();
    for i in 0..n
        invariant
            n == v@.len(),
            forall|j: int| 0 <= j < i ==> v@[j] != x,
    {
        if v[i] == x {
            return true;
        }
    }
    false
}

/// Slides down the whole slope with the given steps, starting at the top
/// left, and counts the trees hit.
pub fn calculate_collisions(
    board_size: usize,
    horizontal_step: usize,
    vertical_step: usize,
    slope: &Vec<Vec<usize>>,
) -> (r: Position)
    requires
        board_size >= 1,
        vertical_step >= 1,
        board_size + horizontal_step <= usize::MAX,
        slope@.len() + vertical_step <= usize::MAX,
    ensures
        ({
            let t = spec_collisions(
                slope@.map_values(|v: Vec<usize>| v@),
                board_size as int,
                horizontal_step as int,
                vertical_step as int,
                0,
                0,
                0,
            );
            r.horizontal == t.0 && r.count == t.1
        }),
{
    let ghost sv = slope@.map_values(|v: Vec<usize>| v@);
    let mut row: usize = 0;
    let mut h: usize = 0;
    let mut count: usize = 0;
    while row < slope.len()
        invariant
            sv == slope@.map_values(|v: Vec<usize>| v@),
            sv.len() == slope@.len(),
            board_size >= 1,
            vertical_step >= 1,
            board_size + horizontal_step <= usize::MAX,
            slope@.len() + vertical_step <= usize::MAX,
            h < board_size,
            count <= row,
            row <= slope@.len() + vertical_step,
            spec_collisions(
                sv,
                board_size as int,
                horizontal_step as int,
                vertical_step as int,
                0,
                0,
                0,
            ) == spec_collisions(
                sv,
                board_size as int,
                horizontal_step as int,
                vertical_step as int,
                row as int,
                h as int,
                count as int,
            ),
        decreases
                if slope@.len() - row >= 0 {
                    slope@.len() - row
                } else {
                    0
                },
    {
        let hit = contains_usize(&slope[row], h);
        proof {
            assert(sv[row as int] == slope@[row as int]@);
        }
        if hit {
            count = count + 1;
        }
        h = (h + horizontal_step) % board_size;
        row = row + vertical_step;
    }
    Position { horizontal: h, count }
}

} // verus!
