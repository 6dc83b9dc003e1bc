//! Reconstruction of a square-tile mosaic from border fingerprints.
//!
//! Each tile is a 10x10 bitmap stored as ten row bitmasks; bit `k` of a row
//! is set when the pixel `k` positions from the left edge is on. Tiles are
//! matched to one another purely by comparing the bit patterns along their
//! four edges, in both the natural and the mirrored reading: a tile may have
//! been scanned flipped, so two edges fit when one equals the other or its
//! bit reversal.

use vstd::prelude::*;

use crate::file_util::all_digits;
use crate::file_util::decimal_value;
use crate::file_util::lines_view;

verus! {

/// True when bit `k` of `v` is set.
pub open spec fn bit_at(v: u16, k: u16) -> bool {
    v & (1u16 << k) != 0
}

/// A row or border bitmask is in range when only its low ten bits can be set.
pub open spec fn row_in_range(v: u16) -> bool {
    v < 1024
}

/// The ten-bit reversal of `v`: bit `k` of the result is bit `9 - k` of `v`.
/// Bits of `v` above the ten-bit field are discarded.
pub open spec fn spec_mirror_row(v: u16) -> u16 {
    ((v & 0x001) << 9) | ((v & 0x002) << 7) | ((v & 0x004) << 5) | ((v & 0x008) << 3) | ((v
        & 0x010) << 1) | ((v & 0x020) >> 1) | ((v & 0x040) >> 3) | ((v & 0x080) >> 5) | ((v
        & 0x100) >> 7) | ((v & 0x200) >> 9)
}

/// Reverses the order of the ten bits of a border or row fingerprint.
pub fn mirror_row(v: u16) -> (r: u16)
    ensures
        r == spec_mirror_row(v),
{
    ((v & 0x001) << 9) | ((v & 0x002) << 7) | ((v & 0x004) << 5) | ((v & 0x008) << 3) | ((v
        & 0x010) << 1) | ((v & 0x020) >> 1) | ((v & 0x040) >> 3) | ((v & 0x080) >> 5) | ((v
        & 0x100) >> 7) | ((v & 0x200) >> 9)
}

/// Mirroring keeps the result within the ten-bit field and exchanges
/// bit `k` with bit `9 - k`.
pub proof fn lemma_mirror_row_bits(v: u16)
    by (bit_vector)
    ensures
        row_in_range(spec_mirror_row(v)),
        forall|k: u16| k < 10 ==> #[trigger] bit_at(spec_mirror_row(v), k) == bit_at(
            v,
            (9 - k) as u16,
        ),
{
}

/// Mirroring a ten-bit value twice gives the value back: it is an involution.
pub proof fn lemma_mirror_row_involution(v: u16)
    by (bit_vector)
    requires
        row_in_range(v),
    ensures
        spec_mirror_row(spec_mirror_row(v)) == v,
{
}

/// A row of all-identical pixels reads the same in both directions.
pub proof fn lemma_mirror_row_uniform()
    by (bit_vector)
    ensures
        spec_mirror_row(0) == 0,
        spec_mirror_row(0x3ff) == 0x3ff,
{
}

/// Setting one low bit keeps a ten-bit value in range and changes exactly
/// that bit.
proof fn lemma_set_bit(v: u16, i: u16)
    by (bit_vector)
    requires
        row_in_range(v),
        i < 10,
    ensures
        row_in_range(v | (1u16 << i)),
        forall|k: u16| k < 16 ==> #[trigger] bit_at(v | (1u16 << i), k) == (bit_at(v, k) || k
            == i),
{
}

/// The mask tests of the edge columns read single bits.
proof fn lemma_edge_bits(v: u16)
    by (bit_vector)
    ensures
        (v & 1 == 1) == bit_at(v, 0),
        (v & 512 == 512) == bit_at(v, 9),
{
}

/// Pixel `x` of row `y` of a tile bitmap.
pub open spec fn grid_cell(rows: Seq<u16>, y: int, x: int) -> bool {
    bit_at(rows[y], x as u16)
}

/// A tile bitmap holds exactly ten rows, each within the ten-bit field.
pub open spec fn rows_well_formed(rows: Seq<u16>) -> bool {
    &&& rows.len() == 10
    &&& forall|i: int| 0 <= i < 10 ==> row_in_range(#[trigger] rows[i])
}

/// One scanned tile: its identifier, its pixel rows, its four border
/// fingerprints read clockwise and anti-clockwise, and the neighbours found
/// for each side.
///
/// Sides are numbered 0 top, 1 right, 2 bottom, 3 left. The clockwise
/// reading of side `s` follows the edge walking the perimeter clockwise
/// (top left-to-right, right top-to-bottom, bottom right-to-left, left
/// bottom-to-top); the anti-clockwise reading is its bit reversal.
pub struct Block {
    pub id: u16,
    pub rows: Vec<u16>,
    pub border_clockwise: Vec<u16>,
    pub border_anti_clockwise: Vec<u16>,
    pub matching_ids: Vec<Option<(u16, bool)>>,
}

/// The number of sides without a recorded neighbour.
pub open spec fn count_missing(s: Seq<Option<(u16, bool)>>) -> int
    decreases s.len(),
{
    if s.len() == 0 {
        0
    } else {
        count_missing(s.drop_last()) + if s.last() is None {
            1int
        } else {
            0int
        }
    }
}

impl Block {
    /// The borders stored in a block agree with its rows.
    pub open spec fn well_formed(&self) -> bool {
        &&& rows_well_formed(self.rows@)
        &&& self.border_clockwise@.len() == 4
        &&& self.border_anti_clockwise@.len() == 4
        &&& self.matching_ids@.len() == 4
        &&& forall|s: int|
            0 <= s < 4 ==> row_in_range(#[trigger] self.border_clockwise@[s])
        &&& forall|s: int|
            0 <= s < 4 ==> #[trigger] self.border_anti_clockwise@[s] == spec_mirror_row(
                self.border_clockwise@[s],
            )
        &&& self.border_clockwise@[0] == self.rows@[0]
        &&& self.border_clockwise@[2] == spec_mirror_row(self.rows@[9])
        &&& forall|k: u16|
            k < 10 ==> #[trigger] bit_at(self.border_clockwise@[1], k) == bit_at(
                self.rows@[k as int],
                9,
            )
        &&& forall|k: u16|
            k < 10 ==> #[trigger] bit_at(self.border_clockwise@[3], k) == bit_at(
                self.rows@[9 - k as int],
                0,
            )
    }

    /// The border fingerprint of side `side` in its natural reading:
    /// the top and bottom rows read left-to-right, the left and right
    /// columns read top-to-bottom.
    pub open spec fn spec_border(&self, side: int) -> u16 {
        if side == 0 {
            self.border_clockwise@[0]
        } else if side == 1 {
            self.border_clockwise@[1]
        } else if side == 2 {
            self.border_anti_clockwise@[2]
        } else {
            self.border_anti_clockwise@[3]
        }
    }

    /// Builds a tile from its identifier and its ten row bitmasks,
    /// deriving the four border fingerprints; no neighbours are recorded
    /// yet.
    pub fn new(id: u16, rows: Vec<u16>) -> (r: Block)
        requires
            rows_well_formed(rows@),
        ensures
            r.well_formed(),
            r.id == id,
            r.rows@ == rows@,
            r.matching_ids@ =~= seq![
                None::<(u16, bool)>,
                None::<(u16, bool)>,
                None::<(u16, bool)>,
                None::<(u16, bool)>,
            ],
    {
        let mut left: u16 = 0;
        let mut right: u16 = 0;
        proof {
            assert(forall|k: u16| !bit_at(0u16, k)) by (bit_vector);
        }
        for i in 0..10u16
            invariant
                rows_well_formed(rows@),
                row_in_range(left),
                row_in_range(right),
                forall|k: u16|
                    k < 10 ==> #[trigger] bit_at(left, k) == (k < i && bit_at(
                        rows@[9 - k as int],
                        0,
                    )),
                forall|k: u16|
                    k < 10 ==> #[trigger] bit_at(right, k) == (k < i && bit_at(
                        rows@[k as int],
                        9,
                    )),
        {
            let low_row = rows[9 - i as usize];
            let high_row = rows[i as usize];
            let ghost left0 = left;
            let ghost right0 = right;
            proof {
                lemma_edge_bits(low_row);
                lemma_edge_bits(high_row);
                lemma_set_bit(left, i);
                lemma_set_bit(right, i);
            }
            if low_row & 1 == 1 {
                left = left | (1u16 << i);
            }
            if high_row & 512 == 512 {
                right = right | (1u16 << i);
            }
            proof {
                assert forall|k: u16| k < 10 implies #[trigger] bit_at(left, k) == (k < i + 1
                    && bit_at(rows@[9 - k as int], 0)) by {
                    if low_row & 1 == 1 {
                        assert(left == left0 | (1u16 << i));
                        assert(bit_at(left0 | (1u16 << i), k) == (bit_at(left0, k) || k == i));
                    } else {
                        assert(left == left0);
                    }
                }
                assert forall|k: u16| k < 10 implies #[trigger] bit_at(right, k) == (k < i + 1
                    && bit_at(rows@[k as int], 9)) by {
                    if high_row & 512 == 512 {
                        assert(right == right0 | (1u16 << i));
                        assert(bit_at(right0 | (1u16 << i), k) == (bit_at(right0, k) || k == i));
                    } else {
                        assert(right == right0);
                    }
                }
            }
        }
        let top = rows[0];
        let bottom = rows[9];
        proof {
            lemma_mirror_row_bits(bottom);
            lemma_mirror_row_involution(bottom);
        }
        let border_clockwise = vec![top, right, mirror_row(bottom), left];
        let border_anti_clockwise = vec![
            mirror_row(top),
            mirror_row(right),
            bottom,
            mirror_row(left),
        ];
        Block {
            id,
            rows,
            border_clockwise,
            border_anti_clockwise,
            matching_ids: vec![None, None, None, None],
        }
    }

    /// The natural border fingerprint of side `side` (0 top, 1 right,
    /// 2 bottom, 3 left).
    pub fn border(&self, side: usize) -> (r: u16)
        requires
            self.well_formed(),
            side < 4,
        ensures
            r == self.spec_border(side as int),
            row_in_range(r),
    {
        proof {
            lemma_mirror_row_bits(self.border_clockwise@[side as int]);
        }
        if side == 0 || side == 1 {
            self.border_clockwise[side]
        } else {
            self.border_anti_clockwise[side]
        }
    }

    /// The border fingerprint of side `side` read in the opposite
    /// direction, as it would appear on a tile scanned flipped.
    pub fn mirrored_border(&self, side: usize) -> (r: u16)
        requires
            self.well_formed(),
            side < 4,
        ensures
            r == spec_mirror_row(self.spec_border(side as int)),
            row_in_range(r),
    {
        let b = self.border(side);
        proof {
            lemma_mirror_row_bits(b);
        }
        mirror_row(b)
    }

    /// The number of sides for which no matching tile was recorded.
    pub fn missing_sides(&self) -> (r: usize)
        requires
            self.matching_ids@.len() == 4,
        ensures
            r == count_missing(self.matching_ids@),
            r <= 4,
    {
        let mut count: usize = 0;
        for i in 0..4usize
            invariant
                self.matching_ids@.len() == 4,
                count == count_missing(self.matching_ids@.take(i as int)),
                count <= i,
        {
            proof {
                assert(self.matching_ids@.take(i + 1).drop_last() =~= self.matching_ids@.take(
                    i as int,
                ));
                assert(self.matching_ids@.take(i + 1).last() == self.matching_ids@[i as int]);
            }
            if self.matching_ids[i].is_none() {
                count = count + 1;
            }
        }
        proof {
            assert(self.matching_ids@.take(4) =~= self.matching_ids@);
        }
        count
    }

    /// The half-turn of a bitmap: reverses the row order and mirrors every
    /// row.
    pub fn transform_xy(to_transform: &Vec<u16>) -> (r: Vec<u16>)
        requires
            rows_well_formed(to_transform@),
        ensures
            rows_well_formed(r@),
            forall|y: int, x: int|
                0 <= y < 10 && 0 <= x < 10 ==> #[trigger] grid_cell(r@, y, x) == grid_cell(
                    to_transform@,
                    9 - y,
                    9 - x,
                ),
    {
        let mut out: Vec<u16> = Vec::new();
        for y in 0..10usize
            invariant
                rows_well_formed(to_transform@),
                out@.len() == y,
                forall|i: int| 0 <= i < y ==> row_in_range(#[trigger] out@[i]),
                forall|i: int, x: int|
                    0 <= i < y && 0 <= x < 10 ==> #[trigger] grid_cell(out@, i, x) == grid_cell(
                        to_transform@,
                        9 - i,
                        9 - x,
                    ),
        {
            let v = to_transform[9 - y];
            proof {
                lemma_mirror_row_bits(v);
            }
            let ghost out0 = out@;
            out.push(mirror_row(v));
            proof {
                assert forall|i: int, x: int|
                    0 <= i < y + 1 && 0 <= x < 10 implies #[trigger] grid_cell(out@, i, x)
                    == grid_cell(to_transform@, 9 - i, 9 - x) by {
                    if i < y as int {
                        assert(out@[i] == out0[i]);
                        assert(grid_cell(out0, i, x) == grid_cell(to_transform@, 9 - i, 9 - x));
                    } else {
                        assert(out@[i] == spec_mirror_row(v));
                        assert(bit_at(spec_mirror_row(v), x as u16) == bit_at(
                            v,
                            (9 - x as u16) as u16,
                        ));
                    }
                }
            }
        }
        out
    }

    /// The bitmap of this tile as displayed under the given orientation:
    /// the flip is applied first, the rotation second.
    pub fn transformed_rows(&self, flip: Flip, rotate: Rotate) -> (r: Vec<u16>)
        requires
            self.well_formed(),
        ensures
            rows_well_formed(r@),
            forall|y: int, x: int|
                0 <= y < 10 && 0 <= x < 10 ==> #[trigger] grid_cell(r@, y, x) == grid_cell(
                    self.rows@,
                    transform_src(flip, rotate, y, x).0,
                    transform_src(flip, rotate, y, x).1,
                ),
            flip == Flip::Identity && rotate == Rotate::Identity ==> r@ == self.rows@,
    {
        let flipped = match flip {
            Flip::Identity => copy_rows(&self.rows),
            Flip::FlipX => flip_x_rows(&self.rows),
            Flip::FlipY => flip_y_rows(&self.rows),
            Flip::FlipXY => Block::transform_xy(&self.rows),
        };
        let ghost fseq = flipped@;
        proof {
            assert forall|y: int, x: int|
                0 <= y < 10 && 0 <= x < 10 implies #[trigger] grid_cell(fseq, y, x) == grid_cell(
                self.rows@,
                flip_src(flip, y, x).0,
                flip_src(flip, y, x).1,
            ) by {}
        }
        let result = match rotate {
            Rotate::Identity => flipped,
            Rotate::RotateRight => rotate_right_rows(&flipped),
            Rotate::RotateLeft => {
                let t = rotate_right_rows(&flipped);
                let t2 = rotate_right_rows(&t);
                let t3 = rotate_right_rows(&t2);
                proof {
                    assert forall|y: int, x: int|
                        0 <= y < 10 && 0 <= x < 10 implies #[trigger] grid_cell(t3@, y, x)
                        == grid_cell(fseq, x, 9 - y) by {
                        assert(grid_cell(t3@, y, x) == grid_cell(t2@, 9 - x, y));
                        assert(grid_cell(t2@, 9 - x, y) == grid_cell(t@, 9 - y, 9 - x));
                        assert(grid_cell(t@, 9 - y, 9 - x) == grid_cell(fseq, x, 9 - y));
                    }
                }
                t3
            },
            Rotate::RotateRightRight => Block::transform_xy(&flipped),
        };
        proof {
            assert forall|y: int, x: int|
                0 <= y < 10 && 0 <= x < 10 implies #[trigger] grid_cell(result@, y, x)
                == grid_cell(
                self.rows@,
                transform_src(flip, rotate, y, x).0,
                transform_src(flip, rotate, y, x).1,
            ) by {
                let ry = rotate_src(rotate, y, x).0;
                let rx = rotate_src(rotate, y, x).1;
                assert(0 <= ry < 10 && 0 <= rx < 10);
                assert(grid_cell(result@, y, x) == grid_cell(fseq, ry, rx));
                assert(grid_cell(fseq, ry, rx) == grid_cell(
                    self.rows@,
                    flip_src(flip, ry, rx).0,
                    flip_src(flip, ry, rx).1,
                ));
            }
        }
        result
    }
}

/// The reflections a tile may be displayed under, applied before any
/// rotation: `FlipX` mirrors every row (left-right), `FlipY` reverses the
/// row order (top-bottom), `FlipXY` does both.
#[derive(Clone, Copy, PartialEq, Eq, Debug)]
pub enum Flip {
    FlipX,
    FlipY,
    FlipXY,
    Identity,
}

/// The quarter-turn rotations a tile may be displayed under, applied after
/// the flip: `RotateRight` is a quarter turn clockwise, `RotateLeft` a
/// quarter turn anti-clockwise, `RotateRightRight` a half turn.
#[derive(Clone, Copy, PartialEq, Eq, Debug)]
pub enum Rotate {
    RotateLeft,
    RotateRight,
    RotateRightRight,
    Identity,
}

/// The source cell that a flip reads for destination cell `(y, x)`.
pub open spec fn flip_src(f: Flip, y: int, x: int) -> (int, int) {
    match f {
        Flip::Identity => (y, x),
        Flip::FlipX => (y, 9 - x),
        Flip::FlipY => (9 - y, x),
        Flip::FlipXY => (9 - y, 9 - x),
    }
}

/// The source cell that a rotation reads for destination cell `(y, x)`.
pub open spec fn rotate_src(r: Rotate, y: int, x: int) -> (int, int) {
    match r {
        Rotate::Identity => (y, x),
        Rotate::RotateRight => (9 - x, y),
        Rotate::RotateLeft => (x, 9 - y),
        Rotate::RotateRightRight => (9 - y, 9 - x),
    }
}

/// The source cell of the original bitmap for destination cell `(y, x)`
/// after flipping first and rotating second.
pub open spec fn transform_src(f: Flip, r: Rotate, y: int, x: int) -> (int, int) {
    flip_src(f, rotate_src(r, y, x).0, rotate_src(r, y, x).1)
}

/// Two ten-bit values that agree on all ten bits are equal.
proof fn lemma_bits_determine(a: u16, b: u16)
    by (bit_vector)
    requires
        row_in_range(a),
        row_in_range(b),
        bit_at(a, 0) == bit_at(b, 0),
        bit_at(a, 1) == bit_at(b, 1),
        bit_at(a, 2) == bit_at(b, 2),
        bit_at(a, 3) == bit_at(b, 3),
        bit_at(a, 4) == bit_at(b, 4),
        bit_at(a, 5) == bit_at(b, 5),
        bit_at(a, 6) == bit_at(b, 6),
        bit_at(a, 7) == bit_at(b, 7),
        bit_at(a, 8) == bit_at(b, 8),
        bit_at(a, 9) == bit_at(b, 9),
    ensures
        a == b,
{
}

/// Two well-formed bitmaps that agree on every cell are equal.
pub proof fn lemma_grids_equal(a: Seq<u16>, b: Seq<u16>)
    requires
        rows_well_formed(a),
        rows_well_formed(b),
        forall|y: int, x: int|
            0 <= y < 10 && 0 <= x < 10 ==> #[trigger] grid_cell(a, y, x) == grid_cell(b, y, x),
    ensures
        a == b,
{
    assert forall|y: int| 0 <= y < 10 implies a[y] == b[y] by {
        assert forall|k: u16| k < 10 implies #[trigger] bit_at(a[y], k) == bit_at(b[y], k) by {
            assert(grid_cell(a, y, k as int) == grid_cell(b, y, k as int));
        }
        assert(bit_at(a[y], 0) == bit_at(b[y], 0));
        assert(bit_at(a[y], 1) == bit_at(b[y], 1));
        assert(bit_at(a[y], 2) == bit_at(b[y], 2));
        assert(bit_at(a[y], 3) == bit_at(b[y], 3));
        assert(bit_at(a[y], 4) == bit_at(b[y], 4));
        assert(bit_at(a[y], 5) == bit_at(b[y], 5));
        assert(bit_at(a[y], 6) == bit_at(b[y], 6));
        assert(bit_at(a[y], 7) == bit_at(b[y], 7));
        assert(bit_at(a[y], 8) == bit_at(b[y], 8));
        assert(bit_at(a[y], 9) == bit_at(b[y], 9));
        lemma_bits_determine(a[y], b[y]);
    }
    assert(a =~= b);
}

/// A half turn applied twice restores the original bitmap.
pub proof fn lemma_half_turn_involution(rows: Seq<u16>, once: Seq<u16>, twice: Seq<u16>)
    requires
        rows_well_formed(rows),
        rows_well_formed(once),
        rows_well_formed(twice),
        forall|y: int, x: int|
            0 <= y < 10 && 0 <= x < 10 ==> #[trigger] grid_cell(once, y, x) == grid_cell(
                rows,
                9 - y,
                9 - x,
            ),
        forall|y: int, x: int|
            0 <= y < 10 && 0 <= x < 10 ==> #[trigger] grid_cell(twice, y, x) == grid_cell(
                once,
                9 - y,
                9 - x,
            ),
    ensures
        twice == rows,
{
    assert forall|y: int, x: int|
        0 <= y < 10 && 0 <= x < 10 implies #[trigger] grid_cell(twice, y, x) == grid_cell(
        rows,
        y,
        x,
    ) by {
        assert(grid_cell(twice, y, x) == grid_cell(once, 9 - y, 9 - x));
        assert(grid_cell(once, 9 - y, 9 - x) == grid_cell(rows, y, x));
    }
    lemma_grids_equal(twice, rows);
}

/// Copies a bitmap row by row.
fn copy_rows(rows: &Vec<u16>) -> (r: Vec<u16>)
    ensures
        r@ == rows@,
{
    let mut out: Vec<u16> = Vec::new();
    let n = rows.len();
    for y in 0..n
        invariant
            n == rows@.len(),
            out@ =~= rows@.take(y as int),
    {
        out.push(rows[y]);
        proof {
            assert(out@ =~= rows@.take(y as int + 1));
        }
    }
    proof {
        assert(rows@.take(n as int) =~= rows@);
    }
    out
}

/// Mirrors every row: the left-right reflection of the bitmap.
fn flip_x_rows(rows: &Vec<u16>) -> (r: Vec<u16>)
    requires
        rows_well_formed(rows@),
    ensures
        rows_well_formed(r@),
        forall|y: int, x: int|
            0 <= y < 10 && 0 <= x < 10 ==> #[trigger] grid_cell(r@, y, x) == grid_cell(
                rows@,
                y,
                9 - x,
            ),
{
    let mut out: Vec<u16> = Vec::new();
    for y in 0..10usize
        invariant
            rows_well_formed(rows@),
            out@.len() == y,
            forall|i: int| 0 <= i < y ==> row_in_range(#[trigger] out@[i]),
            forall|i: int, x: int|
                0 <= i < y && 0 <= x < 10 ==> #[trigger] grid_cell(out@, i, x) == grid_cell(
                    rows@,
                    i,
                    9 - x,
                ),
    {
        let v = rows[y];
        proof {
            lemma_mirror_row_bits(v);
        }
        let ghost out0 = out@;
        out.push(mirror_row(v));
        proof {
            assert forall|i: int, x: int|
                0 <= i < y + 1 && 0 <= x < 10 implies #[trigger] grid_cell(out@, i, x)
                == grid_cell(rows@, i, 9 - x) by {
                if i < y as int {
                    assert(out@[i] == out0[i]);
                    assert(grid_cell(out0, i, x) == grid_cell(rows@, i, 9 - x));
                } else {
                    assert(out@[i] == spec_mirror_row(v));
                    assert(bit_at(spec_mirror_row(v), x as u16) == bit_at(
                        v,
                        (9 - x as u16) as u16,
                    ));
                }
            }
        }
    }
    out
}

/// Reverses the order of the rows: the top-bottom reflection of the bitmap.
fn flip_y_rows(rows: &Vec<u16>) -> (r: Vec<u16>)
    requires
        rows_well_formed(rows@),
    ensures
        rows_well_formed(r@),
        forall|y: int, x: int|
            0 <= y < 10 && 0 <= x < 10 ==> #[trigger] grid_cell(r@, y, x) == grid_cell(
                rows@,
                9 - y,
                x,
            ),
{
    let mut out: Vec<u16> = Vec::new();
    for y in 0..10usize
        invariant
            rows_well_formed(rows@),
            out@.len() == y,
            forall|i: int| 0 <= i < y ==> #[trigger] out@[i] == rows@[9 - i],
    {
        out.push(rows[9 - y]);
    }
    out
}

/// Builds one row of a quarter-turn-clockwise rotation: bit `x` of the
/// result is bit `y` of source row `9 - x`.
fn rotate_right_row(g: &Vec<u16>, y: u16) -> (r: u16)
    requires
        rows_well_formed(g@),
        y < 10,
    ensures
        row_in_range(r),
        forall|k: u16| k < 10 ==> #[trigger] bit_at(r, k) == bit_at(g@[9 - k as int], y),
{
    let mut row: u16 = 0;
    proof {
        assert(forall|k: u16| !bit_at(0u16, k)) by (bit_vector);
    }
    for x in 0..10u16
        invariant
            rows_well_formed(g@),
            y < 10,
            row_in_range(row),
            forall|k: u16|
                k < 10 ==> #[trigger] bit_at(row, k) == (k < x && bit_at(g@[9 - k as int], y)),
    {
        let src = g[9 - x as usize];
        let ghost row0 = row;
        proof {
            lemma_set_bit(row, x);
        }
        if src & (1u16 << y) != 0 {
            row = row | (1u16 << x);
        }
        proof {
            assert forall|k: u16| k < 10 implies #[trigger] bit_at(row, k) == (k < x + 1 && bit_at(
                g@[9 - k as int],
                y,
            )) by {
                if src & (1u16 << y) != 0 {
                    assert(row == row0 | (1u16 << x));
                    assert(bit_at(row0 | (1u16 << x), k) == (bit_at(row0, k) || k == x));
                } else {
                    assert(row == row0);
                }
            }
        }
    }
    row
}

/// The quarter-turn-clockwise rotation of the bitmap.
fn rotate_right_rows(g: &Vec<u16>) -> (r: Vec<u16>)
    requires
        rows_well_formed(g@),
    ensures
        rows_well_formed(r@),
        forall|y: int, x: int|
            0 <= y < 10 && 0 <= x < 10 ==> #[trigger] grid_cell(r@, y, x) == grid_cell(
                g@,
                9 - x,
                y,
            ),
{
    let mut out: Vec<u16> = Vec::new();
    for y in 0..10u16
        invariant
            rows_well_formed(g@),
            out@.len() == y,
            forall|i: int| 0 <= i < y ==> row_in_range(#[trigger] out@[i]),
            forall|i: int, x: int|
                0 <= i < y && 0 <= x < 10 ==> #[trigger] grid_cell(out@, i, x) == grid_cell(
                    g@,
                    9 - x,
                    i,
                ),
    {
        let row = rotate_right_row(g, y);
        let ghost out0 = out@;
        out.push(row);
        proof {
            assert forall|i: int, x: int|
                0 <= i < y + 1 && 0 <= x < 10 implies #[trigger] grid_cell(out@, i, x)
                == grid_cell(g@, 9 - x, i) by {
                if i < y as int {
                    assert(out@[i] == out0[i]);
                    assert(grid_cell(out0, i, x) == grid_cell(g@, 9 - x, i));
                } else {
                    assert(out@[i] == row);
                    assert(bit_at(row, x as u16) == bit_at(g@[9 - x as u16 as int], i as u16));
                }
            }
        }
    }
    out
}

/// A block's border and match vectors have their fixed lengths.
pub open spec fn sized(b: Block) -> bool {
    &&& b.border_clockwise@.len() == 4
    &&& b.border_anti_clockwise@.len() == 4
    &&& b.matching_ids@.len() == 4
}

/// Two blocks describe the same tile: only the recorded matches may differ.
pub open spec fn same_borders(x: Block, y: Block) -> bool {
    &&& x.id == y.id
    &&& x.rows@ == y.rows@
    &&& x.border_clockwise@ == y.border_clockwise@
    &&& x.border_anti_clockwise@ == y.border_anti_clockwise@
}

/// Side `i` of a tile with borders `cwa`/`acwa` fits side `j` of a tile
/// whose clockwise borders are `cwb`, either directly or mirrored.
pub open spec fn side_match_at(cwa: Seq<u16>, acwa: Seq<u16>, cwb: Seq<u16>, i: int, j: int) -> bool {
    cwa[i] == cwb[j] || acwa[i] == cwb[j]
}

/// The first side of the second tile at or after `j` that is still
/// unmatched and fits side `i` of the first, with the flag telling
/// whether the fit needed the mirrored reading.
pub open spec fn find_slot(
    cwa: Seq<u16>,
    acwa: Seq<u16>,
    cwb: Seq<u16>,
    mb: Seq<Option<(u16, bool)>>,
    i: int,
    j: int,
) -> Option<(int, bool)>
    decreases 4 - j,
    when 0 <= j
{
    if j >= 4 {
        None
    } else if mb[j] is None && side_match_at(cwa, acwa, cwb, i, j) {
        Some((j, acwa[i] == cwb[j]))
    } else {
        find_slot(cwa, acwa, cwb, mb, i, j + 1)
    }
}

/// One pairing pass between two tiles, walking the sides of the first
/// from `i` on: a side that already has a neighbour keeps it — the first
/// match wins — and an unmatched side takes the first still-unmatched
/// fitting side of the second tile, both records written together with
/// the same flag.
pub open spec fn pair_fold(
    cwa: Seq<u16>,
    acwa: Seq<u16>,
    cwb: Seq<u16>,
    ida: u16,
    idb: u16,
    ma: Seq<Option<(u16, bool)>>,
    mb: Seq<Option<(u16, bool)>>,
    i: int,
) -> (Seq<Option<(u16, bool)>>, Seq<Option<(u16, bool)>>)
    decreases 4 - i,
    when 0 <= i
{
    if i >= 4 {
        (ma, mb)
    } else if ma[i] is Some {
        pair_fold(cwa, acwa, cwb, ida, idb, ma, mb, i + 1)
    } else {
        match find_slot(cwa, acwa, cwb, mb, i, 0) {
            None => pair_fold(cwa, acwa, cwb, ida, idb, ma, mb, i + 1),
            Some(t) => pair_fold(
                cwa,
                acwa,
                cwb,
                ida,
                idb,
                ma.update(i, Some((idb, t.1))),
                mb.update(t.0, Some((ida, t.1))),
                i + 1,
            ),
        }
    }
}

/// The two match rows after pairing tile `a` against tile `b`.
pub open spec fn spec_pair_records(a: Block, b: Block) -> (
    Seq<Option<(u16, bool)>>,
    Seq<Option<(u16, bool)>>,
) {
    pair_fold(
        a.border_clockwise@,
        a.border_anti_clockwise@,
        b.border_clockwise@,
        a.id,
        b.id,
        a.matching_ids@,
        b.matching_ids@,
        0,
    )
}

/// The match records of a set of tiles, one four-slot row per tile.
pub open spec fn matches_of(s: Seq<Block>) -> Seq<Seq<Option<(u16, bool)>>> {
    s.map_values(|b: Block| b.matching_ids@)
}

/// One pairing pass between tiles `a` and `b` of the set, recorded in
/// the match rows.
pub open spec fn apply_pair_m(
    s: Seq<Block>,
    m: Seq<Seq<Option<(u16, bool)>>>,
    a: int,
    b: int,
) -> Seq<Seq<Option<(u16, bool)>>> {
    let r = pair_fold(
        s[a].border_clockwise@,
        s[a].border_anti_clockwise@,
        s[b].border_clockwise@,
        s[a].id,
        s[b].id,
        m[a],
        m[b],
        0,
    );
    m.update(a, r.0).update(b, r.1)
}

/// Pairs tile `a` against every tile from index `b` on.
pub open spec fn sweep_m(
    s: Seq<Block>,
    m: Seq<Seq<Option<(u16, bool)>>>,
    a: int,
    b: int,
) -> Seq<Seq<Option<(u16, bool)>>>
    decreases s.len() - b,
    when 0 <= b
{
    if b >= s.len() {
        m
    } else {
        sweep_m(s, apply_pair_m(s, m, a, b), a, b + 1)
    }
}

/// Pairs every tile from index `a` on against all tiles after it.
pub open spec fn populate_from_m(
    s: Seq<Block>,
    m: Seq<Seq<Option<(u16, bool)>>>,
    a: int,
) -> Seq<Seq<Option<(u16, bool)>>>
    decreases s.len() - a,
    when 0 <= a
{
    if a >= s.len() {
        m
    } else {
        populate_from_m(s, sweep_m(s, m, a, a + 1), a + 1)
    }
}

/// The match records produced by pairing every unordered pair of tiles in
/// index order, starting from the records the tiles already hold.
pub open spec fn spec_populate(s: Seq<Block>) -> Seq<Seq<Option<(u16, bool)>>> {
    populate_from_m(s, matches_of(s), 0)
}

impl Block {
    /// Pairs `self` against `block`: every still-unmatched side of `self`
    /// takes the first still-unmatched fitting side of `block`, and the
    /// two records are written together — each names the other tile and
    /// whether the fit needed the mirrored reading. A side that already
    /// has a neighbour keeps it: the first match wins and no record is
    /// ever overwritten.
    pub fn add_matching_sides(&mut self, block: &mut Block)
        requires
            sized(*old(self)),
            sized(*old(block)),
        ensures
            sized(*final(self)),
            sized(*final(block)),
            same_borders(*final(self), *old(self)),
            same_borders(*final(block), *old(block)),
            final(self).matching_ids@ == spec_pair_records(*old(self), *old(block)).0,
            final(block).matching_ids@ == spec_pair_records(*old(self), *old(block)).1,
    {
        let ghost cwa = self.border_clockwise@;
        let ghost acwa = self.border_anti_clockwise@;
        let ghost cwb = block.border_clockwise@;
        let ghost ida = self.id;
        let ghost idb = block.id;
        let ghost ma0 = self.matching_ids@;
        let ghost mb0 = block.matching_ids@;
        for i in 0..4usize
            invariant
                sized(*self),
                sized(*block),
                same_borders(*self, *old(self)),
                same_borders(*block, *old(block)),
                cwa == self.border_clockwise@,
                acwa == self.border_anti_clockwise@,
                cwb == block.border_clockwise@,
                ida == self.id,
                idb == block.id,
                ma0 == old(self).matching_ids@,
                mb0 == old(block).matching_ids@,
                pair_fold(cwa, acwa, cwb, ida, idb, ma0, mb0, 0) == pair_fold(
                    cwa,
                    acwa,
                    cwb,
                    ida,
                    idb,
                    self.matching_ids@,
                    block.matching_ids@,
                    i as int,
                ),
        {
            if self.matching_ids[i].is_some() {
                proof {
                    assert(pair_fold(
                        cwa,
                        acwa,
                        cwb,
                        ida,
                        idb,
                        self.matching_ids@,
                        block.matching_ids@,
                        i as int,
                    ) == pair_fold(
                        cwa,
                        acwa,
                        cwb,
                        ida,
                        idb,
                        self.matching_ids@,
                        block.matching_ids@,
                        i as int + 1,
                    ));
                }
            } else {
                let mut j: usize = 0;
                let mut chosen: Option<(usize, bool)> = None;
                loop
                    invariant_except_break
                        chosen is None,
                        find_slot(cwa, acwa, cwb, block.matching_ids@, i as int, 0) == find_slot(
                            cwa,
                            acwa,
                            cwb,
                            block.matching_ids@,
                            i as int,
                            j as int,
                        ),
                    invariant
                        i < 4,
                        j <= 4,
                        sized(*self),
                        sized(*block),
                        cwa == self.border_clockwise@,
                        acwa == self.border_anti_clockwise@,
                        cwb == block.border_clockwise@,
                    ensures
                        match chosen {
                            None => find_slot(
                                cwa,
                                acwa,
                                cwb,
                                block.matching_ids@,
                                i as int,
                                0,
                            ) is None,
                            Some(t) => t.0 < 4 && find_slot(
                                cwa,
                                acwa,
                                cwb,
                                block.matching_ids@,
                                i as int,
                                0,
                            ) == Some((t.0 as int, t.1)),
                        },
                    decreases 4 - j,
                {
                    if j >= 4 {
                        proof {
                            assert(find_slot(
                                cwa,
                                acwa,
                                cwb,
                                block.matching_ids@,
                                i as int,
                                j as int,
                            ) is None);
                        }
                        break ;
                    }
                    if block.matching_ids[j].is_none() {
                        let side = self.border_clockwise[i];
                        let flipped_side = self.border_anti_clockwise[i];
                        let other_side = block.border_clockwise[j];
                        if side == other_side || flipped_side == other_side {
                            let f = flipped_side == other_side;
                            chosen = Some((j, f));
                            proof {
                                assert(find_slot(
                                    cwa,
                                    acwa,
                                    cwb,
                                    block.matching_ids@,
                                    i as int,
                                    j as int,
                                ) == Some((j as int, f)));
                            }
                            break ;
                        }
                    }
                    proof {
                        assert(find_slot(cwa, acwa, cwb, block.matching_ids@, i as int, j as int)
                            == find_slot(
                            cwa,
                            acwa,
                            cwb,
                            block.matching_ids@,
                            i as int,
                            j as int + 1,
                        ));
                    }
                    j = j + 1;
                }
                match chosen {
                    None => {
                        proof {
                            assert(pair_fold(
                                cwa,
                                acwa,
                                cwb,
                                ida,
                                idb,
                                self.matching_ids@,
                                block.matching_ids@,
                                i as int,
                            ) == pair_fold(
                                cwa,
                                acwa,
                                cwb,
                                ida,
                                idb,
                                self.matching_ids@,
                                block.matching_ids@,
                                i as int + 1,
                            ));
                        }
                    },
                    Some((slot, f)) => {
                        let bid = block.id;
                        let sid = self.id;
                        let ghost ma_pre = self.matching_ids@;
                        let ghost mb_pre = block.matching_ids@;
                        self.matching_ids[i] = Some((bid, f));
                        block.matching_ids[slot] = Some((sid, f));
                        proof {
                            assert(self.matching_ids@ == ma_pre.update(
                                i as int,
                                Some((idb, f)),
                            ));
                            assert(block.matching_ids@ == mb_pre.update(
                                slot as int,
                                Some((ida, f)),
                            ));
                            assert(pair_fold(cwa, acwa, cwb, ida, idb, ma_pre, mb_pre, i as int)
                                == pair_fold(
                                cwa,
                                acwa,
                                cwb,
                                ida,
                                idb,
                                self.matching_ids@,
                                block.matching_ids@,
                                i as int + 1,
                            ));
                        }
                    },
                }
            }
        }
        proof {
            assert(pair_fold(
                cwa,
                acwa,
                cwb,
                ida,
                idb,
                self.matching_ids@,
                block.matching_ids@,
                4,
            ) == (self.matching_ids@, block.matching_ids@));
        }
    }
}

/// A tile with no pixel data, used only as a temporary stand-in while a
/// A tile with no pixel data, used only as a temporary stand-in while a
/// real tile is borrowed out of the set.
fn empty_block() -> (r: Block)
    ensures
        r.rows@.len() == 0,
{
    Block {
        id: 0,
        rows: Vec::new(),
        border_clockwise: Vec::new(),
        border_anti_clockwise: Vec::new(),
        matching_ids: Vec::new(),
    }
}

/// Pairs every unordered pair of distinct tiles in index order, recording
/// fits reciprocally in both tiles; a side keeps its first match.
pub fn populate_matches(signatures: &mut Vec<Block>)
    requires
        forall|k: int| 0 <= k < old(signatures)@.len() ==> sized(#[trigger] old(signatures)@[k]),
    ensures
        final(signatures)@.len() == old(signatures)@.len(),
        forall|k: int|
            0 <= k < old(signatures)@.len() ==> sized(#[trigger] final(signatures)@[k])
                && same_borders(final(signatures)@[k], old(signatures)@[k]),
        matches_of(final(signatures)@) == spec_populate(old(signatures)@),
{
    let ghost orig = signatures@;
    let ghost m0 = matches_of(orig);
    let n = signatures.len();
    for a in 0..n
        invariant
            signatures@.len() == n,
            orig.len() == n,
            forall|k: int| 0 <= k < n ==> sized(#[trigger] orig[k]),
            forall|k: int|
                0 <= k < n ==> sized(#[trigger] signatures@[k]) && same_borders(
                    signatures@[k],
                    orig[k],
                ),
            populate_from_m(orig, m0, 0) == populate_from_m(orig, matches_of(signatures@), a as int),
    {
        let ghost entry = signatures@;
        let mut cur = empty_block();
        core::mem::swap(&mut cur, &mut signatures[a]);
        let ghost m_enter = matches_of(entry);
        proof {
            assert(signatures@.update(a as int, cur) =~= entry);
        }
        let mut b = a + 1;
        while b < n
            invariant
                a < n,
                a < b <= n,
                signatures@.len() == n,
                orig.len() == n,
                forall|k: int| 0 <= k < n ==> sized(#[trigger] orig[k]),
                sized(cur),
                same_borders(cur, orig[a as int]),
                forall|k: int|
                    0 <= k < n && k != a ==> sized(#[trigger] signatures@[k]) && same_borders(
                        signatures@[k],
                        orig[k],
                    ),
                sweep_m(orig, m_enter, a as int, a as int + 1) == sweep_m(
                    orig,
                    matches_of(signatures@.update(a as int, cur)),
                    a as int,
                    b as int,
                ),
            decreases n - b,
        {
            let ghost v_pre = signatures@.update(a as int, cur);
            let ghost m_pre = matches_of(v_pre);
            cur.add_matching_sides(&mut signatures[b]);
            proof {
                let ghost v_post = signatures@.update(a as int, cur);
                let ghost m_post = matches_of(v_post);
                assert(spec_pair_records(v_pre[a as int], v_pre[b as int]) == pair_fold(
                    orig[a as int].border_clockwise@,
                    orig[a as int].border_anti_clockwise@,
                    orig[b as int].border_clockwise@,
                    orig[a as int].id,
                    orig[b as int].id,
                    m_pre[a as int],
                    m_pre[b as int],
                    0,
                ));
                assert(m_post =~= apply_pair_m(orig, m_pre, a as int, b as int)) by {
                    assert forall|k: int|
                        0 <= k < n implies m_post[k] == apply_pair_m(
                        orig,
                        m_pre,
                        a as int,
                        b as int,
                    )[k] by {
                        assert(m_post[k] == v_post[k].matching_ids@);
                        assert(m_pre[k] == v_pre[k].matching_ids@);
                    }
                }
                assert(sweep_m(orig, m_pre, a as int, b as int) == sweep_m(
                    orig,
                    apply_pair_m(orig, m_pre, a as int, b as int),
                    a as int,
                    b as int + 1,
                ));
            }
            b = b + 1;
        }
        let ghost v_final = signatures@.update(a as int, cur);
        proof {
            assert(sweep_m(orig, matches_of(v_final), a as int, n as int) == matches_of(v_final));
        }
        core::mem::swap(&mut cur, &mut signatures[a]);
        proof {
            assert(signatures@ =~= v_final);
            assert(populate_from_m(orig, m_enter, a as int) == populate_from_m(
                orig,
                sweep_m(orig, m_enter, a as int, a as int + 1),
                a as int + 1,
            ));
        }
    }
    proof {
        assert(populate_from_m(orig, matches_of(signatures@), n as int) == matches_of(
            signatures@,
        ));
    }
}

/// The ways the mosaic computation can fail.
#[derive(Clone, Copy, PartialEq, Eq, Structural, Debug)]
pub enum PuzzleError {
    /// A tile block has a bad header or wrong row or column counts.
    MalformedTile,
    /// A tile has three or more unmatched sides: it cannot belong to a
    /// rectangular mosaic of at least two tiles a side.
    UnsolvablePuzzle,
    /// No single orientation makes a tile fit its placed neighbour.
    AmbiguousOrientation,
    /// The matched tiles do not fill a full rectangle.
    IncompleteAssembly,
}

/// Some tile has three or more unmatched sides.
pub open spec fn has_isolated(s: Seq<Block>) -> bool {
    exists|k: int| 0 <= k < s.len() && count_missing(#[trigger] s[k].matching_ids@) >= 3
}

/// The number of tiles whose unmatched-side count is exactly `m`.
pub open spec fn count_class(s: Seq<Block>, m: int) -> int
    decreases s.len(),
{
    if s.len() == 0 {
        0
    } else {
        count_class(s.drop_last(), m) + if count_missing(s.last().matching_ids@) == m {
            1int
        } else {
            0int
        }
    }
}

/// The product of the identifiers of all tiles with exactly two unmatched
/// sides.
pub open spec fn spec_corner_product(s: Seq<Block>) -> int
    decreases s.len(),
{
    if s.len() == 0 {
        1
    } else {
        spec_corner_product(s.drop_last()) * if count_missing(s.last().matching_ids@) == 2 {
            s.last().id as int
        } else {
            1int
        }
    }
}

/// With positive tile identifiers the corner product is at least one.
proof fn lemma_corner_product_pos(s: Seq<Block>)
    requires
        forall|j: int| 0 <= j < s.len() ==> (#[trigger] s[j].id) >= 1,
    ensures
        spec_corner_product(s) >= 1,
    decreases s.len(),
{
    if s.len() > 0 {
        lemma_corner_product_pos(s.drop_last());
        let p = spec_corner_product(s.drop_last());
        let f: int = if count_missing(s.last().matching_ids@) == 2 {
            s.last().id as int
        } else {
            1int
        };
        assert(f >= 1);
        assert(p * f >= 1) by (nonlinear_arith)
            requires
                p >= 1,
                f >= 1,
        ;
    }
}

/// With positive tile identifiers the corner product of a prefix never
/// exceeds the corner product of the whole set.
proof fn lemma_corner_product_prefix(s: Seq<Block>, k: int)
    requires
        0 <= k <= s.len(),
        forall|j: int| 0 <= j < s.len() ==> (#[trigger] s[j].id) >= 1,
    ensures
        1 <= spec_corner_product(s.take(k)) <= spec_corner_product(s),
    decreases s.len() - k,
{
    assert forall|j: int| 0 <= j < s.take(k).len() implies (#[trigger] s.take(k)[j].id) >= 1 by {
        assert(s.take(k)[j] == s[j]);
    }
    lemma_corner_product_pos(s.take(k));
    if k == s.len() {
        assert(s.take(k) =~= s);
    } else {
        lemma_corner_product_prefix(s, k + 1);
        assert(s.take(k + 1).drop_last() =~= s.take(k));
        assert(s.take(k + 1).last() == s[k]);
        let p = spec_corner_product(s.take(k));
        let f: int = if count_missing(s[k].matching_ids@) == 2 {
            s[k].id as int
        } else {
            1int
        };
        assert(spec_corner_product(s.take(k + 1)) == p * f);
        assert(p * f >= p) by (nonlinear_arith)
            requires
                p >= 1,
                f >= 1,
        ;
    }
}

/// Counts the corner, edge and interior tiles of a matched tile set:
/// tiles with exactly two, one and zero unmatched sides. A tile with three
/// or more unmatched sides cannot belong to a rectangular mosaic, so the
/// classification fails on it.
pub fn classify_tiles(signatures: &Vec<Block>) -> (r: Result<(usize, usize, usize), PuzzleError>)
    requires
        forall|k: int| 0 <= k < signatures@.len() ==> sized(#[trigger] signatures@[k]),
    ensures
        r is Err <==> has_isolated(signatures@),
        r is Err ==> r == Err::<(usize, usize, usize), PuzzleError>(PuzzleError::UnsolvablePuzzle),
        r matches Ok(t) ==> t.0 == count_class(signatures@, 2) && t.1 == count_class(
            signatures@,
            1,
        ) && t.2 == count_class(signatures@, 0) && t.0 + t.1 + t.2 == signatures@.len(),
{
    let n = signatures.len();
    let mut corners: usize = 0;
    let mut edges: usize = 0;
    let mut interior: usize = 0;
    for k in 0..n
        invariant
            n == signatures@.len(),
            forall|j: int| 0 <= j < n ==> sized(#[trigger] signatures@[j]),
            forall|j: int|
                0 <= j < k ==> count_missing(#[trigger] signatures@[j].matching_ids@) <= 2,
            corners == count_class(signatures@.take(k as int), 2),
            edges == count_class(signatures@.take(k as int), 1),
            interior == count_class(signatures@.take(k as int), 0),
            corners + edges + interior == k,
    {
        let m = signatures[k].missing_sides();
        proof {
            assert(signatures@.take(k + 1).drop_last() =~= signatures@.take(k as int));
            assert(signatures@.take(k + 1).last() == signatures@[k as int]);
        }
        if m >= 3 {
            return Err(PuzzleError::UnsolvablePuzzle);
        } else if m == 2 {
            corners = corners + 1;
        } else if m == 1 {
            edges = edges + 1;
        } else {
            interior = interior + 1;
        }
    }
    proof {
        assert(signatures@.take(n as int) =~= signatures@);
    }
    Ok((corners, edges, interior))
}

/// The product of the identifiers of all corner tiles: the observable
/// result of the matching stage. Fails when some tile has three or more
/// unmatched sides.
pub fn corner_id_product(signatures: &Vec<Block>) -> (r: Result<u64, PuzzleError>)
    requires
        forall|k: int| 0 <= k < signatures@.len() ==> sized(#[trigger] signatures@[k]),
        forall|k: int| 0 <= k < signatures@.len() ==> (#[trigger] signatures@[k].id) >= 1,
        !has_isolated(signatures@) ==> spec_corner_product(signatures@) <= u64::MAX,
    ensures
        r is Err <==> has_isolated(signatures@),
        r is Err ==> r == Err::<u64, PuzzleError>(PuzzleError::UnsolvablePuzzle),
        !has_isolated(signatures@) ==> r == Ok::<u64, PuzzleError>(
            spec_corner_product(signatures@) as u64,
        ),
{
    if let Err(e) = classify_tiles(signatures) {
        return Err(e);
    }
    proof {
        assert(!has_isolated(signatures@));
    }
    let n = signatures.len();
    let mut product: u64 = 1;
    for k in 0..n
        invariant
            n == signatures@.len(),
            forall|j: int| 0 <= j < n ==> sized(#[trigger] signatures@[j]),
            forall|j: int| 0 <= j < n ==> (#[trigger] signatures@[j].id) >= 1,
            !has_isolated(signatures@),
            spec_corner_product(signatures@) <= u64::MAX,
            product == spec_corner_product(signatures@.take(k as int)),
    {
        let m = signatures[k].missing_sides();
        proof {
            assert(signatures@.take(k + 1).drop_last() =~= signatures@.take(k as int));
            assert(signatures@.take(k + 1).last() == signatures@[k as int]);
        }
        if m == 2 {
            let id = signatures[k].id;
            proof {
                lemma_corner_product_prefix(signatures@, k + 1);
            }
            product = product * (id as u64);
        }
    }
    proof {
        assert(signatures@.take(n as int) =~= signatures@);
    }
    Ok(product)
}

/// In a full rectangular mosaic of `w` by `h` tiles (both at least two),
/// the four corners, the `2((w-2)+(h-2))` edge tiles and the
/// `(w-2)(h-2)` interior tiles together account for every tile.
pub proof fn lemma_grid_side_census(w: int, h: int)
    by (nonlinear_arith)
    requires
        w >= 2,
        h >= 2,
    ensures
        4 + 2 * ((w - 2) + (h - 2)) + (w - 2) * (h - 2) == w * h,
{
}

/// A line that separates tile blocks: empty or made of spacing characters.
pub open spec fn is_blank(s: Seq<char>) -> bool {
    forall|i: int| 0 <= i < s.len() ==> s[i] == ' ' || s[i] == '\t' || s[i] == '\r'
}

/// The index of the first colon at or after `i`, or the length if none.
pub open spec fn first_colon_at(s: Seq<char>, i: int) -> int
    decreases s.len() - i,
    when 0 <= i
{
    if i >= s.len() {
        i
    } else if s[i] == ':' {
        i
    } else {
        first_colon_at(s, i + 1)
    }
}

/// The tile identifier of a header line: the characters after the fixed
/// five-character prefix and before the first colon (or the end of the
/// line), read as a decimal number, when they are one or more digits whose
/// value fits the identifier type.
pub open spec fn header_id(s: Seq<char>) -> Option<u16> {
    if s.len() < 5 {
        None
    } else {
        let d = s.subrange(5, first_colon_at(s, 5));
        if d.len() > 0 && all_digits(d) && decimal_value(d) <= u16::MAX {
            Some(decimal_value(d) as u16)
        } else {
            None
        }
    }
}

/// The index of the first non-blank line at or after `i`, or the length.
pub open spec fn skip_blanks(lines: Seq<Seq<char>>, i: int) -> int
    decreases lines.len() - i,
    when 0 <= i
{
    if i >= lines.len() {
        i
    } else if is_blank(lines[i]) {
        skip_blanks(lines, i + 1)
    } else {
        i
    }
}

/// The index of the first blank line at or after `i`, or the length.
pub open spec fn skip_non_blanks(lines: Seq<Seq<char>>, i: int) -> int
    decreases lines.len() - i,
    when 0 <= i
{
    if i >= lines.len() {
        i
    } else if is_blank(lines[i]) {
        i
    } else {
        skip_non_blanks(lines, i + 1)
    }
}

/// The start of the chunk after the (malformed) chunk at `pos`: the rest
/// of its lines and the blank lines that follow are passed over.
pub open spec fn spec_skip_chunk(lines: Seq<Seq<char>>, pos: int) -> int {
    skip_blanks(lines, skip_non_blanks(lines, pos))
}

/// The tile block at line `pos`: its identifier and the line where the
/// next block starts. The block is well-formed when its header line names
/// an identifier and exactly ten lines of ten characters follow; the blank
/// lines after them are consumed.
pub open spec fn spec_parse_tile(lines: Seq<Seq<char>>, pos: int) -> Option<(u16, int)> {
    if pos >= lines.len() {
        None
    } else {
        match header_id(lines[pos]) {
            None => None,
            Some(id) => {
                if pos + 11 <= lines.len() && (forall|y: int|
                    0 <= y < 10 ==> (#[trigger] lines[pos + 1 + y]).len() == 10) {
                    Some((id, skip_blanks(lines, pos + 11)))
                } else {
                    None
                }
            },
        }
    }
}

proof fn lemma_skip_blanks_bounds(lines: Seq<Seq<char>>, i: int)
    requires
        0 <= i,
    ensures
        i <= skip_blanks(lines, i),
        skip_blanks(lines, i) <= lines.len() || skip_blanks(lines, i) == i,
    decreases lines.len() - i,
{
    if i < lines.len() && is_blank(lines[i]) {
        lemma_skip_blanks_bounds(lines, i + 1);
    }
}

proof fn lemma_skip_non_blanks_bounds(lines: Seq<Seq<char>>, i: int)
    requires
        0 <= i,
    ensures
        i <= skip_non_blanks(lines, i),
        skip_non_blanks(lines, i) <= lines.len() || skip_non_blanks(lines, i) == i,
    decreases lines.len() - i,
{
    if i < lines.len() && !is_blank(lines[i]) {
        lemma_skip_non_blanks_bounds(lines, i + 1);
    }
}

/// Passing over a chunk always makes progress within the input.
proof fn lemma_skip_chunk_bounds(lines: Seq<Seq<char>>, pos: int)
    requires
        0 <= pos < lines.len(),
    ensures
        pos < spec_skip_chunk(lines, pos) <= lines.len(),
{
    lemma_skip_non_blanks_bounds(lines, pos);
    let nb = skip_non_blanks(lines, pos);
    lemma_skip_blanks_bounds(lines, nb);
    if is_blank(lines[pos]) {
        assert(nb == pos);
        assert(skip_blanks(lines, pos) == skip_blanks(lines, pos + 1));
        lemma_skip_blanks_bounds(lines, pos + 1);
    } else {
        assert(nb == skip_non_blanks(lines, pos + 1));
        lemma_skip_non_blanks_bounds(lines, pos + 1);
    }
}

/// A parsed tile block ends strictly after it begins and within the input.
proof fn lemma_parse_tile_bounds(lines: Seq<Seq<char>>, pos: int)
    requires
        0 <= pos,
        spec_parse_tile(lines, pos) is Some,
    ensures
        pos + 11 <= spec_parse_tile(lines, pos)->Some_0.1 <= lines.len(),
{
    lemma_skip_blanks_bounds(lines, pos + 11);
}

/// The identifiers and starting lines of all tile blocks from `pos` on,
/// in input order; a malformed chunk is passed over and excluded.
pub open spec fn spec_tiles(lines: Seq<Seq<char>>, pos: int) -> Seq<(u16, int)>
    decreases lines.len() - pos,
    when 0 <= pos
    via spec_tiles_decreases
{
    if pos >= lines.len() {
        Seq::empty()
    } else {
        match spec_parse_tile(lines, pos) {
            Some(t) => seq![(t.0, pos)] + spec_tiles(lines, t.1),
            None => spec_tiles(lines, spec_skip_chunk(lines, pos)),
        }
    }
}

#[via_fn]
proof fn spec_tiles_decreases(lines: Seq<Seq<char>>, pos: int) {
    if 0 <= pos < lines.len() {
        match spec_parse_tile(lines, pos) {
            Some(t) => {
                lemma_parse_tile_bounds(lines, pos);
            },
            None => {
                lemma_skip_chunk_bounds(lines, pos);
            },
        }
    }
}

/// Encodes one line of pixel characters as a row bitmask: bit `k` is set
/// exactly when character `k` is the on marker `#`. Fails when the line
/// does not hold exactly ten characters.
pub fn encode_row(s: &str) -> (r: Result<u16, PuzzleError>)
    ensures
        s@.len() == 10 ==> (r matches Ok(v) && row_in_range(v) && forall|k: u16|
            k < 10 ==> #[trigger] bit_at(v, k) == (s@[k as int] == '#')),
        s@.len() != 10 ==> r == Err::<u16, PuzzleError>(PuzzleError::MalformedTile),
{
    let n = s.unicode_len();
    if n != 10 {
        return Err(PuzzleError::MalformedTile);
    }
    let mut v: u16 = 0;
    proof {
        assert(forall|k: u16| !bit_at(0u16, k)) by (bit_vector);
    }
    for i in 0..10usize
        invariant
            s@.len() == 10,
            row_in_range(v),
            forall|k: u16| k < 10 ==> #[trigger] bit_at(v, k) == (k < i && s@[k as int] == '#'),
    {
        let c = s.get_char(i);
        let ghost v0 = v;
        proof {
            lemma_set_bit(v, i as u16);
        }
        if c == '#' {
            v = v | (1u16 << (i as u16));
        }
        proof {
            assert forall|k: u16| k < 10 implies #[trigger] bit_at(v, k) == (k < i + 1 && s@[
                k as int] == '#') by {
                if c == '#' {
                    assert(v == v0 | (1u16 << (i as u16)));
                    assert(bit_at(v0 | (1u16 << (i as u16)), k) == (bit_at(v0, k) || k
                        == i as u16));
                } else {
                    assert(v == v0);
                }
            }
        }
    }
    Ok(v)
}

/// True when the line is empty or made only of spacing characters.
fn is_blank_line(s: &str) -> (r: bool)
    ensures
        r == is_blank(s@),
{
    let n = s.unicode_len();
    for i in 0..n
        invariant
            n == s@.len(),
            forall|j: int| 0 <= j < i ==> s@[j] == ' ' || s@[j] == '\t' || s@[j] == '\r',
    {
        let c = s.get_char(i);
        if c != ' ' && c != '\t' && c != '\r' {
            return false;
        }
    }
    true
}

/// Reads the tile identifier out of a header line: the digits after the
/// five-character prefix and before the first colon.
fn parse_tile_header(s: &str) -> (r: Option<u16>)
    ensures
        r == header_id(s@),
{
    let n = s.unicode_len();
    if n < 5 {
        return None;
    }
    let mut e: usize = 5;
    loop
        invariant
            5 <= e <= n,
            n == s@.len(),
            first_colon_at(s@, 5) == first_colon_at(s@, e as int),
        ensures
            5 <= e <= n,
            first_colon_at(s@, 5) == e as int,
        decreases n - e,
    {
        if e >= n {
            break ;
        }
        if s.get_char(e) == ':' {
            break ;
        }
        e = e + 1;
    }
    let ghost d = s@.subrange(5, e as int);
    if e == 5 {
        return None;
    }
    let mut acc: u32 = 0;
    let mut over = false;
    for j in 5..e
        invariant
            5 < e <= n,
            n == s@.len(),
            first_colon_at(s@, 5) == e as int,
            d == s@.subrange(5, e as int),
            forall|m: int| 5 <= m < j ==> 48 <= (#[trigger] s@[m]) as u32 <= 57,
            !over ==> acc == decimal_value(s@.subrange(5, j as int)) && acc <= 65535,
            over ==> decimal_value(s@.subrange(5, j as int)) > 65535,
    {
        let c = s.get_char(j);
        let b = c as u32;
        proof {
            assert(d[j - 5] == s@[j as int]);
        }
        if b < 48 || b > 57 {
            return None;
        }
        proof {
            assert(s@.subrange(5, j + 1).drop_last() =~= s@.subrange(5, j as int));
            assert(s@.subrange(5, j + 1).last() == s@[j as int]);
        }
        if over {
            proof {
                let prev = decimal_value(s@.subrange(5, j as int));
                assert(decimal_value(s@.subrange(5, j + 1)) == prev * 10 + (b - 48));
            }
        } else {
            let next = acc * 10 + (b - 48);
            if next > 65535 {
                over = true;
            } else {
                acc = next;
            }
        }
    }
    proof {
        assert(d.len() > 0);
        assert(all_digits(d)) by {
            assert forall|m: int| 0 <= m < d.len() implies 48 <= (#[trigger] d[m]) as u32
                <= 57 by {
                assert(d[m] == s@[m + 5]);
            }
        }
    }
    if over {
        return None;
    }
    Some(acc as u16)
}

/// A freshly parsed tile matching one entry of the tile stream: the
/// identifier agrees, no neighbours are recorded, and each pixel agrees
/// with the on marker in the block's ten row lines.
pub open spec fn tile_matches(b: Block, t: (u16, int), lv: Seq<Seq<char>>) -> bool {
    &&& b.well_formed()
    &&& b.id == t.0
    &&& b.matching_ids@ =~= seq![
        None::<(u16, bool)>,
        None::<(u16, bool)>,
        None::<(u16, bool)>,
        None::<(u16, bool)>,
    ]
    &&& forall|y: int, x: int|
        0 <= y < 10 && 0 <= x < 10 ==> #[trigger] grid_cell(b.rows@, y, x) == (lv[t.1 + 1 + y][x]
            == '#')
}

/// Parses the tile block that starts at line `start`: a header naming the
/// identifier, then exactly ten lines of ten pixel characters; the blank
/// lines that follow are consumed. Returns the tile and the line where
/// the next block starts, or nothing when the block is malformed.
pub fn read_image_signature(lines: &Vec<String>, start: usize) -> (r: Option<(Block, usize)>)
    ensures
        match spec_parse_tile(lines_view(lines@), start as int) {
            None => r is None,
            Some(t) => r matches Some(p) && p.1 == t.1 && tile_matches(
                p.0,
                (t.0, start as int),
                lines_view(lines@),
            ),
        },
{
    let ghost lv = lines_view(lines@);
    if start >= lines.len() {
        return None;
    }
    proof {
        assert(lv[start as int] == lines@[start as int]@);
    }
    let id = match parse_tile_header(lines[start].as_str()) {
        None => {
            return None;
        },
        Some(i) => i,
    };
    if lines.len() - start < 11 {
        proof {
            assert(start as int + 11 > lv.len());
        }
        return None;
    }
    let mut rows: Vec<u16> = Vec::new();
    for y in 0..10usize
        invariant
            lv == lines_view(lines@),
            start + 11 <= lines@.len(),
            lines@.len() <= usize::MAX,
            rows@.len() == y,
            forall|i: int| 0 <= i < y ==> row_in_range(#[trigger] rows@[i]),
            forall|i: int| 0 <= i < y ==> (#[trigger] lv[start + 1 + i]).len() == 10,
            forall|i: int, x: int|
                0 <= i < y && 0 <= x < 10 ==> #[trigger] grid_cell(rows@, i, x) == (lv[start + 1
                    + i][x] == '#'),
    {
        proof {
            assert(lv[start + 1 + y] == lines@[start + 1 + y as int]@);
        }
        let ghost rows0 = rows@;
        match encode_row(lines[start + 1 + y].as_str()) {
            Err(_) => {
                return None;
            },
            Ok(v) => {
                rows.push(v);
                proof {
                    assert forall|i: int, x: int|
                        0 <= i < y + 1 && 0 <= x < 10 implies #[trigger] grid_cell(rows@, i, x)
                        == (lv[start + 1 + i][x] == '#') by {
                        if i < y as int {
                            assert(rows@[i] == rows0[i]);
                            assert(grid_cell(rows0, i, x) == (lv[start + 1 + i][x] == '#'));
                        } else {
                            assert(rows@[i] == v);
                            assert(bit_at(v, x as u16) == (lv[start + 1 + i][x as int] == '#'));
                        }
                    }
                }
            },
        }
    }
    let mut next = start + 11;
    loop
        invariant
            lv == lines_view(lines@),
            start + 11 <= next <= lines@.len(),
            skip_blanks(lv, start as int + 11) == skip_blanks(lv, next as int),
        ensures
            start + 11 <= next <= lines@.len(),
            skip_blanks(lv, start as int + 11) == next as int,
        decreases lines@.len() - next,
    {
        if next >= lines.len() {
            break ;
        }
        proof {
            assert(lv[next as int] == lines@[next as int]@);
        }
        if !is_blank_line(lines[next].as_str()) {
            break ;
        }
        next = next + 1;
    }
    let block = Block::new(id, rows);
    Some((block, next))
}

/// Parses every tile block of the input in order; malformed chunks are
/// passed over and excluded.
pub fn read_image_signatures(lines: &Vec<String>) -> (r: Vec<Block>)
    ensures
        ({
            let ts = spec_tiles(lines_view(lines@), 0);
            &&& r@.len() == ts.len()
            &&& forall|k: int|
                0 <= k < ts.len() ==> tile_matches(#[trigger] r@[k], ts[k], lines_view(lines@))
        }),
{
    let ghost lv = lines_view(lines@);
    let mut result: Vec<Block> = Vec::new();
    let mut pos: usize = 0;
    let ghost mut done: Seq<(u16, int)> = Seq::empty();
    loop
        invariant
            lv == lines_view(lines@),
            pos <= lines@.len(),
            spec_tiles(lv, 0) == done + spec_tiles(lv, pos as int),
            result@.len() == done.len(),
            forall|k: int| 0 <= k < done.len() ==> tile_matches(#[trigger] result@[k], done[k], lv),
        ensures
            spec_tiles(lv, 0) == done,
            result@.len() == done.len(),
            forall|k: int| 0 <= k < done.len() ==> tile_matches(#[trigger] result@[k], done[k], lv),
        decreases lines@.len() - pos,
    {
        if pos >= lines.len() {
            proof {
                assert(spec_tiles(lv, pos as int) =~= Seq::<(u16, int)>::empty());
                assert(done + Seq::<(u16, int)>::empty() =~= done);
            }
            break ;
        }
        match read_image_signature(lines, pos) {
            Some(p) => {
                let ghost t = spec_parse_tile(lv, pos as int)->Some_0;
                proof {
                    lemma_parse_tile_bounds(lv, pos as int);
                    assert(spec_tiles(lv, pos as int) == seq![(t.0, pos as int)] + spec_tiles(
                        lv,
                        t.1,
                    ));
                    assert(done + spec_tiles(lv, pos as int) =~= (done + seq![(t.0, pos as int)])
                        + spec_tiles(lv, t.1));
                }
                let (block, next) = p;
                result.push(block);
                proof {
                    done = done + seq![(t.0, pos as int)];
                }
                pos = next;
            },
            None => {
                proof {
                    lemma_skip_chunk_bounds(lv, pos as int);
                    assert(spec_tiles(lv, pos as int) == spec_tiles(
                        lv,
                        spec_skip_chunk(lv, pos as int),
                    ));
                }
                pos = skip_chunk_lines(lines, pos);
            },
        }
    }
    result
}

/// Advances past the lines of a malformed chunk and the blank lines after
/// it.
fn skip_chunk_lines(lines: &Vec<String>, from: usize) -> (r: usize)
    requires
        from < lines@.len(),
    ensures
        r == spec_skip_chunk(lines_view(lines@), from as int),
        from < r <= lines@.len(),
{
    let ghost lv = lines_view(lines@);
    let mut i = from;
    loop
        invariant
            lv == lines_view(lines@),
            from <= i <= lines@.len(),
            skip_non_blanks(lv, from as int) == skip_non_blanks(lv, i as int),
        ensures
            from <= i <= lines@.len(),
            skip_non_blanks(lv, from as int) == i as int,
        decreases lines@.len() - i,
    {
        if i >= lines.len() {
            break ;
        }
        proof {
            assert(lv[i as int] == lines@[i as int]@);
        }
        if is_blank_line(lines[i].as_str()) {
            break ;
        }
        i = i + 1;
    }
    loop
        invariant
            lv == lines_view(lines@),
            from <= i <= lines@.len(),
            skip_non_blanks(lv, from as int) <= i,
            skip_blanks(lv, skip_non_blanks(lv, from as int)) == skip_blanks(lv, i as int),
        ensures
            from <= i <= lines@.len(),
            spec_skip_chunk(lv, from as int) == i as int,
        decreases lines@.len() - i,
    {
        if i >= lines.len() {
            break ;
        }
        proof {
            assert(lv[i as int] == lines@[i as int]@);
        }
        if !is_blank_line(lines[i].as_str()) {
            break ;
        }
        i = i + 1;
    }
    proof {
        lemma_skip_chunk_bounds(lv, from as int);
    }
    i
}

/// The rotation that brings a corner tile's pair of adjacent unmatched
/// sides to the top and left grid boundary. Rotating a quarter turn
/// clockwise shows the old left side on top and the old bottom side on the
/// left; anti-clockwise shows the old right on top and the old top on the
/// left; a half turn shows the old bottom on top and the old right on the
/// left.
pub open spec fn spec_start_rotation(m: Seq<Option<(u16, bool)>>) -> Result<Rotate, PuzzleError> {
    if count_missing(m) != 2 {
        Err(PuzzleError::UnsolvablePuzzle)
    } else if m[0] is None && m[3] is None {
        Ok(Rotate::Identity)
    } else if m[0] is None && m[1] is None {
        Ok(Rotate::RotateLeft)
    } else if m[1] is None && m[2] is None {
        Ok(Rotate::RotateRightRight)
    } else if m[2] is None && m[3] is None {
        Ok(Rotate::RotateRight)
    } else {
        Err(PuzzleError::AmbiguousOrientation)
    }
}

impl Block {
    /// Picks the rotation that faces this corner tile's two unmatched
    /// sides to the top and left of the grid. Fails when the tile does not
    /// have exactly two unmatched sides, or when the two are opposite
    /// rather than adjacent, which no rotation can mend.
    pub fn start_corner_rotation(&self) -> (r: Result<Rotate, PuzzleError>)
        requires
            sized(*self),
        ensures
            r == spec_start_rotation(self.matching_ids@),
    {
        let m = self.missing_sides();
        if m != 2 {
            return Err(PuzzleError::UnsolvablePuzzle);
        }
        let none0 = self.matching_ids[0].is_none();
        let none1 = self.matching_ids[1].is_none();
        let none2 = self.matching_ids[2].is_none();
        let none3 = self.matching_ids[3].is_none();
        if none0 && none3 {
            Ok(Rotate::Identity)
        } else if none0 && none1 {
            Ok(Rotate::RotateLeft)
        } else if none1 && none2 {
            Ok(Rotate::RotateRightRight)
        } else if none2 && none3 {
            Ok(Rotate::RotateRight)
        } else {
            Err(PuzzleError::AmbiguousOrientation)
        }
    }
}

/// Side `i` of tile `x` fits side `j` of tile `y` in the pair scan: the
/// clockwise reading of `i` equals the clockwise reading of `j` directly
/// or after mirroring, and `f` records which reading fitted.
pub open spec fn pair_fit(x: Block, y: Block, i: int, j: int, f: bool) -> bool {
    &&& 0 <= i < 4
    &&& 0 <= j < 4
    &&& side_match_at(x.border_clockwise@, x.border_anti_clockwise@, y.border_clockwise@, i, j)
    &&& f == (x.border_anti_clockwise@[i] == y.border_clockwise@[j])
}

/// A recorded match slot is justified: it names another tile of the set
/// and a side of that tile whose border really fits, with the flag the
/// pair scan computed when it wrote the two records together.
pub open spec fn record_justified(s: Seq<Block>, a: int, i: int, rec: Option<(u16, bool)>) -> bool {
    rec matches Some(r) ==> exists|b: int, j: int|
        #![trigger pair_fit(s[a], s[b], i, j, r.1)]
        #![trigger pair_fit(s[b], s[a], j, i, r.1)]
        0 <= b < s.len() && b != a && s[b].id == r.0 && (pair_fit(s[a], s[b], i, j, r.1)
            || pair_fit(s[b], s[a], j, i, r.1))
}

/// Every filled slot of the match records is justified by a real border
/// fit between the two tiles it links.
pub open spec fn records_fit(s: Seq<Block>, m: Seq<Seq<Option<(u16, bool)>>>) -> bool {
    &&& m.len() == s.len()
    &&& forall|a: int| 0 <= a < s.len() ==> (#[trigger] m[a]).len() == 4
    &&& forall|a: int, i: int|
        0 <= a < s.len() && 0 <= i < 4 ==> record_justified(s, a, i, #[trigger] m[a][i])
}

/// A row of match slots is justified against its tile.
pub open spec fn row_justified(s: Seq<Block>, a: int, ma: Seq<Option<(u16, bool)>>) -> bool {
    forall|i: int| 0 <= i < 4 ==> record_justified(s, a, i, #[trigger] ma[i])
}

/// A found slot lies within the side range, was unmatched, really fits,
/// and its flag tells whether the mirrored reading fitted.
proof fn lemma_find_slot_fit(
    cwa: Seq<u16>,
    acwa: Seq<u16>,
    cwb: Seq<u16>,
    mb: Seq<Option<(u16, bool)>>,
    i: int,
    j: int,
)
    requires
        0 <= j <= 4,
        find_slot(cwa, acwa, cwb, mb, i, j) is Some,
    ensures
        ({
            let t = find_slot(cwa, acwa, cwb, mb, i, j)->Some_0;
            &&& j <= t.0 < 4
            &&& mb[t.0] is None
            &&& side_match_at(cwa, acwa, cwb, i, t.0)
            &&& t.1 == (acwa[i] == cwb[t.0])
        }),
    decreases 4 - j,
{
    if !(j >= 4) && !(mb[j] is None && side_match_at(cwa, acwa, cwb, i, j)) {
        lemma_find_slot_fit(cwa, acwa, cwb, mb, i, j + 1);
    }
}

/// A pairing pass keeps both rows justified.
proof fn lemma_pair_fold_justified(
    s: Seq<Block>,
    a: int,
    b: int,
    ma: Seq<Option<(u16, bool)>>,
    mb: Seq<Option<(u16, bool)>>,
    i: int,
)
    requires
        0 <= a < s.len(),
        0 <= b < s.len(),
        a != b,
        0 <= i,
        ma.len() == 4,
        mb.len() == 4,
        row_justified(s, a, ma),
        row_justified(s, b, mb),
    ensures
        ({
            let r = pair_fold(
                s[a].border_clockwise@,
                s[a].border_anti_clockwise@,
                s[b].border_clockwise@,
                s[a].id,
                s[b].id,
                ma,
                mb,
                i,
            );
            row_justified(s, a, r.0) && row_justified(s, b, r.1) && r.0.len() == 4
                && r.1.len() == 4
        }),
    decreases 4 - i,
{
    let cwa = s[a].border_clockwise@;
    let acwa = s[a].border_anti_clockwise@;
    let cwb = s[b].border_clockwise@;
    if i < 4 && !(ma[i] is Some) {
        match find_slot(cwa, acwa, cwb, mb, i, 0) {
            None => {
                lemma_pair_fold_justified(s, a, b, ma, mb, i + 1);
            },
            Some(t) => {
                lemma_find_slot_fit(cwa, acwa, cwb, mb, i, 0);
                let ma2 = ma.update(i, Some((s[b].id, t.1)));
                let mb2 = mb.update(t.0, Some((s[a].id, t.1)));
                assert(row_justified(s, a, ma2)) by {
                    assert forall|i2: int| 0 <= i2 < 4 implies record_justified(
                        s,
                        a,
                        i2,
                        #[trigger] ma2[i2],
                    ) by {
                        if i2 == i {
                            let rec = ma2[i2];
                            let rr = rec->Some_0;
                            assert(rr.0 == s[b].id && rr.1 == t.1);
                            assert(pair_fit(s[a], s[b], i2, t.0, rr.1));
                        } else {
                            assert(ma2[i2] == ma[i2]);
                            assert(record_justified(s, a, i2, ma[i2]));
                        }
                    }
                }
                assert(row_justified(s, b, mb2)) by {
                    assert forall|j2: int| 0 <= j2 < 4 implies record_justified(
                        s,
                        b,
                        j2,
                        #[trigger] mb2[j2],
                    ) by {
                        if j2 == t.0 {
                            let rec = mb2[j2];
                            let rr = rec->Some_0;
                            assert(rr.0 == s[a].id && rr.1 == t.1);
                            assert(pair_fit(s[a], s[b], i, j2, rr.1));
                        } else {
                            assert(mb2[j2] == mb[j2]);
                            assert(record_justified(s, b, j2, mb[j2]));
                        }
                    }
                }
                lemma_pair_fold_justified(s, a, b, ma2, mb2, i + 1);
            },
        }
    } else if i < 4 {
        lemma_pair_fold_justified(s, a, b, ma, mb, i + 1);
    }
}

/// One pairing pass keeps every slot justified.
proof fn lemma_apply_pair_fit(s: Seq<Block>, m: Seq<Seq<Option<(u16, bool)>>>, a: int, b: int)
    requires
        records_fit(s, m),
        0 <= a < s.len(),
        0 <= b < s.len(),
        a != b,
    ensures
        records_fit(s, apply_pair_m(s, m, a, b)),
{
    let m2 = apply_pair_m(s, m, a, b);
    let r = pair_fold(
        s[a].border_clockwise@,
        s[a].border_anti_clockwise@,
        s[b].border_clockwise@,
        s[a].id,
        s[b].id,
        m[a],
        m[b],
        0,
    );
    lemma_pair_fold_justified(s, a, b, m[a], m[b], 0);
    assert forall|a2: int, i2: int|
        0 <= a2 < s.len() && 0 <= i2 < 4 implies record_justified(
        s,
        a2,
        i2,
        #[trigger] m2[a2][i2],
    ) by {
        if a2 == b {
            assert(m2[a2] == r.1);
        } else if a2 == a {
            assert(m2[a2] == r.0);
        } else {
            assert(m2[a2] == m[a2]);
            assert(record_justified(s, a2, i2, m[a2][i2]));
        }
    }
}

/// A sweep of pairing passes keeps every slot justified.
proof fn lemma_sweep_fit(s: Seq<Block>, m: Seq<Seq<Option<(u16, bool)>>>, a: int, b: int)
    requires
        records_fit(s, m),
        0 <= a < s.len(),
        a < b,
    ensures
        records_fit(s, sweep_m(s, m, a, b)),
    decreases s.len() - b,
{
    if b < s.len() {
        lemma_apply_pair_fit(s, m, a, b);
        lemma_sweep_fit(s, apply_pair_m(s, m, a, b), a, b + 1);
    }
}

/// The whole pairing pass keeps every slot justified.
proof fn lemma_populate_from_fit(s: Seq<Block>, m: Seq<Seq<Option<(u16, bool)>>>, a: int)
    requires
        records_fit(s, m),
        0 <= a,
    ensures
        records_fit(s, populate_from_m(s, m, a)),
    decreases s.len() - a,
{
    if a < s.len() {
        lemma_sweep_fit(s, m, a, a + 1);
        lemma_populate_from_fit(s, sweep_m(s, m, a, a + 1), a + 1);
    }
}

/// Every match that the matcher records on a fresh tile set links two
/// tiles whose borders really fit: the tile named in a slot of tile `a`
/// exists in the set and one of its sides equals the slot's side of `a`,
/// directly or mirrored, as the slot's flag says.
pub proof fn lemma_populate_records_fit(s: Seq<Block>)
    requires
        forall|k: int| 0 <= k < s.len() ==> sized(#[trigger] s[k]),
        forall|k: int, i: int|
            0 <= k < s.len() && 0 <= i < 4 ==> (#[trigger] s[k].matching_ids@[i]) is None,
    ensures
        records_fit(s, spec_populate(s)),
{
    assert(records_fit(s, matches_of(s)));
    lemma_populate_from_fit(s, matches_of(s), 0);
}

/// A border fit in the pair scan is exactly the statement of matching on
/// the natural borders: the border of the one side equals the border of
/// the other, or its mirror image.
pub proof fn lemma_fit_borders(x: Block, y: Block, i: int, j: int, f: bool)
    requires
        x.well_formed(),
        y.well_formed(),
        pair_fit(x, y, i, j, f),
    ensures
        x.spec_border(i) == y.spec_border(j) || x.spec_border(i) == spec_mirror_row(
            y.spec_border(j),
        ),
{
    lemma_mirror_row_bits(x.border_clockwise@[i]);
    lemma_mirror_row_bits(y.border_clockwise@[j]);
    lemma_mirror_row_involution(x.border_clockwise@[i]);
    lemma_mirror_row_involution(y.border_clockwise@[j]);
}

/// The match records have one four-slot row per tile.
pub open spec fn records_shaped(m: Seq<Seq<Option<(u16, bool)>>>, n: int) -> bool {
    &&& m.len() == n
    &&& forall|x: int| 0 <= x < n ==> (#[trigger] m[x]).len() == 4
}

/// The scan finds no slot exactly when no unmatched side at or after `j`
/// fits.
proof fn lemma_find_slot_none(
    cwa: Seq<u16>,
    acwa: Seq<u16>,
    cwb: Seq<u16>,
    mb: Seq<Option<(u16, bool)>>,
    i: int,
    j: int,
)
    requires
        0 <= j <= 4,
    ensures
        find_slot(cwa, acwa, cwb, mb, i, j) is None <==> forall|j2: int|
            j <= j2 < 4 ==> !((#[trigger] mb[j2]) is None && side_match_at(cwa, acwa, cwb, i, j2)),
    decreases 4 - j,
{
    if j < 4 {
        lemma_find_slot_none(cwa, acwa, cwb, mb, i, j + 1);
    }
}

/// A pairing pass only fills empty slots: every recorded neighbour stays,
/// every slot still empty afterwards was empty before, and the row
/// lengths are kept.
proof fn lemma_pair_fold_monotone(
    cwa: Seq<u16>,
    acwa: Seq<u16>,
    cwb: Seq<u16>,
    ida: u16,
    idb: u16,
    ma: Seq<Option<(u16, bool)>>,
    mb: Seq<Option<(u16, bool)>>,
    i: int,
)
    requires
        0 <= i,
        ma.len() == 4,
        mb.len() == 4,
    ensures
        ({
            let r = pair_fold(cwa, acwa, cwb, ida, idb, ma, mb, i);
            &&& r.0.len() == 4
            &&& r.1.len() == 4
            &&& forall|k: int| 0 <= k < 4 && (#[trigger] ma[k]) is Some ==> r.0[k] == ma[k]
            &&& forall|k: int| 0 <= k < 4 && (#[trigger] mb[k]) is Some ==> r.1[k] == mb[k]
            &&& forall|k: int| 0 <= k < 4 && (#[trigger] r.0[k]) is None ==> ma[k] is None
            &&& forall|k: int| 0 <= k < 4 && (#[trigger] r.1[k]) is None ==> mb[k] is None
        }),
    decreases 4 - i,
{
    if 0 <= i < 4 {
        if ma[i] is Some {
            lemma_pair_fold_monotone(cwa, acwa, cwb, ida, idb, ma, mb, i + 1);
        } else {
            match find_slot(cwa, acwa, cwb, mb, i, 0) {
                None => {
                    lemma_pair_fold_monotone(cwa, acwa, cwb, ida, idb, ma, mb, i + 1);
                },
                Some(t) => {
                    lemma_find_slot_fit(cwa, acwa, cwb, mb, i, 0);
                    lemma_pair_fold_monotone(
                        cwa,
                        acwa,
                        cwb,
                        ida,
                        idb,
                        ma.update(i, Some((idb, t.1))),
                        mb.update(t.0, Some((ida, t.1))),
                        i + 1,
                    );
                },
            }
        }
    }
}

/// After a pairing pass, no still-unmatched side of the first tile fits
/// a still-unmatched side of the second.
proof fn lemma_pair_fold_saturates(
    cwa: Seq<u16>,
    acwa: Seq<u16>,
    cwb: Seq<u16>,
    ida: u16,
    idb: u16,
    ma: Seq<Option<(u16, bool)>>,
    mb: Seq<Option<(u16, bool)>>,
    i: int,
)
    requires
        0 <= i,
        ma.len() == 4,
        mb.len() == 4,
    ensures
        ({
            let r = pair_fold(cwa, acwa, cwb, ida, idb, ma, mb, i);
            forall|i2: int, j2: int|
                i <= i2 < 4 && 0 <= j2 < 4 && (#[trigger] r.0[i2]) is None && (
                #[trigger] r.1[j2]) is None ==> !side_match_at(cwa, acwa, cwb, i2, j2)
        }),
    decreases 4 - i,
{
    if 0 <= i < 4 {
        let r = pair_fold(cwa, acwa, cwb, ida, idb, ma, mb, i);
        if ma[i] is Some {
            lemma_pair_fold_saturates(cwa, acwa, cwb, ida, idb, ma, mb, i + 1);
            lemma_pair_fold_monotone(cwa, acwa, cwb, ida, idb, ma, mb, i + 1);
            assert(r.0[i] is Some);
        } else {
            match find_slot(cwa, acwa, cwb, mb, i, 0) {
                None => {
                    lemma_pair_fold_saturates(cwa, acwa, cwb, ida, idb, ma, mb, i + 1);
                    lemma_pair_fold_monotone(cwa, acwa, cwb, ida, idb, ma, mb, i + 1);
                    lemma_find_slot_none(cwa, acwa, cwb, mb, i, 0);
                    assert forall|i2: int, j2: int|
                        i <= i2 < 4 && 0 <= j2 < 4 && (#[trigger] r.0[i2]) is None && (
                        #[trigger] r.1[j2]) is None implies !side_match_at(
                        cwa,
                        acwa,
                        cwb,
                        i2,
                        j2,
                    ) by {
                        if i2 == i {
                            assert(mb[j2] is None);
                        }
                    }
                },
                Some(t) => {
                    lemma_find_slot_fit(cwa, acwa, cwb, mb, i, 0);
                    let ma2 = ma.update(i, Some((idb, t.1)));
                    let mb2 = mb.update(t.0, Some((ida, t.1)));
                    lemma_pair_fold_saturates(cwa, acwa, cwb, ida, idb, ma2, mb2, i + 1);
                    lemma_pair_fold_monotone(cwa, acwa, cwb, ida, idb, ma2, mb2, i + 1);
                    assert(ma2[i] is Some);
                    assert(r.0[i] is Some);
                },
            }
        }
    }
}

/// A pairing pass over two tiles with no fit among their unmatched sides
/// records nothing.
proof fn lemma_pair_fold_identity(
    cwa: Seq<u16>,
    acwa: Seq<u16>,
    cwb: Seq<u16>,
    ida: u16,
    idb: u16,
    ma: Seq<Option<(u16, bool)>>,
    mb: Seq<Option<(u16, bool)>>,
    i: int,
)
    requires
        0 <= i,
        ma.len() == 4,
        mb.len() == 4,
        forall|i2: int, j2: int|
            0 <= i2 < 4 && 0 <= j2 < 4 && (#[trigger] ma[i2]) is None && (#[trigger] mb[j2])
                is None ==> !side_match_at(cwa, acwa, cwb, i2, j2),
    ensures
        pair_fold(cwa, acwa, cwb, ida, idb, ma, mb, i) == (ma, mb),
    decreases 4 - i,
{
    if 0 <= i < 4 {
        if !(ma[i] is Some) {
            lemma_find_slot_none(cwa, acwa, cwb, mb, i, 0);
            assert(find_slot(cwa, acwa, cwb, mb, i, 0) is None);
        }
        lemma_pair_fold_identity(cwa, acwa, cwb, ida, idb, ma, mb, i + 1);
    }
}

/// Tiles `a` and `b` have no fit left among their unmatched sides.
pub open spec fn pair_saturated(
    s: Seq<Block>,
    m: Seq<Seq<Option<(u16, bool)>>>,
    a: int,
    b: int,
) -> bool {
    forall|i: int, j: int|
        #![trigger m[a][i], m[b][j]]
        0 <= i < 4 && 0 <= j < 4 && m[a][i] is None && m[b][j] is None ==> !side_match_at(
            s[a].border_clockwise@,
            s[a].border_anti_clockwise@,
            s[b].border_clockwise@,
            i,
            j,
        )
}

/// One pairing pass keeps the shape and only fills empty slots.
proof fn lemma_apply_pair_nones(s: Seq<Block>, m: Seq<Seq<Option<(u16, bool)>>>, a: int, b: int)
    requires
        records_shaped(m, s.len() as int),
        0 <= a < s.len(),
        0 <= b < s.len(),
        a != b,
    ensures
        records_shaped(apply_pair_m(s, m, a, b), s.len() as int),
        forall|x: int, k: int|
            0 <= x < s.len() && 0 <= k < 4 && (#[trigger] apply_pair_m(s, m, a, b)[x][k])
                is None ==> m[x][k] is None,
{
    let m2 = apply_pair_m(s, m, a, b);
    lemma_pair_fold_monotone(
        s[a].border_clockwise@,
        s[a].border_anti_clockwise@,
        s[b].border_clockwise@,
        s[a].id,
        s[b].id,
        m[a],
        m[b],
        0,
    );
    assert forall|x: int, k: int|
        0 <= x < s.len() && 0 <= k < 4 && (#[trigger] m2[x][k]) is None implies m[x][k]
        is None by {
        if x != a && x != b {
            assert(m2[x] == m[x]);
        }
    }
}

/// A sweep keeps the shape and only fills empty slots.
proof fn lemma_sweep_nones(s: Seq<Block>, m: Seq<Seq<Option<(u16, bool)>>>, a: int, b: int)
    requires
        records_shaped(m, s.len() as int),
        0 <= a < s.len(),
        a < b,
    ensures
        records_shaped(sweep_m(s, m, a, b), s.len() as int),
        forall|x: int, k: int|
            0 <= x < s.len() && 0 <= k < 4 && (#[trigger] sweep_m(s, m, a, b)[x][k]) is None
                ==> m[x][k] is None,
    decreases s.len() - b,
{
    if b < s.len() {
        lemma_apply_pair_nones(s, m, a, b);
        lemma_sweep_nones(s, apply_pair_m(s, m, a, b), a, b + 1);
    }
}

/// The whole pairing pass keeps the shape and only fills empty slots.
proof fn lemma_populate_nones(s: Seq<Block>, m: Seq<Seq<Option<(u16, bool)>>>, a: int)
    requires
        records_shaped(m, s.len() as int),
        0 <= a,
    ensures
        records_shaped(populate_from_m(s, m, a), s.len() as int),
        forall|x: int, k: int|
            0 <= x < s.len() && 0 <= k < 4 && (#[trigger] populate_from_m(s, m, a)[x][k])
                is None ==> m[x][k] is None,
    decreases s.len() - a,
{
    if a < s.len() {
        lemma_sweep_nones(s, m, a, a + 1);
        lemma_populate_nones(s, sweep_m(s, m, a, a + 1), a + 1);
    }
}

/// Filling more slots never unsaturates a pair.
proof fn lemma_saturated_mono(
    s: Seq<Block>,
    m1: Seq<Seq<Option<(u16, bool)>>>,
    m2: Seq<Seq<Option<(u16, bool)>>>,
    a: int,
    b: int,
)
    requires
        pair_saturated(s, m1, a, b),
        0 <= a < s.len(),
        0 <= b < s.len(),
        forall|x: int, k: int|
            0 <= x < s.len() && 0 <= k < 4 && (#[trigger] m2[x][k]) is None ==> m1[x][k] is None,
    ensures
        pair_saturated(s, m2, a, b),
{
    assert forall|i: int, j: int|
        #![trigger m2[a][i], m2[b][j]]
        0 <= i < 4 && 0 <= j < 4 && m2[a][i] is None && m2[b][j] is None implies !side_match_at(
        s[a].border_clockwise@,
        s[a].border_anti_clockwise@,
        s[b].border_clockwise@,
        i,
        j,
    ) by {
        assert(m1[a][i] is None);
        assert(m1[b][j] is None);
    }
}

/// After sweeping tile `a` against tiles `b` on, each of those pairs has
/// no fit left among its unmatched sides.
proof fn lemma_sweep_saturates(s: Seq<Block>, m: Seq<Seq<Option<(u16, bool)>>>, a: int, b: int)
    requires
        records_shaped(m, s.len() as int),
        0 <= a < s.len(),
        a < b,
    ensures
        forall|y: int| b <= y < s.len() ==> pair_saturated(s, #[trigger] sweep_m(s, m, a, b), a, y),
    decreases s.len() - b,
{
    if b < s.len() {
        let m2 = apply_pair_m(s, m, a, b);
        lemma_apply_pair_nones(s, m, a, b);
        lemma_sweep_saturates(s, m2, a, b + 1);
        lemma_sweep_nones(s, m2, a, b + 1);
        lemma_pair_fold_saturates(
            s[a].border_clockwise@,
            s[a].border_anti_clockwise@,
            s[b].border_clockwise@,
            s[a].id,
            s[b].id,
            m[a],
            m[b],
            0,
        );
        assert(pair_saturated(s, m2, a, b)) by {
            let r = pair_fold(
                s[a].border_clockwise@,
                s[a].border_anti_clockwise@,
                s[b].border_clockwise@,
                s[a].id,
                s[b].id,
                m[a],
                m[b],
                0,
            );
            assert(m2[a as int] == r.0);
            assert(m2[b as int] == r.1);
        }
        lemma_saturated_mono(s, m2, sweep_m(s, m2, a, b + 1), a, b);
        assert(sweep_m(s, m, a, b) == sweep_m(s, m2, a, b + 1));
    }
}

/// After the whole pairing pass from tile `a` on, every pair of those
/// tiles has no fit left among its unmatched sides.
proof fn lemma_populate_saturates(s: Seq<Block>, m: Seq<Seq<Option<(u16, bool)>>>, a: int)
    requires
        records_shaped(m, s.len() as int),
        0 <= a,
    ensures
        forall|x: int, y: int|
            a <= x < y < s.len() ==> pair_saturated(
                s,
                #[trigger] populate_from_m(s, m, a),
                x,
                y,
            ),
    decreases s.len() - a,
{
    if a < s.len() {
        let ms = sweep_m(s, m, a, a + 1);
        lemma_sweep_nones(s, m, a, a + 1);
        lemma_sweep_saturates(s, m, a, a + 1);
        lemma_populate_saturates(s, ms, a + 1);
        lemma_populate_nones(s, ms, a + 1);
        assert forall|x: int, y: int|
            a <= x < y < s.len() implies pair_saturated(
            s,
            #[trigger] populate_from_m(s, m, a),
            x,
            y,
        ) by {
            if x == a {
                lemma_saturated_mono(s, ms, populate_from_m(s, ms, a + 1), a, y);
            }
        }
    }
}

/// A pairing pass over a saturated pair changes nothing.
proof fn lemma_apply_pair_identity(s: Seq<Block>, m: Seq<Seq<Option<(u16, bool)>>>, a: int, b: int)
    requires
        records_shaped(m, s.len() as int),
        pair_saturated(s, m, a, b),
        0 <= a < s.len(),
        0 <= b < s.len(),
        a != b,
    ensures
        apply_pair_m(s, m, a, b) == m,
{
    lemma_pair_fold_identity(
        s[a].border_clockwise@,
        s[a].border_anti_clockwise@,
        s[b].border_clockwise@,
        s[a].id,
        s[b].id,
        m[a],
        m[b],
        0,
    );
    assert(apply_pair_m(s, m, a, b) =~= m);
}

/// A sweep over saturated pairs changes nothing.
proof fn lemma_sweep_identity(s: Seq<Block>, m: Seq<Seq<Option<(u16, bool)>>>, a: int, b: int)
    requires
        records_shaped(m, s.len() as int),
        0 <= a < s.len(),
        a < b,
        forall|y: int| b <= y < s.len() ==> pair_saturated(s, m, a, y),
    ensures
        sweep_m(s, m, a, b) == m,
    decreases s.len() - b,
{
    if b < s.len() {
        lemma_apply_pair_identity(s, m, a, b);
        lemma_sweep_identity(s, m, a, b + 1);
    }
}

/// The whole pairing pass over saturated pairs changes nothing.
proof fn lemma_populate_identity(s: Seq<Block>, m: Seq<Seq<Option<(u16, bool)>>>, a: int)
    requires
        records_shaped(m, s.len() as int),
        0 <= a,
        forall|x: int, y: int| a <= x < y < s.len() ==> pair_saturated(s, m, x, y),
    ensures
        populate_from_m(s, m, a) == m,
    decreases s.len() - a,
{
    if a < s.len() {
        lemma_sweep_identity(s, m, a, a + 1);
        lemma_populate_identity(s, m, a + 1);
    }
}

/// Running the matcher again over already matched tiles records nothing
/// new: the match records of a matched set are a fixed point. `s1` is any
/// tile set and `s2` the same tiles carrying the records the matcher gave
/// them; matching `s2` yields those records unchanged.
pub proof fn lemma_populate_idempotent(s1: Seq<Block>, s2: Seq<Block>)
    requires
        s1.len() == s2.len(),
        forall|k: int| 0 <= k < s1.len() ==> sized(#[trigger] s1[k]),
        forall|k: int| 0 <= k < s1.len() ==> same_borders(#[trigger] s2[k], s1[k]),
        matches_of(s2) == spec_populate(s1),
    ensures
        spec_populate(s2) == spec_populate(s1),
{
    let m0 = matches_of(s1);
    assert(records_shaped(m0, s1.len() as int)) by {
        assert forall|x: int| 0 <= x < s1.len() implies (#[trigger] m0[x]).len() == 4 by {
            assert(m0[x] == s1[x].matching_ids@);
        }
    }
    let m1 = spec_populate(s1);
    lemma_populate_nones(s1, m0, 0);
    lemma_populate_saturates(s1, m0, 0);
    assert forall|x: int, y: int|
        0 <= x < y < s2.len() implies pair_saturated(s2, m1, x, y) by {
        assert(pair_saturated(s1, m1, x, y));
        assert(s2[x].border_clockwise@ == s1[x].border_clockwise@);
        assert(s2[x].border_anti_clockwise@ == s1[x].border_anti_clockwise@);
        assert(s2[y].border_clockwise@ == s1[y].border_clockwise@);
    }
    assert(records_shaped(m1, s2.len() as int));
    lemma_populate_identity(s2, m1, 0);
}

/// Every recorded match names a tile of the set whose own records name
/// back with the same flag.
pub open spec fn records_symmetric(s: Seq<Block>, m: Seq<Seq<Option<(u16, bool)>>>) -> bool {
    forall|a: int, i: int|
        0 <= a < s.len() && 0 <= i < 4 ==> ((#[trigger] m[a][i]) matches Some(r) ==> exists|
            b: int,
            j: int,
        |
            #![trigger m[b][j]]
            0 <= b < s.len() && b != a && s[b].id == r.0 && 0 <= j < 4 && m[b][j] == Some(
                (s[a].id, r.1),
            ))
}

/// A pairing pass keeps the records symmetric: it writes only reciprocal
/// pairs of slots and never touches a filled slot.
proof fn lemma_pair_fold_symmetric(s: Seq<Block>, m: Seq<Seq<Option<(u16, bool)>>>, a: int, b: int, i: int)
    requires
        records_shaped(m, s.len() as int),
        records_symmetric(s, m),
        0 <= a < s.len(),
        0 <= b < s.len(),
        a != b,
        0 <= i,
    ensures
        ({
            let r = pair_fold(
                s[a].border_clockwise@,
                s[a].border_anti_clockwise@,
                s[b].border_clockwise@,
                s[a].id,
                s[b].id,
                m[a],
                m[b],
                i,
            );
            records_symmetric(s, m.update(a, r.0).update(b, r.1))
        }),
    decreases 4 - i,
{
    let cwa = s[a].border_clockwise@;
    let acwa = s[a].border_anti_clockwise@;
    let cwb = s[b].border_clockwise@;
    let ida = s[a].id;
    let idb = s[b].id;
    let ma = m[a];
    let mb = m[b];
    let r = pair_fold(cwa, acwa, cwb, ida, idb, ma, mb, i);
    if i >= 4 || ma[i] is Some || find_slot(cwa, acwa, cwb, mb, i, 0) is None {
        if i < 4 {
            lemma_pair_fold_symmetric(s, m, a, b, i + 1);
        } else {
            assert(m.update(a, ma).update(b, mb) =~= m);
        }
    } else {
        let t = find_slot(cwa, acwa, cwb, mb, i, 0)->Some_0;
        lemma_find_slot_fit(cwa, acwa, cwb, mb, i, 0);
        let ma2 = ma.update(i, Some((idb, t.1)));
        let mb2 = mb.update(t.0, Some((ida, t.1)));
        let m2 = m.update(a, ma2).update(b, mb2);
        assert(records_shaped(m2, s.len() as int));
        assert(records_symmetric(s, m2)) by {
            assert forall|x: int, k: int|
                0 <= x < s.len() && 0 <= k < 4 implies ((#[trigger] m2[x][k]) matches Some(r2)
                ==> exists|b2: int, j2: int|
                #![trigger m2[b2][j2]]
                0 <= b2 < s.len() && b2 != x && s[b2].id == r2.0 && 0 <= j2 < 4 && m2[b2][j2]
                    == Some((s[x].id, r2.1))) by {
                if m2[x][k] is Some {
                    let r2 = m2[x][k]->Some_0;
                    if x == a && k == i {
                        assert(m2[b][t.0] == Some((s[x].id, r2.1)));
                    } else if x == b && k == t.0 {
                        assert(m2[a][i as int] == Some((s[x].id, r2.1)));
                    } else {
                        assert(m2[x][k] == m[x][k]);
                        let (b0, j0) = choose|b0: int, j0: int|
                            #![trigger m[b0][j0]]
                            0 <= b0 < s.len() && b0 != x && s[b0].id == r2.0 && 0 <= j0 < 4
                                && m[b0][j0] == Some((s[x].id, r2.1));
                        assert(m2[b0][j0] == m[b0][j0]);
                    }
                }
            }
        }
        lemma_pair_fold_symmetric(s, m2, a, b, i + 1);
        let r2 = pair_fold(cwa, acwa, cwb, ida, idb, ma2, mb2, i + 1);
        assert(m2.update(a, r2.0).update(b, r2.1) =~= m.update(a, r.0).update(b, r.1));
    }
}

/// One pairing pass of the set keeps the records symmetric.
proof fn lemma_apply_pair_symmetric(s: Seq<Block>, m: Seq<Seq<Option<(u16, bool)>>>, a: int, b: int)
    requires
        records_shaped(m, s.len() as int),
        records_symmetric(s, m),
        0 <= a < s.len(),
        0 <= b < s.len(),
        a != b,
    ensures
        records_symmetric(s, apply_pair_m(s, m, a, b)),
{
    lemma_pair_fold_symmetric(s, m, a, b, 0);
}

/// A sweep keeps the records symmetric.
proof fn lemma_sweep_symmetric(s: Seq<Block>, m: Seq<Seq<Option<(u16, bool)>>>, a: int, b: int)
    requires
        records_shaped(m, s.len() as int),
        records_symmetric(s, m),
        0 <= a < s.len(),
        a < b,
    ensures
        records_symmetric(s, sweep_m(s, m, a, b)),
    decreases s.len() - b,
{
    if b < s.len() {
        lemma_apply_pair_symmetric(s, m, a, b);
        lemma_apply_pair_nones(s, m, a, b);
        lemma_sweep_symmetric(s, apply_pair_m(s, m, a, b), a, b + 1);
    }
}

/// The whole pairing pass keeps the records symmetric.
proof fn lemma_populate_from_symmetric(s: Seq<Block>, m: Seq<Seq<Option<(u16, bool)>>>, a: int)
    requires
        records_shaped(m, s.len() as int),
        records_symmetric(s, m),
        0 <= a,
    ensures
        records_symmetric(s, populate_from_m(s, m, a)),
    decreases s.len() - a,
{
    if a < s.len() {
        lemma_sweep_symmetric(s, m, a, a + 1);
        lemma_sweep_nones(s, m, a, a + 1);
        lemma_populate_from_symmetric(s, sweep_m(s, m, a, a + 1), a + 1);
    }
}

/// Matching is symmetric: on a fresh tile set, whenever the matcher
/// records a neighbour in a slot of one tile, a tile of the set with that
/// identifier records the first tile back on one of its own sides, with
/// the same mirror flag (`records_symmetric`); and with distinct
/// identifiers that tile is the only one of its name, so the two records
/// point at each other.
pub proof fn lemma_populate_symmetric(s: Seq<Block>)
    requires
        forall|k: int| 0 <= k < s.len() ==> sized(#[trigger] s[k]),
        forall|k: int, i: int|
            0 <= k < s.len() && 0 <= i < 4 ==> (#[trigger] s[k].matching_ids@[i]) is None,
        forall|k1: int, k2: int|
            0 <= k1 < k2 < s.len() ==> (#[trigger] s[k1].id) != (#[trigger] s[k2].id),
    ensures
        records_symmetric(s, spec_populate(s)),
        forall|b1: int, b2: int|
            0 <= b1 < s.len() && 0 <= b2 < s.len() && (#[trigger] s[b1].id) == (
            #[trigger] s[b2].id) ==> b1 == b2,
{
    let m0 = matches_of(s);
    assert(records_shaped(m0, s.len() as int)) by {
        assert forall|x: int| 0 <= x < s.len() implies (#[trigger] m0[x]).len() == 4 by {
            assert(m0[x] == s[x].matching_ids@);
        }
    }
    assert(records_symmetric(s, m0)) by {
        assert forall|a: int, i: int|
            0 <= a < s.len() && 0 <= i < 4 implies !((#[trigger] m0[a][i]) is Some) by {
            assert(m0[a] == s[a].matching_ids@);
        }
    }
    lemma_populate_from_symmetric(s, m0, 0);
    assert forall|b1: int, b2: int|
        0 <= b1 < s.len() && 0 <= b2 < s.len() && (#[trigger] s[b1].id) == (
    #[trigger] s[b2].id) implies b1 == b2 by {
        if b1 < b2 {
            assert(s[b1].id != s[b2].id);
        } else if b2 < b1 {
            assert(s[b2].id != s[b1].id);
        }
    }
}

/// Every tile's border, mirrored twice, is the border itself.
pub proof fn lemma_border_mirror_involution(b: Block, side: int)
    requires
        b.well_formed(),
        0 <= side < 4,
    ensures
        spec_mirror_row(spec_mirror_row(b.spec_border(side))) == b.spec_border(side),
{
    lemma_mirror_row_bits(b.border_clockwise@[side]);
    lemma_mirror_row_involution(b.spec_border(side));
}

} // verus!
