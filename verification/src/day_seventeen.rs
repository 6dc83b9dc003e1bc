//! A three-dimensional cellular board holding its active cells.

use vstd::prelude::*;

verus! {

/// One cell's state.
#[derive(Clone, Copy, PartialEq, Eq, Structural, Debug)]
pub enum Block {
    Active,
    Inactive,
}

/// A cell position.
pub type Coord = (i64, i64, i64);

/// The board: the positions of its active cells, each held once.
pub struct Board {
    pub blocks: Vec<Coord>,
}

impl Board {
    /// Every active position is held exactly once.
    pub open spec fn well_formed(&self) -> bool {
        forall|i: int, j: int|
            0 <= i < j < self.blocks@.len() ==> self.blocks@[i] != self.blocks@[j]
    }

    /// A fresh board with no active cell.
    pub fn new() -> (r: Board)
        ensures
            r.well_formed(),
            r.blocks@.len() == 0,
    {
        Board { blocks: Vec::new() }
    }

    /// Turns the cell at `coord` active.
    pub fn set_active(&mut self, coord: Coord)
        requires
            old(self).well_formed(),
        ensures
            final(self).well_formed(),
            final(self).blocks@.contains(coord),
            forall|c: Coord| #[trigger]
                final(self).blocks@.contains(c) == (old(self).blocks@.contains(c) || c == coord),
    {
        if !self.contains_coord(&coord) {
            let ghost b0 = self.blocks@;
            self.blocks.push(coord);
            proof {
                assert forall|c: Coord| #[trigger]
                    self.blocks@.contains(c) == (b0.contains(c) || c == coord) by {
                    if self.blocks@.contains(c) {
                        let k = choose|k: int|
                            0 <= k < self.blocks@.len() && self.blocks@[k] == c;
                        if k < b0.len() {
                            assert(b0[k] == c);
                        }
                    }
                    if b0.contains(c) {
                        let k = choose|k: int| 0 <= k < b0.len() && b0[k] == c;
                        assert(self.blocks@[k] == c);
                    }
                    if c == coord {
                        assert(self.blocks@.last() == coord);
                    }
                }
            }
        } else {
            proof {
                assert(self.blocks@.contains(coord));
            }
        }
    }

    /// Turns the cell at `coord` inactive.
    pub fn set_inactive(&mut self, coord: &Coord)
        requires
            old(self).well_formed(),
        ensures
            final(self).well_formed(),
            !final(self).blocks@.contains(*coord),
            forall|c: Coord| #[trigger]
                final(self).blocks@.contains(c) == (old(self).blocks@.contains(c) && c != *coord),
    {
        let n = self.blocks.len();
        let mut idx: usize = 0;
        loop
            invariant
                idx <= n,
                n == self.blocks@.len(),
                *self == *old(self),
                forall|k: int| 0 <= k < idx ==> self.blocks@[k] != *coord,
            ensures
                *self == *old(self),
                idx <= n,
                idx < n ==> self.blocks@[idx as int] == *coord,
                forall|k: int| 0 <= k < idx ==> self.blocks@[k] != *coord,
                idx == n ==> !self.blocks@.contains(*coord),
            decreases n - idx,
        {
            if idx >= n {
                proof {
                    if self.blocks@.contains(*coord) {
                        let k = choose|k: int|
                            0 <= k < self.blocks@.len() && self.blocks@[k] == *coord;
                        assert(self.blocks@[k] != *coord);
                    }
                }
                break ;
            }
            if self.eq_coord(idx, coord) {
                break ;
            }
            idx = idx + 1;
        }
        if idx < n {
            let ghost b0 = self.blocks@;
            self.blocks.remove(idx);
            proof {
                assert forall|c: Coord| #[trigger]
                    self.blocks@.contains(c) == (b0.contains(c) && c != *coord) by {
                    if self.blocks@.contains(c) {
                        let k = choose|k: int|
                            0 <= k < self.blocks@.len() && self.blocks@[k] == c;
                        if k < idx {
                            assert(b0[k] == c);
                        } else {
                            assert(b0[k + 1] == c);
                        }
                        assert(c != *coord) by {
                            if k < idx {
                            } else {
                                assert(b0[idx as int] == *coord);
                            }
                        }
                    }
                    if b0.contains(c) && c != *coord {
                        let k = choose|k: int| 0 <= k < b0.len() && b0[k] == c;
                        if k < idx {
                            assert(self.blocks@[k] == c);
                        } else {
                            assert(k != idx);
                            assert(self.blocks@[k - 1] == c);
                        }
                    }
                }
            }
        }
    }

    /// True when the position is held.
    fn contains_coord(&self, coord: &Coord) -> (r: bool)
        ensures
            r == self.blocks@.contains(*coord),
    {
        let n = self.blocks.len();
        for k in 0..n
            invariant
                n == self.blocks@.len(),
                forall|j: int| 0 <= j < k ==> self.blocks@[j] != *coord,
        {
            if self.eq_coord(k, coord) {
                proof {
                    assert(self.blocks@[k as int] == *coord);
                }
                return true;
            }
        }
        proof {
            if self.blocks@.contains(*coord) {
                let k = choose|k: int| 0 <= k < self.blocks@.len() && self.blocks@[k] == *coord;
                assert(self.blocks@[k] != *coord);
            }
        }
        false
    }

    /// True when the held position `k` equals `coord`.
    fn eq_coord(&self, k: usize, coord: &Coord) -> (r: bool)
        requires
            k < self.blocks@.len(),
        ensures
            r == (self.blocks@[k as int] == *coord),
    {
        let held = &self.blocks[k];
        held.0 == coord.0 && held.1 == coord.1 && held.2 == coord.2
    }

    /// The state of the cell at `coord`.
    pub fn get_block(&self, coord: &Coord) -> (r: Block)
        ensures
            r == if self.blocks@.contains(*coord) {
                Block::Active
            } else {
                Block::Inactive
            },
    {
        if self.contains_coord(coord) {
            Block::Active
        } else {
            Block::Inactive
        }
    }

    /// The positions of all active cells, in the order they turned active.
    pub fn get_active_blocks(&self) -> (r: Vec<Coord>)
        ensures
            r@ == self.blocks@,
    {
        let n = self.blocks.len();
        let mut out: Vec<Coord> = Vec::new();
        for k in 0..n
            invariant
                n == self.blocks@.len(),
                out@ =~= self.blocks@.take(k as int),
        {
            out.push(self.blocks[k]);
            proof {
                assert(out@ =~= self.blocks@.take(k + 1));
            }
        }
        proof {
            assert(self.blocks@.take(n as int) =~= self.blocks@);
        }
        out
    }

    /// The twenty-six surrounding positions of `coord` with their states.
    /// Position `q` lies at the offset `neighbour_offset(q)`.
    pub fn neighbours(&self, coord: Coord) -> (r: Vec<(Coord, Block)>)
        requires
            i64::MIN < coord.0 < i64::MAX,
            i64::MIN < coord.1 < i64::MAX,
            i64::MIN < coord.2 < i64::MAX,
        ensures
            r@.len() == 26,
            forall|q: int|
                0 <= q < 26 ==> {
                    let c = (#[trigger] r@[q]).0;
                    &&& c.0 == coord.0 + neighbour_offset(q).0
                    &&& c.1 == coord.1 + neighbour_offset(q).1
                    &&& c.2 == coord.2 + neighbour_offset(q).2
                    &&& r@[q].1 == if self.blocks@.contains(c) {
                        Block::Active
                    } else {
                        Block::Inactive
                    }
                },
    {
        let mut out: Vec<(Coord, Block)> = Vec::new();
        for q in 0..26usize
            invariant
                i64::MIN < coord.0 < i64::MAX,
                i64::MIN < coord.1 < i64::MAX,
                i64::MIN < coord.2 < i64::MAX,
                out@.len() == q,
                forall|p: int|
                    0 <= p < q ==> {
                        let c = (#[trigger] out@[p]).0;
                        &&& c.0 == coord.0 + neighbour_offset(p).0
                        &&& c.1 == coord.1 + neighbour_offset(p).1
                        &&& c.2 == coord.2 + neighbour_offset(p).2
                        &&& out@[p].1 == if self.blocks@.contains(c) {
                            Block::Active
                        } else {
                            Block::Inactive
                        }
                    },
        {
            let t = if q < 13 {
                q
            } else {
                q + 1
            };
            let dx = (t / 9) as i64 - 1;
            let dy = ((t / 3) % 3) as i64 - 1;
            let dz = (t % 3) as i64 - 1;
            let c = (coord.0 + dx, coord.1 + dy, coord.2 + dz);
            let b = self.get_block(&c);
            out.push((c, b));
            proof {
                assert(dx == neighbour_offset(q as int).0);
                assert(dy == neighbour_offset(q as int).1);
                assert(dz == neighbour_offset(q as int).2);
            }
        }
        out
    }
}

/// The offset of the `q`-th surrounding position: the twenty-seven cells
/// of the three-by-three cube around a cell in row-major order, with the
/// centre left out.
pub open spec fn neighbour_offset(q: int) -> (int, int, int) {
    let t = if q < 13 {
        q
    } else {
        q + 1
    };
    (t / 9 - 1, (t / 3) % 3 - 1, t % 3 - 1)
}

} // verus!
