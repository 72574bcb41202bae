//! Where each version goes when the history is drawn as a grid: a
//! depth-first walk from the root, one column per level, where a version
//! takes the row the walk has reached and each version without children
//! moves the walk one row down.
use vstd::prelude::*;

use crate::store::{index_of, tree_shaped, Sbvc, SbvcView, VersionView};

verus! {

/// One version's place in the grid.
#[derive(Clone, Copy, Debug, PartialEq, Eq, Structural)]
pub struct Cell {
    pub id: u32,
    pub column: usize,
    pub row: u64,
}

impl View for Cell {
    type V = (u32, int, int);

    open spec fn view(&self) -> (u32, int, int) {
        (self.id, self.column as int, self.row as int)
    }
}

pub open spec fn cells(cs: Seq<Cell>) -> Seq<(u32, int, int)> {
    cs.map_values(|c: Cell| c@)
}

/// The next row; it stays put at the largest row.
pub open spec fn next_row(row: int) -> int {
    if row < u64::MAX {
        row + 1
    } else {
        row
    }
}

/// The cells of the version at index `i` and of everything below it, placed
/// from column `col` and row `row` on, and the row the walk ends at.
pub open spec fn place(vs: Seq<VersionView>, i: int, col: int, row: int) -> (
    Seq<(u32, int, int)>,
    int,
)
    decreases vs.len() - i, vs.len() + 1 - i,
{
    if 0 <= i < vs.len() {
        let below = place_children(vs, i, i + 1, col + 1, row);
        (
            seq![(vs[i].id, col, row)] + below.0,
            if below.0.len() == 0 {
                next_row(row)
            } else {
                below.1
            },
        )
    } else {
        (Seq::empty(), row)
    }
}

/// The cells of the children of index `p` that stand at `j` or later, in
/// creation order, each with what lies below it.
pub open spec fn place_children(vs: Seq<VersionView>, p: int, j: int, col: int, row: int) -> (
    Seq<(u32, int, int)>,
    int,
)
    decreases vs.len() - p, vs.len() - j,
{
    if 0 <= p < j < vs.len() {
        if vs[j].base == vs[p].id {
            let first = place(vs, j, col, row);
            let rest = place_children(vs, p, j + 1, col, first.1);
            (first.0 + rest.0, rest.1)
        } else {
            place_children(vs, p, j + 1, col, row)
        }
    } else {
        (Seq::empty(), row)
    }
}

/// The grid of a whole history: the walk from the root at column 0, row 0.
pub open spec fn grid(s: SbvcView) -> Seq<(u32, int, int)> {
    place(s.versions, 0, 0, 0).0
}

impl Sbvc {
    /// Places the version at index `i` and what lies below it, appending the
    /// cells to `out`; returns the row the walk ends at.
    fn place_at(&self, i: usize, col: usize, row: u64, out: &mut Vec<Cell>) -> (r: u64)
        requires
            tree_shaped(self@.versions),
            i < self@.versions.len(),
            col <= i,
        ensures
            cells(final(out)@) == cells(old(out)@) + place(self@.versions, i as int, col as int, row as int).0,
            r as int == place(self@.versions, i as int, col as int, row as int).1,
        decreases self@.versions.len() - i, self@.versions.len() + 1 - i,
    {
        let vs = self.versions();
        proof {
            assert(vs@.len() == self@.versions.len());
        }
        // The length of a vector fits in `usize`, so `i + 1` below does too.
        let _len = vs.len();
        let id = vs[i].id;
        proof {
            assert(self@.versions[i as int].id == id);
        }
        let ghost start = out@;
        out.push(Cell { id, column: col, row });
        let ghost mid = out@;
        let placed = out.len();
        let end = self.place_below(i, i + 1, col + 1, row, out);
        let ghost below = place_children(self@.versions, i as int, i as int + 1, col as int + 1, row as int);
        proof {
            assert(cells(mid) =~= cells(start) + seq![(id, col as int, row as int)]);
            assert(cells(out@) =~= cells(start) + (seq![(id, col as int, row as int)] + below.0));
        }
        if out.len() == placed {
            proof {
                assert(below.0.len() == 0);
            }
            if row < u64::MAX {
                row + 1
            } else {
                row
            }
        } else {
            end
        }
    }

    /// Places the children of index `p` that stand at `j` or later.
    fn place_below(&self, p: usize, j: usize, col: usize, row: u64, out: &mut Vec<Cell>) -> (r: u64)
        requires
            tree_shaped(self@.versions),
            p < j <= self@.versions.len(),
            col <= j,
        ensures
            cells(final(out)@) == cells(old(out)@) + place_children(
                self@.versions,
                p as int,
                j as int,
                col as int,
                row as int,
            ).0,
            r as int == place_children(self@.versions, p as int, j as int, col as int, row as int).1,
        decreases self@.versions.len() - p, self@.versions.len() - j,
    {
        let vs = self.versions();
        proof {
            assert(vs@.len() == self@.versions.len());
        }
        if j == vs.len() {
            proof {
                assert(cells(out@) =~= cells(out@) + Seq::<(u32, int, int)>::empty());
            }
            return row;
        }
        proof {
            assert(self@.versions[j as int].base == vs@[j as int].base);
            assert(self@.versions[p as int].id == vs@[p as int].id);
        }
        if vs[j].base == vs[p].id {
            let ghost start = out@;
            let mid_row = self.place_at(j, col, row, out);
            let ghost mid = out@;
            let end = self.place_below(p, j + 1, col, mid_row, out);
            proof {
                let first = place(self@.versions, j as int, col as int, row as int);
                let rest = place_children(self@.versions, p as int, j as int + 1, col as int, first.1);
                assert(cells(out@) =~= cells(start) + (first.0 + rest.0));
            }
            end
        } else {
            self.place_below(p, j + 1, col, row, out)
        }
    }

    /// Where each version goes in the drawn tree, in the order the walk
    /// meets them.
    pub fn layout(&self) -> (r: Vec<Cell>)
        requires
            tree_shaped(self@.versions),
        ensures
            cells(r@) == grid(self@),
    {
        let mut out: Vec<Cell> = Vec::new();
        self.place_at(0, 0, 0, &mut out);
        proof {
            assert(cells(out@) =~= Seq::<(u32, int, int)>::empty() + grid(self@));
        }
        out
    }
}

} // verus!
