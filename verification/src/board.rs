//! The board model: a square grid of cells, each empty or holding one
//! stone, with bounds-checked lookup and mutation.

use vstd::prelude::*;

use crate::GRID_SIZE;
use crate::MAX_SIDE;

verus! {

/// A stone on the board.  The automated player owns the attacker stones,
/// the human player the defender stones.
#[derive(Clone, Copy, PartialEq, Eq, Structural, Debug)]
pub enum Stone {
    AttackerStone,
    DefenderStone,
}

/// Whether `(x, y)` lies on a board of side length `n`.
pub open spec fn on_board(n: int, x: int, y: int) -> bool {
    0 <= x < n && 0 <= y < n
}

/// Well-formedness of a board snapshot: `n` rows of `n` cells each.
pub open spec fn grid_wf(b: Seq<Seq<Option<Stone>>>, n: int) -> bool {
    b.len() == n && (forall|y: int| 0 <= y < n ==> (#[trigger] b[y]).len() == n)
}

/// An `n` by `n` grid of cells.  Row `y` of `cells` holds the cells of
/// board row `y`; the cell at column `x`, row `y` is `cells[y][x]`.
pub struct Board {
    pub n: usize,
    pub cells: Vec<Vec<Option<Stone>>>,
}

impl View for Board {
    type V = Seq<Seq<Option<Stone>>>;

    open spec fn view(&self) -> Seq<Seq<Option<Stone>>> {
        Seq::new(self.cells@.len(), |y: int| self.cells@[y]@)
    }
}

impl Board {
    /// A board is well formed when it is square with side `n`, and `n`
    /// is small enough for every line score to fit the score fields.
    pub open spec fn wf(&self) -> bool {
        1 <= self.n <= MAX_SIDE && grid_wf(self@, self.n as int)
    }

    /// An empty board of side length `n`.
    pub fn new(n: usize) -> (b: Board)
        requires
            1 <= n <= MAX_SIDE,
        ensures
            b.wf(),
            b.n == n,
            forall|x: int, y: int| on_board(n as int, x, y) ==> b@[y][x] is None,
    {
        let mut cells: Vec<Vec<Option<Stone>>> = Vec::new();
        let mut y: usize = 0;
        while y < n
            invariant
                y <= n,
                cells@.len() == y,
                forall|j: int| 0 <= j < y ==> (#[trigger] cells@[j])@.len() == n,
                forall|j: int, x: int|
                    0 <= j < y && 0 <= x < n ==> #[trigger] cells@[j]@[x] is None,
            decreases n - y,
        {
            let mut row: Vec<Option<Stone>> = Vec::new();
            let mut x: usize = 0;
            while x < n
                invariant
                    x <= n,
                    row@.len() == x,
                    forall|i: int| 0 <= i < x ==> row@[i] is None,
                decreases n - x,
            {
                row.push(None);
                x += 1;
            }
            cells.push(row);
            y += 1;
        }
        Board { n, cells }
    }

    /// Whether `(x, y)` lies on this board.
    pub fn in_bounds(&self, x: usize, y: usize) -> (r: bool)
        ensures
            r == on_board(self.n as int, x as int, y as int),
    {
        x < self.n && y < self.n
    }

    /// The content of the cell at `(x, y)`.
    pub fn get(&self, x: usize, y: usize) -> (r: Option<Stone>)
        requires
            self.wf(),
            x < self.n,
            y < self.n,
        ensures
            r == self@[y as int][x as int],
    {
        proof {
            assert(self.cells@[y as int]@ == self@[y as int]);
            assert(self@[y as int].len() == self.n);
        }
        self.cells[y][x]
    }

    /// Whether the cell at `(x, y)` is empty.
    pub fn is_empty(&self, x: usize, y: usize) -> (r: bool)
        requires
            self.wf(),
            x < self.n,
            y < self.n,
        ensures
            r == (self@[y as int][x as int] is None),
    {
        proof {
            assert(self.cells@[y as int]@ == self@[y as int]);
            assert(self@[y as int].len() == self.n);
        }
        self.cells[y][x].is_none()
    }

    /// Writes `v` into the cell at `(x, y)`.
    pub fn set(&mut self, x: usize, y: usize, v: Option<Stone>)
        requires
            old(self).wf(),
            x < old(self).n,
            y < old(self).n,
        ensures
            final(self).wf(),
            final(self).n == old(self).n,
            final(self)@ == old(self)@.update(
                y as int,
                old(self)@[y as int].update(x as int, v),
            ),
    {
        let ghost old_view = self@;
        proof {
            assert(self.cells@.len() == self@.len());
            assert(self.cells@[y as int]@ == self@[y as int]);
            assert(self@[y as int].len() == self.n);
        }
        let row: &mut Vec<Option<Stone>> = &mut self.cells[y];
        row.set(x, v);
        proof {
            assert(self@ =~= old_view.update(y as int, old_view[y as int].update(x as int, v)));
        }
    }
}

/// Whether `(x, y)` lies on a board of the reference side length.
pub fn is_inbound(x: i32, y: i32) -> (r: bool)
    ensures
        r == on_board(GRID_SIZE as int, x as int, y as int),
{
    x >= 0 && x < GRID_SIZE as i32 && y >= 0 && y < GRID_SIZE as i32
}

} // verus!
