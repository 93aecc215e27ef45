use vstd::prelude::*;

verus! {

use crate::coord::Coord;
use crate::field::{BitField, NybbleField, DIMENSION, flip_rows, bit_positions};
use crate::game::SquareView;
use crate::index_iter::IndexIterUnsigned;

/// Fewest mines placed in a fresh chunk.
pub const MIN_MINES: u8 = 8;

/// One past the most mines placed in a fresh chunk.
pub const MAX_MINES: u8 = 16;

/// How far a chunk has progressed through its life cycle.
#[derive(PartialEq, Eq, Structural, Clone, Copy, Debug)]
pub enum Status {
    Blank,
    Enmined,
    Neighbored,
    Won,
    Lost,
}

impl Default for Status {
    fn default() -> (r: Status)
        ensures
            r == Status::Blank,
    {
        Status::Blank
    }
}

/// One fixed-size tile of the board: mine, click and flag state for
/// DIMENSION x DIMENSION squares, plus packed neighbour counts.
#[derive(Clone, Copy, Debug)]
pub struct Chunk {
    pub status: Status,
    pub mines: BitField,
    pub clicked: BitField,
    pub flags: BitField,
    pub neighbors: NybbleField,
}

/// Relies on rand::random: an arbitrary value of the requested type from the
/// thread-local generator. Nothing is promised of the result. The generator
/// aborts the process if the operating system's entropy source fails at its
/// first use, an environmental failure on a par with allocation failure.
pub assume_specification<T>[ rand::random::<T> ]() -> (r: T)
    where
        rand::distr::StandardUniform: rand::distr::Distribution<T>,
;

/// A square coordinate drawn at random; both components are below DIMENSION.
pub fn random_square() -> (r: Coord<usize>)
    ensures
        r.0 < DIMENSION,
        r.1 < DIMENSION,
{
    let x: u64 = rand::random::<u64>();
    let y: u64 = rand::random::<u64>();
    Coord((x % 8) as usize, (y % 8) as usize)
}

/// Every square coordinate of a chunk, in row-major enumeration order.
pub fn all_squares() -> (r: IndexIterUnsigned)
    ensures
        r.wf(),
        r.count == 0,
        r.limit == 64,
        r.dim_one == 8,
        r.offset == Coord(0usize, 0usize),
{
    proof {
        assert(DIMENSION == 8);
        assert(Coord(DIMENSION, DIMENSION).0 * Coord(DIMENSION, DIMENSION).1 == 64);
    }
    IndexIterUnsigned::new(Coord(DIMENSION, DIMENSION), Coord(0, 0))
}

impl Chunk {
    /// Whether every square the player has marked or revealed is consistent
    /// with a fully solved chunk: flags exactly on the mines, clicks exactly
    /// on everything else.
    pub open spec fn is_won_spec(self) -> bool {
        self.flags.rows() == self.mines.rows() && self.clicked.rows() == flip_rows(
            self.mines.rows(),
        )
    }

    /// A fresh chunk: between MIN_MINES and MAX_MINES random mine placements
    /// (duplicates collapse), nothing clicked, nothing flagged, and status
    /// Enmined. Which squares hold mines is left open: placement is random.
    pub fn with_mines() -> (r: Chunk)
        ensures
            r.status == Status::Enmined,
            r.clicked.all_clear(),
            r.flags.all_clear(),
            !r.mines.all_clear(),
            bit_positions(r.mines).finite(),
            1 <= bit_positions(r.mines).len() < MAX_MINES,
            forall|c: int, rr: int| 0 <= c < 8 && 0 <= rr < 8 ==> r.neighbors.value(c, rr) == 0,
    {
        let roll: u8 = rand::random::<u8>();
        let num_mines = roll % (MAX_MINES - MIN_MINES) + MIN_MINES;
        let mut mines = BitField::default();
        proof {
            assert(bit_positions(mines) =~= Set::empty());
        }
        let mut placed: u8 = 0;
        while placed < num_mines
            invariant
                MIN_MINES <= num_mines < MAX_MINES,
                placed <= num_mines,
                placed > 0 ==> !mines.all_clear(),
                bit_positions(mines).finite(),
                bit_positions(mines).len() <= placed,
                placed > 0 ==> 1 <= bit_positions(mines).len(),
            decreases num_mines - placed,
        {
            let s = random_square();
            let ghost before = mines;
            mines.set(s);
            proof {
                assert(mines.bit(s.0 as int, s.1 as int));
                assert(bit_positions(mines) =~= bit_positions(before).insert(
                    (s.0 as int, s.1 as int),
                ));
                vstd::set::axiom_set_insert_len(bit_positions(before), (s.0 as int, s.1 as int));
            }
            placed = placed + 1;
        }
        Chunk {
            status: Status::Enmined,
            mines,
            clicked: BitField::default(),
            flags: BitField::default(),
            neighbors: NybbleField::default(),
        }
    }

    /// What the player sees at one square. A pure projection of the chunk.
    pub open spec fn view_spec(self, col: int, row: int) -> SquareView {
        if self.clicked.bit(col, row) {
            if self.mines.bit(col, row) {
                SquareView::Penalty
            } else {
                SquareView::Clicked(self.neighbors.value(col, row))
            }
        } else {
            if self.status == Status::Won {
                SquareView::Points
            } else if self.status == Status::Lost && self.mines.bit(col, row) {
                SquareView::Penalty
            } else if self.flags.bit(col, row) {
                SquareView::Flagged
            } else {
                SquareView::Unclicked
            }
        }
    }

    pub fn view(&self, square: Coord<usize>) -> (v: SquareView)
        requires
            square.0 < DIMENSION,
            square.1 < DIMENSION,
        ensures
            v == self.view_spec(square.0 as int, square.1 as int),
    {
        if self.clicked.get(square) {
            if self.mines.get(square) {
                SquareView::Penalty
            } else {
                SquareView::Clicked(self.neighbors.get(square))
            }
        } else {
            if self.status == Status::Won {
                SquareView::Points
            } else if self.status == Status::Lost && self.mines.get(square) {
                SquareView::Penalty
            } else if self.flags.get(square) {
                SquareView::Flagged
            } else {
                SquareView::Unclicked
            }
        }
    }

    /// Whether the chunk is solved: flags coincide with the mines and the
    /// clicked squares are exactly the complement of the mines.
    pub fn is_won(&self) -> (r: bool)
        ensures
            r == self.is_won_spec(),
    {
        self.mines.equals(&self.flags) && self.mines.not().equals(&self.clicked)
    }
}

impl Default for Chunk {
    /// A blank chunk: no mines, no clicks, no flags, zero counts.
    fn default() -> (r: Chunk)
        ensures
            r.status == Status::Blank,
            r.mines.all_clear(),
            r.clicked.all_clear(),
            r.flags.all_clear(),
            forall|c: int, rr: int| 0 <= c < 8 && 0 <= rr < 8 ==> r.neighbors.value(c, rr) == 0,
    {
        Chunk {
            status: Status::Blank,
            mines: BitField::default(),
            clicked: BitField::default(),
            flags: BitField::default(),
            neighbors: NybbleField::default(),
        }
    }
}

} // verus!
