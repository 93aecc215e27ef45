use minesweeper::chunk::{all_squares, random_square, Chunk, Status};
use minesweeper::coord::Coord;
use minesweeper::field::{BitField, NybbleField, DIMENSION};
use minesweeper::game::SquareView;

/// A chunk with the given mines, everything else blank and Enmined.
fn crafted(mines: &[Coord<usize>]) -> Chunk {
    let mut c = Chunk::default();
    for &m in mines {
        c.mines.set(m);
    }
    c.status = Status::Enmined;
    c
}

#[test]
fn mod_test_neighbors_accessors() {
    let mut chunk = Chunk::with_mines();

    chunk.neighbors.set(Coord(0, 7), 10);
    chunk.neighbors.set(Coord(0, 6), 5);

    assert_eq!(chunk.neighbors.get(Coord(0, 7)), 10);
    assert_eq!(chunk.neighbors.get(Coord(0, 6)), 5);
}

#[test]
fn with_mines_is_fresh() {
    let chunk = Chunk::with_mines();
    assert_eq!(chunk.status, Status::Enmined);
    let mut squares = all_squares();
    while let Some(s) = squares.next() {
        assert!(!chunk.clicked.get(s));
        assert!(!chunk.flags.get(s));
    }
}

#[test]
fn random_square_in_range() {
    for _ in 0..100 {
        let s = random_square();
        assert!(s.0 < DIMENSION && s.1 < DIMENSION);
    }
}

#[test]
fn bit_field_ops() {
    let mut f = BitField::default();
    assert!(!f.get(Coord(3, 5)));
    f.set(Coord(3, 5));
    assert!(f.get(Coord(3, 5)));
    assert!(!f.get(Coord(5, 3)));
    f.toggle(Coord(5, 3));
    assert!(f.get(Coord(5, 3)));
    f.toggle(Coord(5, 3));
    assert!(!f.get(Coord(5, 3)));
    f.unset(Coord(3, 5));
    assert!(!f.get(Coord(3, 5)));

    let mut g = BitField::default();
    g.set(Coord(0, 0));
    let ng = g.not();
    assert!(!ng.get(Coord(0, 0)));
    assert!(ng.get(Coord(7, 7)));
    assert!(g.equals(&g));
    assert!(!g.equals(&ng));
}

#[test]
fn nybble_field_ops() {
    let mut f = NybbleField::default();
    assert_eq!(f.get(Coord(2, 6)), 0);
    f.set(Coord(2, 6), 15);
    f.set(Coord(3, 6), 1);
    assert_eq!(f.get(Coord(2, 6)), 15);
    assert_eq!(f.get(Coord(3, 6)), 1);
    f.set(Coord(2, 6), 0);
    assert_eq!(f.get(Coord(2, 6)), 0);
    assert_eq!(f.get(Coord(3, 6)), 1);
}

#[test]
fn is_won_exactly_when_solved() {
    let mines = [Coord(0, 0), Coord(3, 4)];
    let mut c = crafted(&mines);
    assert!(!c.is_won());

    // click everything that is not a mine
    let mut squares = all_squares();
    while let Some(s) = squares.next() {
        if !c.mines.get(s) {
            c.clicked.set(s);
        }
    }
    // clicks are right but the mines are not flagged yet
    assert!(!c.is_won());

    c.flags.set(Coord(0, 0));
    c.flags.set(Coord(3, 4));
    assert!(c.is_won());

    // a flag on a safe square breaks it: flags differ from mines
    c.flags.set(Coord(1, 1));
    assert!(!c.is_won());
    c.flags.unset(Coord(1, 1));
    assert!(c.is_won());

    // a clicked mine breaks it: clicks are no longer the complement
    c.clicked.set(Coord(0, 0));
    assert!(!c.is_won());
}

#[test]
fn view_projects_each_state() {
    let mut c = crafted(&[Coord(0, 0), Coord(2, 2)]);
    c.clicked.set(Coord(1, 1));
    c.neighbors.set(Coord(1, 1), 2);
    c.flags.set(Coord(4, 4));

    assert_eq!(c.view(Coord(1, 1)), SquareView::Clicked(2));
    assert_eq!(c.view(Coord(4, 4)), SquareView::Flagged);
    assert_eq!(c.view(Coord(6, 6)), SquareView::Unclicked);
    assert_eq!(c.view(Coord(0, 0)), SquareView::Unclicked);

    // a clicked mine shows the penalty
    c.clicked.set(Coord(0, 0));
    assert_eq!(c.view(Coord(0, 0)), SquareView::Penalty);

    // losing reveals the remaining mines too
    c.status = Status::Lost;
    assert_eq!(c.view(Coord(2, 2)), SquareView::Penalty);
    assert_eq!(c.view(Coord(6, 6)), SquareView::Unclicked);

    // a won chunk shows points on unclicked squares
    c.status = Status::Won;
    assert_eq!(c.view(Coord(2, 2)), SquareView::Points);
}
