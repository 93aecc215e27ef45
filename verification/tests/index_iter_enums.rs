use minesweeper::coord::Coord;
use minesweeper::index_iter::{IndexIterSigned, IndexIterUnsigned};

fn collect_signed(mut it: IndexIterSigned) -> Vec<Coord<i64>> {
    let mut out = Vec::new();
    while let Some(c) = it.next() {
        out.push(c);
    }
    out
}

fn collect_unsigned(mut it: IndexIterUnsigned) -> Vec<Coord<usize>> {
    let mut out = Vec::new();
    while let Some(c) = it.next() {
        out.push(c);
    }
    out
}

fn product_signed(xs: std::ops::Range<i64>, ys: std::ops::Range<i64>) -> Vec<Coord<i64>> {
    let mut out = Vec::new();
    for x in xs {
        for y in ys.clone() {
            out.push(Coord(x, y));
        }
    }
    out
}

fn product_unsigned(xs: std::ops::Range<usize>, ys: std::ops::Range<usize>) -> Vec<Coord<usize>> {
    let mut out = Vec::new();
    for x in xs {
        for y in ys.clone() {
            out.push(Coord(x, y));
        }
    }
    out
}

#[test]
fn index_unsigned() {
    assert_eq!(
        product_unsigned(0..8, 0..8),
        collect_unsigned(IndexIterUnsigned::new(Coord(8, 8), Coord(0, 0))),
    );
}

#[test]
fn index_signed() {
    assert_eq!(
        product_signed(-4..4, -4..4),
        collect_signed(IndexIterSigned::new(Coord(8, 8), Coord(-4, -4))),
    );
}

#[test]
fn adjacent_index() {
    assert_eq!(
        product_signed(-1..2, -1..2),
        collect_signed(IndexIterSigned::self_and_adjacent(Coord(0, 0))),
    );
}

#[test]
fn nonsquare_unsigned() {
    assert_eq!(
        product_unsigned(0..3, 0..5),
        collect_unsigned(IndexIterUnsigned::new(Coord(3, 5), Coord(0, 0))),
    );
}

#[test]
fn nonsquare_signed() {
    assert_eq!(
        product_signed(-1..2, -2..3),
        collect_signed(IndexIterSigned::new(Coord(3, 5), Coord(-1, -2))),
    );
}
