use minesweeper::arith::{DivFloorSignedExt, ModuloSignedExt, OptionalizeExt};
use minesweeper::coord::Coord;
use minesweeper::game::AbsoluteCoord;
use minesweeper::index_iter::cardinal_adjacent;

#[test]
fn sanity() {
    let coord = Coord(5, 6);

    assert_eq!(5, coord.0);
    assert_eq!(6, coord.1);
}

#[test]
fn coord_sum_abs_map() {
    assert_eq!(Coord(3i64, 4i64).sum(), 7);
    assert_eq!(Coord(-3i64, 4i64).abs(), Coord(3, 4));
    assert_eq!(Coord(-3i64, -4i64).abs(), Coord(3, 4));
    assert_eq!(Coord(2i64, 5i64).map(|x| x + 1), Coord(3, 6));
}

#[test]
fn modulo_is_true_modulo() {
    assert_eq!((-1i64).modulo(8), 7);
    assert_eq!((-8i64).modulo(8), 0);
    assert_eq!((-9i64).modulo(8), 7);
    assert_eq!(17i64.modulo(8), 1);
    assert_eq!(0i64.modulo(8), 0);
    assert_eq!((-5i64).modulo(3), 1);
}

#[test]
fn div_floor_rounds_down() {
    assert_eq!((-1i64).div_floor(8), -1);
    assert_eq!((-8i64).div_floor(8), -1);
    assert_eq!((-9i64).div_floor(8), -2);
    assert_eq!(17i64.div_floor(8), 2);
    assert_eq!(0i64.div_floor(8), 0);
    assert_eq!(7i64.div_floor(8), 0);
}

#[test]
fn optionalize_empty_and_full() {
    let empty: Vec<i64> = Vec::new();
    assert_eq!(empty.optionalize(), None);
    let full = vec![1i64, 2, 3];
    assert_eq!(full.optionalize(), Some(vec![1i64, 2, 3]));
}

#[test]
fn cardinal_offsets() {
    let offs = cardinal_adjacent();
    assert_eq!(offs, vec![Coord(-1, 0), Coord(1, 0), Coord(0, -1), Coord(0, 1)]);
}

#[test]
fn world_split_and_join() {
    let a = AbsoluteCoord::from_world(Coord(-1, -1));
    assert_eq!(a.chunk, Coord(-1, -1));
    assert_eq!(a.square, Coord(7, 7));

    let b = AbsoluteCoord::from_world(Coord(17, -9));
    assert_eq!(b.chunk, Coord(2, -2));
    assert_eq!(b.square, Coord(1, 7));

    // chunk * 8 + square == world, componentwise
    assert_eq!(b.to_world(), Coord(17, -9));
    assert_eq!(a.to_world(), Coord(-1, -1));

    let c = AbsoluteCoord::from_world(Coord(0, 0));
    assert_eq!(c.chunk, Coord(0, 0));
    assert_eq!(c.square, Coord(0, 0));
}
