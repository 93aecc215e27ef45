use minesweeper::coord::Coord;
use minesweeper::screen::Interface;

#[test]
fn checker_color_alternates() {
    let ui = Interface { scroll: Coord(0, 0), size: Coord(80, 24) };
    assert_eq!(ui.checker_color(Coord(0, 0)), 10);
    assert_eq!(ui.checker_color(Coord(1, 0)), 11);
    assert_eq!(ui.checker_color(Coord(0, 1)), 11);
    assert_eq!(ui.checker_color(Coord(1, 1)), 10);

    // scrolling by one flips the parity
    let scrolled = Interface { scroll: Coord(-1, 0), size: Coord(80, 24) };
    assert_eq!(scrolled.checker_color(Coord(0, 0)), 11);
}

#[test]
fn screen_world_round_trip() {
    let ui = Interface { scroll: Coord(-5, 7), size: Coord(80, 24) };
    let world = ui.screen_to_world_space(Coord(10, 3));
    assert_eq!(world, Coord(0, 10));
    let back = ui.world_to_screen_space(world);
    assert_eq!(back, Coord(10, 3));
}

#[test]
fn visible_chunks_cover_viewport() {
    let ui = Interface { scroll: Coord(0, 0), size: Coord(32, 16) };
    let mut it = ui.visible_chunk_coords();
    let mut seen = Vec::new();
    while let Some(c) = it.next() {
        seen.push(c);
    }
    // the viewport is 16x16 world squares: chunks (0..=2) x (0..=2)
    assert!(seen.contains(&Coord(0, 0)));
    assert!(seen.contains(&Coord(1, 1)));
    assert_eq!(seen.len(), 9);
}
