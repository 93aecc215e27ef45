use minesweeper::chunk::{all_squares, Chunk, Status};
use minesweeper::chunk_map::ChunkMap;
use minesweeper::coord::Coord;
use minesweeper::game::{AbsoluteCoord, Game, SquareView};

/// A chunk with the given mines, everything else blank and Enmined.
fn crafted(mines: &[Coord<usize>]) -> Chunk {
    let mut c = Chunk::default();
    for &m in mines {
        c.mines.set(m);
    }
    c.status = Status::Enmined;
    c
}

#[test]
fn chunk_map_round_trip() {
    let mut m = ChunkMap::new();
    assert_eq!(m.len(), 0);
    assert!(!m.contains_key(Coord(1, 2)));
    assert!(m.get(Coord(1, 2)).is_none());

    let mut c = Chunk::default();
    c.status = Status::Enmined;
    c.mines.set(Coord(3, 3));
    m.insert(Coord(1, 2), c);

    assert_eq!(m.len(), 1);
    assert!(m.contains_key(Coord(1, 2)));
    let back = m.get(Coord(1, 2)).unwrap();
    assert_eq!(back.status, Status::Enmined);
    assert!(back.mines.get(Coord(3, 3)));
    assert!(!back.mines.get(Coord(4, 4)));

    let mut c2 = Chunk::default();
    c2.status = Status::Lost;
    m.insert(Coord(1, 2), c2);
    assert_eq!(m.len(), 1);
    assert_eq!(m.get(Coord(1, 2)).unwrap().status, Status::Lost);
}

#[test]
fn first_touch_allocates_nine_chunks() {
    let mut game = Game::new();
    game.touch(&vec![Coord(0, 0)]);
    assert_eq!(game.chunk_count(), 9);
    assert_eq!(game.chunks_lost(), 0);
    for x in -1i64..=1 {
        for y in -1i64..=1 {
            assert!(game.get_chunk(Coord(x, y)).is_some());
        }
    }
}

#[test]
fn mod_chunk_cascade() {
    let touch_points: [Coord<i64>; 5] = [
        Coord(0, 0),
        Coord(0, 16),
        Coord(8, 24),
        Coord(16, 8),
        Coord(8, 8),
    ];

    let mut game = Game::new();
    // Put a mine-free chunk under each touch point, so that none of the
    // points can hit a mine left there by an earlier point's surround
    // allocation and abort the batch.
    for &p in touch_points.iter() {
        let a = AbsoluteCoord::from_world(p);
        game.chunks.insert(a.chunk, crafted(&[]));
    }
    game.touch(&touch_points.to_vec());

    let mut total: usize = 0;
    let mut active: usize = 0;
    for x in -2i64..=4 {
        for y in -2i64..=4 {
            if let Some(chunk) = game.get_chunk(Coord(x, y)) {
                total += 1;
                if chunk.status != Status::Enmined {
                    active += 1;
                }
            }
        }
    }
    assert_eq!(game.chunk_count(), 25);
    assert_eq!(total, 25);
    assert_eq!(active, 5);
}

#[test]
fn touching_clicked_square_is_noop() {
    let mut game = Game::new();
    game.touch(&vec![Coord(0, 0)]);
    let won = game.chunks_won();
    let lost = game.chunks_lost();
    let count = game.chunk_count();

    let r = game.touch(&vec![Coord(0, 0)]);
    assert!(r.is_none());
    assert_eq!(game.chunks_won(), won);
    assert_eq!(game.chunks_lost(), lost);
    assert_eq!(game.chunk_count(), count);
}

#[test]
fn touching_mine_loses_chunk() {
    let mut game = Game::new();
    game.chunks.insert(Coord(0, 0), crafted(&[Coord(0, 0), Coord(1, 1)]));

    let r = game.touch(&vec![Coord(0, 0)]);
    assert!(r.is_none());
    assert_eq!(game.chunks_lost(), 1);
    assert_eq!(game.chunks_won(), 0);

    let chunk = game.get_chunk(Coord(0, 0)).unwrap();
    assert_eq!(chunk.status, Status::Lost);
    assert_eq!(chunk.view(Coord(0, 0)), SquareView::Penalty);
    // the other, unclicked mine is revealed as a penalty too
    assert_eq!(chunk.view(Coord(1, 1)), SquareView::Penalty);
}

#[test]
fn zero_square_spreads_to_eight_neighbors() {
    let mut game = Game::new();
    // a mine-free 3x3 block of chunks around the origin
    for x in -1i64..=1 {
        for y in -1i64..=1 {
            game.chunks.insert(Coord(x, y), crafted(&[]));
        }
    }

    let fringe = game.touch(&vec![Coord(0, 0)]).unwrap();
    assert_eq!(fringe.len(), 8);
    assert_eq!(
        fringe,
        vec![
            Coord(-1, -1),
            Coord(-1, 0),
            Coord(-1, 1),
            Coord(0, -1),
            Coord(0, 1),
            Coord(1, -1),
            Coord(1, 0),
            Coord(1, 1),
        ],
    );

    // feeding the fringe back reveals more but never loses and never
    // re-clicks: a second touch of any revealed square is a no-op
    game.touch(&fringe);
    assert_eq!(game.chunks_lost(), 0);
    let lost = game.chunks_lost();
    let won = game.chunks_won();
    assert!(game.touch(&vec![Coord(0, 0)]).is_none());
    assert!(game.touch(&vec![Coord(-1, -1)]).is_none());
    assert_eq!(game.chunks_lost(), lost);
    assert_eq!(game.chunks_won(), won);
}

#[test]
fn duplicate_inputs_click_once() {
    let mut game = Game::new();
    // a mine-free 3x3 block of chunks around the origin
    for x in -1i64..=1 {
        for y in -1i64..=1 {
            game.chunks.insert(Coord(x, y), crafted(&[]));
        }
    }

    // the second occurrence finds the square already clicked and adds no
    // second fringe
    let fringe = game.touch(&vec![Coord(0, 0), Coord(0, 0)]).unwrap();
    assert_eq!(fringe.len(), 8);
    assert_eq!(game.chunks_lost(), 0);
}

#[test]
fn flagging_completes_a_win_exactly_once() {
    let mut game = Game::new();
    let mine = Coord(2usize, 2usize);
    game.chunks.insert(Coord(0, 0), crafted(&[mine]));

    // click every safe square of the chunk
    let mut squares = all_squares();
    while let Some(s) = squares.next() {
        if s != mine {
            game.touch(&vec![Coord(s.0 as i64, s.1 as i64)]);
        }
    }
    assert_eq!(game.chunks_won(), 0);
    assert_eq!(game.chunks_lost(), 0);

    // the flag on the mine completes the chunk
    game.toggle_flag(Coord(2, 2));
    assert_eq!(game.chunks_won(), 1);
    let chunk = game.get_chunk(Coord(0, 0)).unwrap();
    assert_eq!(chunk.status, Status::Won);
    assert_eq!(chunk.view(Coord(2, 2)), SquareView::Points);

    // unflagging and reflagging the solved chunk never counts it again
    game.toggle_flag(Coord(2, 2));
    assert_eq!(game.chunks_won(), 1);
    game.toggle_flag(Coord(2, 2));
    assert_eq!(game.chunks_won(), 1);
}

#[test]
fn toggle_flag_flips_only_unclicked() {
    let mut game = Game::new();
    game.toggle_flag(Coord(3, 3));
    let chunk = game.get_chunk(Coord(0, 0)).unwrap();
    assert!(chunk.flags.get(Coord(3, 3)));
    assert_eq!(chunk.view(Coord(3, 3)), SquareView::Flagged);

    game.toggle_flag(Coord(3, 3));
    let chunk = game.get_chunk(Coord(0, 0)).unwrap();
    assert!(!chunk.flags.get(Coord(3, 3)));
}

#[test]
fn neighbor_counts_match_manual_tally() {
    let mut game = Game::new();
    game.touch(&vec![Coord(0, 0)]);
    let center = *game.get_chunk(Coord(0, 0)).unwrap();
    assert!(center.status != Status::Enmined && center.status != Status::Blank);

    for sx in 0i64..8 {
        for sy in 0i64..8 {
            if center.mines.get(Coord(sx as usize, sy as usize)) {
                continue;
            }
            // tally the mines of the nine surrounding world squares by
            // splitting each into its own chunk and square
            let mut tally: u8 = 0;
            for dx in -1i64..=1 {
                for dy in -1i64..=1 {
                    let a = AbsoluteCoord::from_world(Coord(sx + dx, sy + dy));
                    let chunk = game.get_chunk(a.chunk).unwrap();
                    if chunk.mines.get(a.square) {
                        tally += 1;
                    }
                }
            }
            assert_eq!(center.neighbors.get(Coord(sx as usize, sy as usize)), tally);
        }
    }
}
