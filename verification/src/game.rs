use vstd::prelude::*;

verus! {

use crate::arith::{DivFloorSignedExt, ModuloSignedExt, OptionalizeExt};
use crate::chunk::{Chunk, Status};
use crate::chunk_map::{ChunkMap, chunk_map};
use crate::coord::Coord;
use crate::field::NybbleField;
use crate::index_iter::IndexIterSigned;
use vstd::arithmetic::div_mod::{
    lemma_fundamental_div_mod, lemma_fundamental_div_mod_converse, lemma_mod_bound,
};

broadcast use crate::field::lemma_bit_rows_len, crate::field::lemma_nyb_rows_len;

/// What the player sees at one square.
#[derive(PartialEq, Eq, Structural, Clone, Copy, Debug)]
pub enum SquareView {
    Clicked(u8),
    Unclicked,
    Flagged,
    Penalty,
    Points,
}

/// A world coordinate split into the chunk that holds it and the square
/// within that chunk.
#[derive(Clone, Copy, PartialEq, Eq, Structural, Debug)]
pub struct AbsoluteCoord {
    pub chunk: Coord<i64>,
    pub square: Coord<usize>,
}

/// The chunk component of one world axis: the floor quotient by DIMENSION.
pub open spec fn chunk_index(w: int) -> int {
    w / 8
}

/// The square component of one world axis: the true modulo by DIMENSION.
pub open spec fn square_index(w: int) -> int {
    w % 8
}

impl AbsoluteCoord {
    /// Split a world coordinate. Floor division and true modulo make
    /// negative world coordinates map contiguously, and for every world
    /// coordinate `chunk * DIMENSION + square == world` with
    /// `square` in [0, DIMENSION).
    pub fn from_world(world: Coord<i64>) -> (r: AbsoluteCoord)
        ensures
            r.chunk.0 == chunk_index(world.0 as int),
            r.chunk.1 == chunk_index(world.1 as int),
            r.square.0 == square_index(world.0 as int),
            r.square.1 == square_index(world.1 as int),
            r.square.0 < 8,
            r.square.1 < 8,
            8 * r.chunk.0 + r.square.0 == world.0,
            8 * r.chunk.1 + r.square.1 == world.1,
    {
        proof {
            vstd::arithmetic::div_mod::lemma_fundamental_div_mod(world.0 as int, 8);
            vstd::arithmetic::div_mod::lemma_fundamental_div_mod(world.1 as int, 8);
            vstd::arithmetic::div_mod::lemma_mod_bound(world.0 as int, 8);
            vstd::arithmetic::div_mod::lemma_mod_bound(world.1 as int, 8);
        }
        AbsoluteCoord {
            chunk: Coord(
                DivFloorSignedExt::div_floor(world.0, 8),
                DivFloorSignedExt::div_floor(world.1, 8),
            ),
            square: Coord(world.0.modulo(8) as usize, world.1.modulo(8) as usize),
        }
    }

    /// Rejoin the split coordinate into the world coordinate it names.
    pub fn to_world(self) -> (r: Coord<i64>)
        requires
            self.square.0 < 8,
            self.square.1 < 8,
            i64::MIN <= 8 * self.chunk.0 + self.square.0 <= i64::MAX,
            i64::MIN <= 8 * self.chunk.1 + self.square.1 <= i64::MAX,
        ensures
            r.0 == 8 * self.chunk.0 + self.square.0,
            r.1 == 8 * self.chunk.1 + self.square.1,
    {
        Coord(
            8 * self.chunk.0 + (self.square.0 as i64),
            8 * self.chunk.1 + (self.square.1 as i64),
        )
    }
}

/// Both components name a square inside a chunk.
pub open spec fn valid_square(s: Coord<usize>) -> bool {
    s.0 < 8 && s.1 < 8
}

/// Chunk coordinates the board can ever hold: every chunk that holds a
/// world coordinate, or is adjacent to one that does.
pub open spec fn chunk_coord_ok(cc: Coord<i64>) -> bool {
    &&& i64::MIN / 8 - 1 <= cc.0 <= i64::MAX / 8 + 1
    &&& i64::MIN / 8 - 1 <= cc.1 <= i64::MAX / 8 + 1
}

/// Whether `k` is `cc` itself or one of its eight neighbouring chunk
/// coordinates.
pub open spec fn in_surround(cc: Coord<i64>, k: Coord<i64>) -> bool {
    -1 <= k.0 - cc.0 <= 1 && -1 <= k.1 - cc.1 <= 1
}

/// Whether the board `m` holds a mine at world coordinate (x, y).
pub open spec fn mine_at(m: Map<Coord<i64>, Chunk>, x: int, y: int) -> bool {
    let cc = Coord((x / 8) as i64, (y / 8) as i64);
    &&& m.dom().contains(cc)
    &&& m[cc].mines.bit(x % 8, y % 8)
}

/// The k-th of the nine canonical offsets {-1,0,1} x {-1,0,1}, row-major.
pub open spec fn off9(k: int) -> Coord<i64> {
    Coord((k / 3 - 1) as i64, (k % 3 - 1) as i64)
}

/// Mines among the world squares at the first `k` canonical offsets
/// around (x, y).
pub open spec fn mines_upto(m: Map<Coord<i64>, Chunk>, x: int, y: int, k: int) -> nat
    decreases k,
{
    if k <= 0 {
        0
    } else {
        mines_upto(m, x, y, k - 1) + if mine_at(m, x + off9(k - 1).0, y + off9(k - 1).1) {
            1nat
        } else {
            0nat
        }
    }
}

/// Mines in the nine world squares at and around (x, y). For a square that
/// is itself mine-free this is its true neighbour-mine count.
pub open spec fn mine_count(m: Map<Coord<i64>, Chunk>, x: int, y: int) -> nat {
    mines_upto(m, x, y, 9)
}

/// All nine chunks of the surround of `cc` are allocated.
pub open spec fn surround_allocated(m: Map<Coord<i64>, Chunk>, cc: Coord<i64>) -> bool {
    forall|k: Coord<i64>| in_surround(cc, k) ==> #[trigger] m.dom().contains(k)
}

/// The stored neighbour counts of chunk `c` at coordinate `cc` are the true
/// mine counts of the board `m`.
pub open spec fn counts_ok(m: Map<Coord<i64>, Chunk>, cc: Coord<i64>, c: Chunk) -> bool {
    forall|sc: int, sr: int|
        0 <= sc < 8 && 0 <= sr < 8 && !c.mines.bit(sc, sr) ==> #[trigger] c.neighbors.value(
            sc,
            sr,
        ) == mine_count(m, 8 * cc.0 + sc, 8 * cc.1 + sr)
}

/// Every mine-free square of the chunk is clicked. Holds of a chunk solved
/// through flagging, whose counts were never computed but are never read.
pub open spec fn all_safe_clicked(c: Chunk) -> bool {
    forall|sc: int, sr: int|
        0 <= sc < 8 && 0 <= sr < 8 && !c.mines.bit(sc, sr) ==> #[trigger] c.clicked.bit(sc, sr)
}

/// How far a status has progressed through the life cycle; Won and Lost
/// are both terminal.
pub open spec fn status_rank(s: Status) -> int {
    match s {
        Status::Blank => 0,
        Status::Enmined => 1,
        Status::Neighbored => 2,
        Status::Won => 3,
        Status::Lost => 3,
    }
}

/// Whether the board `m` already has the square of world coordinate `w`
/// clicked.
pub open spec fn clicked_at(m: Map<Coord<i64>, Chunk>, w: Coord<i64>) -> bool {
    let cc = world_chunk(w);
    let sq = world_square(w);
    m.dom().contains(cc) && m[cc].clicked.bit(sq.0 as int, sq.1 as int)
}

/// The invariant of one allocated chunk within the board. A Won chunk has
/// every safe square clicked: winning requires it, and clicks are never
/// taken back. A Lost chunk holds a clicked mine: that is how it was lost,
/// and neither clicks nor mines are ever taken back. A Neighbored chunk
/// always carries true counts; a Won or Lost chunk may instead have been
/// solved purely by flagging, in which case its counts were never computed
/// but are also never read.
pub open spec fn board_chunk_ok(m: Map<Coord<i64>, Chunk>, cc: Coord<i64>, c: Chunk) -> bool {
    &&& c.status != Status::Blank
    &&& (c.status == Status::Won ==> all_safe_clicked(c))
    &&& (c.status == Status::Lost ==> exists|sc: int, sr: int|
        0 <= sc < 8 && 0 <= sr < 8 && c.mines.bit(sc, sr) && #[trigger] c.clicked.bit(sc, sr))
    &&& (c.status == Status::Neighbored ==> counts_ok(m, cc, c))
    &&& (c.status == Status::Neighbored || c.status == Status::Won || c.status == Status::Lost)
        ==> {
        &&& surround_allocated(m, cc)
        &&& (counts_ok(m, cc, c) || all_safe_clicked(c))
    }
}

/// A chunk fresh out of mine placement: mined, nothing clicked or flagged,
/// and no neighbour count computed yet.
pub open spec fn freshly_mined(c: Chunk) -> bool {
    &&& c.status == Status::Enmined
    &&& c.clicked.all_clear()
    &&& c.flags.all_clear()
    &&& forall|sc: int, sr: int|
        0 <= sc < 8 && 0 <= sr < 8 ==> #[trigger] c.neighbors.value(sc, sr) == 0
}

/// Splitting a world axis value 8a + v with a small offset v: its chunk is
/// a plus the offset bucket minus one, and its square is the leftover.
proof fn lemma_world_decompose(a: int, v: int)
    requires
        -1 <= v <= 8,
    ensures
        0 <= (v + 8) / 8 <= 2,
        0 <= v + 8 - 8 * ((v + 8) / 8) < 8,
        (8 * a + v) / 8 == a + (v + 8) / 8 - 1,
        (8 * a + v) % 8 == v + 8 - 8 * ((v + 8) / 8),
{
    let b = (v + 8) / 8;
    lemma_fundamental_div_mod(v + 8, 8);
    lemma_mod_bound(v + 8, 8);
    lemma_fundamental_div_mod_converse(8 * a + v, 8, a + b - 1, v + 8 - 8 * b);
}

/// The components of each canonical offset lie in [-1, 1].
proof fn lemma_off9_bounds(k: int)
    requires
        0 <= k < 9,
    ensures
        -1 <= off9(k).0 <= 1,
        -1 <= off9(k).1 <= 1,
{
    lemma_mod_bound(k, 3);
    lemma_fundamental_div_mod(k, 3);
}

/// At most `k` mines lie among the first `k` offsets.
proof fn lemma_mines_upto_bound(m: Map<Coord<i64>, Chunk>, x: int, y: int, k: int)
    requires
        0 <= k,
    ensures
        mines_upto(m, x, y, k) <= k,
    decreases k,
{
    if k > 0 {
        lemma_mines_upto_bound(m, x, y, k - 1);
    }
}

/// Replacing the chunk at `cc` with one that holds the same mines changes
/// no mine test anywhere on the board.
proof fn lemma_mine_at_update_same_mines(
    m: Map<Coord<i64>, Chunk>,
    cc: Coord<i64>,
    c: Chunk,
    x: int,
    y: int,
)
    requires
        m.dom().contains(cc),
        c.mines == m[cc].mines,
    ensures
        mine_at(m.insert(cc, c), x, y) == mine_at(m, x, y),
{
}

/// Replacing the chunk at `cc` with one that holds the same mines changes
/// no partial mine count anywhere on the board.
proof fn lemma_mines_upto_update_same_mines(
    m: Map<Coord<i64>, Chunk>,
    cc: Coord<i64>,
    c: Chunk,
    x: int,
    y: int,
    k: int,
)
    requires
        m.dom().contains(cc),
        c.mines == m[cc].mines,
    ensures
        mines_upto(m.insert(cc, c), x, y, k) == mines_upto(m, x, y, k),
    decreases k,
{
    if k > 0 {
        lemma_mines_upto_update_same_mines(m, cc, c, x, y, k - 1);
        lemma_mine_at_update_same_mines(m, cc, c, x + off9(k - 1).0, y + off9(k - 1).1);
    }
}

/// Inserting a chunk at a coordinate outside the surround of `k` leaves the
/// mine counts of `k`'s squares unchanged: every square they test lies in a
/// chunk of `k`'s surround, which is already allocated.
proof fn lemma_mines_upto_insert_outside(
    m: Map<Coord<i64>, Chunk>,
    cc: Coord<i64>,
    c: Chunk,
    k: Coord<i64>,
    sc: int,
    sr: int,
    j: int,
)
    requires
        !m.dom().contains(cc),
        surround_allocated(m, k),
        chunk_coord_ok(k),
        0 <= sc < 8,
        0 <= sr < 8,
        0 <= j <= 9,
    ensures
        mines_upto(m.insert(cc, c), 8 * k.0 + sc, 8 * k.1 + sr, j) == mines_upto(
            m,
            8 * k.0 + sc,
            8 * k.1 + sr,
            j,
        ),
    decreases j,
{
    if j > 0 {
        lemma_mines_upto_insert_outside(m, cc, c, k, sc, sr, j - 1);
        let o = off9(j - 1);
        lemma_off9_bounds(j - 1);
        let x = 8 * k.0 + sc + o.0;
        let y = 8 * k.1 + sr + o.1;
        lemma_world_decompose(k.0 as int, sc + o.0);
        lemma_world_decompose(k.1 as int, sr + o.1);
        let tc = Coord((x / 8) as i64, (y / 8) as i64);
        assert(in_surround(k, tc));
        assert(m.dom().contains(tc));
        assert(mine_at(m.insert(cc, c), x, y) == mine_at(m, x, y));
    }
}

/// Inserting a freshly mined chunk at an unallocated coordinate preserves
/// the per-chunk invariant of every chunk on the board.
proof fn lemma_wf_insert_fresh(m: Map<Coord<i64>, Chunk>, cc: Coord<i64>, c: Chunk)
    requires
        forall|k: Coord<i64>| #[trigger]
            m.dom().contains(k) ==> chunk_coord_ok(k) && board_chunk_ok(m, k, m[k]),
        !m.dom().contains(cc),
        chunk_coord_ok(cc),
        c.status == Status::Enmined,
    ensures
        forall|k: Coord<i64>| #[trigger]
            m.insert(cc, c).dom().contains(k) ==> chunk_coord_ok(k) && board_chunk_ok(
                m.insert(cc, c),
                k,
                m.insert(cc, c)[k],
            ),
{
    let m2 = m.insert(cc, c);
    assert forall|k: Coord<i64>| #[trigger]
        m2.dom().contains(k) implies chunk_coord_ok(k) && board_chunk_ok(m2, k, m2[k]) by {
        if k != cc {
            assert(m.dom().contains(k));
            assert(board_chunk_ok(m, k, m[k]));
            let ch = m[k];
            if ch.status == Status::Neighbored || ch.status == Status::Won || ch.status
                == Status::Lost {
                assert(surround_allocated(m2, k));
                if counts_ok(m, k, ch) {
                    assert forall|sc: int, sr: int|
                        0 <= sc < 8 && 0 <= sr < 8 && !ch.mines.bit(sc, sr) implies #[trigger] ch
                        .neighbors.value(sc, sr) == mine_count(m2, 8 * k.0 + sc, 8 * k.1
                        + sr) by {
                        lemma_mines_upto_insert_outside(m, cc, c, k, sc, sr, 9);
                    }
                    assert(counts_ok(m2, k, ch));
                }
            }
        }
    }
}

/// The chunk holding world coordinate `w`.
pub open spec fn world_chunk(w: Coord<i64>) -> Coord<i64> {
    Coord((w.0 as int / 8) as i64, (w.1 as int / 8) as i64)
}

/// The square within its chunk that world coordinate `w` names.
pub open spec fn world_square(w: Coord<i64>) -> Coord<usize> {
    Coord((w.0 as int % 8) as usize, (w.1 as int % 8) as usize)
}

/// The eight world coordinates adjacent to `w`, in canonical order with the
/// centre left out: the fringe a zero-count reveal spreads to.
pub open spec fn fringe8(w: Coord<i64>) -> Seq<Coord<i64>> {
    Seq::new(
        8,
        |i: int|
            {
                let j = if i < 4 {
                    i
                } else {
                    i + 1
                };
                Coord((w.0 + off9(j).0) as i64, (w.1 + off9(j).1) as i64)
            },
    )
}

/// A solved chunk has no clicked mine: its clicks are exactly the
/// complement of its mines.
proof fn lemma_won_no_clicked_mine(c: Chunk, sc: int, sr: int)
    requires
        c.is_won_spec(),
        0 <= sc < 8,
        0 <= sr < 8,
        c.mines.bit(sc, sr),
    ensures
        !c.clicked.bit(sc, sr),
{
    assert(crate::field::flip_rows(c.mines.rows())[sr] == !c.mines.rows()[sr]);
    assert(c.clicked.rows()[sr] == crate::field::flip_rows(c.mines.rows())[sr]);
    crate::field::lemma_row_not_bits(c.mines.rows()[sr], sc as u8);
}

/// A solved chunk has every mine-free square clicked.
proof fn lemma_won_all_safe(c: Chunk)
    requires
        c.is_won_spec(),
    ensures
        all_safe_clicked(c),
{
    assert forall|sc: int, sr: int|
        0 <= sc < 8 && 0 <= sr < 8 && !c.mines.bit(sc, sr) implies #[trigger] c.clicked.bit(
        sc,
        sr,
    ) by {
        assert(crate::field::flip_rows(c.mines.rows())[sr] == !c.mines.rows()[sr]);
        assert(c.clicked.rows()[sr] == crate::field::flip_rows(c.mines.rows())[sr]);
        crate::field::lemma_row_not_bits(c.mines.rows()[sr], sc as u8);
    }
}

/// Replacing the chunk at `cc` with one holding the same mines keeps every
/// mine count on the board and the invariant of every other chunk.
proof fn lemma_wf_insert_same_mines(m: Map<Coord<i64>, Chunk>, cc: Coord<i64>, c2: Chunk)
    requires
        forall|k: Coord<i64>| #[trigger]
            m.dom().contains(k) ==> chunk_coord_ok(k) && board_chunk_ok(m, k, m[k]),
        m.dom().contains(cc),
        c2.mines == m[cc].mines,
    ensures
        forall|x: int, y: int| #[trigger]
            mine_count(m.insert(cc, c2), x, y) == mine_count(m, x, y),
        forall|k: Coord<i64>|
            k != cc && #[trigger] m.insert(cc, c2).dom().contains(k) ==> chunk_coord_ok(k)
                && board_chunk_ok(m.insert(cc, c2), k, m.insert(cc, c2)[k]),
{
    let m2 = m.insert(cc, c2);
    assert forall|x: int, y: int| #[trigger] mine_count(m2, x, y) == mine_count(m, x, y) by {
        lemma_mines_upto_update_same_mines(m, cc, c2, x, y, 9);
    }
    assert forall|k: Coord<i64>|
        k != cc && #[trigger] m2.dom().contains(k) implies chunk_coord_ok(k) && board_chunk_ok(
        m2,
        k,
        m2[k],
    ) by {
        let ch = m[k];
        if ch.status == Status::Neighbored || ch.status == Status::Won || ch.status
            == Status::Lost {
            assert(surround_allocated(m2, k));
            if counts_ok(m, k, ch) {
                assert(counts_ok(m2, k, ch));
            }
        }
    }
}

/// A freshly mined chunk guaranteed to have no mine at `square`: candidates
/// are drawn whole and discarded until one is safe there. The draw is
/// capped at an astronomically large number of attempts; if every one of
/// them placed a mine on the square, the last candidate is made safe by
/// clearing that one bit.
fn safe_chunk(square: Coord<usize>) -> (r: Chunk)
    requires
        valid_square(square),
    ensures
        freshly_mined(r),
        !r.mines.bit(square.0 as int, square.1 as int),
{
    let mut tries: u64 = 0;
    while tries < u64::MAX
        invariant
            valid_square(square),
        decreases u64::MAX - tries,
    {
        let cand = Chunk::with_mines();
        if !cand.mines.get(square) {
            return cand;
        }
        tries = tries + 1;
    }
    let mut cand = Chunk::with_mines();
    cand.mines.unset(square);
    cand
}

/// Whether input `i` of a touch list finds its square already clicked:
/// clicked on the board the call started from, or named earlier in the
/// same list.
pub open spec fn clicked_before(
    m0: Map<Coord<i64>, Chunk>,
    ws: Seq<Coord<i64>>,
    i: int,
) -> bool {
    clicked_at(m0, ws[i]) || exists|j: int| 0 <= j < i && ws[j] == ws[i]
}

/// After the first `upto` inputs of a touch of the list `ws` over the
/// starting board `m0`, the clicked squares among the inputs are exactly
/// those of the starting board plus the inputs already processed.
#[verifier::opaque]
pub open spec fn inputs_click_state(
    m0: Map<Coord<i64>, Chunk>,
    m: Map<Coord<i64>, Chunk>,
    ws: Seq<Coord<i64>>,
    upto: int,
) -> bool {
    forall|j: int|
        0 <= j < ws.len() ==> (clicked_at(m, #[trigger] ws[j]) <==> (clicked_at(m0, ws[j])
            || exists|l: int| 0 <= l < upto && ws[l] == ws[j]))
}

/// The fringe accumulated by the first `i` inputs of a loss-free touch of
/// the list `ws` starting from board `m0`: every input that finds its
/// square unclicked and whose mine count on the finished board `m` is zero
/// contributes its eight neighbours, in processing order.
pub open spec fn fringe_upto(
    m0: Map<Coord<i64>, Chunk>,
    m: Map<Coord<i64>, Chunk>,
    ws: Seq<Coord<i64>>,
    i: int,
) -> Seq<Coord<i64>>
    decreases i,
{
    if i <= 0 {
        Seq::empty()
    } else {
        fringe_upto(m0, m, ws, i - 1) + if !clicked_before(m0, ws, i - 1) && mine_count(
            m,
            ws[i - 1].0 as int,
            ws[i - 1].1 as int,
        ) == 0 {
            fringe8(ws[i - 1])
        } else {
            Seq::empty()
        }
    }
}

/// A world coordinate is exactly its chunk scaled by eight plus its
/// square: the split is a bijection.
proof fn lemma_world_rejoin(w: Coord<i64>)
    ensures
        8 * (world_chunk(w).0 as int) + world_square(w).0 == w.0,
        8 * (world_chunk(w).1 as int) + world_square(w).1 == w.1,
        valid_square(world_square(w)),
        chunk_coord_ok(world_chunk(w)),
{
    lemma_fundamental_div_mod(w.0 as int, 8);
    lemma_fundamental_div_mod(w.1 as int, 8);
    lemma_mod_bound(w.0 as int, 8);
    lemma_mod_bound(w.1 as int, 8);
    vstd::arithmetic::div_mod::lemma_div_is_ordered(i64::MIN as int, w.0 as int, 8);
    vstd::arithmetic::div_mod::lemma_div_is_ordered(w.0 as int, i64::MAX as int, 8);
    vstd::arithmetic::div_mod::lemma_div_is_ordered(i64::MIN as int, w.1 as int, 8);
    vstd::arithmetic::div_mod::lemma_div_is_ordered(w.1 as int, i64::MAX as int, 8);
}

/// Growing the board without touching the mines of existing chunks keeps
/// the mine counts of any square whose surround was already allocated.
proof fn lemma_mines_upto_grow(
    m1: Map<Coord<i64>, Chunk>,
    m2: Map<Coord<i64>, Chunk>,
    k: Coord<i64>,
    sc: int,
    sr: int,
    j: int,
)
    requires
        forall|kk: Coord<i64>| #[trigger]
            m1.dom().contains(kk) ==> m2.dom().contains(kk) && m2[kk].mines == m1[kk].mines,
        surround_allocated(m1, k),
        chunk_coord_ok(k),
        0 <= sc < 8,
        0 <= sr < 8,
        0 <= j <= 9,
    ensures
        mines_upto(m2, 8 * k.0 + sc, 8 * k.1 + sr, j) == mines_upto(
            m1,
            8 * k.0 + sc,
            8 * k.1 + sr,
            j,
        ),
    decreases j,
{
    if j > 0 {
        lemma_mines_upto_grow(m1, m2, k, sc, sr, j - 1);
        let o = off9(j - 1);
        lemma_off9_bounds(j - 1);
        let x = 8 * k.0 + sc + o.0;
        let y = 8 * k.1 + sr + o.1;
        lemma_world_decompose(k.0 as int, sc + o.0);
        lemma_world_decompose(k.1 as int, sr + o.1);
        let tc = Coord((x / 8) as i64, (y / 8) as i64);
        assert(in_surround(k, tc));
        assert(m1.dom().contains(tc));
        assert(mine_at(m2, x, y) == mine_at(m1, x, y));
    }
}

/// Growing the board as above changes no input's contribution to the
/// fringe, as long as every already-processed input had its surround
/// allocated before the growth.
proof fn lemma_fringe_upto_stable(
    m0: Map<Coord<i64>, Chunk>,
    m1: Map<Coord<i64>, Chunk>,
    m2: Map<Coord<i64>, Chunk>,
    ws: Seq<Coord<i64>>,
    i: int,
)
    requires
        forall|kk: Coord<i64>| #[trigger]
            m1.dom().contains(kk) ==> m2.dom().contains(kk) && m2[kk].mines == m1[kk].mines,
        forall|j: int|
            0 <= j < i ==> surround_allocated(m1, world_chunk(#[trigger] ws[j]))
                && chunk_coord_ok(world_chunk(ws[j])),
        0 <= i <= ws.len(),
    ensures
        fringe_upto(m0, m2, ws, i) == fringe_upto(m0, m1, ws, i),
    decreases i,
{
    if i > 0 {
        lemma_fringe_upto_stable(m0, m1, m2, ws, i - 1);
        let w = ws[i - 1];
        lemma_world_rejoin(w);
        let cc = world_chunk(w);
        let sq = world_square(w);
        lemma_mines_upto_grow(m1, m2, cc, sq.0 as int, sq.1 as int, 9);
        assert(mine_count(m2, w.0 as int, w.1 as int) == mine_count(m1, w.0 as int, w.1 as int));
    }
}

/// Append the eight world coordinates around `world` to `out`, in
/// canonical order.
fn push_fringe(out: &mut Vec<Coord<i64>>, world: Coord<i64>)
    requires
        i64::MIN < world.0 < i64::MAX,
        i64::MIN < world.1 < i64::MAX,
    ensures
        final(out)@ == old(out)@ + fringe8(world),
{
    let mut it = IndexIterSigned::self_and_adjacent(Coord(0, 0));
    while it.count < it.limit
        invariant
            it.wf(),
            it.limit == 9,
            it.dim_one == 3,
            it.offset.0 == -1,
            it.offset.1 == -1,
            i64::MIN < world.0 < i64::MAX,
            i64::MIN < world.1 < i64::MAX,
            out@.len() == old(out)@.len() + (if it.count <= 4 {
                it.count as int
            } else {
                it.count - 1
            }),
            forall|j: int| 0 <= j < old(out)@.len() ==> #[trigger] out@[j] == old(out)@[j],
            forall|j: int|
                0 <= j < (if it.count <= 4 {
                    it.count as int
                } else {
                    it.count - 1
                }) ==> #[trigger] out@[old(out)@.len() + j] == fringe8(world)[j],
        decreases it.limit - it.count,
    {
        let ghost prev = it;
        let off = it.next().unwrap();
        proof {
            lemma_mod_bound(prev.count as int, 3);
            vstd::arithmetic::div_mod::lemma_div_pos_is_pos(prev.count as int, 3);
            vstd::arithmetic::div_mod::lemma_div_is_ordered(prev.count as int, 8, 3);
            assert(off == off9(prev.count as int));
            lemma_off9_bounds(prev.count as int);
            lemma_fundamental_div_mod(prev.count as int, 3);
        }
        if !(off.0 == 0 && off.1 == 0) {
            proof {
                assert(prev.count != 4);
            }
            out.push(Coord(world.0 + off.0, world.1 + off.1));
        } else {
            proof {
                assert(prev.count == 4);
            }
        }
    }
    proof {
        assert forall|j: int|
            0 <= j < out@.len() implies out@[j] == (old(out)@ + fringe8(world))[j] by {
            if j >= old(out)@.len() {
                assert(out@[old(out)@.len() + (j - old(out)@.len())] == fringe8(world)[j
                    - old(out)@.len()]);
            }
        }
        assert(out@ =~= old(out)@ + fringe8(world));
    }
}

/// What touching one world coordinate did to the board.
enum TouchStep {
    /// The square was already clicked: nothing to do.
    Skip,
    /// The square held a mine: the chunk is lost.
    Boom,
    /// The square was revealed; the flag records whether its
    /// neighbour-mine count is zero.
    Clear(bool),
}

/// The sparse board: lazily allocated chunks plus win/loss bookkeeping.
pub struct Game {
    pub chunks: ChunkMap,
    pub chunks_won: u64,
    pub chunks_lost: u64,
}

impl Game {
    /// The allocated chunks as a mathematical map.
    pub open spec fn board(self) -> Map<Coord<i64>, Chunk> {
        chunk_map(self.chunks)
    }

    /// The board invariant: finitely many chunks, every one of them mined
    /// on creation, and every chunk whose status went past Enmined has its
    /// whole surround allocated and its counts trustworthy (or, when it was
    /// solved purely by flagging, every safe square already clicked).
    pub open spec fn wf(self) -> bool {
        &&& self.board().dom().finite()
        &&& forall|cc: Coord<i64>| #[trigger]
            self.board().dom().contains(cc) ==> chunk_coord_ok(cc) && board_chunk_ok(
                self.board(),
                cc,
                self.board()[cc],
            )
    }

    /// An empty board with zeroed counters.
    pub fn new() -> (r: Game)
        ensures
            r.wf(),
            r.board() =~= Map::empty(),
            r.chunks_won == 0,
            r.chunks_lost == 0,
    {
        Game { chunks: ChunkMap::new(), chunks_won: 0, chunks_lost: 0 }
    }

    /// How many chunks the player has fully solved.
    pub fn chunks_won(&self) -> (r: u64)
        ensures
            r == self.chunks_won,
    {
        self.chunks_won
    }

    /// How many chunks have been lost to a clicked mine.
    pub fn chunks_lost(&self) -> (r: u64)
        ensures
            r == self.chunks_lost,
    {
        self.chunks_lost
    }

    /// The chunk allocated at `chunk`, if any.
    pub fn get_chunk(&self, chunk: Coord<i64>) -> (r: Option<&Chunk>)
        ensures
            match r {
                Some(c) => self.board().dom().contains(chunk) && *c == self.board()[chunk],
                None => !self.board().dom().contains(chunk),
            },
    {
        self.chunks.get(chunk)
    }

    /// Lazily allocate the chunk at `chunk` and its eight neighbours. A
    /// chunk allocated for the touch itself is drawn again until it has no
    /// mine at `square`, so the triggering click is always safe; the
    /// neighbours get no such guarantee. Chunks that already exist are left
    /// exactly as they are.
    pub fn allocate_with_surround(&mut self, chunk: Coord<i64>, square: Coord<usize>)
        requires
            old(self).wf(),
            valid_square(square),
            i64::MIN / 8 <= chunk.0 <= i64::MAX / 8,
            i64::MIN / 8 <= chunk.1 <= i64::MAX / 8,
        ensures
            final(self).wf(),
            final(self).chunks_won == old(self).chunks_won,
            final(self).chunks_lost == old(self).chunks_lost,
            forall|k: Coord<i64>| #[trigger]
                old(self).board().dom().contains(k) ==> final(self).board().dom().contains(k)
                    && final(self).board()[k] == old(self).board()[k],
            forall|k: Coord<i64>| #[trigger]
                final(self).board().dom().contains(k) ==> old(self).board().dom().contains(k)
                    || in_surround(chunk, k),
            forall|k: Coord<i64>|
                #![trigger final(self).board().dom().contains(k)]
                final(self).board().dom().contains(k) && !old(self).board().dom().contains(k)
                    ==> freshly_mined(final(self).board()[k]),
            !old(self).board().dom().contains(chunk) ==> !final(self).board()[chunk].mines.bit(
                square.0 as int,
                square.1 as int,
            ),
            surround_allocated(final(self).board(), chunk),
    {
        if !self.chunks.contains_key(chunk) {
            let fresh = safe_chunk(square);
            proof {
                lemma_wf_insert_fresh(self.board(), chunk, fresh);
            }
            self.chunks.insert(chunk, fresh);
        }
        let ghost mid = *self;
        let mut it = IndexIterSigned::self_and_adjacent(chunk);
        while it.count < it.limit
            invariant
                old(self).wf(),
                i64::MIN / 8 <= chunk.0 <= i64::MAX / 8,
                i64::MIN / 8 <= chunk.1 <= i64::MAX / 8,
                it.wf(),
                it.limit == 9,
                it.dim_one == 3,
                it.offset.0 == chunk.0 - 1,
                it.offset.1 == chunk.1 - 1,
                self.wf(),
                self.chunks_won == old(self).chunks_won,
                self.chunks_lost == old(self).chunks_lost,
                self.board().dom().contains(chunk),
                forall|k: Coord<i64>| #[trigger]
                    old(self).board().dom().contains(k) ==> self.board().dom().contains(k)
                        && self.board()[k] == old(self).board()[k],
                forall|k: Coord<i64>| #[trigger]
                    self.board().dom().contains(k) ==> old(self).board().dom().contains(k)
                        || in_surround(chunk, k),
                forall|k: Coord<i64>|
                    #![trigger self.board().dom().contains(k)]
                    self.board().dom().contains(k) && !old(self).board().dom().contains(k)
                        ==> freshly_mined(self.board()[k]),
                !old(self).board().dom().contains(chunk) ==> !self.board()[chunk].mines.bit(
                    square.0 as int,
                    square.1 as int,
                ),
                forall|j: int|
                    0 <= j < it.count ==> self.board().dom().contains(#[trigger] it.item(j)),
            decreases it.limit - it.count,
        {
            let ghost prev_it = it;
            let cc = it.next().unwrap();
            proof {
                lemma_off9_bounds(prev_it.count as int);
                vstd::arithmetic::div_mod::lemma_mod_bound(prev_it.count as int, 3);
                vstd::arithmetic::div_mod::lemma_div_pos_is_pos(prev_it.count as int, 3);
                vstd::arithmetic::div_mod::lemma_div_is_ordered(prev_it.count as int, 8, 3);
            }
            if !self.chunks.contains_key(cc) {
                let fresh = Chunk::with_mines();
                proof {
                    lemma_wf_insert_fresh(self.board(), cc, fresh);
                }
                self.chunks.insert(cc, fresh);
            }
            proof {
                assert(self.board().dom().contains(prev_it.item(prev_it.count as int)));
                assert forall|j: int|
                    0 <= j < it.count implies self.board().dom().contains(
                    #[trigger] it.item(j),
                ) by {
                    assert(it.item(j) == prev_it.item(j));
                }
            }
        }
        proof {
            assert forall|k: Coord<i64>| in_surround(chunk, k) implies #[trigger] self.board()
                .dom().contains(k) by {
                let a = k.0 - chunk.0 + 1;
                let b = k.1 - chunk.1 + 1;
                let j = 3 * a + b;
                lemma_fundamental_div_mod_converse(j, 3, a, b);
                assert(it.item(j) == k);
                assert(self.board().dom().contains(it.item(j)));
            }
        }
    }

    /// Compute the neighbour-mine counts of the chunk at `coord` from its
    /// own mines and those of its eight neighbours, write them into the
    /// chunk, and advance its status to Neighbored. A no-op unless the
    /// chunk's status is exactly Enmined, so it is safe to call every time.
    #[verifier::loop_isolation(false)]
    #[verifier::rlimit(60)]
    pub fn calc_neighbors(&mut self, coord: Coord<i64>)
        requires
            old(self).wf(),
            i64::MIN / 8 <= coord.0 <= i64::MAX / 8,
            i64::MIN / 8 <= coord.1 <= i64::MAX / 8,
            old(self).board().dom().contains(coord),
            surround_allocated(old(self).board(), coord),
        ensures
            final(self).wf(),
            final(self).chunks_won == old(self).chunks_won,
            final(self).chunks_lost == old(self).chunks_lost,
            final(self).board().dom() =~= old(self).board().dom(),
            forall|k: Coord<i64>|
                k != coord && #[trigger] old(self).board().dom().contains(k)
                    ==> final(self).board()[k] == old(self).board()[k],
            old(self).board()[coord].status != Status::Enmined ==> *final(self) == *old(self),
            old(self).board()[coord].status == Status::Enmined ==> {
                let c0 = old(self).board()[coord];
                let c1 = final(self).board()[coord];
                &&& c1.status == Status::Neighbored
                &&& c1.mines == c0.mines
                &&& c1.clicked == c0.clicked
                &&& c1.flags == c0.flags
                &&& counts_ok(final(self).board(), coord, c1)
                &&& forall|sc: int, sr: int|
                    0 <= sc < 8 && 0 <= sr < 8 && c1.mines.bit(sc, sr)
                        ==> #[trigger] c1.neighbors.value(sc, sr) == 0
            },
    {
        let center: Chunk = *self.chunks.get(coord).unwrap();
        if center.status != Status::Enmined {
            return ;
        }
        let ghost m = self.board();

        // Borrow the nine chunks of the surround, in canonical order.
        let mut surround: Vec<Chunk> = Vec::new();
        let mut it = IndexIterSigned::self_and_adjacent(coord);
        while it.count < it.limit
            invariant
                it.wf(),
                it.limit == 9,
                it.dim_one == 3,
                it.offset.0 == coord.0 - 1,
                it.offset.1 == coord.1 - 1,
                surround@.len() == it.count,
                forall|j: int|
                    0 <= j < it.count ==> m.dom().contains(#[trigger] it.item(j)) && surround@[j]
                        == m[it.item(j)],
            decreases it.limit - it.count,
        {
            let ghost prev = it;
            let cc = it.next().unwrap();
            proof {
                lemma_mod_bound(prev.count as int, 3);
                vstd::arithmetic::div_mod::lemma_div_pos_is_pos(prev.count as int, 3);
                vstd::arithmetic::div_mod::lemma_div_is_ordered(prev.count as int, 8, 3);
                assert(in_surround(coord, cc));
            }
            let ch = *self.chunks.get(cc).unwrap();
            surround.push(ch);
            proof {
                assert forall|j: int|
                    0 <= j < it.count implies m.dom().contains(#[trigger] it.item(j))
                    && surround@[j] == m[it.item(j)] by {
                    assert(it.item(j) == prev.item(j));
                }
            }
        }

        // Count the surrounding mines of every mine-free square.
        let mut canvas = NybbleField::default();
        let mut sq = crate::chunk::all_squares();
        while sq.count < sq.limit
            invariant
                sq.wf(),
                sq.limit == 64,
                sq.dim_one == 8,
                sq.offset.0 == 0,
                sq.offset.1 == 0,
                forall|sc: int, sr: int|
                    0 <= sc < 8 && 0 <= sr < 8 && 8 * sc + sr < sq.count && !center.mines.bit(
                        sc,
                        sr,
                    ) ==> #[trigger] canvas.value(sc, sr) == mine_count(
                        m,
                        8 * coord.0 + sc,
                        8 * coord.1 + sr,
                    ),
                forall|sc: int, sr: int|
                    0 <= sc < 8 && 0 <= sr < 8 && center.mines.bit(sc, sr)
                        ==> #[trigger] canvas.value(sc, sr) == 0,
            decreases sq.limit - sq.count,
        {
            let ghost prevs = sq;
            let s = sq.next().unwrap();
            proof {
                lemma_mod_bound(prevs.count as int, 8);
                vstd::arithmetic::div_mod::lemma_div_pos_is_pos(prevs.count as int, 8);
                vstd::arithmetic::div_mod::lemma_div_is_ordered(prevs.count as int, 63, 8);
                lemma_fundamental_div_mod(prevs.count as int, 8);
                assert(valid_square(s));
                assert(8 * (s.0 as int) + s.1 == prevs.count);
            }
            let ghost gx: int = 8 * coord.0 + s.0;
            let ghost gy: int = 8 * coord.1 + s.1;
            if !center.mines.get(s) {
                let mut count: u8 = 0;
                let mut off_it = IndexIterSigned::self_and_adjacent(Coord(0, 0));
                while off_it.count < off_it.limit
                    invariant
                        off_it.wf(),
                        off_it.limit == 9,
                        off_it.dim_one == 3,
                        off_it.offset.0 == -1,
                        off_it.offset.1 == -1,
                        count <= off_it.count,
                        count as nat == mines_upto(m, gx, gy, off_it.count as int),
                    decreases off_it.limit - off_it.count,
                {
                    let ghost prevo = off_it;
                    let off = off_it.next().unwrap();
                    proof {
                        lemma_mod_bound(prevo.count as int, 3);
                        vstd::arithmetic::div_mod::lemma_div_pos_is_pos(prevo.count as int, 3);
                        vstd::arithmetic::div_mod::lemma_div_is_ordered(prevo.count as int, 8, 3);
                        assert(off == off9(prevo.count as int));
                        lemma_off9_bounds(prevo.count as int);
                    }
                    let bx = (s.0 as i64 + off.0 + 8) / 8;
                    let by = (s.1 as i64 + off.1 + 8) / 8;
                    proof {
                        lemma_world_decompose(coord.0 as int, s.0 + off.0);
                        lemma_world_decompose(coord.1 as int, s.1 + off.1);
                    }
                    let index = (3 * bx + by) as usize;
                    let wx = s.0 as i64 + off.0 + (2 - bx) * 8;
                    let wy = s.1 as i64 + off.1 + (2 - by) * 8;
                    proof {
                        lemma_fundamental_div_mod_converse(wx as int, 8, 1, wx - 8);
                        lemma_fundamental_div_mod_converse(wy as int, 8, 1, wy - 8);
                    }
                    let local = Coord((wx % 8) as usize, (wy % 8) as usize);
                    proof {
                        lemma_fundamental_div_mod_converse(3 * bx + by, 3, bx as int, by as int);
                        assert(it.item(3 * bx + by) == Coord(
                            ((coord.0 + bx - 1)) as i64,
                            ((coord.1 + by - 1)) as i64,
                        ));
                        assert((gx + off.0) / 8 == coord.0 + bx - 1);
                        assert((gy + off.1) / 8 == coord.1 + by - 1);
                        assert((gx + off.0) % 8 == local.0);
                        assert((gy + off.1) % 8 == local.1);
                        assert(surround@[index as int] == m[Coord(
                            ((coord.0 + bx - 1)) as i64,
                            ((coord.1 + by - 1)) as i64,
                        )]);
                        assert(mine_at(m, gx + off.0, gy + off.1) == surround@[index as int].mines
                            .bit(local.0 as int, local.1 as int));
                    }
                    if surround[index].mines.get(local) {
                        count = count + 1;
                    }
                }
                canvas.set(s, count);
            }
            proof {
                assert forall|sc: int, sr: int|
                    0 <= sc < 8 && 0 <= sr < 8 && 8 * sc + sr < sq.count && !center.mines.bit(
                        sc,
                        sr,
                    ) implies #[trigger] canvas.value(sc, sr) == mine_count(
                    m,
                    8 * coord.0 + sc,
                    8 * coord.1 + sr,
                ) by {
                    if 8 * sc + sr < prevs.count {
                        assert(!(sc == s.0 && sr == s.1));
                    } else {
                        assert(sc == s.0 && sr == s.1);
                    }
                }
            }
        }

        // Commit the counts and advance the status.
        let mut updated = center;
        updated.neighbors = canvas;
        updated.status = Status::Neighbored;
        proof {
            let m2 = m.insert(coord, updated);
            assert forall|sc: int, sr: int|
                0 <= sc < 8 && 0 <= sr < 8 && !updated.mines.bit(sc, sr) implies #[trigger] updated
                .neighbors.value(sc, sr) == mine_count(m2, 8 * coord.0 + sc, 8 * coord.1
                + sr) by {
                assert(8 * sc + sr < 64);
                lemma_mines_upto_update_same_mines(
                    m,
                    coord,
                    updated,
                    8 * coord.0 + sc,
                    8 * coord.1 + sr,
                    9,
                );
            }
            assert(counts_ok(m2, coord, updated));
            assert forall|k: Coord<i64>| #[trigger]
                m2.dom().contains(k) implies chunk_coord_ok(k) && board_chunk_ok(
                m2,
                k,
                m2[k],
            ) by {
                if k == coord {
                    assert(surround_allocated(m2, coord));
                } else {
                    let ch = m[k];
                    if ch.status == Status::Neighbored || ch.status == Status::Won || ch.status
                        == Status::Lost {
                        assert(surround_allocated(m2, k));
                        if counts_ok(m, k, ch) {
                            assert forall|sc: int, sr: int|
                                0 <= sc < 8 && 0 <= sr < 8 && !ch.mines.bit(
                                    sc,
                                    sr,
                                ) implies #[trigger] ch.neighbors.value(sc, sr) == mine_count(
                                m2,
                                8 * k.0 + sc,
                                8 * k.1 + sr,
                            ) by {
                                lemma_mines_upto_update_same_mines(
                                    m,
                                    coord,
                                    updated,
                                    8 * k.0 + sc,
                                    8 * k.1 + sr,
                                    9,
                                );
                            }
                            assert(counts_ok(m2, k, ch));
                        }
                    }
                }
            }
        }
        self.chunks.insert(coord, updated);
    }

    /// Touch one world coordinate: allocate and neighbour-count its chunk,
    /// then reveal the square unless it was already clicked. Reports
    /// whether the square was skipped, exploded, or cleared with a zero
    /// neighbour count.
    #[verifier::rlimit(100)]
    fn touch_one(&mut self, world: Coord<i64>) -> (r: TouchStep)
        requires
            old(self).wf(),
            i64::MIN < world.0 < i64::MAX,
            i64::MIN < world.1 < i64::MAX,
            old(self).chunks_won < u64::MAX,
            old(self).chunks_lost < u64::MAX,
        ensures
            final(self).wf(),
            ({
                let m0 = old(self).board();
                let m1 = final(self).board();
                let cc = world_chunk(world);
                let sq = world_square(world);
                let pre_clicked = m0.dom().contains(cc) && m0[cc].clicked.bit(
                    sq.0 as int,
                    sq.1 as int,
                );
                let pre_mine = m0.dom().contains(cc) && m0[cc].mines.bit(
                    sq.0 as int,
                    sq.1 as int,
                );
                &&& forall|k: Coord<i64>| #[trigger]
                    m0.dom().contains(k) ==> m1.dom().contains(k)
                &&& forall|k: Coord<i64>| #[trigger]
                    m1.dom().contains(k) ==> m0.dom().contains(k) || in_surround(cc, k)
                &&& forall|k: Coord<i64>|
                    k != cc && #[trigger] m0.dom().contains(k) ==> m1[k] == m0[k]
                &&& forall|k: Coord<i64>|
                    k != cc && #[trigger] m1.dom().contains(k) && !m0.dom().contains(k)
                        ==> freshly_mined(m1[k])
                &&& m1.dom().contains(cc)
                &&& surround_allocated(m1, cc)
                &&& (m0.dom().contains(cc) ==> m1[cc].mines == m0[cc].mines)
                &&& forall|k: Coord<i64>, c: int, rr: int|
                    #![trigger m1[k].clicked.bit(c, rr), m0.dom().contains(k)]
                    m0.dom().contains(k) && 0 <= c < 8 && 0 <= rr < 8 && m0[k].clicked.bit(
                        c,
                        rr,
                    ) ==> m1[k].clicked.bit(c, rr)
                &&& forall|k: Coord<i64>| #[trigger]
                    m0.dom().contains(k) ==> status_rank(m0[k].status) <= status_rank(
                        m1[k].status,
                    ) && (m0[k].status == Status::Lost ==> m1[k].status == Status::Lost)
                &&& ((r is Skip) <==> pre_clicked)
                &&& ((r is Boom) <==> (pre_mine && !pre_clicked))
                &&& (r is Skip ==> {
                    &&& final(self).chunks_won == old(self).chunks_won
                    &&& final(self).chunks_lost == old(self).chunks_lost
                    &&& m1[cc].clicked == m0[cc].clicked
                    &&& m1[cc].flags == m0[cc].flags
                })
                &&& (r is Boom ==> {
                    &&& final(self).chunks_won == old(self).chunks_won
                    &&& final(self).chunks_lost == old(self).chunks_lost + 1
                    &&& m1[cc].status == Status::Lost
                    &&& m1[cc].clicked.bit(sq.0 as int, sq.1 as int)
                    &&& !m1[cc].flags.bit(sq.0 as int, sq.1 as int)
                    &&& forall|c: int, rr: int|
                        0 <= c < 8 && 0 <= rr < 8 && !(c == sq.0 && rr == sq.1)
                            ==> #[trigger] m1[cc].clicked.bit(c, rr) == (m0.dom().contains(cc)
                            && m0[cc].clicked.bit(c, rr))
                })
                &&& (r is Clear ==> {
                    &&& final(self).chunks_lost == old(self).chunks_lost
                    &&& !m1[cc].mines.bit(sq.0 as int, sq.1 as int)
                    &&& m1[cc].clicked.bit(sq.0 as int, sq.1 as int)
                    &&& !m1[cc].flags.bit(sq.0 as int, sq.1 as int)
                    &&& forall|c: int, rr: int|
                        0 <= c < 8 && 0 <= rr < 8 && !(c == sq.0 && rr == sq.1)
                            ==> #[trigger] m1[cc].clicked.bit(c, rr) == (m0.dom().contains(cc)
                            && m0[cc].clicked.bit(c, rr))
                    &&& final(self).chunks_won as int == old(self).chunks_won as int + (
                    if m1[cc].is_won_spec() {
                        1int
                    } else {
                        0int
                    })
                    &&& (m1[cc].status == Status::Won <==> m1[cc].is_won_spec())
                    &&& m1[cc].status == (if m1[cc].is_won_spec() {
                        Status::Won
                    } else if m0.dom().contains(cc) && m0[cc].status == Status::Lost {
                        Status::Lost
                    } else {
                        Status::Neighbored
                    })
                })
                &&& (r matches TouchStep::Clear(z) ==> z == (mine_count(
                    m1,
                    world.0 as int,
                    world.1 as int,
                ) == 0))
            }),
    {
        let a = AbsoluteCoord::from_world(world);
        let chunk = a.chunk;
        let square = a.square;
        proof {
            vstd::arithmetic::div_mod::lemma_div_is_ordered(
                i64::MIN as int,
                world.0 as int,
                8,
            );
            vstd::arithmetic::div_mod::lemma_div_is_ordered(
                world.0 as int,
                i64::MAX as int,
                8,
            );
            vstd::arithmetic::div_mod::lemma_div_is_ordered(
                i64::MIN as int,
                world.1 as int,
                8,
            );
            vstd::arithmetic::div_mod::lemma_div_is_ordered(
                world.1 as int,
                i64::MAX as int,
                8,
            );
            assert(chunk == world_chunk(world));
            assert(square == world_square(world));
        }
        self.allocate_with_surround(chunk, square);
        self.calc_neighbors(chunk);
        let ghost m1 = self.board();
        let tc: Chunk = *self.chunks.get(chunk).unwrap();
        proof {
            assert(tc.status != Status::Enmined && tc.status != Status::Blank);
        }
        if tc.clicked.get(square) {
            return TouchStep::Skip;
        }
        let mut updated = tc;
        updated.flags.unset(square);
        updated.clicked.set(square);
        if tc.mines.get(square) {
            updated.status = Status::Lost;
            proof {
                lemma_wf_insert_same_mines(m1, chunk, updated);
                let m2 = m1.insert(chunk, updated);
                assert(surround_allocated(m2, chunk));
                if counts_ok(m1, chunk, tc) {
                    assert(counts_ok(m2, chunk, updated));
                } else {
                    assert(all_safe_clicked(tc));
                    assert(all_safe_clicked(updated));
                }
            }
            self.chunks.insert(chunk, updated);
            self.chunks_lost = self.chunks_lost + 1;
            return TouchStep::Boom;
        }
        let won_now = updated.is_won();
        if won_now {
            updated.status = Status::Won;
        }
        proof {
            // A Won chunk has all safe squares clicked, so this square,
            // safe and unclicked, rules the status out.
            assert(tc.status == Status::Neighbored || tc.status == Status::Lost);
            if tc.status == Status::Lost {
                // the clicked mine that lost the chunk keeps it from winning
                let (wc, wr) = choose|wc: int, wr: int|
                    0 <= wc < 8 && 0 <= wr < 8 && tc.mines.bit(wc, wr) && #[trigger] tc.clicked.bit(
                        wc,
                        wr,
                    );
                assert(updated.clicked.bit(wc, wr));
                if updated.is_won_spec() {
                    lemma_won_no_clicked_mine(updated, wc, wr);
                }
            }
            lemma_wf_insert_same_mines(m1, chunk, updated);
            let m2 = m1.insert(chunk, updated);
            assert(surround_allocated(m2, chunk));
            // The counts of this chunk are trustworthy: were every safe
            // square clicked, this one would be too.
            assert(counts_ok(m1, chunk, tc));
            assert(counts_ok(m2, chunk, updated));
            if won_now {
                lemma_won_all_safe(updated);
            }
            assert(tc.neighbors.value(square.0 as int, square.1 as int) == mine_count(
                m1,
                world.0 as int,
                world.1 as int,
            ));
        }
        self.chunks.insert(chunk, updated);
        if won_now {
            self.chunks_won = self.chunks_won + 1;
        }
        let n = updated.neighbors.get(square);
        TouchStep::Clear(n == 0)
    }

    /// Touch the given world coordinates in order: reveal each square,
    /// allocating and neighbour-counting lazily. Returns the fringe to
    /// click next — the eight neighbours of every revealed zero-count
    /// square — or None when nothing cascades. When a mine is revealed the
    /// call aborts at once with None: the loss counter rises by one, the
    /// effects on earlier coordinates persist, and the rest of the input
    /// is ignored.
    #[verifier::rlimit(100)]
    pub fn touch(&mut self, world_coords: &Vec<Coord<i64>>) -> (r: Option<Vec<Coord<i64>>>)
        requires
            old(self).wf(),
            forall|i: int|
                0 <= i < world_coords@.len() ==> i64::MIN < (#[trigger] world_coords@[i]).0
                    < i64::MAX && i64::MIN < world_coords@[i].1 < i64::MAX,
            old(self).chunks_won as int + world_coords@.len() <= u64::MAX as int,
            old(self).chunks_lost < u64::MAX,
        ensures
            final(self).wf(),
            forall|k: Coord<i64>| #[trigger]
                old(self).board().dom().contains(k) ==> final(self).board().dom().contains(k)
                    && final(self).board()[k].mines == old(self).board()[k].mines,
            old(self).chunks_lost <= final(self).chunks_lost <= old(self).chunks_lost as int
                + 1,
            final(self).chunks_lost > old(self).chunks_lost ==> r is None,
            old(self).chunks_won <= final(self).chunks_won <= old(self).chunks_won as int
                + world_coords@.len(),
            // clicked bits are never unset
            forall|k: Coord<i64>, c: int, rr: int|
                #![trigger final(self).board()[k].clicked.bit(c, rr), old(self).board().dom().contains(k)]
                old(self).board().dom().contains(k) && 0 <= c < 8 && 0 <= rr < 8 && old(
                    self,
                ).board()[k].clicked.bit(c, rr) ==> final(self).board()[k].clicked.bit(c, rr),
            // statuses only advance, and a lost chunk stays lost
            forall|k: Coord<i64>| #[trigger]
                old(self).board().dom().contains(k) ==> status_rank(
                    old(self).board()[k].status,
                ) <= status_rank(final(self).board()[k].status) && (old(self).board()[k].status
                    == Status::Lost ==> final(self).board()[k].status == Status::Lost),
            // chunks appear only in the surrounds of the touched coordinates
            forall|k: Coord<i64>| #[trigger]
                final(self).board().dom().contains(k) ==> old(self).board().dom().contains(k)
                    || exists|i: int|
                    0 <= i < world_coords@.len() && in_surround(
                        world_chunk(#[trigger] world_coords@[i]),
                        k,
                    ),
            // unless the call aborted on a mine, every input square ends up
            // revealed, with its chunk and surround allocated
            final(self).chunks_lost == old(self).chunks_lost ==> forall|i: int|
                0 <= i < world_coords@.len() ==> {
                    let cc = world_chunk(#[trigger] world_coords@[i]);
                    &&& final(self).board().dom().contains(cc)
                    &&& surround_allocated(final(self).board(), cc)
                    &&& clicked_at(final(self).board(), world_coords@[i])
                },
            // a list of already clicked squares is skipped whole: no fringe,
            // no counter change, no click or flag of any chunk touched
            (forall|i: int|
                0 <= i < world_coords@.len() ==> clicked_at(
                    old(self).board(),
                    #[trigger] world_coords@[i],
                )) ==> {
                &&& r is None
                &&& final(self).chunks_won == old(self).chunks_won
                &&& final(self).chunks_lost == old(self).chunks_lost
                &&& forall|k: Coord<i64>| #[trigger]
                    old(self).board().dom().contains(k) ==> final(self).board()[k].clicked
                        == old(self).board()[k].clicked && final(self).board()[k].flags == old(
                        self,
                    ).board()[k].flags
            },
            // a loss names an input that hit a mine: its chunk is Lost, the
            // mine clicked and unflagged, and every input up to it revealed
            final(self).chunks_lost > old(self).chunks_lost ==> exists|i: int|
                0 <= i < world_coords@.len() && ({
                    let cc = world_chunk(#[trigger] world_coords@[i]);
                    let sq = world_square(world_coords@[i]);
                    &&& final(self).board().dom().contains(cc)
                    &&& final(self).board()[cc].status == Status::Lost
                    &&& final(self).board()[cc].mines.bit(sq.0 as int, sq.1 as int)
                    &&& final(self).board()[cc].clicked.bit(sq.0 as int, sq.1 as int)
                    &&& !final(self).board()[cc].flags.bit(sq.0 as int, sq.1 as int)
                    &&& forall|j: int|
                        0 <= j <= i ==> clicked_at(
                            final(self).board(),
                            #[trigger] world_coords@[j],
                        )
                }),
            // with no loss, the result is exactly the concatenated eight-
            // coordinate fringes of the newly revealed zero-count inputs,
            // in processing order
            final(self).chunks_lost == old(self).chunks_lost ==> ({
                let fr = fringe_upto(
                    old(self).board(),
                    final(self).board(),
                    world_coords@,
                    world_coords@.len() as int,
                );
                &&& (fr.len() == 0 ==> r is None)
                &&& (fr.len() > 0 ==> (r matches Some(f) && f@ == fr))
            }),
            world_coords@.len() == 1 ==> ({
                let w = world_coords@[0];
                let m0 = old(self).board();
                let m1 = final(self).board();
                let cc = world_chunk(w);
                let sq = world_square(w);
                let pre_clicked = m0.dom().contains(cc) && m0[cc].clicked.bit(
                    sq.0 as int,
                    sq.1 as int,
                );
                let pre_mine = m0.dom().contains(cc) && m0[cc].mines.bit(
                    sq.0 as int,
                    sq.1 as int,
                );
                // first touch of an unallocated chunk never loses the chunk
                &&& (!m0.dom().contains(cc) ==> final(self).chunks_lost == old(
                    self,
                ).chunks_lost && m1.dom().contains(cc) && m1[cc].status != Status::Lost)
                // an already clicked square is a no-op
                &&& (pre_clicked ==> {
                    &&& r is None
                    &&& final(self).chunks_won == old(self).chunks_won
                    &&& final(self).chunks_lost == old(self).chunks_lost
                    &&& forall|k: Coord<i64>| #[trigger]
                        m0.dom().contains(k) ==> m1[k].clicked == m0[k].clicked && m1[k].flags
                            == m0[k].flags
                })
                // a mine: the loss signal, the chunk Lost, the counter up
                // one, the mine clicked and its flag cleared
                &&& (pre_mine && !pre_clicked ==> {
                    &&& r is None
                    &&& final(self).chunks_lost == old(self).chunks_lost + 1
                    &&& final(self).chunks_won == old(self).chunks_won
                    &&& m1.dom().contains(cc)
                    &&& m1[cc].status == Status::Lost
                    &&& m1[cc].clicked.bit(sq.0 as int, sq.1 as int)
                    &&& !m1[cc].flags.bit(sq.0 as int, sq.1 as int)
                })
                // a safe reveal: flag cleared, a win counted exactly when
                // the click completes the chunk, and the eight neighbours
                // as fringe iff the count is zero
                &&& (!pre_clicked && !pre_mine ==> {
                    &&& m1.dom().contains(cc)
                    &&& m1[cc].clicked.bit(sq.0 as int, sq.1 as int)
                    &&& !m1[cc].mines.bit(sq.0 as int, sq.1 as int)
                    &&& !m1[cc].flags.bit(sq.0 as int, sq.1 as int)
                    &&& final(self).chunks_lost == old(self).chunks_lost
                    &&& final(self).chunks_won as int == old(self).chunks_won as int + (
                    if m1[cc].is_won_spec() {
                        1int
                    } else {
                        0int
                    })
                    &&& (m1[cc].status == Status::Won <==> m1[cc].is_won_spec())
                    &&& (mine_count(m1, w.0 as int, w.1 as int) == 0 ==> (r matches Some(f)
                        && f@ == fringe8(w)))
                    &&& (mine_count(m1, w.0 as int, w.1 as int) != 0 ==> r is None)
                })
            }),
    {
        let mut to_click: Vec<Coord<i64>> = Vec::new();
        let mut i: usize = 0;
        proof {
            assert(inputs_click_state(old(self).board(), self.board(), world_coords@, 0)) by {
                reveal(inputs_click_state);
            }
        }
        while i < world_coords.len()
            invariant
                i <= world_coords@.len(),
                forall|j: int|
                    0 <= j < world_coords@.len() ==> i64::MIN < (#[trigger] world_coords@[j]).0
                        < i64::MAX && i64::MIN < world_coords@[j].1 < i64::MAX,
                self.wf(),
                old(self).chunks_lost < u64::MAX,
                self.chunks_lost == old(self).chunks_lost,
                old(self).chunks_won <= self.chunks_won <= old(self).chunks_won as int + i,
                self.chunks_won as int + (world_coords@.len() - i) <= u64::MAX as int,
                forall|k: Coord<i64>| #[trigger]
                    old(self).board().dom().contains(k) ==> self.board().dom().contains(k)
                        && self.board()[k].mines == old(self).board()[k].mines,
                forall|k: Coord<i64>, c: int, rr: int|
                    #![trigger self.board()[k].clicked.bit(c, rr), old(self).board().dom().contains(k)]
                    old(self).board().dom().contains(k) && 0 <= c < 8 && 0 <= rr < 8 && old(
                        self,
                    ).board()[k].clicked.bit(c, rr) ==> self.board()[k].clicked.bit(c, rr),
                forall|k: Coord<i64>| #[trigger]
                    old(self).board().dom().contains(k) ==> status_rank(
                        old(self).board()[k].status,
                    ) <= status_rank(self.board()[k].status) && (old(self).board()[k].status
                        == Status::Lost ==> self.board()[k].status == Status::Lost),
                forall|k: Coord<i64>| #[trigger]
                    self.board().dom().contains(k) ==> old(self).board().dom().contains(k)
                        || exists|j: int|
                        0 <= j < i && in_surround(world_chunk(#[trigger] world_coords@[j]), k),
                forall|j: int|
                    0 <= j < i ==> {
                        let cc = world_chunk(#[trigger] world_coords@[j]);
                        &&& self.board().dom().contains(cc)
                        &&& surround_allocated(self.board(), cc)
                        &&& clicked_at(self.board(), world_coords@[j])
                    },
                (forall|j: int|
                    0 <= j < i ==> clicked_at(
                        old(self).board(),
                        #[trigger] world_coords@[j],
                    )) ==> {
                    &&& to_click@.len() == 0
                    &&& self.chunks_won == old(self).chunks_won
                    &&& forall|k: Coord<i64>| #[trigger]
                        old(self).board().dom().contains(k) ==> self.board()[k].clicked == old(
                            self,
                        ).board()[k].clicked && self.board()[k].flags == old(
                            self,
                        ).board()[k].flags
                },
                inputs_click_state(old(self).board(), self.board(), world_coords@, i as int),
                to_click@ == fringe_upto(
                    old(self).board(),
                    self.board(),
                    world_coords@,
                    i as int,
                ),
                i == 0 ==> *self == *old(self),
                i == 0 ==> to_click@.len() == 0,
                (world_coords@.len() == 1 && i == 1) ==> ({
                    let w = world_coords@[0];
                    let m0 = old(self).board();
                    let m1 = self.board();
                    let cc = world_chunk(w);
                    let sq = world_square(w);
                    let pre_clicked = m0.dom().contains(cc) && m0[cc].clicked.bit(
                        sq.0 as int,
                        sq.1 as int,
                    );
                    let pre_mine = m0.dom().contains(cc) && m0[cc].mines.bit(
                        sq.0 as int,
                        sq.1 as int,
                    );
                    &&& !(pre_mine && !pre_clicked)
                    &&& (pre_clicked ==> {
                        &&& to_click@.len() == 0
                        &&& self.chunks_won == old(self).chunks_won
                        &&& forall|k: Coord<i64>| #[trigger]
                            m0.dom().contains(k) ==> m1[k].clicked == m0[k].clicked
                                && m1[k].flags == m0[k].flags
                    })
                    &&& (!pre_clicked ==> {
                        &&& m1.dom().contains(cc)
                        &&& m1[cc].clicked.bit(sq.0 as int, sq.1 as int)
                        &&& !m1[cc].mines.bit(sq.0 as int, sq.1 as int)
                        &&& !m1[cc].flags.bit(sq.0 as int, sq.1 as int)
                        &&& self.chunks_won as int == old(self).chunks_won as int + (
                        if m1[cc].is_won_spec() {
                            1int
                        } else {
                            0int
                        })
                        &&& (m1[cc].status == Status::Won <==> m1[cc].is_won_spec())
                        &&& (!m0.dom().contains(cc) ==> m1[cc].status != Status::Lost)
                        &&& (mine_count(m1, w.0 as int, w.1 as int) == 0 ==> to_click@
                            == fringe8(w))
                        &&& (mine_count(m1, w.0 as int, w.1 as int) != 0 ==> to_click@.len()
                            == 0)
                    })
                }),
            decreases world_coords@.len() - i,
        {
            let w = world_coords[i];
            let ghost prev = *self;
            match self.touch_one(w) {
                TouchStep::Boom => {
                    proof {
                        assert forall|j: int|
                            0 <= j <= i implies clicked_at(
                            self.board(),
                            #[trigger] world_coords@[j],
                        ) by {
                            if j < i {
                                assert(clicked_at(prev.board(), world_coords@[j]));
                            }
                        }
                    }
                    return None;
                },
                TouchStep::Skip => {},
                TouchStep::Clear(zero) => {
                    if zero {
                        proof {
                            assert(Seq::<Coord<i64>>::empty() + fringe8(w) =~= fringe8(w));
                        }
                        push_fringe(&mut to_click, w);
                    }
                },
            }
            proof {
                let ghost m0 = old(self).board();
                let ghost ws = world_coords@;
                lemma_world_rejoin(w);
                assert forall|j: int|
                    0 <= j < i implies surround_allocated(
                    prev.board(),
                    world_chunk(#[trigger] ws[j]),
                ) && chunk_coord_ok(world_chunk(ws[j])) by {
                    lemma_world_rejoin(ws[j]);
                }
                lemma_fringe_upto_stable(m0, prev.board(), self.board(), ws, i as int);
                assert(fringe_upto(m0, self.board(), ws, i as int) + Seq::<Coord<i64>>::empty()
                    =~= fringe_upto(m0, self.board(), ws, i as int));
                assert(clicked_before(m0, ws, i as int) == clicked_at(prev.board(), w)) by {
                    reveal(inputs_click_state);
                }
                assert(inputs_click_state(m0, self.board(), ws, i + 1)) by {
                    reveal(inputs_click_state);
                    assert forall|j: int|
                        0 <= j < ws.len() implies (clicked_at(self.board(), #[trigger] ws[j])
                        <==> (clicked_at(m0, ws[j]) || exists|l: int|
                        0 <= l < i + 1 && ws[l] == ws[j])) by {
                    lemma_world_rejoin(ws[j]);
                    let kj = world_chunk(ws[j]);
                    let sj = world_square(ws[j]);
                    if ws[j] == w {
                        assert(clicked_at(self.board(), ws[j]));
                        assert(ws[i as int] == ws[j]);
                    } else {
                        assert(!(kj == world_chunk(w) && sj == world_square(w)));
                        if kj == world_chunk(w) {
                            assert(self.board()[kj].clicked.bit(sj.0 as int, sj.1 as int) == (
                            prev.board().dom().contains(kj) && prev.board()[kj].clicked.bit(
                                sj.0 as int,
                                sj.1 as int,
                            )));
                        } else if prev.board().dom().contains(kj) {
                            assert(self.board()[kj] == prev.board()[kj]);
                        } else if self.board().dom().contains(kj) {
                            assert(freshly_mined(self.board()[kj]));
                        }
                        assert(clicked_at(self.board(), ws[j]) == clicked_at(
                            prev.board(),
                            ws[j],
                        ));
                        assert forall|l: int| 0 <= l < i + 1 && ws[l] == ws[j] implies l
                            < i by {
                            assert(ws[i as int] != ws[j]);
                        }
                    }
                    }
                }
                assert forall|k: Coord<i64>| #[trigger]
                    self.board().dom().contains(k) implies old(self).board().dom().contains(k)
                    || exists|j: int|
                    0 <= j < i + 1 && in_surround(
                        world_chunk(#[trigger] world_coords@[j]),
                        k,
                    ) by {
                    if !old(self).board().dom().contains(k) {
                        if prev.board().dom().contains(k) {
                            let j0 = choose|j: int|
                                0 <= j < i && in_surround(
                                    world_chunk(#[trigger] world_coords@[j]),
                                    k,
                                );
                            assert(in_surround(world_chunk(world_coords@[j0]), k));
                        } else {
                            assert(in_surround(world_chunk(world_coords@[i as int]), k));
                        }
                    }
                }
                assert forall|j: int|
                    0 <= j < i + 1 implies {
                    let cc = world_chunk(#[trigger] world_coords@[j]);
                    &&& self.board().dom().contains(cc)
                    &&& surround_allocated(self.board(), cc)
                    &&& clicked_at(self.board(), world_coords@[j])
                } by {
                    let ccj = world_chunk(world_coords@[j]);
                    let sqj = world_square(world_coords@[j]);
                    if j < i {
                        assert(surround_allocated(prev.board(), ccj));
                        assert(clicked_at(prev.board(), world_coords@[j]));
                        assert(prev.board().dom().contains(ccj));
                        assert(self.board()[ccj].clicked.bit(sqj.0 as int, sqj.1 as int));
                        assert forall|k2: Coord<i64>|
                            in_surround(ccj, k2) implies #[trigger] self.board().dom().contains(
                            k2,
                        ) by {
                            assert(prev.board().dom().contains(k2));
                        }
                    }
                }
            }
            i = i + 1;
        }
        to_click.optionalize()
    }

    /// Toggle the flag at one world coordinate, allocating its chunk and
    /// surround lazily first. A clicked square keeps its flag state. When
    /// the flag completes the chunk — flags exactly on the mines, clicks
    /// exactly elsewhere — the chunk is newly Won and the win counter rises
    /// by exactly one.
    pub fn toggle_flag(&mut self, world: Coord<i64>)
        requires
            old(self).wf(),
            old(self).chunks_won < u64::MAX,
        ensures
            final(self).wf(),
            final(self).chunks_lost == old(self).chunks_lost,
            forall|k: Coord<i64>| #[trigger]
                old(self).board().dom().contains(k) ==> final(self).board().dom().contains(k)
                    && final(self).board()[k].mines == old(self).board()[k].mines
                    && final(self).board()[k].clicked == old(self).board()[k].clicked,
            ({
                let m0 = old(self).board();
                let m1 = final(self).board();
                let cc = world_chunk(world);
                let sq = world_square(world);
                let pre_flag = m0.dom().contains(cc) && m0[cc].flags.bit(
                    sq.0 as int,
                    sq.1 as int,
                );
                let pre_clicked = m0.dom().contains(cc) && m0[cc].clicked.bit(
                    sq.0 as int,
                    sq.1 as int,
                );
                let pre_status = if m0.dom().contains(cc) {
                    m0[cc].status
                } else {
                    Status::Enmined
                };
                &&& m1.dom().contains(cc)
                &&& surround_allocated(m1, cc)
                &&& forall|k: Coord<i64>| #[trigger]
                    m1.dom().contains(k) ==> m0.dom().contains(k) || in_surround(cc, k)
                &&& forall|k: Coord<i64>|
                    k != cc && #[trigger] m0.dom().contains(k) ==> m1[k] == m0[k]
                &&& (m0.dom().contains(cc) ==> m1[cc].neighbors == m0[cc].neighbors)
                &&& (!m0.dom().contains(cc) ==> {
                    &&& !m1[cc].mines.bit(sq.0 as int, sq.1 as int)
                    &&& m1[cc].clicked.all_clear()
                    &&& forall|c: int, rr: int|
                        0 <= c < 8 && 0 <= rr < 8 ==> #[trigger] m1[cc].neighbors.value(c, rr)
                            == 0
                })
                &&& status_rank(pre_status) <= status_rank(m1[cc].status)
                &&& (!pre_clicked ==> m1[cc].flags.bit(sq.0 as int, sq.1 as int)
                    == !pre_flag)
                &&& (pre_clicked ==> m1[cc].flags == m0[cc].flags)
                &&& forall|c: int, rr: int|
                    0 <= c < 8 && 0 <= rr < 8 && !(c == sq.0 && rr == sq.1)
                        ==> #[trigger] m1[cc].flags.bit(c, rr) == (m0.dom().contains(cc)
                        && m0[cc].flags.bit(c, rr))
                &&& final(self).chunks_won as int == old(self).chunks_won as int + (
                if m1[cc].is_won_spec() && pre_status != Status::Won {
                    1int
                } else {
                    0int
                })
                &&& m1[cc].status == (if m1[cc].is_won_spec() && pre_status != Status::Won {
                    Status::Won
                } else {
                    pre_status
                })
            }),
    {
        let a = AbsoluteCoord::from_world(world);
        proof {
            vstd::arithmetic::div_mod::lemma_div_is_ordered(
                i64::MIN as int,
                world.0 as int,
                8,
            );
            vstd::arithmetic::div_mod::lemma_div_is_ordered(
                world.0 as int,
                i64::MAX as int,
                8,
            );
            vstd::arithmetic::div_mod::lemma_div_is_ordered(
                i64::MIN as int,
                world.1 as int,
                8,
            );
            vstd::arithmetic::div_mod::lemma_div_is_ordered(
                world.1 as int,
                i64::MAX as int,
                8,
            );
            assert(a.chunk == world_chunk(world));
            assert(a.square == world_square(world));
        }
        self.allocate_with_surround(a.chunk, a.square);
        let ghost m1 = self.board();
        let tc: Chunk = *self.chunks.get(a.chunk).unwrap();
        let mut updated = tc;
        if !tc.clicked.get(a.square) {
            updated.flags.toggle(a.square);
        }
        let mut newly = false;
        if updated.is_won() {
            if updated.status != Status::Won {
                updated.status = Status::Won;
                newly = true;
            }
        }
        proof {
            lemma_wf_insert_same_mines(m1, a.chunk, updated);
            let m2 = m1.insert(a.chunk, updated);
            assert(surround_allocated(m2, a.chunk));
            if updated.status == Status::Won {
                if newly {
                    lemma_won_all_safe(updated);
                } else {
                    assert(all_safe_clicked(tc));
                    assert(all_safe_clicked(updated));
                }
            }
            if tc.status == Status::Neighbored || tc.status == Status::Won || tc.status
                == Status::Lost {
                if counts_ok(m1, a.chunk, tc) {
                    assert(counts_ok(m2, a.chunk, updated));
                } else {
                    assert(all_safe_clicked(updated));
                }
            }
        }
        self.chunks.insert(a.chunk, updated);
        if newly {
            self.chunks_won = self.chunks_won + 1;
        }
    }

    /// Law: neighbour counts are boundary-consistent. On a well-formed
    /// board, the stored count of every mine-free square of a Neighbored
    /// chunk equals the number of mines among the nine world squares at
    /// and around it — counted through the world-coordinate mapping, so
    /// mines of adjacent chunks are tallied exactly like local ones.
    pub proof fn lemma_neighbor_counts_true(self, cc: Coord<i64>, sc: int, sr: int)
        requires
            self.wf(),
            self.board().dom().contains(cc),
            self.board()[cc].status == Status::Neighbored,
            0 <= sc < 8,
            0 <= sr < 8,
            !self.board()[cc].mines.bit(sc, sr),
        ensures
            self.board()[cc].neighbors.value(sc, sr) == mine_count(
                self.board(),
                8 * cc.0 + sc,
                8 * cc.1 + sr,
            ),
    {
    }

    /// How many chunks have been allocated.
    pub fn chunk_count(&self) -> (r: usize)
        requires
            self.wf(),
        ensures
            r == self.board().dom().len(),
    {
        self.chunks.len()
    }
}

} // verus!
