use vstd::prelude::*;

verus! {

use crate::arith::{DivFloorSignedExt, ModuloSignedExt};
use crate::coord::Coord;
use crate::index_iter::IndexIterSigned;
use vstd::arithmetic::div_mod::{
    lemma_fundamental_div_mod, lemma_fundamental_div_mod_converse, lemma_mod_bound,
    lemma_add_mod_noop, lemma_mod_multiples_vanish, lemma_div_is_ordered,
};

/// Colour pair of the first checkerboard tint; the second follows it.
pub const CHECKER_1: i16 = 10;

/// Rust's truncating remainder by two differs from the true remainder by
/// exactly zero or two.
proof fn lemma_trunc_rem2(a: int, t: int)
    requires
        a >= 0 ==> t == a % 2,
        a < 0 ==> t == -((-a) % 2),
    ensures
        t == a % 2 || t == a % 2 - 2,
{
    if a < 0 {
        lemma_fundamental_div_mod(-a, 2);
        lemma_mod_bound(-a, 2);
        if (-a) % 2 == 0 {
            lemma_fundamental_div_mod_converse(a, 2, -((-a) / 2), 0);
        } else {
            lemma_fundamental_div_mod_converse(a, 2, -((-a) / 2) - 1, 1);
        }
    }
}

/// The floor quotient by eight grows by at most d/8 + 1 when the dividend
/// grows by d.
proof fn lemma_div8_add_bound(s: int, d: int)
    requires
        0 <= d,
    ensures
        s / 8 <= (s + d) / 8 <= s / 8 + d / 8 + 1,
{
    lemma_div_is_ordered(s, s + d, 8);
    let q = s / 8;
    let r = s % 8;
    lemma_fundamental_div_mod(s, 8);
    lemma_mod_bound(s, 8);
    let q2 = (r + d) / 8;
    let r2 = (r + d) % 8;
    lemma_fundamental_div_mod(r + d, 8);
    lemma_mod_bound(r + d, 8);
    lemma_fundamental_div_mod_converse(s + d, 8, q + q2, r2);
    lemma_div_is_ordered(r + d, d + 7, 8);
    let qd = d / 8;
    let rd = d % 8;
    lemma_fundamental_div_mod(d, 8);
    lemma_mod_bound(d, 8);
    if rd + 7 < 8 {
        lemma_fundamental_div_mod_converse(d + 7, 8, qd, rd + 7);
    } else {
        lemma_fundamental_div_mod_converse(d + 7, 8, qd + 1, rd - 1);
    }
}

/// The viewport state of the terminal front end: where the view is
/// scrolled to and how large the screen is, in character cells. Squares
/// are drawn two cells wide. Everything here is plain viewport geometry;
/// the drawing itself lives outside the library.
#[derive(Clone, Copy, PartialEq, Eq, Structural, Debug)]
pub struct Interface {
    pub scroll: Coord<i64>,
    pub size: Coord<usize>,
}

impl Interface {
    /// Viewport states the geometry below accepts: a screen no wider or
    /// taller than a terminal can report, scrolled well inside the world.
    pub open spec fn wf(self) -> bool {
        &&& i64::MIN / 4 <= self.scroll.0 <= i64::MAX / 4
        &&& i64::MIN / 4 <= self.scroll.1 <= i64::MAX / 4
        &&& self.size.0 <= 0x7fffffff
        &&& self.size.1 <= 0x7fffffff
    }

    /// The checkerboard tint under one on-screen square: the parity of the
    /// scrolled position picks one of the two colour pairs.
    pub fn checker_color(&self, square: Coord<usize>) -> (r: i16)
        requires
            self.wf(),
            square.0 <= 0x7fffffff,
            square.1 <= 0x7fffffff,
        ensures
            r == CHECKER_1 + (self.scroll.0 + square.0 + self.scroll.1 + square.1) % 2,
    {
        let sx = self.scroll.0 + square.0 as i64;
        let sy = self.scroll.1 + square.1 as i64;
        let tx = sx % 2;
        let ty = sy % 2;
        let modulo = (tx + ty).modulo(2) as i16;
        proof {
            let a = sx as int;
            let b = sy as int;
            lemma_trunc_rem2(a, tx as int);
            lemma_trunc_rem2(b, ty as int);
            lemma_mod_bound(a, 2);
            lemma_mod_bound(b, 2);
            let u = a % 2 + b % 2;
            lemma_mod_multiples_vanish(-1, u, 2);
            lemma_mod_multiples_vanish(-2, u, 2);
            lemma_add_mod_noop(a, b, 2);
        }
        CHECKER_1 + modulo
    }

    /// The world coordinate under one screen cell: squares are two cells
    /// wide, and the view is offset by the scroll.
    pub fn screen_to_world_space(&self, coord: Coord<usize>) -> (r: Coord<i64>)
        requires
            self.wf(),
            coord.0 <= 0x7fffffff,
            coord.1 <= 0x7fffffff,
        ensures
            r.0 == self.scroll.0 + coord.0 as int / 2,
            r.1 == self.scroll.1 + coord.1,
    {
        Coord(self.scroll.0 + (coord.0 / 2) as i64, self.scroll.1 + coord.1 as i64)
    }

    /// The screen cell of one world coordinate; the inverse of
    /// screen_to_world_space for coordinates inside the viewport.
    pub fn world_to_screen_space(&self, coord: Coord<i64>) -> (r: Coord<usize>)
        requires
            self.wf(),
            self.scroll.0 <= coord.0,
            self.scroll.1 <= coord.1,
            2 * (coord.0 - self.scroll.0) <= 0x7fffffff,
            coord.1 - self.scroll.1 <= 0x7fffffff,
        ensures
            r.0 == 2 * (coord.0 - self.scroll.0),
            r.1 == coord.1 - self.scroll.1,
    {
        Coord((2 * (coord.0 - self.scroll.0)) as usize, (coord.1 - self.scroll.1) as usize)
    }

    /// The chunk coordinates the viewport can currently show, as a
    /// row-major enumeration from the chunk under the top-left corner to
    /// the chunk just past the bottom-right one.
    pub fn visible_chunk_coords(&self) -> (r: IndexIterSigned)
        requires
            self.wf(),
        ensures
            r.wf(),
            r.count == 0,
            r.offset.0 == (self.scroll.0 as int) / 8,
            r.offset.1 == (self.scroll.1 as int) / 8,
    {
        let far_corner = Coord(
            self.scroll.0 + (self.size.0 / 2) as i64,
            self.scroll.1 + self.size.1 as i64,
        );
        proof {
            lemma_div8_add_bound(self.scroll.0 as int, self.size.0 as int / 2);
            lemma_div8_add_bound(self.scroll.1 as int, self.size.1 as int);
            lemma_div_is_ordered(i64::MIN / 4, self.scroll.0 as int, 8);
            lemma_div_is_ordered(i64::MIN / 4, self.scroll.1 as int, 8);
            lemma_div_is_ordered(self.scroll.0 as int, i64::MAX / 4, 8);
            lemma_div_is_ordered(self.scroll.1 as int, i64::MAX / 4, 8);
            lemma_div_is_ordered(self.size.0 as int / 2, 0x3fffffff, 8);
            lemma_div_is_ordered(self.size.1 as int, 0x7fffffff, 8);
            vstd::arithmetic::div_mod::lemma_div_pos_is_pos(self.size.0 as int, 2);
            lemma_div_is_ordered(self.size.0 as int, 0x7fffffff, 2);
        }
        let min = Coord(
            DivFloorSignedExt::div_floor(self.scroll.0, 8),
            DivFloorSignedExt::div_floor(self.scroll.1, 8),
        );
        let max = Coord(
            DivFloorSignedExt::div_floor(far_corner.0, 8) + 1,
            DivFloorSignedExt::div_floor(far_corner.1, 8) + 1,
        );
        let dimension = Coord(max.0 - min.0, max.1 - min.1).abs();
        proof {
            assert(dimension.0 * dimension.1 <= i64::MAX) by (nonlinear_arith)
                requires
                    0 <= dimension.0 <= 0x8000002 && 0 <= dimension.1 <= 0x10000002,
            ;
        }
        IndexIterSigned::new(dimension, min)
    }
}

} // verus!
