use vstd::prelude::*;

verus! {

use crate::coord::Coord;

/// Squares per chunk side.
pub const DIMENSION: usize = 8;

const BIT: u8 = 1;

/// Whether bit `col` of a packed row is set.
pub open spec fn row_bit(row: u8, col: u8) -> bool {
    row & (1u8 << col) != 0
}

/// Bitwise complement of every row.
pub open spec fn flip_rows(s: Seq<u8>) -> Seq<u8> {
    Seq::new(s.len(), |i: int| !s[i])
}

/// The (col, row) positions whose bit is set.
pub open spec fn bit_positions(f: BitField) -> Set<(int, int)> {
    Set::new(|p: (int, int)| 0 <= p.0 < 8 && 0 <= p.1 < 8 && f.bit(p.0, p.1))
}

#[inline]
fn bit_shift(index: usize) -> (r: u8)
    requires
        index < DIMENSION,
    ensures
        r == 1u8 << (index as u8),
{
    BIT << index
}

proof fn lemma_row_set_bits(x: u8, i: u8, c: u8)
    requires
        i < 8,
        c < 8,
    ensures
        row_bit(x | (1u8 << i), c) == (c == i || row_bit(x, c)),
{
    assert(((x | (1u8 << i)) & (1u8 << c) != 0) == ((c == i) || (x & (1u8 << c) != 0)))
        by (bit_vector)
        requires
            i < 8 && c < 8,
    ;
}

proof fn lemma_row_unset_bits(x: u8, i: u8, c: u8)
    requires
        i < 8,
        c < 8,
    ensures
        row_bit(x & !(1u8 << i), c) == (c != i && row_bit(x, c)),
{
    assert(((x & !(1u8 << i)) & (1u8 << c) != 0) == ((c != i) && (x & (1u8 << c) != 0)))
        by (bit_vector)
        requires
            i < 8 && c < 8,
    ;
}

proof fn lemma_row_toggle_bits(x: u8, i: u8, c: u8)
    requires
        i < 8,
        c < 8,
    ensures
        row_bit(x ^ (1u8 << i), c) == if c == i {
            !row_bit(x, c)
        } else {
            row_bit(x, c)
        },
{
    assert(((x ^ (1u8 << i)) & (1u8 << c) != 0) == if c == i {
        !(x & (1u8 << c) != 0)
    } else {
        (x & (1u8 << c) != 0)
    })
        by (bit_vector)
        requires
            i < 8 && c < 8,
    ;
}

pub proof fn lemma_row_not_bits(x: u8, c: u8)
    requires
        c < 8,
    ensures
        row_bit(!x, c) == !row_bit(x, c),
{
    assert(((!x) & (1u8 << c) != 0) == !(x & (1u8 << c) != 0))
        by (bit_vector)
        requires
            c < 8,
    ;
}

proof fn lemma_row_zero_bits(c: u8)
    ensures
        !row_bit(0u8, c),
{
    assert(0u8 & (1u8 << c) == 0) by (bit_vector);
}

/// One packed row: one bit per square.
#[derive(Clone, Copy, PartialEq, Eq, Structural, Debug)]
struct BitRow(u8);

impl BitRow {
    fn set(&mut self, index: usize)
        requires
            index < DIMENSION,
        ensures
            forall|c: u8|
                c < 8 ==> row_bit(final(self).0, c) == (c == index || row_bit(old(self).0, c)),
    {
        self.0 = self.0 | bit_shift(index);
        proof {
            assert forall|c: u8| c < 8 implies row_bit(self.0, c) == (c == index || row_bit(
                old(self).0,
                c,
            )) by {
                lemma_row_set_bits(old(self).0, index as u8, c);
            }
        }
    }

    fn unset(&mut self, index: usize)
        requires
            index < DIMENSION,
        ensures
            forall|c: u8|
                c < 8 ==> row_bit(final(self).0, c) == (c != index && row_bit(old(self).0, c)),
    {
        self.0 = self.0 & !bit_shift(index);
        proof {
            assert forall|c: u8| c < 8 implies row_bit(self.0, c) == (c != index && row_bit(
                old(self).0,
                c,
            )) by {
                lemma_row_unset_bits(old(self).0, index as u8, c);
            }
        }
    }

    fn toggle(&mut self, index: usize)
        requires
            index < DIMENSION,
        ensures
            forall|c: u8|
                c < 8 ==> row_bit(final(self).0, c) == if c == index {
                    !row_bit(old(self).0, c)
                } else {
                    row_bit(old(self).0, c)
                },
    {
        self.0 = self.0 ^ bit_shift(index);
        proof {
            assert forall|c: u8| c < 8 implies row_bit(self.0, c) == (if c == index {
                !row_bit(old(self).0, c)
            } else {
                row_bit(old(self).0, c)
            }) by {
                lemma_row_toggle_bits(old(self).0, index as u8, c);
            }
        }
    }

    fn get(&self, index: usize) -> (r: bool)
        requires
            index < DIMENSION,
        ensures
            r == row_bit(self.0, index as u8),
    {
        (self.0 & bit_shift(index)) != 0
    }
}

/// One bit per square of a chunk, packed into eight rows.
#[derive(Clone, Copy, PartialEq, Eq, Debug)]
pub struct BitField([BitRow; DIMENSION]);

/// A bit field always holds exactly eight rows.
pub broadcast proof fn lemma_bit_rows_len(f: BitField)
    ensures
        (#[trigger] f.rows()).len() == 8,
{
}

impl BitField {
    /// The eight packed rows.
    pub closed spec fn rows(self) -> Seq<u8> {
        Seq::new(8, |i: int| self.0@[i].0)
    }

    /// Whether the bit for square (col, row) is set.
    pub open spec fn bit(self, col: int, row: int) -> bool {
        row_bit(self.rows()[row], col as u8)
    }

    /// No bit is set anywhere.
    pub open spec fn all_clear(self) -> bool {
        forall|c: int, r: int| 0 <= c < 8 && 0 <= r < 8 ==> !self.bit(c, r)
    }

    pub fn set(&mut self, coord: Coord<usize>)
        requires
            coord.0 < DIMENSION,
            coord.1 < DIMENSION,
        ensures
            forall|c: int, r: int|
                0 <= c < 8 && 0 <= r < 8 ==> final(self).bit(c, r) == ((c == coord.0 && r
                    == coord.1) || old(self).bit(c, r)),
    {
        let Coord(col, row) = coord;
        let mut cell = self.0[row];
        cell.set(col);
        self.0[row] = cell;
    }

    pub fn unset(&mut self, coord: Coord<usize>)
        requires
            coord.0 < DIMENSION,
            coord.1 < DIMENSION,
        ensures
            forall|c: int, r: int|
                0 <= c < 8 && 0 <= r < 8 ==> final(self).bit(c, r) == (!(c == coord.0 && r
                    == coord.1) && old(self).bit(c, r)),
    {
        let Coord(col, row) = coord;
        let mut cell = self.0[row];
        cell.unset(col);
        self.0[row] = cell;
    }

    pub fn toggle(&mut self, coord: Coord<usize>)
        requires
            coord.0 < DIMENSION,
            coord.1 < DIMENSION,
        ensures
            forall|c: int, r: int|
                0 <= c < 8 && 0 <= r < 8 ==> final(self).bit(c, r) == (if c == coord.0 && r
                    == coord.1 {
                    !old(self).bit(c, r)
                } else {
                    old(self).bit(c, r)
                }),
    {
        let Coord(col, row) = coord;
        let mut cell = self.0[row];
        cell.toggle(col);
        self.0[row] = cell;
    }

    pub fn get(&self, coord: Coord<usize>) -> (r: bool)
        requires
            coord.0 < DIMENSION,
            coord.1 < DIMENSION,
        ensures
            r == self.bit(coord.0 as int, coord.1 as int),
    {
        let Coord(col, row) = coord;
        self.0[row].get(col)
    }

    /// Componentwise complement of the whole field.
    pub fn not(self) -> (r: BitField)
        ensures
            r.rows() =~= flip_rows(self.rows()),
            forall|c: int, rr: int|
                0 <= c < 8 && 0 <= rr < 8 ==> r.bit(c, rr) == !self.bit(c, rr),
    {
        let mut out = self;
        let mut i: usize = 0;
        while i < DIMENSION
            invariant
                i <= 8,
                forall|j: int| 0 <= j < i ==> out.rows()[j] == !self.rows()[j],
                forall|j: int| i <= j < 8 ==> out.rows()[j] == self.rows()[j],
            decreases 8 - i,
        {
            let flipped: u8 = !out.0[i].0;
            let ghost prev = out;
            out.0[i] = BitRow(flipped);
            proof {
                assert(out.rows()[i as int] == !self.rows()[i as int]);
                assert(forall|j: int| 0 <= j < 8 && j != i ==> out.rows()[j] == prev.rows()[j]);
                assert(forall|j: int| 0 <= j < i ==> out.rows()[j] == !self.rows()[j]);
                assert(forall|j: int| i + 1 <= j < 8 ==> out.rows()[j] == self.rows()[j]);
            }
            i = i + 1;
        }
        proof {
            assert(out.rows() =~= flip_rows(self.rows()));
            assert forall|c: int, rr: int|
                0 <= c < 8 && 0 <= rr < 8 implies out.bit(c, rr) == !self.bit(c, rr) by {
                lemma_row_not_bits(self.rows()[rr], c as u8);
            }
        }
        out
    }

    /// Whether the two fields hold exactly the same rows.
    pub fn equals(&self, other: &BitField) -> (r: bool)
        ensures
            r == (self.rows() == other.rows()),
    {
        let mut i: usize = 0;
        while i < DIMENSION
            invariant
                i <= 8,
                forall|j: int| 0 <= j < i ==> self.rows()[j] == other.rows()[j],
            decreases 8 - i,
        {
            if self.0[i].0 != other.0[i].0 {
                proof {
                    assert(self.rows()[i as int] != other.rows()[i as int]);
                }
                return false;
            }
            i = i + 1;
        }
        proof {
            assert(self.rows() =~= other.rows());
        }
        true
    }
}

impl Default for BitField {
    /// A field with every bit clear.
    fn default() -> (r: BitField)
        ensures
            forall|j: int| 0 <= j < 8 ==> r.rows()[j] == 0u8,
            r.all_clear(),
    {
        let r = BitField(
            [
                BitRow(0),
                BitRow(0),
                BitRow(0),
                BitRow(0),
                BitRow(0),
                BitRow(0),
                BitRow(0),
                BitRow(0),
            ],
        );
        proof {
            assert forall|c: int, rr: int| 0 <= c < 8 && 0 <= rr < 8 implies !r.bit(c, rr) by {
                lemma_row_zero_bits(c as u8);
            }
        }
        r
    }
}

const NYBBLE: u32 = 0b1111;

/// The 4-bit counter at position `col` of a packed row.
pub open spec fn row_nyb(row: u32, col: u8) -> u8 {
    ((row >> ((4 * col) as u32)) & 0xf) as u8
}

#[inline]
fn nybble_shift(value: u8, index: usize) -> (r: u32)
    requires
        index < DIMENSION,
        value <= 0xf,
    ensures
        r == (value as u32) << ((4 * index) as u32),
{
    let index = index * 4;
    let value = value as u32;
    value << index as u32
}

#[inline]
fn nybble_unshift(value: u32, index: usize) -> (r: u8)
    requires
        index < DIMENSION,
    ensures
        r == row_nyb(value, index as u8),
{
    proof {
        let v = value;
        let i = index as u8;
        assert((v >> ((4 * i) as u32)) & 0xf < 16) by (bit_vector);
    }
    ((value >> ((index * 4) as u32)) & NYBBLE) as u8
}

proof fn lemma_nyb_set(x: u32, i: u8, v: u8, c: u8)
    requires
        i < 8,
        c < 8,
        v <= 0xf,
    ensures
        row_nyb((x & !(0xfu32 << ((4 * i) as u32))) | ((v as u32) << ((4 * i) as u32)), c)
            == if c == i {
            v
        } else {
            row_nyb(x, c)
        },
{
    assert((((x & !(0xfu32 << ((4 * i) as u32))) | ((v as u32) << ((4 * i) as u32))) >> ((4
        * c) as u32)) & 0xf == if c == i {
        v as u32
    } else {
        (x >> ((4 * c) as u32)) & 0xf
    })
        by (bit_vector)
        requires
            i < 8 && c < 8 && v <= 0xf,
    ;
}

proof fn lemma_nyb_zero(c: u8)
    ensures
        row_nyb(0u32, c) == 0,
{
    assert((0u32 >> ((4 * c) as u32)) & 0xf == 0) by (bit_vector);
}

/// One packed row of 4-bit counters.
#[derive(Clone, Copy, PartialEq, Eq, Structural, Debug)]
struct NybbleRow(u32);

impl NybbleRow {
    fn set(&mut self, index: usize, value: u8)
        requires
            index < DIMENSION,
            value <= 0xf,
        ensures
            forall|c: u8|
                c < 8 ==> row_nyb(final(self).0, c) == if c == index {
                    value
                } else {
                    row_nyb(old(self).0, c)
                },
    {
        self.0 = self.0 & !nybble_shift(NYBBLE as u8, index);
        self.0 = self.0 | nybble_shift(value, index);
        proof {
            assert forall|c: u8| c < 8 implies row_nyb(self.0, c) == (if c == index {
                value
            } else {
                row_nyb(old(self).0, c)
            }) by {
                lemma_nyb_set(old(self).0, index as u8, value, c);
            }
        }
    }

    fn get(&self, index: usize) -> (r: u8)
        requires
            index < DIMENSION,
        ensures
            r == row_nyb(self.0, index as u8),
    {
        nybble_unshift(self.0, index)
    }
}

/// One 4-bit counter per square of a chunk, packed into eight rows.
#[derive(Clone, Copy, PartialEq, Eq, Debug)]
pub struct NybbleField([NybbleRow; DIMENSION]);

/// A nybble field always holds exactly eight rows.
pub broadcast proof fn lemma_nyb_rows_len(f: NybbleField)
    ensures
        (#[trigger] f.rows()).len() == 8,
{
}

impl NybbleField {
    /// The eight packed rows.
    pub closed spec fn rows(self) -> Seq<u32> {
        Seq::new(8, |i: int| self.0@[i].0)
    }

    /// The counter stored for square (col, row).
    pub open spec fn value(self, col: int, row: int) -> u8 {
        row_nyb(self.rows()[row], col as u8)
    }

    pub fn set(&mut self, coord: Coord<usize>, value: u8)
        requires
            coord.0 < DIMENSION,
            coord.1 < DIMENSION,
            value <= 0xf,
        ensures
            forall|c: int, r: int|
                0 <= c < 8 && 0 <= r < 8 ==> final(self).value(c, r) == if c == coord.0 && r
                    == coord.1 {
                    value
                } else {
                    old(self).value(c, r)
                },
    {
        let Coord(col, row) = coord;
        let mut cell = self.0[row];
        cell.set(col, value);
        self.0[row] = cell;
    }

    pub fn get(&self, coord: Coord<usize>) -> (r: u8)
        requires
            coord.0 < DIMENSION,
            coord.1 < DIMENSION,
        ensures
            r == self.value(coord.0 as int, coord.1 as int),
    {
        let Coord(col, row) = coord;
        self.0[row].get(col)
    }
}

impl Default for NybbleField {
    /// A field with every counter zero.
    fn default() -> (r: NybbleField)
        ensures
            forall|c: int, rr: int| 0 <= c < 8 && 0 <= rr < 8 ==> r.value(c, rr) == 0,
    {
        let r = NybbleField(
            [
                NybbleRow(0),
                NybbleRow(0),
                NybbleRow(0),
                NybbleRow(0),
                NybbleRow(0),
                NybbleRow(0),
                NybbleRow(0),
                NybbleRow(0),
            ],
        );
        proof {
            assert forall|c: int, rr: int|
                0 <= c < 8 && 0 <= rr < 8 implies r.value(c, rr) == 0 by {
                lemma_nyb_zero(c as u8);
            }
        }
        r
    }
}

} // verus!
