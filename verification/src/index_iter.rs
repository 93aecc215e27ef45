use vstd::prelude::*;

verus! {

use crate::coord::Coord;
use vstd::arithmetic::div_mod::{
    lemma_fundamental_div_mod_converse, lemma_mod_bound, lemma_div_pos_is_pos,
    lemma_div_is_ordered,
};
use vstd::arithmetic::mul::lemma_mul_nonnegative;

/// Row-major enumeration of a rectangle of signed coordinates: for a
/// dimension (w, h) and an offset (ox, oy) it produces
/// (ox, oy), (ox, oy+1), ..., (ox, oy+h-1), (ox+1, oy), ... in order.
pub struct IndexIterSigned {
    pub count: i64,
    pub limit: i64,
    pub dim_one: i64,
    pub offset: Coord<i64>,
}

impl IndexIterSigned {
    pub open spec fn wf(self) -> bool {
        &&& 0 <= self.count <= self.limit
        &&& self.count < self.limit ==> {
            &&& 0 < self.dim_one
            &&& self.offset.0 + self.limit as int / self.dim_one as int <= i64::MAX
            &&& self.offset.1 + self.dim_one <= i64::MAX
        }
    }

    /// The coordinate produced at position `k` of the enumeration.
    pub open spec fn item(self, k: int) -> Coord<i64> {
        Coord(
            (k / (self.dim_one as int) + self.offset.0) as i64,
            (k % (self.dim_one as int) + self.offset.1) as i64,
        )
    }

    pub fn new(dimension: Coord<i64>, offset: Coord<i64>) -> (r: IndexIterSigned)
        requires
            0 <= dimension.0,
            0 <= dimension.1,
            dimension.0 * dimension.1 <= i64::MAX,
            dimension.0 * dimension.1 > 0 ==> offset.0 + dimension.0 <= i64::MAX && offset.1
                + dimension.1 <= i64::MAX,
        ensures
            r.wf(),
            r.count == 0,
            r.limit == dimension.0 * dimension.1,
            r.dim_one == dimension.1,
            r.offset == offset,
    {
        proof {
            lemma_mul_nonnegative(dimension.0 as int, dimension.1 as int);
            if dimension.0 * dimension.1 > 0 {
                lemma_fundamental_div_mod_converse(
                    dimension.0 as int * dimension.1 as int,
                    dimension.1 as int,
                    dimension.0 as int,
                    0,
                );
            }
        }
        IndexIterSigned {
            count: 0,
            limit: dimension.0 * dimension.1,
            dim_one: dimension.1,
            offset: offset,
        }
    }

    /// The 3x3 block of coordinates centered on `origin`, in row-major
    /// order: the canonical adjacency enumeration.
    pub fn self_and_adjacent(origin: Coord<i64>) -> (r: IndexIterSigned)
        requires
            i64::MIN < origin.0 <= i64::MAX - 2,
            i64::MIN < origin.1 <= i64::MAX - 2,
        ensures
            r.wf(),
            r.count == 0,
            r.limit == 9,
            r.dim_one == 3,
            r.offset.0 == origin.0 - 1,
            r.offset.1 == origin.1 - 1,
    {
        IndexIterSigned::new(Coord(3, 3), Coord(origin.0 - 1, origin.1 - 1))
    }

    /// Produce the next coordinate of the enumeration, or None when done.
    pub fn next(&mut self) -> (r: Option<Coord<i64>>)
        requires
            old(self).wf(),
        ensures
            final(self).wf(),
            old(self).count < old(self).limit ==> {
                &&& final(self).count == old(self).count + 1
                &&& final(self).limit == old(self).limit
                &&& final(self).dim_one == old(self).dim_one
                &&& final(self).offset == old(self).offset
                &&& r == Some(old(self).item(old(self).count as int))
            },
            old(self).count >= old(self).limit ==> r is None && *final(self) == *old(self),
    {
        if self.count >= self.limit {
            return None;
        }
        proof {
            lemma_div_pos_is_pos(self.count as int, self.dim_one as int);
            lemma_mod_bound(self.count as int, self.dim_one as int);
            lemma_div_is_ordered(self.count as int, self.limit as int, self.dim_one as int);
        }
        let ret = Coord(
            self.count / self.dim_one + self.offset.0,
            self.count % self.dim_one + self.offset.1,
        );
        self.count = self.count + 1;
        Some(ret)
    }
}

/// Row-major enumeration of a rectangle of unsigned coordinates.
pub struct IndexIterUnsigned {
    pub count: usize,
    pub limit: usize,
    pub dim_one: usize,
    pub offset: Coord<usize>,
}

impl IndexIterUnsigned {
    pub open spec fn wf(self) -> bool {
        &&& 0 <= self.count <= self.limit
        &&& self.count < self.limit ==> {
            &&& 0 < self.dim_one
            &&& self.offset.0 + self.limit as int / self.dim_one as int <= usize::MAX
            &&& self.offset.1 + self.dim_one <= usize::MAX
        }
    }

    /// The coordinate produced at position `k` of the enumeration.
    pub open spec fn item(self, k: int) -> Coord<usize> {
        Coord(
            (k / (self.dim_one as int) + self.offset.0) as usize,
            (k % (self.dim_one as int) + self.offset.1) as usize,
        )
    }

    pub fn new(dimension: Coord<usize>, offset: Coord<usize>) -> (r: IndexIterUnsigned)
        requires
            dimension.0 * dimension.1 <= usize::MAX,
            dimension.0 * dimension.1 > 0 ==> offset.0 + dimension.0 <= usize::MAX && offset.1
                + dimension.1 <= usize::MAX,
        ensures
            r.wf(),
            r.count == 0,
            r.limit == dimension.0 * dimension.1,
            r.dim_one == dimension.1,
            r.offset == offset,
    {
        proof {
            if dimension.0 * dimension.1 > 0 {
                lemma_fundamental_div_mod_converse(
                    dimension.0 as int * dimension.1 as int,
                    dimension.1 as int,
                    dimension.0 as int,
                    0,
                );
            }
        }
        IndexIterUnsigned {
            count: 0,
            limit: dimension.0 * dimension.1,
            dim_one: dimension.1,
            offset: offset,
        }
    }

    /// Produce the next coordinate of the enumeration, or None when done.
    pub fn next(&mut self) -> (r: Option<Coord<usize>>)
        requires
            old(self).wf(),
        ensures
            final(self).wf(),
            old(self).count < old(self).limit ==> {
                &&& final(self).count == old(self).count + 1
                &&& final(self).limit == old(self).limit
                &&& final(self).dim_one == old(self).dim_one
                &&& final(self).offset == old(self).offset
                &&& r == Some(old(self).item(old(self).count as int))
            },
            old(self).count >= old(self).limit ==> r is None && *final(self) == *old(self),
    {
        if self.count >= self.limit {
            return None;
        }
        proof {
            lemma_mod_bound(self.count as int, self.dim_one as int);
            lemma_div_is_ordered(self.count as int, self.limit as int, self.dim_one as int);
        }
        let ret = Coord(
            self.count / self.dim_one + self.offset.0,
            self.count % self.dim_one + self.offset.1,
        );
        self.count = self.count + 1;
        Some(ret)
    }
}

/// The four cardinal neighbour offsets, in the fixed order left, right,
/// up, down.
pub fn cardinal_adjacent() -> (r: Vec<Coord<i64>>)
    ensures
        r@.len() == 4,
        r@[0] == Coord(-1i64, 0i64),
        r@[1] == Coord(1i64, 0i64),
        r@[2] == Coord(0i64, -1i64),
        r@[3] == Coord(0i64, 1i64),
{
    let mut v: Vec<Coord<i64>> = Vec::new();
    v.push(Coord(-1, 0));
    v.push(Coord(1, 0));
    v.push(Coord(0, -1));
    v.push(Coord(0, 1));
    v
}

} // verus!
