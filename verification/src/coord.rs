use vstd::prelude::*;

verus! {

/// An ordered pair (x, y). World positions, chunk positions and square
/// positions are all coordinates; only the component type differs.
#[derive(Clone, Copy, PartialEq, Eq, Hash, Debug, Structural)]
pub struct Coord<T>(pub T, pub T);

impl<T> Coord<T> {
    /// Apply `func` to both components.
    pub fn map<U, F: Fn(T) -> U>(self, func: F) -> (r: Coord<U>)
        requires
            func.requires((self.0,)),
            func.requires((self.1,)),
        ensures
            func.ensures((self.0,), r.0),
            func.ensures((self.1,), r.1),
    {
        let Coord(x, y) = self;
        Coord(func(x), func(y))
    }
}

impl Coord<i64> {
    /// The sum of the two components.
    pub fn sum(self) -> (r: i64)
        requires
            i64::MIN <= self.0 + self.1 <= i64::MAX,
        ensures
            r == self.0 + self.1,
    {
        self.0 + self.1
    }

    /// Componentwise absolute value.
    pub fn abs(self) -> (r: Coord<i64>)
        requires
            self.0 > i64::MIN,
            self.1 > i64::MIN,
        ensures
            r.0 == if self.0 < 0 { -self.0 as int } else { self.0 as int },
            r.1 == if self.1 < 0 { -self.1 as int } else { self.1 as int },
    {
        Coord(
            if self.0 < 0 { -self.0 } else { self.0 },
            if self.1 < 0 { -self.1 } else { self.1 },
        )
    }

    /// Reinterpret a non-negative coordinate with unsigned components.
    pub fn to_unsigned(self) -> (r: Coord<usize>)
        requires
            0 <= self.0 <= usize::MAX,
            0 <= self.1 <= usize::MAX,
        ensures
            r.0 == self.0,
            r.1 == self.1,
    {
        Coord(self.0 as usize, self.1 as usize)
    }
}

impl Coord<usize> {
    /// Reinterpret a small unsigned coordinate with signed components.
    pub fn to_signed(self) -> (r: Coord<i64>)
        requires
            self.0 <= i64::MAX,
            self.1 <= i64::MAX,
        ensures
            r.0 == self.0,
            r.1 == self.1,
    {
        Coord(self.0 as i64, self.1 as i64)
    }
}

} // verus!
