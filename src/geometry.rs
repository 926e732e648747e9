use vstd::prelude::*;

verus! {

/// A lattice point of the heightmap grid.
#[derive(Debug, Clone, Copy, PartialEq, Eq, Structural)]
pub struct Point {
    pub x: u32,
    pub y: u32,
}

/// A stored corner: lattice position and the raw 16-bit height there.
#[derive(Debug, Clone, Copy, PartialEq, Eq, Structural)]
pub struct Vertex {
    pub x: u32,
    pub y: u32,
    pub height: u16,
}

/// Three corners of a triangle, in counter-clockwise order, with the right
/// angle at `c`.
#[derive(Debug, Clone, Copy, PartialEq, Eq, Structural)]
pub struct Triangle<T> {
    pub a: T,
    pub b: T,
    pub c: T,
}

impl<T> Triangle<T> {
    pub fn new(a: T, b: T, c: T) -> (r: Triangle<T>)
        ensures
            r.a == a,
            r.b == b,
            r.c == c,
    {
        Triangle { a, b, c }
    }

    pub fn a(&self) -> (r: &T)
        ensures
            *r == self.a,
    {
        &self.a
    }

    pub fn b(&self) -> (r: &T)
        ensures
            *r == self.b,
    {
        &self.b
    }

    pub fn c(&self) -> (r: &T)
        ensures
            *r == self.c,
    {
        &self.c
    }

    /// The corners in order `a`, `b`, `c`.
    pub open spec fn corners(&self) -> Seq<T> {
        seq![self.a, self.b, self.c]
    }

    pub fn into_iter(&self) -> (r: TriangleIterator<'_, T>)
        ensures
            r.t == self,
            r.pos == 0,
    {
        TriangleIterator { t: self, pos: 0 }
    }
}

/// Walks the corners of a triangle in order `a`, `b`, `c`.
pub struct TriangleIterator<'a, T> {
    pub t: &'a Triangle<T>,
    pub pos: u32,
}

impl<'a, T> TriangleIterator<'a, T> {
    pub fn next(&mut self) -> (r: Option<&'a T>)
        ensures
            old(self).pos < 3 ==> r == Some(&old(self).t.corners()[old(self).pos as int])
                && final(self).pos == old(self).pos + 1,
            old(self).pos >= 3 ==> r is None && final(self).pos == old(self).pos,
            final(self).t == old(self).t,
    {
        let ret = if self.pos == 0 {
            &self.t.a
        } else if self.pos == 1 {
            &self.t.b
        } else if self.pos == 2 {
            &self.t.c
        } else {
            return None;
        };
        self.pos = self.pos + 1;
        Some(ret)
    }
}

} // verus!
