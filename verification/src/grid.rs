use vstd::prelude::*;

verus! {

/// A three-dimensional table stored row after row in one vector.
pub struct Grid<T> {
    pub d0: usize,
    pub d1: usize,
    pub d2: usize,
    pub data: Vec<T>,
}

pub open spec fn grid_index(a: int, b: int, c: int, d1: int, d2: int) -> int {
    (a * d1 + b) * d2 + c
}

/// A position inside the table has its index inside the vector.
pub proof fn lemma_grid_index(a: int, b: int, c: int, d0: int, d1: int, d2: int)
    requires
        0 <= a < d0,
        0 <= b < d1,
        0 <= c < d2,
    ensures
        0 <= grid_index(a, b, c, d1, d2) < d0 * d1 * d2,
        0 <= a * d1 <= a * d1 + b <= (a * d1 + b) * d2 <= grid_index(a, b, c, d1, d2),
{
    assert(0 <= a * d1) by (nonlinear_arith)
        requires
            0 <= a,
            0 <= d1,
    ;
    assert(a * d1 + b <= (a * d1 + b) * d2) by (nonlinear_arith)
        requires
            0 <= a * d1 + b,
            1 <= d2,
    ;
    assert(0 <= a * d1 + b < d0 * d1) by (nonlinear_arith)
        requires
            0 <= a < d0,
            0 <= b < d1,
    ;
    assert(0 <= (a * d1 + b) * d2 + c < (d0 * d1) * d2) by (nonlinear_arith)
        requires
            0 <= a * d1 + b < d0 * d1,
            0 <= c < d2,
    ;
    assert((d0 * d1) * d2 == d0 * d1 * d2) by (nonlinear_arith);
}

proof fn lemma_split_unique(p: int, c: int, q: int, e: int, d: int)
    requires
        0 <= c < d,
        0 <= e < d,
        0 <= p,
        0 <= q,
        p * d + c == q * d + e,
    ensures
        p == q,
        c == e,
{
    if p < q {
        assert((p + 1) * d <= q * d) by (nonlinear_arith)
            requires
                p + 1 <= q,
                d >= 0,
        ;
        assert((p + 1) * d == p * d + d) by (nonlinear_arith);
    } else if q < p {
        assert((q + 1) * d <= p * d) by (nonlinear_arith)
            requires
                q + 1 <= p,
                d >= 0,
        ;
        assert((q + 1) * d == q * d + d) by (nonlinear_arith);
    }
}

/// Two positions inside the table have the same index only if they are the same position.
pub proof fn lemma_grid_index_unique(a: int, b: int, c: int, x: int, y: int, z: int, d0: int, d1: int, d2: int)
    requires
        0 <= a < d0,
        0 <= b < d1,
        0 <= c < d2,
        0 <= x < d0,
        0 <= y < d1,
        0 <= z < d2,
        grid_index(a, b, c, d1, d2) == grid_index(x, y, z, d1, d2),
    ensures
        a == x && b == y && c == z,
{
    lemma_grid_index(a, b, c, d0, d1, d2);
    lemma_grid_index(x, y, z, d0, d1, d2);
    lemma_split_unique(a * d1 + b, c, x * d1 + y, z, d2);
    assert(0 <= a * d1) by (nonlinear_arith)
        requires
            0 <= a,
            0 <= d1,
    ;
    assert(0 <= x * d1) by (nonlinear_arith)
        requires
            0 <= x,
            0 <= d1,
    ;
    lemma_split_unique(a, b, x, y, d1);
}

impl<T: Copy> Grid<T> {
    pub open spec fn wf(&self) -> bool {
        self.data.len() == self.d0 * self.d1 * self.d2
    }

    pub open spec fn in_grid(&self, a: int, b: int, c: int) -> bool {
        0 <= a < self.d0 && 0 <= b < self.d1 && 0 <= c < self.d2
    }

    pub open spec fn at(&self, a: int, b: int, c: int) -> T {
        self.data@[grid_index(a, b, c, self.d1 as int, self.d2 as int)]
    }

    /// A table of the given shape, every entry `fill`.
    pub fn new(d0: usize, d1: usize, d2: usize, fill: T) -> (r: Self)
        requires
            d0 * d1 * d2 <= usize::MAX,
        ensures
            r.wf(),
            r.d0 == d0,
            r.d1 == d1,
            r.d2 == d2,
            forall|i: int| 0 <= i < r.data.len() ==> r.data@[i] == fill,
    {
        assert(d0 * d1 * d2 >= 0) by (nonlinear_arith);
        assert(d0 * d1 <= usize::MAX || d2 == 0) by (nonlinear_arith)
            requires
                d0 * d1 * d2 <= usize::MAX,
                d2 >= 0,
        ;
        let total: usize = if d2 == 0 {
            0
        } else {
            d0 * d1 * d2
        };
        assert(total == d0 * d1 * d2) by (nonlinear_arith)
            requires
                total == (if d2 == 0 { 0 } else { d0 * d1 * d2 }),
        ;
        let mut data: Vec<T> = Vec::new();
        let mut i: usize = 0;
        while i < total
            invariant
                i <= total,
                data.len() == i,
                forall|j: int| 0 <= j < i ==> data@[j] == fill,
            decreases total - i,
        {
            data.push(fill);
            i = i + 1;
        }
        Grid { d0, d1, d2, data }
    }

    pub fn get(&self, a: usize, b: usize, c: usize) -> (r: T)
        requires
            self.wf(),
            self.in_grid(a as int, b as int, c as int),
        ensures
            r == self.at(a as int, b as int, c as int),
    {
        proof {
            lemma_grid_index(a as int, b as int, c as int, self.d0 as int, self.d1 as int, self.d2 as int);
        }
        self.data[(a * self.d1 + b) * self.d2 + c]
    }

    pub fn set(&mut self, a: usize, b: usize, c: usize, v: T)
        requires
            old(self).wf(),
            old(self).in_grid(a as int, b as int, c as int),
        ensures
            final(self).wf(),
            final(self).d0 == old(self).d0,
            final(self).d1 == old(self).d1,
            final(self).d2 == old(self).d2,
            final(self).at(a as int, b as int, c as int) == v,
            final(self).data@ == old(self).data@.update(
                grid_index(a as int, b as int, c as int, old(self).d1 as int, old(self).d2 as int),
                v,
            ),
            forall|i: int|
                0 <= i < final(self).data.len() ==> final(self).data@[i] == old(self).data@[i]
                    || final(self).data@[i] == v,
            forall|x: int, y: int, z: int|
                old(self).in_grid(x, y, z) && !(x == a && y == b && z == c) ==> #[trigger] final(self).at(x, y, z)
                    == old(self).at(x, y, z),
    {
        proof {
            lemma_grid_index(a as int, b as int, c as int, self.d0 as int, self.d1 as int, self.d2 as int);
            assert forall|x: int, y: int, z: int|
                self.in_grid(x, y, z) && !(x == a && y == b && z == c) implies grid_index(
                    x,
                    y,
                    z,
                    self.d1 as int,
                    self.d2 as int,
                ) != grid_index(a as int, b as int, c as int, self.d1 as int, self.d2 as int) && 0
                    <= grid_index(x, y, z, self.d1 as int, self.d2 as int) < self.data.len() by {
                lemma_grid_index(x, y, z, self.d0 as int, self.d1 as int, self.d2 as int);
                if grid_index(x, y, z, self.d1 as int, self.d2 as int) == grid_index(
                    a as int,
                    b as int,
                    c as int,
                    self.d1 as int,
                    self.d2 as int,
                ) {
                    lemma_grid_index_unique(a as int, b as int, c as int, x, y, z, self.d0 as int, self.d1 as int, self.d2 as int);
                }
            }
        }
        let idx = (a * self.d1 + b) * self.d2 + c;
        self.data.set(idx, v);
    }
}

} // verus!
