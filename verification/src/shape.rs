//! Runtime 3D shapes with a canonical row-major linearization.
//!
//! A [`Shape`] describes the dimensions `[x, y, z]` of a cuboid region.
//! `linearize` maps a local coordinate to its rank in the canonical
//! row-major order (x fastest, then y, then z); `delinearize` is its
//! inverse.  The two functions form a bijection between local coordinates
//! and `[0, size)`.

use vstd::prelude::*;
use vstd::arithmetic::div_mod::{
    lemma_fundamental_div_mod, lemma_fundamental_div_mod_converse_div,
    lemma_fundamental_div_mod_converse_mod, lemma_mod_bound,
};

verus! {

/// Largest supported dimension per axis.  Keeps every linearized rank,
/// coordinate difference and product comfortably inside 32-bit ranges.
pub const MAX_DIM: usize = 1024;

/// The dimensions of a cuboid region, carried at run time.
#[derive(Clone, Copy, PartialEq, Eq, Structural, Debug)]
pub struct Shape {
    pub x: usize,
    pub y: usize,
    pub z: usize,
}

impl Shape {
    /// Every dimension is within the supported bound.
    pub open spec fn wf(self) -> bool {
        self.x <= MAX_DIM && self.y <= MAX_DIM && self.z <= MAX_DIM
    }

    /// Number of cells of the region.
    pub open spec fn size_spec(self) -> int {
        self.x * self.y * self.z
    }

    /// Whether a local coordinate lies inside the region.
    pub open spec fn in_bounds(self, i: int, j: int, k: int) -> bool {
        0 <= i < self.x && 0 <= j < self.y && 0 <= k < self.z
    }

    /// Rank of a local coordinate in row-major order, x fastest.
    pub open spec fn linearize_spec(self, i: int, j: int, k: int) -> int {
        (k * self.y + j) * self.x + i
    }

    /// First coordinate of the inverse of `linearize_spec`.
    pub open spec fn delin_x(self, n: int) -> int {
        n % (self.x as int)
    }

    /// Second coordinate of the inverse of `linearize_spec`.
    pub open spec fn delin_y(self, n: int) -> int {
        (n / (self.x as int)) % (self.y as int)
    }

    /// Third coordinate of the inverse of `linearize_spec`.
    pub open spec fn delin_z(self, n: int) -> int {
        (n / (self.x as int)) / (self.y as int)
    }

    pub fn new(x: usize, y: usize, z: usize) -> (r: Self)
        requires
            x <= MAX_DIM,
            y <= MAX_DIM,
            z <= MAX_DIM,
        ensures
            r == (Shape { x, y, z }),
            r.wf(),
    {
        Shape { x, y, z }
    }

    /// The product of the dimensions is bounded by `MAX_DIM` cubed.
    pub proof fn lemma_size_bound(self)
        requires
            self.wf(),
        ensures
            0 <= self.size_spec() <= 0x40000000,
    {
        assert(0 <= self.x * self.y * self.z <= 0x40000000) by (nonlinear_arith)
            requires
                0 <= self.x <= MAX_DIM,
                0 <= self.y <= MAX_DIM,
                0 <= self.z <= MAX_DIM,
        ;
    }

    pub fn size(&self) -> (r: usize)
        requires
            self.wf(),
        ensures
            r == self.size_spec(),
    {
        proof {
            self.lemma_size_bound();
            assert((self.x * self.y) * self.z == self.x * self.y * self.z) by (nonlinear_arith);
            assert(self.x * self.y <= 0x100000) by (nonlinear_arith)
                requires
                    0 <= self.x <= MAX_DIM,
                    0 <= self.y <= MAX_DIM,
            ;
        }
        self.x * self.y * self.z
    }

    /// A linearized in-bounds coordinate ranks below the size.
    pub proof fn lemma_linearize_in_range(self, i: int, j: int, k: int)
        requires
            self.wf(),
            self.in_bounds(i, j, k),
        ensures
            0 <= self.linearize_spec(i, j, k) < self.size_spec(),
    {
        assert(0 <= (k * self.y + j) * self.x + i < self.x * self.y * self.z)
            by (nonlinear_arith)
            requires
                0 <= i < self.x,
                0 <= j < self.y,
                0 <= k < self.z,
        ;
    }

    /// Delinearizing a linearized coordinate gives the coordinate back:
    /// the two maps are mutually inverse bijections between the region
    /// and `[0, size)`.
    pub proof fn lemma_delinearize_of_linearize(self, i: int, j: int, k: int)
        requires
            self.wf(),
            self.in_bounds(i, j, k),
        ensures
            self.delin_x(self.linearize_spec(i, j, k)) == i,
            self.delin_y(self.linearize_spec(i, j, k)) == j,
            self.delin_z(self.linearize_spec(i, j, k)) == k,
    {
        let n = self.linearize_spec(i, j, k);
        let q = k * self.y + j;
        lemma_fundamental_div_mod_converse_mod(n, self.x as int, q, i);
        lemma_fundamental_div_mod_converse_div(n, self.x as int, q, i);
        assert(n % (self.x as int) == i);
        assert(n / (self.x as int) == q);
        lemma_fundamental_div_mod_converse_mod(q, self.y as int, k, j);
        lemma_fundamental_div_mod_converse_div(q, self.y as int, k, j);
    }

    /// Linearizing a delinearized rank gives the rank back, and the
    /// delinearized coordinate is in bounds.
    pub proof fn lemma_linearize_of_delinearize(self, n: int)
        requires
            self.wf(),
            0 <= n < self.size_spec(),
        ensures
            self.in_bounds(self.delin_x(n), self.delin_y(n), self.delin_z(n)),
            self.linearize_spec(self.delin_x(n), self.delin_y(n), self.delin_z(n)) == n,
    {
        let xi = self.x as int;
        let yi = self.y as int;
        assert(self.x > 0 && self.y > 0 && self.z > 0) by (nonlinear_arith)
            requires
                0 <= n < self.x * self.y * self.z,
        ;
        lemma_mod_bound(n, xi);
        lemma_fundamental_div_mod(n, xi);
        let rest = n / xi;
        lemma_mod_bound(rest, yi);
        lemma_fundamental_div_mod(rest, yi);
        assert(rest < self.y * self.z) by (nonlinear_arith)
            requires
                0 <= n < self.x * self.y * self.z,
                self.x > 0,
                n == xi * rest + n % xi,
                0 <= n % xi < xi,
                xi == self.x,
        ;
        assert(rest / yi < self.z) by (nonlinear_arith)
            requires
                0 <= rest < self.y * self.z,
                self.y > 0,
                rest == yi * (rest / yi) + rest % yi,
                0 <= rest % yi < yi,
                yi == self.y,
        ;
        assert(rest / yi >= 0) by (nonlinear_arith)
            requires
                0 <= rest,
                yi > 0,
                rest == yi * (rest / yi) + rest % yi,
                0 <= rest % yi < yi,
        ;
        assert((self.delin_z(n) * yi + self.delin_y(n)) * xi + self.delin_x(n) == n)
            by (nonlinear_arith)
            requires
                self.delin_z(n) == rest / yi,
                self.delin_y(n) == rest % yi,
                self.delin_x(n) == n % xi,
                rest == yi * (rest / yi) + rest % yi,
                n == xi * rest + n % xi,
                rest == n / xi,
        ;
    }

    pub fn linearize(&self, p: [usize; 3]) -> (r: usize)
        requires
            self.wf(),
            self.in_bounds(p[0] as int, p[1] as int, p[2] as int),
        ensures
            r == self.linearize_spec(p[0] as int, p[1] as int, p[2] as int),
            0 <= r < self.size_spec(),
    {
        proof {
            self.lemma_linearize_in_range(p[0] as int, p[1] as int, p[2] as int);
            self.lemma_size_bound();
            assert((p[2] * self.y + p[1]) * self.x + p[0] < 0x40000001) by (nonlinear_arith)
                requires
                    0 <= p[0] < self.x <= MAX_DIM,
                    0 <= p[1] < self.y <= MAX_DIM,
                    0 <= p[2] < self.z <= MAX_DIM,
            ;
            assert(p[2] * self.y + p[1] <= 0x100400) by (nonlinear_arith)
                requires
                    0 <= p[1] < self.y <= MAX_DIM,
                    0 <= p[2] <= MAX_DIM,
            ;
        }
        (p[2] * self.y + p[1]) * self.x + p[0]
    }

    pub fn delinearize(&self, n: usize) -> (r: [usize; 3])
        requires
            self.wf(),
            0 <= n < self.size_spec(),
        ensures
            r[0] == self.delin_x(n as int),
            r[1] == self.delin_y(n as int),
            r[2] == self.delin_z(n as int),
            self.in_bounds(r[0] as int, r[1] as int, r[2] as int),
            self.linearize_spec(r[0] as int, r[1] as int, r[2] as int) == n,
    {
        proof {
            self.lemma_linearize_of_delinearize(n as int);
            self.lemma_size_bound();
        }
        let i = n % self.x;
        let rest = n / self.x;
        let j = rest % self.y;
        let k = rest / self.y;
        [i, j, k]
    }
}

} // verus!
