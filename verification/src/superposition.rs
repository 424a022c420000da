//! Bit-mask superpositions over voxel identities.
//!
//! A [`Superposition<D>`] tracks which of the voxel ids `0..D` are still
//! possible at one cell of a wave.  Storage is a `u64` bit mask where a
//! *set* bit marks a *disallowed* id; `D` is at most 64.

use vstd::prelude::*;

use crate::VoxelId;

verus! {

/// Whether bit `i` of `m` is set.  Only meaningful for `0 <= i < 64`.
pub open spec fn bit_set(m: u64, i: int) -> bool {
    (m >> (i as u64)) & 1 == 1
}

/// The mask with exactly the low `d` bits set.
pub open spec fn low_mask(d: int) -> u64 {
    if d >= 64 {
        u64::MAX
    } else if d <= 0 {
        0
    } else {
        ((1u64 << (d as u64)) - 1) as u64
    }
}

/// The mask of `only(v)` over `d` tracked ids: everything below `d`
/// forbidden except `v`.
pub open spec fn only_mask(d: int, v: int) -> u64 {
    low_mask(d) & !(1u64 << (v as u64))
}

/// Number of clear bits of `m` strictly below position `d`.
pub open spec fn count_clear(m: u64, d: int) -> int
    decreases d,
{
    if d <= 0 {
        0
    } else {
        count_clear(m, d - 1) + if bit_set(m, d - 1) {
            0int
        } else {
            1int
        }
    }
}

/// Bit `i` of `low_mask(d)` is set exactly when `i < d`.
pub proof fn lemma_low_mask_bit(d: int, i: int)
    requires
        0 <= i < 64,
        0 <= d <= 64,
    ensures
        bit_set(low_mask(d), i) <==> i < d,
{
    let iu = i as u64;
    if d == 64 {
        assert((u64::MAX >> iu) & 1 == 1) by (bit_vector)
            requires
                iu < 64u64,
        ;
    } else if d == 0 {
        assert((0u64 >> iu) & 1 == 0) by (bit_vector);
    } else {
        let du = d as u64;
        assert(((((1u64 << du) - 1) as u64) >> iu) & 1 == (if iu < du {
            1u64
        } else {
            0u64
        })) by (bit_vector)
            requires
                0u64 < du < 64u64,
                iu < 64u64,
        ;
    }
}

/// `count_clear` is zero when every bit below `d` is set.
pub proof fn lemma_count_clear_none(m: u64, d: int)
    requires
        0 <= d <= 64,
        forall|i: int| 0 <= i < d ==> bit_set(m, i),
    ensures
        count_clear(m, d) == 0,
    decreases d,
{
    if d > 0 {
        lemma_count_clear_none(m, d - 1);
    }
}

/// `count_clear` is one when exactly one bit below `d` is clear.
pub proof fn lemma_count_clear_one(m: u64, d: int, v: int)
    requires
        0 <= d <= 64,
        0 <= v < d,
        forall|i: int| 0 <= i < d ==> (bit_set(m, i) <==> i != v),
    ensures
        count_clear(m, d) == 1,
    decreases d,
{
    if d - 1 == v {
        lemma_count_clear_none(m, d - 1);
    } else {
        lemma_count_clear_one(m, d - 1, v);
    }
}

/// Counting clear bits never exceeds the range counted over.
pub proof fn lemma_count_clear_bounds(m: u64, d: int)
    requires
        0 <= d,
    ensures
        0 <= count_clear(m, d) <= d,
    decreases d,
{
    if d > 0 {
        lemma_count_clear_bounds(m, d - 1);
    }
}

/// If every id allowed by `b` (below `d`) is allowed by `a`, then `b`
/// allows at most as many ids as `a`.
pub proof fn lemma_count_clear_monotone(a: u64, b: u64, d: int)
    requires
        0 <= d <= 64,
        forall|i: int| 0 <= i < d && !bit_set(b, i) ==> !bit_set(a, i),
    ensures
        count_clear(b, d) <= count_clear(a, d),
    decreases d,
{
    if d > 0 {
        lemma_count_clear_monotone(a, b, d - 1);
    }
}

/// As above, and additionally some id below `d` is allowed by `a` but
/// not by `b`: then `b` allows strictly fewer ids.
pub proof fn lemma_count_clear_strict(a: u64, b: u64, d: int, w: int)
    requires
        0 <= d <= 64,
        forall|i: int| 0 <= i < d && !bit_set(b, i) ==> !bit_set(a, i),
        0 <= w < d,
        !bit_set(a, w),
        bit_set(b, w),
    ensures
        count_clear(b, d) < count_clear(a, d),
    decreases d,
{
    if d - 1 == w {
        lemma_count_clear_monotone(a, b, d - 1);
    } else {
        lemma_count_clear_strict(a, b, d - 1, w);
    }
}

/// Tracks which voxel ids have been excluded at one cell.
/// A set bit marks a disallowed id; only ids below `D` are meaningful,
/// and `D` must be at most 64.
#[derive(Clone, Copy, PartialEq, Eq, Debug)]
pub struct Superposition<const D: u8>(pub u64);

impl<const D: u8> Superposition<D> {
    /// The dimension parameter is within the storage width.
    pub open spec fn dims_ok() -> bool {
        D <= 64
    }

    /// Canonical masks keep every bit at or above `D` clear.
    pub open spec fn wf(self) -> bool {
        self.0 & !low_mask(D as int) == 0
    }

    /// Whether id `v` is still allowed.  Ids at or above the storage
    /// width are never tracked, hence never excluded.
    pub open spec fn allows_spec(self, v: int) -> bool {
        if 0 <= v < 64 {
            !bit_set(self.0, v)
        } else {
            true
        }
    }

    /// Number of allowed ids among `0..D`.
    pub open spec fn count_allowed_spec(self) -> int {
        count_clear(self.0, D as int)
    }

    /// Nothing excluded.
    pub fn free() -> (r: Self)
        requires
            Self::dims_ok(),
        ensures
            r.0 == 0,
            r.wf(),
            forall|v: int| r.allows_spec(v),
            r.count_allowed_spec() == D as int,
    {
        proof {
            let l = low_mask(D as int);
            assert(0u64 & !l == 0) by (bit_vector);
            assert forall|v: int| 0 <= v < 64 implies !bit_set(0u64, v) by {
                let vu = v as u64;
                assert((0u64 >> vu) & 1 == 0) by (bit_vector);
            }
            Self::lemma_count_clear_free(D as int);
        }
        Superposition(0)
    }

    proof fn lemma_count_clear_free(d: int)
        requires
            0 <= d <= 64,
        ensures
            count_clear(0u64, d) == d,
        decreases d,
    {
        if d > 0 {
            Self::lemma_count_clear_free(d - 1);
            let du = (d - 1) as u64;
            assert((0u64 >> du) & 1 == 0) by (bit_vector);
        }
    }

    /// Everything excluded; also usable as a mask of the meaningful bits.
    pub fn impossible() -> (r: Self)
        requires
            Self::dims_ok(),
        ensures
            r.0 == low_mask(D as int),
            r.wf(),
            forall|v: int| 0 <= v < D ==> !r.allows_spec(v),
            r.count_allowed_spec() == 0,
    {
        let du: u64 = D as u64;
        let m: u64;
        if D == 64 {
            m = u64::MAX;
        } else {
            proof {
                assert(1u64 <= (1u64 << du)) by (bit_vector)
                    requires
                        du < 64u64,
                ;
            }
            m = (1u64 << du) - 1;
        }
        proof {
            let l = low_mask(D as int);
            assert(((D as int) as u64) == du);
            if D == 0 {
                assert((1u64 << 0u64) == 1) by (bit_vector);
            }
            assert(m == l);
            assert(l & !l == 0) by (bit_vector);
            assert forall|v: int| 0 <= v < D implies bit_set(l, v) by {
                lemma_low_mask_bit(D as int, v);
            }
            lemma_count_clear_none(l, D as int);
        }
        Superposition(m)
    }

    /// Everything excluded but `v`.
    pub fn only(v: VoxelId) -> (r: Self)
        requires
            Self::dims_ok(),
            v < D,
        ensures
            r.wf(),
            r.0 == only_mask(D as int, v as int),
            forall|i: int| 0 <= i < D ==> (r.allows_spec(i) <==> i == v),
            r.count_allowed_spec() == 1,
            r.allows_spec(v as int),
    {
        let all = Self::impossible();
        let m: u64 = all.0 & !(1u64 << (v as u64));
        proof {
            let l = low_mask(D as int);
            let vu = v as u64;
            assert(((v as int) as u64) == vu);
            assert((l & !(1u64 << vu)) & !l == 0) by (bit_vector);
            assert forall|i: int| 0 <= i < 64 implies (bit_set(m, i) <==> (i < D && i != v)) by {
                lemma_low_mask_bit(D as int, i);
                let iu = i as u64;
                assert(((l & !(1u64 << vu)) >> iu) & 1 == (if ((l >> iu) & 1 == 1) && iu != vu {
                    1u64
                } else {
                    0u64
                })) by (bit_vector)
                    requires
                        iu < 64u64,
                        vu < 64u64,
                ;
            }
            lemma_count_clear_one(m, D as int, v as int);
        }
        Superposition(m)
    }

    /// Whether id `v` is still allowed.
    pub fn allows(&self, v: VoxelId) -> (r: bool)
        requires
            v < 64,
        ensures
            r == self.allows_spec(v as int),
    {
        proof {
            let m = self.0;
            let vu = v as u64;
            assert((m >> vu) & 1 == 0 || (m >> vu) & 1 == 1) by (bit_vector);
        }
        (self.0 >> (v as u64)) & 1 == 0
    }

    /// Number of allowed ids among `0..D`.
    pub fn count_allowed(&self) -> (r: u8)
        requires
            Self::dims_ok(),
        ensures
            r == self.count_allowed_spec(),
    {
        let mut c: u8 = 0;
        let mut v: u8 = 0;
        while v < D
            invariant
                v <= D,
                D <= 64,
                c == count_clear(self.0, v as int),
                c <= v,
            decreases D - v,
        {
            proof {
                let m = self.0;
                let vu = v as u64;
                assert((m >> vu) & 1 == 0 || (m >> vu) & 1 == 1) by (bit_vector);
            }
            if (self.0 >> (v as u64)) & 1 == 0 {
                c = c + 1;
            }
            v = v + 1;
        }
        c
    }

    /// The most restrictive combination of two superpositions: an id is
    /// allowed only if both allow it.
    pub fn intersect(self, other: Self) -> (r: Self)
        ensures
            r.0 == self.0 | other.0,
            forall|v: int| r.allows_spec(v) <==> (self.allows_spec(v) && other.allows_spec(v)),
            self.wf() && other.wf() ==> r.wf(),
    {
        proof {
            let a = self.0;
            let b = other.0;
            let l = low_mask(D as int);
            assert forall|v: int| 0 <= v < 64 implies (bit_set(a | b, v) <==> (bit_set(a, v)
                || bit_set(b, v))) by {
                let vu = v as u64;
                assert(((a | b) >> vu) & 1 == (if ((a >> vu) & 1 == 1) || ((b >> vu) & 1 == 1) {
                    1u64
                } else {
                    0u64
                })) by (bit_vector)
                    requires
                        vu < 64u64,
                ;
            }
            assert(a & !l == 0 && b & !l == 0 ==> (a | b) & !l == 0) by (bit_vector);
        }
        Superposition(self.0 | other.0)
    }
}


/// High bits agree when all bits from `k` up agree.
proof fn lemma_shifts_eq(a: u64, b: u64, k: u64)
    requires
        k <= 63,
        forall|i: int| k <= i < 64 ==> (bit_set(a, i) <==> bit_set(b, i)),
    ensures
        a >> k == b >> k,
    decreases 63 - k,
{
    if k == 63 {
        assert(bit_set(a, 63) <==> bit_set(b, 63));
        assert((63int) as u64 == 63u64);
        assert((a >> 63u64) == ((a >> 63u64) & 1)) by (bit_vector);
        assert((b >> 63u64) == ((b >> 63u64) & 1)) by (bit_vector);
        assert(((a >> 63u64) & 1 == 0) || ((a >> 63u64) & 1 == 1)) by (bit_vector);
        assert(((b >> 63u64) & 1 == 0) || ((b >> 63u64) & 1 == 1)) by (bit_vector);
    } else {
        let kp: u64 = (k + 1) as u64;
        lemma_shifts_eq(a, b, kp);
        assert(bit_set(a, k as int) <==> bit_set(b, k as int));
        assert(((k as int) as u64) == k);
        assert((a >> k) == (((a >> kp) << 1) | ((a >> k) & 1))) by (bit_vector)
            requires
                k < 63u64,
                kp == k + 1,
        ;
        assert((b >> k) == (((b >> kp) << 1) | ((b >> k) & 1))) by (bit_vector)
            requires
                k < 63u64,
                kp == k + 1,
        ;
        assert(((a >> k) & 1 == 0) || ((a >> k) & 1 == 1)) by (bit_vector);
        assert(((b >> k) & 1 == 0) || ((b >> k) & 1 == 1)) by (bit_vector);
    }
}

/// Two masks with the same bits are the same mask.
pub proof fn lemma_bit_extensionality(a: u64, b: u64)
    requires
        forall|i: int| 0 <= i < 64 ==> (bit_set(a, i) <==> bit_set(b, i)),
    ensures
        a == b,
{
    lemma_shifts_eq(a, b, 0);
    assert(a >> 0u64 == a) by (bit_vector);
    assert(b >> 0u64 == b) by (bit_vector);
}

/// Bit `i` of `only_mask(d, v)` is set exactly when `i < d` and
/// `i != v`.
pub proof fn lemma_only_mask_bit(d: int, v: int, i: int)
    requires
        0 <= i < 64,
        0 <= v < 64,
        0 <= d <= 64,
    ensures
        bit_set(only_mask(d, v), i) <==> (i < d && i != v),
{
    lemma_low_mask_bit(d, i);
    let l = low_mask(d);
    let vu = v as u64;
    let iu = i as u64;
    assert(((l & !(1u64 << vu)) >> iu) & 1 == (if ((l >> iu) & 1 == 1) && iu != vu {
        1u64
    } else {
        0u64
    })) by (bit_vector)
        requires
            iu < 64u64,
            vu < 64u64,
    ;
}

/// The mask of `only` keeps every bit at or above `d` clear.
pub proof fn lemma_only_mask_canonical(d: int, v: int)
    requires
        0 <= v < 64,
    ensures
        only_mask(d, v) & !low_mask(d) == 0,
{
    let l = low_mask(d);
    let vu = v as u64;
    assert((l & !(1u64 << vu)) & !l == 0) by (bit_vector);
}

/// When a mask absorbs `other` (their union is the mask itself),
/// every bit of `other` is set in it.
pub proof fn lemma_absorbed_bits(m: u64, other: u64, i: int)
    requires
        0 <= i < 64,
        m == m | other,
        bit_set(other, i),
    ensures
        bit_set(m, i),
{
    let iu = i as u64;
    assert((m == (m | other) && (other >> iu) & 1 == 1) ==> (m >> iu) & 1 == 1) by (bit_vector)
        requires
            iu < 64u64,
    ;
}

/// One superposition is a restriction of another: everything it
/// allows, the other allows too.
pub open spec fn cell_restricts<const D: u8>(
    post: Superposition<D>,
    pre: Superposition<D>,
) -> bool {
    forall|v: int| post.allows_spec(v) ==> pre.allows_spec(v)
}

impl<const D: u8> Superposition<D> {
    /// A proper restriction of a canonical mask allows strictly fewer
    /// ids.
    pub proof fn lemma_strict_restriction(post: Self, pre: Self)
        requires
            Self::dims_ok(),
            post.wf(),
            pre.wf(),
            cell_restricts(post, pre),
            post.0 != pre.0,
        ensures
            post.count_allowed_spec() < pre.count_allowed_spec(),
    {
        assert(!(forall|i: int| 0 <= i < 64 ==> (bit_set(post.0, i) <==> bit_set(pre.0, i)))) by {
            if forall|i: int| 0 <= i < 64 ==> (bit_set(post.0, i) <==> bit_set(pre.0, i)) {
                lemma_bit_extensionality(post.0, pre.0);
            }
        }
        let w = choose|i: int| 0 <= i < 64 && !(bit_set(post.0, i) <==> bit_set(pre.0, i));
        assert(bit_set(post.0, w) && !bit_set(pre.0, w)) by {
            if !bit_set(post.0, w) {
                assert(post.allows_spec(w));
            }
        }
        assert(w < D) by {
            lemma_low_mask_bit(D as int, w);
            let l = low_mask(D as int);
            let m = post.0;
            let wu = w as u64;
            assert(m & !l == 0 && (m >> wu) & 1 == 1 ==> (l >> wu) & 1 == 1) by (bit_vector)
                requires
                    wu < 64u64,
            ;
        }
        assert forall|i: int| 0 <= i < D && !bit_set(post.0, i) implies !bit_set(pre.0, i) by {
            assert(post.allows_spec(i));
        }
        lemma_count_clear_strict(pre.0, post.0, D as int, w);
    }

    /// A restriction never allows more ids.
    pub proof fn lemma_restriction_count(post: Self, pre: Self)
        requires
            Self::dims_ok(),
            cell_restricts(post, pre),
        ensures
            post.count_allowed_spec() <= pre.count_allowed_spec(),
    {
        assert forall|i: int| 0 <= i < D && !bit_set(post.0, i) implies !bit_set(pre.0, i) by {
            assert(post.allows_spec(i));
        }
        lemma_count_clear_monotone(pre.0, post.0, D as int);
    }
}


/// Bit `i` of a union is set exactly when it is set in either operand.
pub proof fn lemma_or_bit(x: u64, m: u64, i: int)
    requires
        0 <= i < 64,
    ensures
        bit_set(x | m, i) <==> (bit_set(x, i) || bit_set(m, i)),
{
    let iu = i as u64;
    assert(((x | m) >> iu) & 1 == (if ((x >> iu) & 1 == 1) || ((m >> iu) & 1 == 1) {
        1u64
    } else {
        0u64
    })) by (bit_vector)
        requires
            iu < 64u64,
    ;
}

/// A mask absorbs `m` when it holds every bit of `m`.
pub proof fn lemma_absorb_from_bits(x: u64, m: u64)
    requires
        forall|i: int| 0 <= i < 64 && bit_set(m, i) ==> bit_set(x, i),
    ensures
        x == x | m,
{
    assert forall|i: int| 0 <= i < 64 implies (bit_set(x | m, i) <==> bit_set(x, i)) by {
        lemma_or_bit(x, m, i);
    }
    lemma_bit_extensionality(x | m, x);
}

impl<const D: u8> Superposition<D> {
    /// A restriction of a cell that has absorbed a canonical mask has
    /// absorbed it too.
    pub proof fn lemma_restriction_keeps_absorption(post: Self, pre: Self, m: u64)
        requires
            Self::dims_ok(),
            cell_restricts(post, pre),
            pre.0 == pre.0 | m,
            m & !low_mask(D as int) == 0,
        ensures
            post.0 == post.0 | m,
    {
        assert forall|i: int| 0 <= i < 64 && bit_set(m, i) implies bit_set(post.0, i) by {
            lemma_absorbed_bits(pre.0, m, i);
            if !bit_set(post.0, i) {
                assert(post.allows_spec(i));
                assert(pre.allows_spec(i));
            }
        }
        lemma_absorb_from_bits(post.0, m);
    }

    /// The ids this superposition allows among `0..D`, in increasing
    /// order.
    pub open spec fn allowed_ids_spec(self) -> Seq<u8> {
        allowed_ids_upto(self.0, D as int)
    }

    /// Lists the allowed ids among `0..D`, in increasing order.
    pub fn allowed_ids(&self) -> (r: Vec<u8>)
        requires
            Self::dims_ok(),
        ensures
            r@ == self.allowed_ids_spec(),
            r@.len() == self.count_allowed_spec(),
    {
        proof {
            lemma_allowed_ids_len(self.0, D as int);
        }
        let mut out: Vec<u8> = Vec::new();
        let mut v: u8 = 0;
        while v < D
            invariant
                v <= D,
                D <= 64,
                out@ == allowed_ids_upto(self.0, v as int),
            decreases D - v,
        {
            proof {
                let m = self.0;
                let vu = v as u64;
                assert((m >> vu) & 1 == 0 || (m >> vu) & 1 == 1) by (bit_vector);
                assert(((v as int) as u64) == vu);
            }
            if (self.0 >> (v as u64)) & 1 == 0 {
                out.push(v);
                proof {
                    assert(out@ =~= allowed_ids_upto(self.0, v as int + 1));
                }
            }
            v = v + 1;
        }
        out
    }
}

/// The clear bit positions of `m` below `d`, in increasing order.
pub open spec fn allowed_ids_upto(m: u64, d: int) -> Seq<u8>
    decreases d,
{
    if d <= 0 {
        Seq::empty()
    } else if !bit_set(m, d - 1) {
        allowed_ids_upto(m, d - 1).push((d - 1) as u8)
    } else {
        allowed_ids_upto(m, d - 1)
    }
}

/// The allowed-id list has one entry per allowed id.
pub proof fn lemma_allowed_ids_len(m: u64, d: int)
    requires
        0 <= d <= 64,
    ensures
        allowed_ids_upto(m, d).len() == count_clear(m, d),
    decreases d,
{
    if d > 0 {
        lemma_allowed_ids_len(m, d - 1);
    }
}

impl<const D: u8> Default for Superposition<D> {
    /// The default cell is fully free, matching the default voxel id 0
    /// being allowed.
    fn default() -> (r: Self)
        ensures
            r.0 == 0,
    {
        Superposition(0)
    }
}

} // verus!
