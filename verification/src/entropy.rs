//! The pseudo-entropy heuristic for picking the next collapse site.
//!
//! For a window of the wave, the heuristic scores the distribution of
//! stamps that still fit.  With total occurrence count `W` and fitting
//! stamps of counts `c`, the mathematical score is
//! `(1/W) * sum c * (log2 W - log2 c)` with flooring base-2 logarithms.
//! Within one wave `W` is fixed, so ordering sites by the score is the
//! same as ordering them by the integer numerator
//! `sum c * (log2 W - log2 c)`, which is what the functions here
//! compute: deliberately not Shannon entropy — with equal stamps, a
//! site that admits more options scores strictly higher.

use vstd::prelude::*;

use vstd::arithmetic::div_mod::{lemma_div_is_ordered, lemma_div_multiples_vanish};
use vstd::arithmetic::power2::pow2;

use crate::indices::WorldIndex;
use crate::shape::Shape;
use crate::stamp::{
    counts_total_upto, fits_count, lemma_counts_total_eq, lemma_fits_count_monotone,
    lemma_fits_count_one, lemma_fits_count_two, StampCollection, ViewStamp,
};
use crate::superposition::Superposition;
use crate::world::FlatPaddedGridCuboid;
use crate::VoxelId;

verus! {

/// Floor of the base-2 logarithm; meaningful for `v >= 1`.
pub open spec fn spec_log2(v: int) -> int
    decreases v,
{
    if v < 2 {
        0
    } else {
        1 + spec_log2(v / 2)
    }
}

/// The floor logarithm inverts powers of two exactly.
pub proof fn lemma_log2_pow2(i: nat)
    ensures
        spec_log2(pow2(i) as int) == i,
    decreases i,
{
    vstd::arithmetic::power2::lemma2_to64();
    vstd::arithmetic::power2::lemma_pow2_pos(i);
    if i > 0 {
        lemma_log2_pow2((i - 1) as nat);
        vstd::arithmetic::power2::lemma_pow2_unfold(i);
        vstd::arithmetic::power2::lemma_pow2_pos((i - 1) as nat);
        lemma_div_multiples_vanish(pow2((i - 1) as nat) as int, 2);
        assert(pow2(i) as int / 2 == pow2((i - 1) as nat) as int);
        assert(pow2(i) >= 2) by {
            vstd::arithmetic::power2::lemma_pow2_adds(1, (i - 1) as nat);
            vstd::arithmetic::power2::lemma_pow2_strictly_increases(0, i);
        }
    }
}

/// The floor logarithm is monotone.
pub proof fn lemma_log2_monotone(a: int, b: int)
    requires
        0 <= a <= b,
    ensures
        spec_log2(a) <= spec_log2(b),
    decreases b,
{
    if a >= 2 {
        lemma_div_is_ordered(a, b, 2);
        lemma_log2_monotone(a / 2, b / 2);
        assert(spec_log2(a) == 1 + spec_log2(a / 2));
        assert(spec_log2(b) == 1 + spec_log2(b / 2));
    } else {
        lemma_log2_nonneg(b);
    }
}

/// The floor logarithm is bounded by the bit position of the value.
pub proof fn lemma_log2_bound(v: int, i: nat)
    requires
        0 <= v < pow2(i),
    ensures
        spec_log2(v) <= i,
    decreases i,
{
    if v >= 2 {
        assert(i >= 1) by {
            if i == 0 {
                vstd::arithmetic::power2::lemma2_to64();
            }
        }
        vstd::arithmetic::power2::lemma_pow2_unfold(i);
        lemma_log2_bound(v / 2, (i - 1) as nat);
    }
}

/// The floor logarithm is never negative.
pub proof fn lemma_log2_nonneg(v: int)
    ensures
        spec_log2(v) >= 0,
    decreases v,
{
    if v >= 2 {
        lemma_log2_nonneg(v / 2);
    }
}

/// Computes the floor of the base-2 logarithm.
pub fn log2(v: usize) -> (r: usize)
    requires
        v >= 1,
    ensures
        r == spec_log2(v as int),
{
    let mut x: usize = v;
    let mut r: usize = 0;
    proof {
        lemma_log2_nonneg(v as int);
        vstd::arithmetic::power2::lemma2_to64();
        assert(v < pow2(64)) by {
            assert(pow2(64) == 0x10000000000000000);
        }
        lemma_log2_bound(v as int, 64);
    }
    while x >= 2
        invariant
            x >= 1,
            r + spec_log2(x as int) == spec_log2(v as int),
            spec_log2(v as int) <= 64,
            r <= spec_log2(v as int),
        decreases x,
    {
        proof {
            lemma_log2_nonneg(x as int / 2);
        }
        x = x / 2;
        r = r + 1;
    }
    r
}

/// Sum of the first `upto` weights.
pub open spec fn sum_upto(ws: Seq<usize>, upto: int) -> int
    decreases upto,
{
    if upto <= 0 {
        0
    } else {
        sum_upto(ws, upto - 1) + ws[upto - 1]
    }
}

/// The pseudo-entropy numerator of the first `upto` weights:
/// `sum w * (log2 total - log2 w)`.
pub open spec fn entropy_num_upto(ws: Seq<usize>, total: int, upto: int) -> int
    decreases upto,
{
    if upto <= 0 {
        0
    } else {
        entropy_num_upto(ws, total, upto - 1) + ws[upto - 1] * (spec_log2(total) - spec_log2(
            ws[upto - 1] as int,
        ))
    }
}

/// Each numerator term of a weight between 1 and `total` lies in
/// `[0, 64 * w]`; prefix sums are bounded accordingly.
pub proof fn lemma_entropy_num_bounds(ws: Seq<usize>, total: int, upto: int)
    requires
        0 <= upto <= ws.len(),
        1 <= total <= 0x40000000,
        forall|k: int| 0 <= k < ws.len() ==> 1 <= #[trigger] ws[k] <= total,
    ensures
        0 <= entropy_num_upto(ws, total, upto) <= 64 * sum_upto(ws, upto),
        sum_upto(ws, upto) >= 0,
    decreases upto,
{
    if upto > 0 {
        lemma_entropy_num_bounds(ws, total, upto - 1);
        let w = ws[upto - 1] as int;
        lemma_log2_monotone(w, total);
        lemma_log2_nonneg(w);
        vstd::arithmetic::power2::lemma2_to64();
        assert(total < pow2(64)) by {
            assert(pow2(64) == 0x10000000000000000);
        }
        lemma_log2_bound(total, 64);
        assert(0 <= w * (spec_log2(total) - spec_log2(w)) <= 64 * w) by (nonlinear_arith)
            requires
                w >= 1,
                0 <= spec_log2(total) - spec_log2(w) <= 64,
        ;
        assert(64 * sum_upto(ws, upto) == 64 * sum_upto(ws, upto - 1) + 64 * w) by (nonlinear_arith)
            requires
                sum_upto(ws, upto) == sum_upto(ws, upto - 1) + w,
        ;
    }
}

/// Calculates the pseudo-entropy numerator of a weighted distribution:
/// `sum w * (log2 total - log2 w)` over all weights.  Dividing by
/// `total` (which callers compare at fixed `total`) gives the
/// pseudo-entropy itself.
pub fn get_pseudo_entropy(weights: &Vec<usize>, total: usize) -> (r: u64)
    requires
        1 <= total <= 0x40000000,
        forall|k: int| 0 <= k < weights@.len() ==> 1 <= #[trigger] weights@[k] <= total,
        sum_upto(weights@, weights@.len() as int) <= total,
    ensures
        r == entropy_num_upto(weights@, total as int, weights@.len() as int),
{
    let log_total = log2(total);
    let mut acc: u64 = 0;
    let mut k: usize = 0;
    proof {
        lemma_entropy_num_bounds(weights@, total as int, weights@.len() as int);
    }
    while k < weights.len()
        invariant
            k <= weights@.len(),
            1 <= total <= 0x40000000,
            log_total == spec_log2(total as int),
            forall|j: int| 0 <= j < weights@.len() ==> 1 <= #[trigger] weights@[j] <= total,
            sum_upto(weights@, weights@.len() as int) <= total,
            acc == entropy_num_upto(weights@, total as int, k as int),
        decreases weights@.len() - k,
    {
        proof {
            lemma_entropy_num_bounds(weights@, total as int, k as int);
            lemma_entropy_num_bounds(weights@, total as int, (k + 1) as int);
            lemma_sum_upto_monotone(weights@, (k + 1) as int, weights@.len() as int);
            lemma_log2_monotone(weights@[k as int] as int, total as int);
            lemma_log2_nonneg(weights@[k as int] as int);
        }
        let w = weights[k];
        let lw = log2(w);
        acc = acc + (w as u64) * ((log_total - lw) as u64);
        k = k + 1;
    }
    acc
}



/// The pseudo-entropy numerator restricted to the stamps that fit the
/// window: `sum c * (log2 total - log2 c)` over fitting entries among
/// the first `upto`.
pub open spec fn open_entropy_upto<const C: u8>(
    view: ViewStamp<Superposition<C>>,
    stamps: Seq<(ViewStamp<VoxelId>, usize)>,
    total: int,
    upto: int,
) -> int
    decreases upto,
{
    if upto <= 0 {
        0
    } else {
        open_entropy_upto(view, stamps, total, upto - 1) + if view.allows_stamp(
            stamps[upto - 1].0,
        ) {
            stamps[upto - 1].1 * (spec_log2(total) - spec_log2(stamps[upto - 1].1 as int))
        } else {
            0int
        }
    }
}

/// The restricted numerator is nonnegative and bounded by 64 times the
/// summed counts.
pub proof fn lemma_open_entropy_bounds<const C: u8>(
    view: ViewStamp<Superposition<C>>,
    stamps: Seq<(ViewStamp<VoxelId>, usize)>,
    total: int,
    upto: int,
)
    requires
        0 <= upto <= stamps.len(),
        1 <= total <= 0x40000000,
        forall|k: int| 0 <= k < stamps.len() ==> 1 <= (#[trigger] stamps[k]).1 <= total,
    ensures
        0 <= open_entropy_upto(view, stamps, total, upto) <= 64 * counts_total_upto(stamps, upto),
        counts_total_upto(stamps, upto) >= 0,
    decreases upto,
{
    if upto > 0 {
        lemma_open_entropy_bounds(view, stamps, total, upto - 1);
        let w = stamps[upto - 1].1 as int;
        lemma_log2_monotone(w, total);
        lemma_log2_nonneg(w);
        vstd::arithmetic::power2::lemma2_to64();
        assert(total < pow2(64)) by {
            assert(pow2(64) == 0x10000000000000000);
        }
        lemma_log2_bound(total, 64);
        assert(0 <= w * (spec_log2(total) - spec_log2(w)) <= 64 * w) by (nonlinear_arith)
            requires
                w >= 1,
                0 <= spec_log2(total) - spec_log2(w) <= 64,
        ;
        assert(64 * counts_total_upto(stamps, upto) == 64 * counts_total_upto(stamps, upto - 1)
            + 64 * w) by (nonlinear_arith)
            requires
                counts_total_upto(stamps, upto) == counts_total_upto(stamps, upto - 1) + w,
        ;
    }
}

/// Partial count sums grow with the range.
pub proof fn lemma_counts_total_monotone(
    stamps: Seq<(ViewStamp<VoxelId>, usize)>,
    a: int,
    b: int,
)
    requires
        0 <= a <= b <= stamps.len(),
    ensures
        counts_total_upto(stamps, a) <= counts_total_upto(stamps, b),
    decreases b - a,
{
    if a < b {
        lemma_counts_total_monotone(stamps, a, b - 1);
    }
}


/// The subsequence of the first `upto` entries whose stamps fit the
/// window, in collection order.
pub open spec fn distribution_upto<'a, const C: u8>(
    view: ViewStamp<Superposition<C>>,
    stamps: Seq<(ViewStamp<'a, VoxelId>, usize)>,
    upto: int,
) -> Seq<(ViewStamp<'a, VoxelId>, usize)>
    decreases upto,
{
    if upto <= 0 {
        Seq::empty()
    } else if view.allows_stamp(stamps[upto - 1].0) {
        distribution_upto(view, stamps, upto - 1).push(stamps[upto - 1])
    } else {
        distribution_upto(view, stamps, upto - 1)
    }
}

/// The stamps that fit the window, with their occurrence counts, in
/// collection order.
pub fn get_distribution<'a, const C: u8>(
    view: &ViewStamp<'_, Superposition<C>>,
    stamps: &StampCollection<'a>,
) -> (r: Vec<(ViewStamp<'a, VoxelId>, usize)>)
    requires
        view.wf(),
        stamps.wf(),
        view.shape == stamps.shape,
        stamps.values_below(64),
    ensures
        r@ == distribution_upto(*view, stamps.stamps@, stamps.stamps@.len() as int),
        r@.len() == fits_count(*view, stamps.stamps@, stamps.stamps@.len() as int),
{
    let mut out: Vec<(ViewStamp<'a, VoxelId>, usize)> = Vec::new();
    let mut k: usize = 0;
    while k < stamps.stamps.len()
        invariant
            k <= stamps.stamps@.len(),
            stamps.wf(),
            view.wf(),
            view.shape == stamps.shape,
            stamps.values_below(64),
            out@ == distribution_upto(*view, stamps.stamps@, k as int),
            out@.len() == fits_count(*view, stamps.stamps@, k as int),
        decreases stamps.stamps@.len() - k,
    {
        let entry = &stamps.stamps[k];
        proof {
            assert(stamps.stamps@[k as int].0.wf());
        }
        if view.allows(&entry.0) {
            out.push((entry.0.clone(), entry.1));
            proof {
                assert(out@ =~= distribution_upto(*view, stamps.stamps@, k as int + 1));
            }
        }
        k = k + 1;
    }
    out
}

/// The pseudo-entropy classification of one wave window.
#[derive(Clone, Copy, Debug)]
pub enum PseudoEntropy {
    /// No stamp fits.
    Impossible,
    /// Exactly one stamp fits: nothing left to choose.
    Collapsed,
    /// More than one stamp fits; carries the numerator of the
    /// pseudo-entropy over the fitting stamps.
    Open(u64),
}

/// Classifies one wave window: impossible, collapsed, or open with its
/// pseudo-entropy numerator over the fitting stamps.
pub fn get_superposition_pseudo_entropy<'a, const C: u8>(
    view: &ViewStamp<'_, Superposition<C>>,
    stamps: &StampCollection<'a>,
    total: usize,
) -> (r: PseudoEntropy)
    requires
        view.wf(),
        stamps.wf(),
        view.shape == stamps.shape,
        stamps.values_below(64),
        total == stamps.total_spec(),
        1 <= total <= 0x40000000,
    ensures
        match r {
            PseudoEntropy::Impossible => fits_count(
                *view,
                stamps.stamps@,
                stamps.stamps@.len() as int,
            ) == 0,
            PseudoEntropy::Collapsed => fits_count(
                *view,
                stamps.stamps@,
                stamps.stamps@.len() as int,
            ) == 1,
            PseudoEntropy::Open(h) => fits_count(
                *view,
                stamps.stamps@,
                stamps.stamps@.len() as int,
            ) >= 2 && h == open_entropy_upto(
                *view,
                stamps.stamps@,
                total as int,
                stamps.stamps@.len() as int,
            ),
        },
{
    let log_total = log2(total);
    let mut count: usize = 0;
    let mut acc: u64 = 0;
    let mut k: usize = 0;
    proof {
        assert forall|j: int| 0 <= j < stamps.stamps@.len() implies 1 <= (
        #[trigger] stamps.stamps@[j]).1 <= total by {
            stamps.lemma_count_le_total(j);
            lemma_counts_total_eq(*stamps, stamps.stamps@.len() as int);
        }
    }
    while k < stamps.stamps.len()
        invariant
            k <= stamps.stamps@.len(),
            stamps.wf(),
            view.wf(),
            view.shape == stamps.shape,
            stamps.values_below(64),
            1 <= total <= 0x40000000,
            total == stamps.total_spec(),
            log_total == spec_log2(total as int),
            forall|j: int| 0 <= j < stamps.stamps@.len() ==> 1 <= (#[trigger] stamps.stamps@[j]).1
                <= total,
            count == fits_count(*view, stamps.stamps@, k as int),
            acc == open_entropy_upto(*view, stamps.stamps@, total as int, k as int),
        decreases stamps.stamps@.len() - k,
    {
        proof {
            lemma_fits_count_monotone(*view, stamps.stamps@, k as int, stamps.stamps@.len() as int);
            lemma_fits_count_monotone(*view, stamps.stamps@, 0, k as int);
            lemma_open_entropy_bounds(*view, stamps.stamps@, total as int, k as int);
            lemma_open_entropy_bounds(*view, stamps.stamps@, total as int, (k + 1) as int);
            lemma_counts_total_monotone(stamps.stamps@, (k + 1) as int, stamps.stamps@.len() as int);
            lemma_counts_total_eq(*stamps, stamps.stamps@.len() as int);
            assert(stamps.stamps@[k as int].0.wf());
            lemma_log2_monotone(stamps.stamps@[k as int].1 as int, total as int);
            lemma_log2_nonneg(stamps.stamps@[k as int].1 as int);
        }
        let entry = &stamps.stamps[k];
        if view.allows(&entry.0) {
            count = count + 1;
            let w = entry.1;
            let lw = log2(w);
            acc = acc + (w as u64) * ((log_total - lw) as u64);
        }
        k = k + 1;
    }
    if count == 0 {
        PseudoEntropy::Impossible
    } else if count == 1 {
        PseudoEntropy::Collapsed
    } else {
        PseudoEntropy::Open(acc)
    }
}


/// The window of the wave anchored at `o`.
pub open spec fn site_view<'b, const C: u8>(
    wave: &'b FlatPaddedGridCuboid<Superposition<C>>,
    shape: Shape,
    o: WorldIndex,
) -> ViewStamp<'b, Superposition<C>> {
    ViewStamp { space: wave, offset: o, shape }
}

/// Whether the window at `o` is open: more than one stamp fits.
pub open spec fn site_open<'b, const C: u8>(
    wave: &'b FlatPaddedGridCuboid<Superposition<C>>,
    stamps: Seq<(ViewStamp<VoxelId>, usize)>,
    shape: Shape,
    o: WorldIndex,
) -> bool {
    fits_count(site_view(wave, shape, o), stamps, stamps.len() as int) >= 2
}

/// The pseudo-entropy numerator of the window at `o`.
pub open spec fn site_entropy<'b, const C: u8>(
    wave: &'b FlatPaddedGridCuboid<Superposition<C>>,
    stamps: Seq<(ViewStamp<VoxelId>, usize)>,
    shape: Shape,
    total: int,
    o: WorldIndex,
) -> int {
    open_entropy_upto(site_view(wave, shape, o), stamps, total, stamps.len() as int)
}

/// Finds the stamp offset whose window has the lowest pseudo-entropy
/// among the open windows, in the wave's stamps-extent; ties go to the
/// first offset in row-major order.  Returns nothing when no window is
/// open.
pub fn find_lowest_pseudo_entropy<'a, 'b, const C: u8>(
    wave: &'b FlatPaddedGridCuboid<Superposition<C>>,
    stamps: &StampCollection<'a>,
    total: usize,
) -> (r: Option<WorldIndex>)
    requires
        wave.inv(),
        stamps.wf(),
        stamps.values_below(64),
        stamps.shape.x >= 1,
        stamps.shape.y >= 1,
        stamps.shape.z >= 1,
        total == stamps.total_spec(),
        1 <= total <= 0x40000000,
    ensures
        ({
            let se = wave.get_extent_spec().get_stamps_extent_spec(stamps.shape);
            match r {
                Option::None => forall|n: int|
                    0 <= n < se.volume() ==> !site_open(
                        wave,
                        stamps.stamps@,
                        stamps.shape,
                        #[trigger] se.index_at(n),
                    ),
                Option::Some(i) => exists|n: int|
                    0 <= n < se.volume() && #[trigger] se.index_at(n) == i && site_open(
                        wave,
                        stamps.stamps@,
                        stamps.shape,
                        i,
                    ) && (forall|m: int|
                        0 <= m < se.volume() && site_open(
                            wave,
                            stamps.stamps@,
                            stamps.shape,
                            #[trigger] se.index_at(m),
                        ) ==> site_entropy(wave, stamps.stamps@, stamps.shape, total as int, i)
                            <= site_entropy(
                            wave,
                            stamps.stamps@,
                            stamps.shape,
                            total as int,
                            se.index_at(m),
                        )) && (forall|m: int|
                        0 <= m < n && site_open(
                            wave,
                            stamps.stamps@,
                            stamps.shape,
                            #[trigger] se.index_at(m),
                        ) ==> site_entropy(
                            wave,
                            stamps.stamps@,
                            stamps.shape,
                            total as int,
                            se.index_at(m),
                        ) > site_entropy(wave, stamps.stamps@, stamps.shape, total as int, i)),
            }
        }),
{
    let se = wave.get_stamps_extent(stamps.shape);
    let offs = se.iter_indices();
    let mut best: Option<WorldIndex> = None;
    let mut best_h: u64 = 0;
    let ghost mut best_rank: int = 0;
    let mut n: usize = 0;
    while n < offs.len()
        invariant
            n <= offs@.len(),
            wave.inv(),
            stamps.wf(),
            stamps.values_below(64),
            stamps.shape.x >= 1,
            stamps.shape.y >= 1,
            stamps.shape.z >= 1,
            total == stamps.total_spec(),
            1 <= total <= 0x40000000,
            se == wave.get_extent_spec().get_stamps_extent_spec(stamps.shape),
            se.iterable(),
            offs@.len() == se.volume(),
            forall|m: int| 0 <= m < offs@.len() ==> offs@[m] == se.index_at(m),
            match best {
                Option::None => forall|m: int|
                    0 <= m < n ==> !site_open(
                        wave,
                        stamps.stamps@,
                        stamps.shape,
                        #[trigger] se.index_at(m),
                    ),
                Option::Some(i) => 0 <= best_rank < n && se.index_at(best_rank) == i && site_open(
                    wave,
                    stamps.stamps@,
                    stamps.shape,
                    i,
                ) && best_h == site_entropy(wave, stamps.stamps@, stamps.shape, total as int, i) && (
                forall|m: int|
                    0 <= m < n && site_open(
                        wave,
                        stamps.stamps@,
                        stamps.shape,
                        #[trigger] se.index_at(m),
                    ) ==> site_entropy(
                        wave,
                        stamps.stamps@,
                        stamps.shape,
                        total as int,
                        se.index_at(m),
                    ) >= best_h) && (forall|m: int|
                    0 <= m < best_rank && site_open(
                        wave,
                        stamps.stamps@,
                        stamps.shape,
                        #[trigger] se.index_at(m),
                    ) ==> site_entropy(
                        wave,
                        stamps.stamps@,
                        stamps.shape,
                        total as int,
                        se.index_at(m),
                    ) > best_h),
            },
        decreases offs@.len() - n,
    {
        let o = offs[n];
        proof {
            se.lemma_index_at_contains(n as int);
        }
        let view = ViewStamp::new(wave, o, stamps.shape);
        proof {
            assert(view == site_view(wave, stamps.shape, o));
        }
        let class = get_superposition_pseudo_entropy(&view, stamps, total);
        match class {
            PseudoEntropy::Open(h) => {
                let replace = match best {
                    Option::None => true,
                    Option::Some(_) => h < best_h,
                };
                if replace {
                    best = Some(o);
                    best_h = h;
                    proof {
                        best_rank = n as int;
                    }
                }
            },
            _ => {},
        }
        n = n + 1;
    }
    best
}

/// Among the stamps that fit the window, picks the one with the
/// largest occurrence count; ties go to the first in collection order.
/// Returns nothing only when no stamp fits.
pub fn find_preferred_stamp<'a, const C: u8>(
    view: &ViewStamp<'_, Superposition<C>>,
    stamps: &StampCollection<'a>,
) -> (r: Option<ViewStamp<'a, VoxelId>>)
    requires
        view.wf(),
        stamps.wf(),
        view.shape == stamps.shape,
        stamps.values_below(64),
    ensures
        match r {
            Option::None => fits_count(*view, stamps.stamps@, stamps.stamps@.len() as int) == 0,
            Option::Some(s) => exists|k: int|
                0 <= k < stamps.stamps@.len() && view.allows_stamp(#[trigger] stamps.stamps@[k].0)
                    && s == stamps.stamps@[k].0 && (forall|l: int|
                    0 <= l < stamps.stamps@.len() && view.allows_stamp(
                        #[trigger] stamps.stamps@[l].0,
                    ) ==> stamps.stamps@[l].1 <= stamps.stamps@[k].1) && (forall|l: int|
                    0 <= l < k && view.allows_stamp(#[trigger] stamps.stamps@[l].0)
                        ==> stamps.stamps@[l].1 < stamps.stamps@[k].1),
        },
{
    let mut best: Option<usize> = None;
    let mut k: usize = 0;
    while k < stamps.stamps.len()
        invariant
            k <= stamps.stamps@.len(),
            stamps.wf(),
            view.wf(),
            view.shape == stamps.shape,
            stamps.values_below(64),
            match best {
                Option::None => forall|l: int|
                    0 <= l < k ==> !view.allows_stamp(#[trigger] stamps.stamps@[l].0),
                Option::Some(j) => 0 <= j < k && view.allows_stamp(stamps.stamps@[j as int].0) && (
                forall|l: int|
                    0 <= l < k && view.allows_stamp(#[trigger] stamps.stamps@[l].0)
                        ==> stamps.stamps@[l].1 <= stamps.stamps@[j as int].1) && (forall|l: int|
                    0 <= l < j && view.allows_stamp(#[trigger] stamps.stamps@[l].0)
                        ==> stamps.stamps@[l].1 < stamps.stamps@[j as int].1),
            },
        decreases stamps.stamps@.len() - k,
    {
        let entry = &stamps.stamps[k];
        proof {
            assert(stamps.stamps@[k as int].0.wf());
        }
        if view.allows(&entry.0) {
            let replace = match best {
                Option::None => true,
                Option::Some(j) => stamps.stamps[j].1 < entry.1,
            };
            if replace {
                best = Some(k);
            }
        }
        k = k + 1;
    }
    match best {
        Option::None => {
            proof {
                crate::stamp::lemma_fits_count_none(
                    *view,
                    stamps.stamps@,
                    stamps.stamps@.len() as int,
                );
            }
            None
        },
        Option::Some(j) => Some(stamps.stamps[j].0.clone()),
    }
}

/// Prefix sums of nonnegative weights are monotone.
pub proof fn lemma_sum_upto_monotone(ws: Seq<usize>, a: int, b: int)
    requires
        0 <= a <= b <= ws.len(),
    ensures
        sum_upto(ws, a) <= sum_upto(ws, b),
    decreases b - a,
{
    if a < b {
        lemma_sum_upto_monotone(ws, a, b - 1);
    }
}

} // verus!
