//! The outer collapse driver: repeatedly pick the open window with
//! the lowest pseudo-entropy, force the most probable fitting stamp
//! there, and propagate, until no open window remains.

use vstd::prelude::*;

use crate::entropy::{find_lowest_pseudo_entropy, find_preferred_stamp, site_view};
use crate::indices::WorldIndex;
use crate::shape::Shape;
use crate::stamp::{fits_count, gather_stamps, StampCollection, ViewStamp, Wrapping};
use crate::superposition::Superposition;
use crate::wave::{
    allowed_sum, cells_wf, grid_restricts, lemma_allowed_sum_bound, lemma_grid_restricts_trans,
    lemma_open_site_write_changes, lemma_value_fits_two, lemma_view_fits_agree,
    value_fits_count, value_window_allows, wave_stamps_ok, window_admits, Naive,
};
use crate::stamp::window_samples;
use crate::world::FlatPaddedGridCuboid;
use crate::VoxelId;

verus! {

/// Runs the collapse driver to completion: after adopting the seed and
/// propagating its constraints, repeatedly collapses the open window
/// of lowest pseudo-entropy to its most probable stamp.  On return no
/// window admits more than one stamp — every cell region is either
/// resolved or contradictory — and the grid is a restriction of the
/// seed.  Terminates because every forced stamp at an open window
/// strictly decreases the total number of allowed ids.
pub fn collapse_wave<'a, const C: u8>(
    seed: FlatPaddedGridCuboid<Superposition<C>>,
    stamps: &StampCollection<'a>,
) -> (r: FlatPaddedGridCuboid<Superposition<C>>)
    requires
        Superposition::<C>::dims_ok(),
        seed.inv(),
        cells_wf(seed.data@),
        wave_stamps_ok::<C>(*stamps),
        stamps.total_spec() <= 0x40000000,
    ensures
        r.inv(),
        r.offset == seed.offset,
        r.shape == seed.shape,
        cells_wf(r.data@),
        grid_restricts(r.data@, seed.data@),
        forall|o: WorldIndex|
            r.get_extent_spec().stamp_fits(stamps.shape, o) ==> value_fits_count(
                r,
                o,
                stamps.shape,
                stamps.stamps@,
                stamps.stamps@.len() as int,
            ) <= 1,
{
    let ghost seed_data = seed.data@;
    let mut wave = Naive::<C>::new(seed, stamps);
    if stamps.len() == 0 {
        proof {
            assert forall|o: WorldIndex|
                wave.world.get_extent_spec().stamp_fits(stamps.shape, o) implies value_fits_count(
                wave.world,
                o,
                stamps.shape,
                stamps.stamps@,
                stamps.stamps@.len() as int,
            ) <= 1 by {
            }
        }
        return wave.into_space();
    }
    let total = stamps.get_total_occurrences();
    proof {
        stamps.lemma_count_le_total(0);
    }
    loop
        invariant_except_break
            wave.inv(),
            wave_stamps_ok::<C>(*stamps),
            total == stamps.total_spec(),
            1 <= total <= 0x40000000,
            wave.world.offset == seed.offset,
            wave.world.shape == seed.shape,
            grid_restricts(wave.world.data@, seed_data),
        ensures
            wave.inv(),
            wave.world.offset == seed.offset,
            wave.world.shape == seed.shape,
            grid_restricts(wave.world.data@, seed_data),
            forall|o: WorldIndex|
                wave.world.get_extent_spec().stamp_fits(stamps.shape, o) ==> value_fits_count(
                    wave.world,
                    o,
                    stamps.shape,
                    stamps.stamps@,
                    stamps.stamps@.len() as int,
                ) <= 1,
        decreases allowed_sum(wave.world.data@, wave.world.data@.len() as int),
    {
        proof {
            lemma_allowed_sum_bound::<C>(wave.world.data@, wave.world.data@.len() as int);
        }
        let ghost at_entry = wave;
        let site_opt = find_lowest_pseudo_entropy(&wave.world, stamps, total);
        match site_opt {
            Option::None => {
                proof {
                    let se = wave.world.get_extent_spec().get_stamps_extent_spec(stamps.shape);
                    assert forall|o: WorldIndex|
                        wave.world.get_extent_spec().stamp_fits(stamps.shape, o) implies
                        value_fits_count(
                        wave.world,
                        o,
                        stamps.shape,
                        stamps.stamps@,
                        stamps.stamps@.len() as int,
                    ) <= 1 by {
                        wave.world.get_extent_spec().lemma_stamps_extent_contains(stamps.shape, o);
                        assert(se.contains_spec(o));
                        assert(se.iterable()) by {
                            wave.lemma_se_iterable(stamps.shape);
                        }
                        se.lemma_contains_has_rank(o);
                        let n = se.rank_of(o);
                        assert(!crate::entropy::site_open(
                            &wave.world,
                            stamps.stamps@,
                            stamps.shape,
                            se.index_at(n),
                        ));
                        let view = site_view(&wave.world, stamps.shape, o);
                        lemma_view_fits_agree(view, stamps.stamps@, stamps.stamps@.len() as int);
                    }
                }
                break;
            },
            Option::Some(site) => {
                proof {
                    let se = wave.world.get_extent_spec().get_stamps_extent_spec(stamps.shape);
                    assert(se.iterable()) by {
                        wave.lemma_se_iterable(stamps.shape);
                    }
                    let n = choose|n: int|
                        0 <= n < se.volume() && #[trigger] se.index_at(n) == site
                            && crate::entropy::site_open(
                            &wave.world,
                            stamps.stamps@,
                            stamps.shape,
                            site,
                        );
                    se.lemma_index_at_contains(n);
                    assert(se.contains_spec(site));
                    wave.world.get_extent_spec().lemma_stamps_extent_contains(stamps.shape, site);
                    assert(crate::world::coord_in_range(site));
                }
                let view = ViewStamp::new(&wave.world, site, stamps.shape);
                let pref = find_preferred_stamp(&view, stamps);
                match pref {
                    Option::Some(st) => {
                        proof {
                            let k0 = choose|k: int|
                                0 <= k < stamps.stamps@.len() && view.allows_stamp(
                                    #[trigger] stamps.stamps@[k].0,
                                ) && st == stamps.stamps@[k].0;
                            assert(st.wf() && st.shape == stamps.shape && st.values_below(
                                C as int,
                            ));
                            assert(view == site_view(&wave.world, stamps.shape, site));
                            lemma_open_site_write_changes(
                                wave.world,
                                *stamps,
                                view,
                                site,
                                st,
                                k0,
                            );
                        }
                        let res = wave.limit_stamp(site, &st, stamps);
                        proof {
                            assert(res is Ok);
                            lemma_grid_restricts_trans(
                                wave.world.data@,
                                at_entry.world.data@,
                                seed_data,
                            );
                            lemma_allowed_sum_bound::<C>(
                                wave.world.data@,
                                wave.world.data@.len() as int,
                            );
                            assert(allowed_sum(wave.world.data@, wave.world.data@.len() as int)
                                < allowed_sum(
                                at_entry.world.data@,
                                at_entry.world.data@.len() as int,
                            ));
                        }
                    },
                    Option::None => {
                        proof {
                            assert(fits_count(
                                view,
                                stamps.stamps@,
                                stamps.stamps@.len() as int,
                            ) >= 2);
                            assert(false);
                        }
                        break;
                    },
                }
            },
        }
    }
    wave.into_space()
}

/// Synthesizes a voxel field by example: extracts all stamps of the
/// given dimensions from the template and collapses the seed wave
/// against them.  A cell of the result with exactly one allowed id is
/// resolved to that id; one with several allowed ids is
/// under-constrained; an impossible cell marks a local contradiction.
/// On return, at most one of the template's window contents fits at
/// any window of the result: every region is resolved up to that
/// single pattern, or contradictory.
pub fn execute<const C: u8>(
    template: &FlatPaddedGridCuboid<VoxelId>,
    wrapping: Wrapping,
    seed: FlatPaddedGridCuboid<Superposition<C>>,
    stamp_shape: Shape,
) -> (r: FlatPaddedGridCuboid<Superposition<C>>)
    requires
        Superposition::<C>::dims_ok(),
        template.inv(),
        seed.inv(),
        cells_wf(seed.data@),
        stamp_shape.wf(),
        stamp_shape.x >= 1,
        stamp_shape.y >= 1,
        stamp_shape.z >= 1,
        forall|i: WorldIndex|
            template.contains_spec(i) ==> (#[trigger] template.spec_get(i)) < C,
    ensures
        r.inv(),
        r.offset == seed.offset,
        r.shape == seed.shape,
        cells_wf(r.data@),
        grid_restricts(r.data@, seed.data@),
        forall|o: WorldIndex, m1: int, m2: int|
            r.get_extent_spec().stamp_fits(stamp_shape, o) && 0 <= m1 < template.get_extent_spec(
            ).get_stamps_extent_spec(stamp_shape).volume() && 0 <= m2
                < template.get_extent_spec().get_stamps_extent_spec(stamp_shape).volume()
                && #[trigger] window_admits(
                r,
                o,
                stamp_shape,
                window_samples(
                    *template,
                    template.get_extent_spec().get_stamps_extent_spec(stamp_shape).index_at(m1),
                    stamp_shape,
                ),
            ) && #[trigger] window_admits(
                r,
                o,
                stamp_shape,
                window_samples(
                    *template,
                    template.get_extent_spec().get_stamps_extent_spec(stamp_shape).index_at(m2),
                    stamp_shape,
                ),
            ) ==> window_samples(
                *template,
                template.get_extent_spec().get_stamps_extent_spec(stamp_shape).index_at(m1),
                stamp_shape,
            ) == window_samples(
                *template,
                template.get_extent_spec().get_stamps_extent_spec(stamp_shape).index_at(m2),
                stamp_shape,
            ),
{
    let stamps = gather_stamps(template, wrapping, stamp_shape);
    proof {
        crate::stamp::lemma_stamps_values_below(stamps, *template, C as int);
        let se = template.get_extent_spec().get_stamps_extent_spec(stamp_shape);
        assert(stamps.total_spec() == se.volume());
        assert(0 <= se.volume() <= 0x40000000) by {
            lemma_se_shape_bound(*template, stamp_shape);
            se.shape_spec().lemma_size_bound();
        }
    }
    let r = collapse_wave(seed, &stamps);
    proof {
        let se = template.get_extent_spec().get_stamps_extent_spec(stamp_shape);
        let len = stamps.stamps@.len() as int;
        assert forall|o: WorldIndex, m1: int, m2: int|
            r.get_extent_spec().stamp_fits(stamp_shape, o) && 0 <= m1 < se.volume() && 0 <= m2
                < se.volume() && #[trigger] window_admits(
                r,
                o,
                stamp_shape,
                window_samples(*template, se.index_at(m1), stamp_shape),
            ) && #[trigger] window_admits(
                r,
                o,
                stamp_shape,
                window_samples(*template, se.index_at(m2), stamp_shape),
            ) implies window_samples(*template, se.index_at(m1), stamp_shape) == window_samples(
            *template,
            se.index_at(m2),
            stamp_shape,
        ) by {
            lemma_admitted_content_fits(r, o, stamp_shape, stamps, *template, se.index_at(m1));
            lemma_admitted_content_fits(r, o, stamp_shape, stamps, *template, se.index_at(m2));
            let k1 = choose|k: int|
                0 <= k < len && (#[trigger] stamps.stamps@[k].0).samples_spec() == window_samples(
                    *template,
                    se.index_at(m1),
                    stamp_shape,
                ) && value_window_allows(r, o, stamp_shape, stamps.stamps@[k].0);
            let k2 = choose|k: int|
                0 <= k < len && (#[trigger] stamps.stamps@[k].0).samples_spec() == window_samples(
                    *template,
                    se.index_at(m2),
                    stamp_shape,
                ) && value_window_allows(r, o, stamp_shape, stamps.stamps@[k].0);
            if k1 != k2 {
                if k1 < k2 {
                    lemma_value_fits_two(r, o, stamp_shape, stamps.stamps@, k1, k2, len);
                } else {
                    lemma_value_fits_two(r, o, stamp_shape, stamps.stamps@, k2, k1, len);
                }
            }
        }
    }
    r
}

/// A window content of the template that some result window admits is
/// held by a collection stamp that fits there.
proof fn lemma_admitted_content_fits<const C: u8>(
    r: FlatPaddedGridCuboid<Superposition<C>>,
    o: WorldIndex,
    stamp_shape: Shape,
    stamps: StampCollection<'_>,
    template: FlatPaddedGridCuboid<VoxelId>,
    src_offset: WorldIndex,
)
    requires
        stamps.wf(),
        stamps.shape == stamp_shape,
        crate::stamp::window_has_match(
            stamps.stamps@,
            template,
            src_offset,
            stamp_shape,
        ),
        window_admits(r, o, stamp_shape, window_samples(template, src_offset, stamp_shape)),
    ensures
        exists|k: int|
            0 <= k < stamps.stamps@.len() && (#[trigger] stamps.stamps@[k].0).samples_spec()
                == window_samples(template, src_offset, stamp_shape) && value_window_allows(
                r,
                o,
                stamp_shape,
                stamps.stamps@[k].0,
            ),
{
    let content = window_samples(template, src_offset, stamp_shape);
    let k = choose|k: int|
        0 <= k < stamps.stamps@.len() && (#[trigger] stamps.stamps@[k].0).samples_spec()
            == content;
    assert(value_window_allows(r, o, stamp_shape, stamps.stamps@[k].0)) by {
        assert forall|n: int| 0 <= n < stamp_shape.size_spec() implies (#[trigger] r.spec_get(
            crate::world::spec_window_index(o, stamp_shape, n),
        )).allows_spec(stamps.stamps@[k].0.sample_spec(n) as int) by {
            assert(stamps.stamps@[k].0.samples_spec()[n] == content[n]);
            assert(r.spec_get(crate::world::spec_window_index(o, stamp_shape, n)).allows_spec(
                content[n] as int,
            ));
        }
    }
}

/// The stamps-extent of a well-formed template has supported
/// dimensions.
proof fn lemma_se_shape_bound(template: FlatPaddedGridCuboid<VoxelId>, stamp_shape: Shape)
    requires
        template.inv(),
        stamp_shape.wf(),
        stamp_shape.x >= 1,
        stamp_shape.y >= 1,
        stamp_shape.z >= 1,
    ensures
        template.get_extent_spec().get_stamps_extent_spec(stamp_shape).shape_spec().wf(),
{
}

} // verus!
