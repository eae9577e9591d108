//! Territory: allegiance-change events over diamond neighbourhoods and the
//! timed grabbers that emit them.
use vstd::prelude::*;

use crate::coords::Coords;
use crate::grid::{coords_in, cycled, lemma_coords_index, lemma_index_coords, manhattan, Grid, Tile, TileType};
use crate::ring::diamond_ring_of;

verus! {

/// Frames by which each ring's flip animation starts after the previous ring's.
pub const FLIP_STAGGER: u64 = 10;

/// Interval between two firings of a territory grabber, in nanoseconds.
pub const GRAB_INTERVAL_NANOS: u64 = 10_000_000_000;

/// Time a new territory grabber counts as already elapsed, so that it fires
/// almost at once.
pub const GRAB_HEAD_START_NANOS: u64 = 9_900_000_000;

/// A request to cycle the allegiance of every cell within `range` steps of
/// `center_coords`.
#[derive(Clone, Copy, Debug, PartialEq, Eq, Structural)]
pub struct ChangeAllegianceEvent {
    pub center_coords: Coords,
    pub range: u32,
}

/// A cell whose allegiance flipped, with the frame at which its flip
/// animation starts.
#[derive(Clone, Copy, Debug, PartialEq, Eq, Structural)]
pub struct TerritoryFlip {
    pub coords: Coords,
    pub start_frame: u64,
}

/// Whether `ev` reaches cell `c`.
pub open spec fn covers(ev: ChangeAllegianceEvent, c: Coords) -> bool {
    manhattan(c, ev.center_coords) <= ev.range
}

/// The flips of rings `0..=r` around `c` on a board of `w` by `h` cells,
/// ring by ring, each ring in its walk order.
pub open spec fn flips_upto(w: int, h: int, c: Coords, r: int) -> Seq<TerritoryFlip>
    decreases r + 1,
{
    if r < 0 {
        Seq::empty()
    } else {
        flips_upto(w, h, c, r - 1) + diamond_ring_of(w, h, c, r).map_values(
            |m: Coords| TerritoryFlip { coords: m, start_frame: (FLIP_STAGGER * r) as u64 },
        )
    }
}

/// Allegiance of a cell at `c` that started as `t`, after the events `evs`
/// in order.
pub open spec fn allegiance_after(t: TileType, c: Coords, evs: Seq<ChangeAllegianceEvent>) -> TileType
    decreases evs.len(),
{
    if evs.len() == 0 {
        t
    } else {
        let before = allegiance_after(t, c, evs.drop_last());
        if covers(evs.last(), c) {
            cycled(before)
        } else {
            before
        }
    }
}

/// The flips of the events `evs` on a board of `w` by `h` cells, event by event.
pub open spec fn flips_of_events(w: int, h: int, evs: Seq<ChangeAllegianceEvent>) -> Seq<TerritoryFlip>
    decreases evs.len(),
{
    if evs.len() == 0 {
        Seq::empty()
    } else {
        flips_of_events(w, h, evs.drop_last()) + flips_upto(
            w,
            h,
            evs.last().center_coords,
            evs.last().range as int,
        )
    }
}

impl Grid {
    /// Cycles the allegiance of the cell at `c`.
    fn cycle_at(&mut self, c: Coords)
        requires
            old(self).wf(),
            old(self).contains(c),
        ensures
            final(self).wf(),
            final(self).width == old(self).width,
            final(self).height == old(self).height,
            final(self).tiles@ == old(self).tiles@.update(
                old(self).index(c),
                Tile { tile_type: cycled(old(self).tile_at(c).tile_type), ..old(self).tile_at(c) },
            ),
    {
        let i = self.index_of_coords(c);
        let mut t = self.tiles[i];
        t.tile_type = t.tile_type.cycle();
        self.tiles.set(i, t);
    }

    /// Processes one allegiance-change event: every on-board cell within
    /// `ev.range` steps of the centre cycles its allegiance once. Returns the
    /// flips, ring by ring from the centre outwards, where ring `r` starts
    /// its animation at frame `10 * r`.
    pub fn apply_allegiance_change(&mut self, ev: &ChangeAllegianceEvent) -> (flips: Vec<TerritoryFlip>)
        requires
            old(self).wf(),
        ensures
            final(self).wf(),
            final(self).width == old(self).width,
            final(self).height == old(self).height,
            final(self).tiles@.len() == old(self).tiles@.len(),
            forall|i: int|
                0 <= i < old(self).tiles@.len() ==> #[trigger] final(self).tiles@[i] == (Tile {
                    tile_type: if covers(*ev, old(self).tiles@[i].coords) {
                        cycled(old(self).tiles@[i].tile_type)
                    } else {
                        old(self).tiles@[i].tile_type
                    },
                    ..old(self).tiles@[i]
                }),
            flips@ == flips_upto(
                old(self).width as int,
                old(self).height as int,
                ev.center_coords,
                ev.range as int,
            ),
    {
        let ghost orig = self.tiles@;
        let ghost w = self.width as int;
        let ghost h = self.height as int;
        let center = ev.center_coords;
        let n = self.tiles.len();
        let mut flips: Vec<TerritoryFlip> = Vec::new();
        let mut r: u64 = 0;
        while r <= ev.range as u64
            invariant
                self.wf(),
                self.width == old(self).width,
                self.height == old(self).height,
                w == self.width,
                h == self.height,
                orig == old(self).tiles@,
                n == self.tiles@.len(),
                n == orig.len(),
                r <= ev.range as u64 + 1,
                flips@ == flips_upto(w, h, center, r - 1),
                forall|i: int|
                    0 <= i < n ==> #[trigger] self.tiles@[i] == (Tile {
                        tile_type: if manhattan(orig[i].coords, center) < r {
                            cycled(orig[i].tile_type)
                        } else {
                            orig[i].tile_type
                        },
                        ..orig[i]
                    }),
            decreases ev.range as u64 + 1 - r,
        {
            let ring = self.get_diamond_ring(center, r as usize);
            let start_frame: u64 = FLIP_STAGGER * r;
            let ghost flips_before = flips@;
            let mut k: usize = 0;
            while k < ring.len()
                invariant
                    self.wf(),
                    self.width == old(self).width,
                    self.height == old(self).height,
                    w == self.width,
                    h == self.height,
                    orig == old(self).tiles@,
                    n == self.tiles@.len(),
                    n == orig.len(),
                    r <= ev.range as u64,
                    start_frame == FLIP_STAGGER * r,
                    ring@ == diamond_ring_of(w, h, center, r as int),
                    ring@.no_duplicates(),
                    forall|m: Coords| #[trigger] ring@.contains(m) <==> (coords_in(w, h, m) && manhattan(m, center) == r),
                    k <= ring@.len(),
                    flips_before == flips_upto(w, h, center, r - 1),
                    flips@ == flips_before + ring@.subrange(0, k as int).map_values(
                        |m: Coords| TerritoryFlip { coords: m, start_frame: (FLIP_STAGGER * r) as u64 },
                    ),
                    forall|i: int|
                        0 <= i < n ==> #[trigger] self.tiles@[i] == (Tile {
                            tile_type: if manhattan(orig[i].coords, center) < r || ring@.subrange(
                                0,
                                k as int,
                            ).contains(orig[i].coords) {
                                cycled(orig[i].tile_type)
                            } else {
                                orig[i].tile_type
                            },
                            ..orig[i]
                        }),
                decreases ring@.len() - k,
            {
                let m = ring[k];
                proof {
                    assert(ring@.contains(m));
                    assert(!ring@.subrange(0, k as int).contains(m));
                    let pre = ring@.subrange(0, k as int);
                    let pre1 = ring@.subrange(0, k as int + 1);
                    assert forall|x: Coords| pre1.contains(x) <==> (pre.contains(x) || x == m) by {
                        if x == m {
                            assert(pre1[k as int] == m);
                        }
                        if pre.contains(x) {
                            let t = choose|t: int| 0 <= t < pre.len() && pre[t] == x;
                            assert(pre1[t] == x);
                        }
                        if pre1.contains(x) {
                            let t = choose|t: int| 0 <= t < pre1.len() && pre1[t] == x;
                            if t < k {
                                assert(pre[t] == x);
                            }
                        }
                    }
                }
                let ghost before = self.tiles@;
                let ghost j = self.index(m);
                proof {
                    lemma_index_coords(w, h, m);
                }
                self.cycle_at(m);
                flips.push(TerritoryFlip { coords: m, start_frame });
                proof {
                    assert(ring@.subrange(0, k as int + 1).map_values(
                        |m: Coords| TerritoryFlip { coords: m, start_frame: (FLIP_STAGGER * r) as u64 },
                    ) =~= ring@.subrange(0, k as int).map_values(
                        |m: Coords| TerritoryFlip { coords: m, start_frame: (FLIP_STAGGER * r) as u64 },
                    ).push(TerritoryFlip { coords: m, start_frame }));
                    assert forall|i: int|
                        0 <= i < n implies #[trigger] self.tiles@[i] == (Tile {
                            tile_type: if manhattan(orig[i].coords, center) < r || ring@.subrange(
                                0,
                                k as int + 1,
                            ).contains(orig[i].coords) {
                                cycled(orig[i].tile_type)
                            } else {
                                orig[i].tile_type
                            },
                            ..orig[i]
                        }) by {
                        assert(0 <= j < n);
                        assert(i != j ==> before[i] == self.tiles@[i]);
                        assert(before[i].coords == orig[i].coords);
                        if i == j {
                            assert(orig[i].coords == m);
                        } else {
                            lemma_coords_index(w, h, i);
                            assert(orig[i].coords != m);
                        }
                    }
                }
                k = k + 1;
            }
            proof {
                assert(ring@.subrange(0, ring@.len() as int) =~= ring@);
                assert(flips@ =~= flips_upto(w, h, center, r as int));
                assert forall|i: int| 0 <= i < n implies #[trigger] self.tiles@[i] == (Tile {
                    tile_type: if manhattan(orig[i].coords, center) < r + 1 {
                        cycled(orig[i].tile_type)
                    } else {
                        orig[i].tile_type
                    },
                    ..orig[i]
                }) by {
                    lemma_coords_index(w, h, i);
                    assert(ring@.contains(orig[i].coords) <==> manhattan(orig[i].coords, center) == r);
                }
            }
            r = r + 1;
        }
        flips
    }
}

/// Processes the events `evs` in order, as `Grid::apply_allegiance_change`
/// does each; returns all their flips, event by event.
pub fn change_allegiance(grid: &mut Grid, evs: &Vec<ChangeAllegianceEvent>) -> (flips: Vec<TerritoryFlip>)
    requires
        old(grid).wf(),
    ensures
        final(grid).wf(),
        final(grid).width == old(grid).width,
        final(grid).height == old(grid).height,
        final(grid).tiles@.len() == old(grid).tiles@.len(),
        forall|i: int|
            0 <= i < old(grid).tiles@.len() ==> #[trigger] final(grid).tiles@[i] == (Tile {
                tile_type: allegiance_after(
                    old(grid).tiles@[i].tile_type,
                    old(grid).tiles@[i].coords,
                    evs@,
                ),
                ..old(grid).tiles@[i]
            }),
        flips@ == flips_of_events(old(grid).width as int, old(grid).height as int, evs@),
{
    let ghost orig = grid.tiles@;
    let ghost w = grid.width as int;
    let ghost h = grid.height as int;
    let mut flips: Vec<TerritoryFlip> = Vec::new();
    let mut k: usize = 0;
    while k < evs.len()
        invariant
            grid.wf(),
            grid.width == old(grid).width,
            grid.height == old(grid).height,
            w == grid.width,
            h == grid.height,
            orig == old(grid).tiles@,
            grid.tiles@.len() == orig.len(),
            k <= evs@.len(),
            forall|i: int|
                0 <= i < orig.len() ==> #[trigger] grid.tiles@[i] == (Tile {
                    tile_type: allegiance_after(orig[i].tile_type, orig[i].coords, evs@.subrange(0, k as int)),
                    ..orig[i]
                }),
            flips@ == flips_of_events(w, h, evs@.subrange(0, k as int)),
        decreases evs@.len() - k,
    {
        let ghost pre1 = evs@.subrange(0, k as int + 1);
        assert(pre1.drop_last() =~= evs@.subrange(0, k as int));
        assert(pre1.last() == evs@[k as int]);
        let more = grid.apply_allegiance_change(&evs[k]);
        flips.append(&mut more.clone());
        k = k + 1;
    }
    assert(evs@.subrange(0, evs@.len() as int) =~= evs@);
    flips
}

/// Three allegiance changes in a row that each reach a cell give it back
/// the allegiance it started with.
pub proof fn lemma_three_changes_restore(t: TileType, c: Coords, evs: Seq<ChangeAllegianceEvent>)
    requires
        evs.len() == 3,
        forall|k: int| 0 <= k < 3 ==> covers(#[trigger] evs[k], c),
    ensures
        allegiance_after(t, c, evs) == t,
{
    let e2 = evs.drop_last();
    let e1 = e2.drop_last();
    let e0 = e1.drop_last();
    assert(covers(evs[0], c) && covers(evs[1], c) && covers(evs[2], c));
    assert(e0.len() == 0);
    assert(e1.last() == evs[0]);
    assert(e2.last() == evs[1]);
    assert(allegiance_after(t, c, e0) == t);
    assert(allegiance_after(t, c, e1) == cycled(t));
    assert(allegiance_after(t, c, e2) == cycled(cycled(t)));
    assert(evs.last() == evs[2]);
}

/// The timer of a structure that periodically claims the territory around it.
pub struct TerritoryGrabber {
    /// Radius of the diamond each firing claims.
    pub range: u32,
    /// Time since the last firing, in nanoseconds.
    pub elapsed_nanos: u64,
}

impl TerritoryGrabber {
    /// A grabber of the given range, close enough to its first firing that
    /// it fires almost at once.
    pub fn new(range: u32) -> (r: TerritoryGrabber)
        ensures
            r.range == range,
            r.elapsed_nanos == GRAB_HEAD_START_NANOS,
    {
        TerritoryGrabber { range, elapsed_nanos: GRAB_HEAD_START_NANOS }
    }

    /// Advances the timer by `delta_nanos`; returns whether an interval
    /// completed. The time beyond whole intervals carries over.
    pub fn tick(&mut self, delta_nanos: u64) -> (fired: bool)
        ensures
            final(self).range == old(self).range,
            fired == (old(self).elapsed_nanos + delta_nanos >= GRAB_INTERVAL_NANOS),
            final(self).elapsed_nanos == (old(self).elapsed_nanos + delta_nanos) % (
            GRAB_INTERVAL_NANOS as int),
    {
        let total: u128 = self.elapsed_nanos as u128 + delta_nanos as u128;
        self.elapsed_nanos = (total % (GRAB_INTERVAL_NANOS as u128)) as u64;
        total >= GRAB_INTERVAL_NANOS as u128
    }
}

/// Advances `grabber`, standing on cell `coords`, by `delta_nanos`; when an
/// interval completes, returns the event that claims the diamond of its
/// range around `coords`.
pub fn grab_territory(grabber: &mut TerritoryGrabber, coords: Coords, delta_nanos: u64) -> (ev: Option<ChangeAllegianceEvent>)
    ensures
        final(grabber).range == old(grabber).range,
        final(grabber).elapsed_nanos == (old(grabber).elapsed_nanos + delta_nanos) % (
        GRAB_INTERVAL_NANOS as int),
        ev == (if old(grabber).elapsed_nanos + delta_nanos >= GRAB_INTERVAL_NANOS {
            Some(ChangeAllegianceEvent { center_coords: coords, range: old(grabber).range })
        } else {
            None
        }),
{
    if grabber.tick(delta_nanos) {
        Some(ChangeAllegianceEvent { center_coords: coords, range: grabber.range })
    } else {
        None
    }
}

} // verus!
