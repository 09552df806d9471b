//! Which region tiles to draw: the visible rectangle of tile space, the rectangle
//! whose tiles are kept, the render options, and the order in which visible regions
//! are drawn (the one nearest the centre of the view last, so that it is taken first
//! from the end of the list).

use vstd::prelude::*;
use vstd::view::View as ViewOf;
use std::ops::RangeInclusive;
use crate::region::Region;

verus! {

/// The lower bound of an inclusive range (`RangeInclusive::start`); what it is after the
/// range was iterated to exhaustion is not stated.
pub assume_specification<Idx>[ RangeInclusive::<Idx>::start ](r: &RangeInclusive<Idx>) -> (ret: &Idx)
    ensures
        !r@.exhausted ==> *ret == r@.start,
;

/// The upper bound of an inclusive range (`RangeInclusive::end`); what it is after the
/// range was iterated to exhaustion is not stated.
pub assume_specification<Idx>[ RangeInclusive::<Idx>::end ](r: &RangeInclusive<Idx>) -> (ret: &Idx)
    ensures
        !r@.exhausted ==> *ret == r@.end,
;

/// A position in tile space: region coordinates.
#[derive(PartialEq, Eq, Structural, Clone, Copy, Debug, Hash)]
pub struct TileSpacePos {
    pub x: i32,
    pub z: i32,
}

/// A rectangle of tile space, both bounds included on each axis.
#[derive(Clone, Copy, Debug)]
pub struct TileSpaceRectangle {
    x_start: i32,
    x_end: i32,
    z_start: i32,
    z_end: i32,
}

impl TileSpaceRectangle {
    /// The bounds: `(x_start, x_end, z_start, z_end)`.
    pub closed spec fn bounds(&self) -> (i32, i32, i32, i32) {
        (self.x_start, self.x_end, self.z_start, self.z_end)
    }

    /// Whether the rectangle holds `(x, z)`.
    pub open spec fn holds(&self, x: int, z: int) -> bool {
        &&& self.bounds().0 <= x <= self.bounds().1
        &&& self.bounds().2 <= z <= self.bounds().3
    }

    /// The rectangle of the given ranges (which must not have been iterated).
    pub fn new(x_range: RangeInclusive<i32>, z_range: RangeInclusive<i32>) -> (r: Self)
        requires
            !x_range@.exhausted,
            !z_range@.exhausted,
        ensures
            r.bounds() == (x_range@.start, x_range@.end, z_range@.start, z_range@.end),
    {
        TileSpaceRectangle {
            x_start: *x_range.start(),
            x_end: *x_range.end(),
            z_start: *z_range.start(),
            z_end: *z_range.end(),
        }
    }

    /// The rectangle with the given bounds.
    pub fn from_bounds(x_start: i32, x_end: i32, z_start: i32, z_end: i32) -> (r: Self)
        ensures
            r.bounds() == (x_start, x_end, z_start, z_end),
    {
        TileSpaceRectangle { x_start, x_end, z_start, z_end }
    }

    /// The rectangle `-1..=0` on both axes, of a view not yet known.
    pub fn empty() -> (r: Self)
        ensures
            r.bounds() == (-1i32, 0i32, -1i32, 0i32),
    {
        TileSpaceRectangle { x_start: -1, x_end: 0, z_start: -1, z_end: 0 }
    }

    /// Whether two rectangles have the same bounds.
    pub fn eq(&self, other: &TileSpaceRectangle) -> (r: bool)
        ensures
            r <==> self.bounds() == other.bounds(),
    {
        self.x_start == other.x_start && self.x_end == other.x_end && self.z_start == other.z_start
            && self.z_end == other.z_end
    }

    /// Whether the rectangle holds `pos`.
    pub fn contains(&self, pos: TileSpacePos) -> (r: bool)
        ensures
            r <==> self.holds(pos.x as int, pos.z as int),
    {
        self.x_start <= pos.x && pos.x <= self.x_end && self.z_start <= pos.z && pos.z <= self.z_end
    }

    /// The centre, each coordinate the mean of the bounds rounded towards zero.
    pub fn center(&self) -> (r: TileSpacePos)
        ensures
            r.x == center_coord(self.bounds().0 as int, self.bounds().1 as int),
            r.z == center_coord(self.bounds().2 as int, self.bounds().3 as int),
    {
        TileSpacePos { x: mid(self.x_start, self.x_end), z: mid(self.z_start, self.z_end) }
    }
}

/// The mean of two bounds, rounded towards zero.
pub open spec fn center_coord(a: int, b: int) -> int {
    let s = a + b;
    if s >= 0 { s / 2 } else { -((-s) / 2) }
}

/// The mean of two bounds, rounded towards zero.
fn mid(a: i32, b: i32) -> (r: i32)
    ensures
        r == center_coord(a as int, b as int),
{
    let s = a as i64 + b as i64;
    if s >= 0 {
        (s / 2) as i32
    } else {
        (-((-s) / 2)) as i32
    }
}

/// What the renderer shows: the visible tiles and the tiles worth keeping. A view is
/// marked as overflowing when views arrived faster than they were handled.
#[derive(Clone, Copy, Debug)]
pub struct View {
    visible: TileSpaceRectangle,
    keep: TileSpaceRectangle,
    overflow: bool,
}

impl View {
    /// The visible rectangle.
    pub closed spec fn spec_visible(&self) -> TileSpaceRectangle {
        self.visible
    }

    /// The rectangle of tiles worth keeping.
    pub closed spec fn spec_keep(&self) -> TileSpaceRectangle {
        self.keep
    }

    /// Whether views overflowed before this one.
    pub closed spec fn spec_overflow(&self) -> bool {
        self.overflow
    }

    /// A view of the given rectangles, not overflowing.
    pub fn new(visible: TileSpaceRectangle, keep: TileSpaceRectangle) -> (r: Self)
        ensures
            r.spec_visible() == visible,
            r.spec_keep() == keep,
            !r.spec_overflow(),
    {
        View { visible, keep, overflow: false }
    }

    /// Whether both rectangles of two views have the same bounds.
    pub fn eq(&self, other: &View) -> (r: bool)
        ensures
            r <==> (self.spec_visible().bounds() == other.spec_visible().bounds()
                && self.spec_keep().bounds() == other.spec_keep().bounds()),
    {
        self.visible.eq(&other.visible) && self.keep.eq(&other.keep)
    }

    /// Whether the tile at `(x, z)` is worth keeping.
    pub fn keep(&self, x: i32, z: i32) -> (r: bool)
        ensures
            r <==> self.spec_keep().holds(x as int, z as int),
    {
        self.keep.contains(TileSpacePos { x, z })
    }

    /// The view before any view is known.
    pub fn empty() -> (r: Self)
        ensures
            r.spec_visible().bounds() == (-1i32, 0i32, -1i32, 0i32),
            r.spec_keep().bounds() == (-1i32, 0i32, -1i32, 0i32),
            !r.spec_overflow(),
    {
        View { visible: TileSpaceRectangle::empty(), keep: TileSpaceRectangle::empty(), overflow: false }
    }

    /// The visible rectangle.
    pub fn visible(&self) -> (r: TileSpaceRectangle)
        ensures
            r == self.spec_visible(),
    {
        self.visible
    }

    /// Whether views overflowed before this one.
    pub fn overflow(&self) -> (r: bool)
        ensures
            r == self.spec_overflow(),
    {
        self.overflow
    }

    /// Marks the view as overflowing.
    pub fn set_overflow(&mut self)
        ensures
            final(self).spec_overflow(),
            final(self).spec_visible() == old(self).spec_visible(),
            final(self).spec_keep() == old(self).spec_keep(),
    {
        self.overflow = true;
    }
}

/// How regions are drawn: from the heightmaps, or cut at a height.
#[derive(Debug, Clone, Copy, Default, PartialEq, Eq, Structural)]
pub enum RenderMode {
    #[default]
    Normal,
    Slice(u16),
}

/// How regions are drawn.
#[derive(Debug, Clone, Copy, PartialEq, Eq, Structural)]
pub struct RenderOptions {
    pub mode: RenderMode,
    pub depth_darken: bool,
    pub with_block_map: bool,
}

impl Default for RenderOptions {
    /// Drawn from the heightmaps, darkened by depth, without block map.
    fn default() -> (r: Self)
        ensures
            r.mode == RenderMode::Normal,
            r.depth_darken,
            !r.with_block_map,
    {
        RenderOptions { mode: RenderMode::Normal, depth_darken: true, with_block_map: false }
    }
}

/// Why the renderer did not take a request.
#[derive(Debug, PartialEq, Eq, Structural)]
pub enum TileRendererError {
    /// The renderer has stopped.
    Dead,
    /// The renderer is busy.
    Busy,
}

/// The distance of a region from a position: the larger of the distances along the
/// two axes.
pub open spec fn spec_box_dist(r: &Region, target: TileSpacePos) -> int {
    let dx = if r.x >= target.x { r.x - target.x } else { target.x - r.x };
    let dz = if r.z >= target.z { r.z - target.z } else { target.z - r.z };
    if dx >= dz { dx } else { dz }
}

/// The distance of a region from a position along the farther axis.
pub fn box_dist(r: &Region, target: TileSpacePos) -> (d: u32)
    ensures
        d == spec_box_dist(r, target),
{
    let dx: i64 = if r.x >= target.x { r.x as i64 - target.x as i64 } else { target.x as i64 - r.x as i64 };
    let dz: i64 = if r.z >= target.z { r.z as i64 - target.z as i64 } else { target.z as i64 - r.z as i64 };
    if dx >= dz { dx as u32 } else { dz as u32 }
}

/// Region `a` is drawn before region `b`: it is farther from the target, or as far
/// and listed earlier.
pub open spec fn drawn_before(regions: Seq<Region>, target: TileSpacePos, a: int, b: int) -> bool {
    let da = spec_box_dist(&regions[a], target);
    let db = spec_box_dist(&regions[b], target);
    da > db || (da == db && a < b)
}

/// The regions inside the visible rectangle, as indices, ordered from the farthest
/// from the rectangle's centre to the nearest (regions equally far in their given
/// order). The nearest comes last.
pub fn visible_region_order(regions: &Vec<Region>, visible: &TileSpaceRectangle) -> (order: Vec<usize>)
    ensures
        order@.no_duplicates(),
        forall|k: int| 0 <= k < order@.len() ==> (#[trigger] order@[k]) < regions@.len()
            && visible.holds(regions@[order@[k] as int].x as int, regions@[order@[k] as int].z as int),
        forall|i: int| 0 <= i < regions@.len() && visible.holds(regions@[i].x as int, regions@[i].z as int)
            ==> order@.contains(i as usize),
        forall|a: int, b: int| 0 <= a < b < order@.len() ==> drawn_before(regions@, visible.center_spec(), order@[a] as int, order@[b] as int),
{
    let target = visible.center();
    let mut order: Vec<usize> = Vec::new();
    let mut dists: Vec<u32> = Vec::new();
    let mut i: usize = 0;
    while i < regions.len()
        invariant
            target == visible.center_spec(),
            i <= regions@.len(),
            dists@.len() == order@.len(),
            forall|k: int| 0 <= k < order@.len() ==> (#[trigger] order@[k]) < i
                && visible.holds(regions@[order@[k] as int].x as int, regions@[order@[k] as int].z as int)
                && dists@[k] == spec_box_dist(&regions@[order@[k] as int], target),
            forall|j: int| 0 <= j < i && visible.holds(regions@[j].x as int, regions@[j].z as int)
                ==> order@.contains(j as usize),
            forall|a: int, b: int| 0 <= a < b < order@.len() ==> drawn_before(regions@, target, order@[a] as int, order@[b] as int),
            order@.no_duplicates(),
        decreases regions@.len() - i,
    {
        let r = &regions[i];
        if visible.contains(TileSpacePos { x: r.x, z: r.z }) {
            let d = box_dist(r, target);
            let mut p: usize = 0;
            while p < order.len() && dists[p] >= d
                invariant
                    p <= order@.len(),
                    dists@.len() == order@.len(),
                    forall|k: int| 0 <= k < p ==> dists@[k] >= d,
                decreases order@.len() - p,
            {
                p = p + 1;
            }
            let ghost old_order = order@;
            let ghost old_dists = dists@;
            order.insert(p, i);
            dists.insert(p, d);
            proof {
                assert forall|k: int| 0 <= k < order@.len() implies (#[trigger] order@[k]) < i + 1
                    && visible.holds(regions@[order@[k] as int].x as int, regions@[order@[k] as int].z as int)
                    && dists@[k] == spec_box_dist(&regions@[order@[k] as int], target) by {
                    if k < p {
                        assert(order@[k] == old_order[k]);
                    } else if k > p {
                        assert(order@[k] == old_order[k - 1]);
                    }
                }
                assert forall|j: int| 0 <= j < i + 1 && visible.holds(regions@[j].x as int, regions@[j].z as int)
                    implies order@.contains(j as usize) by {
                    if j < i {
                        let k = choose|k: int| 0 <= k < old_order.len() && old_order[k] == j as usize;
                        if k < p {
                            assert(order@[k] == j as usize);
                        } else {
                            assert(order@[k + 1] == j as usize);
                        }
                    } else {
                        assert(order@[p as int] == j as usize);
                    }
                }
                assert forall|a: int, b: int| 0 <= a < b < order@.len() implies drawn_before(regions@, target, order@[a] as int, order@[b] as int) by {
                    if b < p {
                        assert(order@[a] == old_order[a] && order@[b] == old_order[b]);
                    } else if a > p {
                        assert(order@[a] == old_order[a - 1] && order@[b] == old_order[b - 1]);
                    } else if a < p && b > p {
                        assert(order@[a] == old_order[a] && order@[b] == old_order[b - 1]);
                    } else if a == p {
                        // b > p: the old element at b - 1 is nearer, or as near and earlier... it was not skipped
                        assert(order@[b] == old_order[b - 1]);
                        assert(old_dists[p as int] < d);
                        if b - 1 > p {
                            assert(drawn_before(regions@, target, old_order[p as int] as int, old_order[b - 1] as int));
                        }
                    } else {
                        // b == p, a < p: the old element at a was not nearer than the new one and is earlier
                        assert(order@[a] == old_order[a]);
                        assert(old_dists[a] >= d);
                    }
                }
                assert forall|x: int, y: int| 0 <= x < order@.len() && 0 <= y < order@.len() && x != y
                    implies order@[x] != order@[y] by {
                    if x != p && y != p {
                        let ox = if x < p { x } else { x - 1 };
                        let oy = if y < p { y } else { y - 1 };
                        assert(order@[x] == old_order[ox] && order@[y] == old_order[oy]);
                    } else if x == p {
                        let oy = if y < p { y } else { y - 1 };
                        assert(order@[y] == old_order[oy]);
                    } else {
                        let ox = if x < p { x } else { x - 1 };
                        assert(order@[x] == old_order[ox]);
                    }
                }
            }
        }
        i = i + 1;
    }
    order
}

impl TileSpaceRectangle {
    /// The centre of the rectangle.
    pub open spec fn center_spec(&self) -> TileSpacePos {
        TileSpacePos {
            x: center_coord(self.bounds().0 as int, self.bounds().1 as int) as i32,
            z: center_coord(self.bounds().2 as int, self.bounds().3 as int) as i32,
        }
    }
}

/// The decisions of the tile renderer: which regions to draw and in which order, and
/// which tiles it has already handed out for drawing.
pub struct TileScheduler {
    cached_tiles: Vec<TileSpacePos>,
    targets: Vec<Region>,
    view: View,
    opt: RenderOptions,
    filtered: Vec<usize>,
}

/// The tile position of a region.
pub open spec fn tile_of(r: Region) -> TileSpacePos {
    TileSpacePos { x: r.x, z: r.z }
}

impl TileScheduler {
    /// The tiles handed out since the cache was last cleared.
    pub closed spec fn cached(&self) -> Seq<TileSpacePos> {
        self.cached_tiles@
    }

    /// The regions to draw.
    pub closed spec fn spec_targets(&self) -> Seq<Region> {
        self.targets@
    }

    /// The current view.
    pub closed spec fn spec_view(&self) -> View {
        self.view
    }

    /// The current options.
    pub closed spec fn spec_opt(&self) -> RenderOptions {
        self.opt
    }

    /// The regions still to consider, as indices into the targets; the last is next.
    pub closed spec fn queue(&self) -> Seq<usize> {
        self.filtered@
    }

    /// No tile is cached twice and the queue refers to targets.
    pub closed spec fn wf(&self) -> bool {
        &&& self.cached_tiles@.no_duplicates()
        &&& forall|k: int| 0 <= k < self.filtered@.len() ==> (#[trigger] self.filtered@[k]) < self.targets@.len()
    }

    /// A scheduler with no regions, the empty view and the default options.
    pub fn new() -> (r: Self)
        ensures
            r.wf(),
            r.cached().len() == 0,
            r.spec_targets().len() == 0,
            r.queue().len() == 0,
            r.spec_view().spec_visible().bounds() == (-1i32, 0i32, -1i32, 0i32),
            r.spec_view().spec_keep().bounds() == (-1i32, 0i32, -1i32, 0i32),
            !r.spec_view().spec_overflow(),
            r.spec_opt().mode == RenderMode::Normal,
            r.spec_opt().depth_darken,
            !r.spec_opt().with_block_map,
    {
        TileScheduler {
            cached_tiles: Vec::new(),
            targets: Vec::new(),
            view: View::empty(),
            opt: RenderOptions::default(),
            filtered: Vec::new(),
        }
    }

    /// The current options.
    pub fn opt(&self) -> (r: RenderOptions)
        ensures
            r == self.spec_opt(),
    {
        self.opt
    }

    /// Target `i`.
    pub fn target(&self, i: usize) -> (r: &Region)
        requires
            i < self.spec_targets().len(),
        ensures
            *r == self.spec_targets()[i as int],
    {
        &self.targets[i]
    }

    /// Recomputes the queue: the targets inside the visible rectangle, the one nearest
    /// its centre last.
    fn update_filtered_regions(&mut self)
        requires
            old(self).cached_tiles@.no_duplicates(),
        ensures
            final(self).wf(),
            final(self).cached() == old(self).cached(),
            final(self).spec_targets() == old(self).spec_targets(),
            final(self).spec_view() == old(self).spec_view(),
            final(self).spec_opt() == old(self).spec_opt(),
            final(self).queue() == visible_order_spec(old(self).spec_targets(), old(self).spec_view().spec_visible()),
    {
        let vis = self.view.visible();
        let order = visible_region_order(&self.targets, &vis);
        proof {
            lemma_visible_order_unique(self.targets@, vis, order@);
        }
        self.filtered = order;
    }

    /// A new view: the cache is cleared if views overflowed, else it keeps the tiles worth
    /// keeping; the queue is recomputed for the new view.
    pub fn handle_view_update(&mut self, v: View)
        requires
            old(self).wf(),
        ensures
            final(self).wf(),
            final(self).spec_view() == v,
            final(self).spec_targets() == old(self).spec_targets(),
            final(self).spec_opt() == old(self).spec_opt(),
            v.spec_overflow() ==> final(self).cached().len() == 0,
            !v.spec_overflow() ==> forall|p: TileSpacePos| #[trigger] final(self).cached().contains(p)
                <==> old(self).cached().contains(p) && v.spec_keep().holds(p.x as int, p.z as int),
            final(self).queue() == visible_order_spec(old(self).spec_targets(), v.spec_visible()),
    {
        if v.overflow() {
            self.cached_tiles = Vec::new();
        } else {
            let mut kept: Vec<TileSpacePos> = Vec::new();
            let mut i: usize = 0;
            while i < self.cached_tiles.len()
                invariant
                    i <= self.cached_tiles@.len(),
                    self.cached_tiles@ == old(self).cached_tiles@,
                    self.cached_tiles@.no_duplicates(),
                    kept@.no_duplicates(),
                    forall|p: TileSpacePos| #[trigger] kept@.contains(p) <==> exists|j: int| 0 <= j < i
                        && self.cached_tiles@[j] == p && v.spec_keep().holds(p.x as int, p.z as int),
                    forall|a: int, j: int| 0 <= a < kept@.len() && i <= j < self.cached_tiles@.len() ==> kept@[a] != self.cached_tiles@[j],
                decreases self.cached_tiles@.len() - i,
            {
                let t = self.cached_tiles[i];
                if v.keep(t.x, t.z) {
                    let ghost before = kept@;
                    kept.push(t);
                    proof {
                        assert forall|p: TileSpacePos| #[trigger] kept@.contains(p) <==> exists|j: int| 0 <= j < i + 1
                            && self.cached_tiles@[j] == p && v.spec_keep().holds(p.x as int, p.z as int) by {
                            if kept@.contains(p) {
                                let a = choose|a: int| 0 <= a < kept@.len() && kept@[a] == p;
                                if a < before.len() {
                                    assert(before.contains(p));
                                }
                            }
                            if exists|j: int| 0 <= j < i + 1 && self.cached_tiles@[j] == p && v.spec_keep().holds(p.x as int, p.z as int) {
                                let j = choose|j: int| 0 <= j < i + 1 && self.cached_tiles@[j] == p && v.spec_keep().holds(p.x as int, p.z as int);
                                if j < i {
                                    assert(before.contains(p));
                                    let a = choose|a: int| 0 <= a < before.len() && before[a] == p;
                                    assert(kept@[a] == p);
                                } else {
                                    assert(kept@[before.len() as int] == p);
                                }
                            }
                        }
                        assert forall|x: int, y: int| 0 <= x < kept@.len() && 0 <= y < kept@.len() && x != y implies kept@[x] != kept@[y] by {
                            if x == before.len() {
                                assert(before[y] != self.cached_tiles@[i as int]);
                            } else if y == before.len() {
                                assert(before[x] != self.cached_tiles@[i as int]);
                            }
                        }
                        assert forall|a: int, j: int| 0 <= a < kept@.len() && i + 1 <= j < self.cached_tiles@.len() implies kept@[a] != self.cached_tiles@[j] by {
                            if a == before.len() {
                                assert(self.cached_tiles@[i as int] != self.cached_tiles@[j]);
                            }
                        }
                    }
                } else {
                    proof {
                        assert forall|p: TileSpacePos| #[trigger] kept@.contains(p) <==> exists|j: int| 0 <= j < i + 1
                            && self.cached_tiles@[j] == p && v.spec_keep().holds(p.x as int, p.z as int) by {
                            if exists|j: int| 0 <= j < i + 1 && self.cached_tiles@[j] == p && v.spec_keep().holds(p.x as int, p.z as int) {
                                let j = choose|j: int| 0 <= j < i + 1 && self.cached_tiles@[j] == p && v.spec_keep().holds(p.x as int, p.z as int);
                                assert(j < i);
                            }
                        }
                    }
                }
                i = i + 1;
            }
            proof {
                assert forall|p: TileSpacePos| #[trigger] kept@.contains(p) <==> old(self).cached().contains(p) && v.spec_keep().holds(p.x as int, p.z as int) by {
                    if old(self).cached().contains(p) && v.spec_keep().holds(p.x as int, p.z as int) {
                        let j = choose|j: int| 0 <= j < old(self).cached_tiles@.len() && old(self).cached_tiles@[j] == p;
                        assert(self.cached_tiles@[j] == p);
                    }
                }
            }
            self.cached_tiles = kept;
        }
        self.view = v;
        self.update_filtered_regions();
    }

    /// New regions to draw: the cache is cleared and the queue recomputed.
    pub fn handle_regions_update(&mut self, r: Vec<Region>)
        ensures
            final(self).wf(),
            final(self).cached().len() == 0,
            final(self).spec_targets() == r@,
            final(self).spec_view() == old(self).spec_view(),
            final(self).spec_opt() == old(self).spec_opt(),
            final(self).queue() == visible_order_spec(r@, old(self).spec_view().spec_visible()),
    {
        self.cached_tiles = Vec::new();
        self.targets = r;
        self.update_filtered_regions();
    }

    /// New options: if they differ, the cache is cleared, the options taken and the
    /// queue recomputed, and the result is `true` (the workers must be reset);
    /// otherwise nothing changes.
    pub fn handle_options_update(&mut self, opt: RenderOptions) -> (changed: bool)
        requires
            old(self).wf(),
        ensures
            final(self).wf(),
            changed <==> opt != old(self).spec_opt(),
            !changed ==> *final(self) == *old(self),
            changed ==> ({
                &&& final(self).cached().len() == 0
                &&& final(self).spec_opt() == opt
                &&& final(self).spec_targets() == old(self).spec_targets()
                &&& final(self).spec_view() == old(self).spec_view()
                &&& final(self).queue() == visible_order_spec(old(self).spec_targets(), old(self).spec_view().spec_visible())
            }),
    {
        if self.opt == opt {
            return false;
        }
        self.cached_tiles = Vec::new();
        self.opt = opt;
        self.update_filtered_regions();
        true
    }

    /// The next region to draw: the last queued one whose tile is not cached, which is
    /// taken off the queue (with the cached ones after it) and its tile cached.
    pub fn next_task(&mut self) -> (r: Option<usize>)
        requires
            old(self).wf(),
        ensures
            final(self).wf(),
            final(self).spec_targets() == old(self).spec_targets(),
            final(self).spec_view() == old(self).spec_view(),
            final(self).spec_opt() == old(self).spec_opt(),
            r matches Some(i) ==> exists|m: int| 0 <= m < old(self).queue().len() && {
                &&& old(self).queue()[m] == i
                &&& final(self).queue() == old(self).queue().take(m)
                &&& forall|t: int| m < t < old(self).queue().len() ==> old(self).cached().contains(
                    tile_of(old(self).spec_targets()[#[trigger] old(self).queue()[t] as int]))
            } && i < old(self).spec_targets().len()
                && !old(self).cached().contains(tile_of(old(self).spec_targets()[i as int]))
                && final(self).cached() == old(self).cached().push(tile_of(old(self).spec_targets()[i as int])),
            r is None ==> final(self).queue().len() == 0 && final(self).cached() == old(self).cached()
                && forall|t: int| 0 <= t < old(self).queue().len() ==> old(self).cached().contains(
                    tile_of(old(self).spec_targets()[#[trigger] old(self).queue()[t] as int])),
    {
        loop
            invariant
                self.wf(),
                self.targets@ == old(self).targets@,
                self.view == old(self).view,
                self.opt == old(self).opt,
                self.cached_tiles@ == old(self).cached_tiles@,
                self.filtered@.len() <= old(self).filtered@.len(),
                self.filtered@ == old(self).filtered@.take(self.filtered@.len() as int),
                forall|t: int| self.filtered@.len() <= t < old(self).filtered@.len() ==> old(self).cached_tiles@.contains(
                    tile_of(old(self).targets@[#[trigger] old(self).filtered@[t] as int])),
            decreases self.filtered@.len(),
        {
            let r = match self.filtered.pop() {
                Some(r) => r,
                None => {
                    return None;
                },
            };
            let ghost m = self.filtered@.len() as int;
            proof {
                assert(old(self).filtered@[m] == r);
                assert(self.filtered@ =~= old(self).filtered@.take(m));
            }
            let pos = TileSpacePos { x: self.targets[r].x, z: self.targets[r].z };
            if !contains_pos(&self.cached_tiles, pos) {
                proof {
                    assert(pos == tile_of(self.targets@[r as int]));
                    assert((self.cached_tiles@.push(pos)).no_duplicates()) by {
                        assert forall|a: int, b: int| 0 <= a < b < self.cached_tiles@.len() + 1 implies
                            self.cached_tiles@.push(pos)[a] != self.cached_tiles@.push(pos)[b] by {
                            if b == self.cached_tiles@.len() {
                                assert(self.cached_tiles@.push(pos)[a] == self.cached_tiles@[a]);
                            }
                        }
                    }
                }
                self.cached_tiles.push(pos);
                proof {
                    assert(old(self).queue()[m] == r);
                    assert(self.queue() == old(self).queue().take(m));
                    assert(forall|t: int| m < t < old(self).queue().len() ==> old(self).cached().contains(
                        tile_of(old(self).spec_targets()[#[trigger] old(self).queue()[t] as int])));
                }
                return Some(r);
            }
        }
    }
}

/// Whether `pos` is among the cached tiles.
fn contains_pos(cached: &Vec<TileSpacePos>, pos: TileSpacePos) -> (r: bool)
    ensures
        r <==> cached@.contains(pos),
{
    let mut i: usize = 0;
    while i < cached.len()
        invariant
            i <= cached@.len(),
            forall|j: int| 0 <= j < i ==> cached@[j] != pos,
        decreases cached@.len() - i,
    {
        if cached[i].x == pos.x && cached[i].z == pos.z {
            proof {
                assert(cached@[i as int] == pos);
            }
            return true;
        }
        i = i + 1;
    }
    false
}

/// The order of [`visible_region_order`]: the visible regions as indices, from the
/// farthest from the centre to the nearest, ties in their given order.
pub open spec fn visible_order_spec(regions: Seq<Region>, visible: TileSpaceRectangle) -> Seq<usize> {
    choose|order: Seq<usize>| is_visible_order(regions, visible, order)
}

/// `order` lists the visible regions, each once, farthest from the centre first.
pub open spec fn is_visible_order(regions: Seq<Region>, visible: TileSpaceRectangle, order: Seq<usize>) -> bool {
    &&& order.no_duplicates()
    &&& forall|k: int| 0 <= k < order.len() ==> (#[trigger] order[k]) < regions.len()
        && visible.holds(regions[order[k] as int].x as int, regions[order[k] as int].z as int)
    &&& forall|i: int| 0 <= i < regions.len() && visible.holds(regions[i].x as int, regions[i].z as int)
        ==> order.contains(i as usize)
    &&& forall|a: int, b: int| 0 <= a < b < order.len() ==> drawn_before(regions, visible.center_spec(), order[a] as int, order[b] as int)
}

/// Only one order lists the visible regions farthest first, ties in their given order.
pub proof fn lemma_visible_order_unique(regions: Seq<Region>, visible: TileSpaceRectangle, order: Seq<usize>)
    requires
        is_visible_order(regions, visible, order),
    ensures
        visible_order_spec(regions, visible) == order,
{
    let other = visible_order_spec(regions, visible);
    assert(is_visible_order(regions, visible, other));
    lemma_sorted_unique(regions, visible, order, other);
}

/// Two lists of the same distinct elements, both sorted by a strict total order, are equal.
proof fn lemma_sorted_unique(regions: Seq<Region>, visible: TileSpaceRectangle, a: Seq<usize>, b: Seq<usize>)
    requires
        is_visible_order(regions, visible, a),
        is_visible_order(regions, visible, b),
    ensures
        a == b,
{
    lemma_same_len(regions, visible, a, b);
    assert forall|k: int| 0 <= k < a.len() implies a[k] == b[k] by {
        lemma_same_at(regions, visible, a, b, k);
    }
    assert(a =~= b);
}

/// Both orders have one entry per visible region.
proof fn lemma_same_len(regions: Seq<Region>, visible: TileSpaceRectangle, a: Seq<usize>, b: Seq<usize>)
    requires
        is_visible_order(regions, visible, a),
        is_visible_order(regions, visible, b),
    ensures
        a.len() == b.len(),
{
    a.unique_seq_to_set();
    b.unique_seq_to_set();
    assert(a.to_set() =~= b.to_set()) by {
        assert forall|v: usize| a.to_set().contains(v) implies b.to_set().contains(v) by {
            let k = choose|k: int| 0 <= k < a.len() && a[k] == v;
            assert(b.contains(a[k]));
        }
        assert forall|v: usize| b.to_set().contains(v) implies a.to_set().contains(v) by {
            let k = choose|k: int| 0 <= k < b.len() && b[k] == v;
            assert(a.contains(b[k]));
        }
    }
}

/// In a visible order, the entry at position `k` has exactly `k` entries drawn before it.
proof fn lemma_same_at(regions: Seq<Region>, visible: TileSpaceRectangle, a: Seq<usize>, b: Seq<usize>, k: int)
    requires
        is_visible_order(regions, visible, a),
        is_visible_order(regions, visible, b),
        0 <= k < a.len(),
    ensures
        k < b.len() && a[k] == b[k],
{
    lemma_same_len(regions, visible, a, b);
    let c = visible.center_spec();
    let x = a[k];
    assert(b.contains(x));
    let j = choose|j: int| 0 <= j < b.len() && b[j] == x;
    if j != k {
        // count the entries before x in both lists
        let before_a = a.take(k).to_set();
        let before_b = b.take(j).to_set();
        a.take(k).unique_seq_to_set();
        b.take(j).unique_seq_to_set();
        assert(before_a =~= before_b) by {
            assert forall|v: usize| before_a.contains(v) implies before_b.contains(v) by {
                let p = choose|p: int| 0 <= p < k && a.take(k)[p] == v;
                assert(a[p] == v);
                assert(drawn_before(regions, c, v as int, x as int));
                assert(b.contains(v));
                let q = choose|q: int| 0 <= q < b.len() && b[q] == v;
                if q >= j {
                    if q > j {
                        assert(drawn_before(regions, c, x as int, v as int));
                    }
                }
                assert(b.take(j)[q] == v);
            }
            assert forall|v: usize| before_b.contains(v) implies before_a.contains(v) by {
                let q = choose|q: int| 0 <= q < j && b.take(j)[q] == v;
                assert(b[q] == v);
                assert(drawn_before(regions, c, v as int, x as int));
                assert(a.contains(v));
                let p = choose|p: int| 0 <= p < a.len() && a[p] == v;
                if p >= k {
                    if p > k {
                        assert(drawn_before(regions, c, x as int, v as int));
                    }
                }
                assert(a.take(k)[p] == v);
            }
        }
    }
}

} // verus!
