use vstd::prelude::*;
use bit_vec::BitVec;
use queues::Queue;
use crate::containers::{
    bitvec_bits, bitvec_from_elem, bitvec_index, bitvec_set, queue_add, queue_items, queue_new,
    queue_remove,
};
use crate::search_laws::{
    grid_distance, is_layered_heatmap, lemma_finished_layered, lemma_uniform_cost_heat,
};
use crate::search::{
    is_search_result, lemma_count_reached_bound, lemma_pop_sound, lemma_relax_sound,
    lemma_run_sound, lemma_step_is_prefix, lemma_step_sound, pop_front, reached_closed, relax,
    relax_prefix, search_measure, search_run, search_sound, step_room, SearchState,
};

verus! {

/// Tile-cost grid with its heat map and direction field, stored row by row:
/// the tile at column `x` and row `y` lives at index `x + y * width`.
///
/// `map` holds the cost of entering each tile, `heatmap` the accumulated
/// cost of reaching each tile from the last affector (`None` where no tile
/// has been reached), and `vectorfield` for each tile the step `(dx, dy)`,
/// with `dx` and `dy` in `-1..=1`, towards its cheapest neighbour
/// (`(0, 0)` where no neighbour has been reached).
pub struct NavigationData {
    pub map: Vec<u32>,
    pub heatmap: Vec<Option<u64>>,
    pub vectorfield: Vec<(i32, i32)>,
    pub width: usize,
    pub height: usize,
}

/// Index of the tile `(x, y)` in a grid of the given width.
pub open spec fn cell_index(width: int, x: int, y: int) -> int {
    x + y * width
}

/// Whether `(x, y)` lies on a grid of the given size.
pub open spec fn in_grid(width: int, height: int, x: int, y: int) -> bool {
    0 <= x < width && 0 <= y < height
}

/// The index of a tile of the grid lies inside the grid's layers.
pub proof fn lemma_cell_index_bounds(width: int, height: int, x: int, y: int)
    requires
        in_grid(width, height, x, y),
    ensures
        0 <= cell_index(width, x, y) < width * height,
{
    assert(x + y * width < width * height) by (nonlinear_arith)
        requires
            0 <= x < width,
            0 <= y < height,
    ;
    assert(0 <= y * width) by (nonlinear_arith)
        requires
            0 <= y,
            0 <= width,
    ;
}

/// Distinct tiles of a grid have distinct indices.
pub proof fn lemma_cell_index_injective(width: int, height: int, x1: int, y1: int, x2: int, y2: int)
    requires
        in_grid(width, height, x1, y1),
        in_grid(width, height, x2, y2),
        cell_index(width, x1, y1) == cell_index(width, x2, y2),
    ensures
        x1 == x2,
        y1 == y2,
{
    if y1 < y2 {
        assert((y1 + 1) * width <= y2 * width) by (nonlinear_arith)
            requires
                y1 + 1 <= y2,
                0 <= width,
        ;
        assert(false) by (nonlinear_arith)
            requires
                x1 < width,
                0 <= x2,
                (y1 + 1) * width <= y2 * width,
                x1 + y1 * width == x2 + y2 * width,
        ;
    } else if y2 < y1 {
        assert((y2 + 1) * width <= y1 * width) by (nonlinear_arith)
            requires
                y2 + 1 <= y1,
                0 <= width,
        ;
        assert(false) by (nonlinear_arith)
            requires
                x2 < width,
                0 <= x1,
                (y2 + 1) * width <= y1 * width,
                x1 + y1 * width == x2 + y2 * width,
        ;
    }
}

/// The eight neighbour offsets around a tile (the tile itself excluded).
pub open spec fn is_offset(dx: int, dy: int) -> bool {
    -1 <= dx <= 1 && -1 <= dy <= 1 && !(dx == 0 && dy == 0)
}

/// Rank of an offset in the scan order: `dx` from -1 to 1, and for each
/// `dx`, `dy` from -1 to 1.
pub open spec fn offset_rank(dx: int, dy: int) -> int {
    (dx + 1) * 3 + (dy + 1)
}

/// The heat of the tile at offset `(dx, dy)` from `(x, y)`, or `None` when
/// that tile lies outside the grid or has not been reached.
pub open spec fn neighbour_heat(
    heat: Seq<Option<u64>>,
    width: int,
    height: int,
    x: int,
    y: int,
    dx: int,
    dy: int,
) -> Option<u64> {
    if in_grid(width, height, x + dx, y + dy) {
        heat[cell_index(width, x + dx, y + dy)]
    } else {
        None
    }
}

/// `d` is the direction of steepest descent from `(x, y)`: `(0, 0)` when no
/// neighbour of the eight has been reached, and otherwise the first offset,
/// in scan order, among those whose neighbour has the least heat.
pub open spec fn is_steepest_direction(
    heat: Seq<Option<u64>>,
    width: int,
    height: int,
    x: int,
    y: int,
    d: (i32, i32),
) -> bool {
    if forall|dx: int, dy: int|
        is_offset(dx, dy) ==> #[trigger] neighbour_heat(heat, width, height, x, y, dx, dy) is None {
        d == (0i32, 0i32)
    } else {
        &&& is_offset(d.0 as int, d.1 as int)
        &&& neighbour_heat(heat, width, height, x, y, d.0 as int, d.1 as int) is Some
        &&& forall|dx: int, dy: int|
            is_offset(dx, dy) && (#[trigger] neighbour_heat(heat, width, height, x, y, dx, dy)) is Some
                ==> {
                let best = neighbour_heat(heat, width, height, x, y, d.0 as int, d.1 as int)->0;
                let other = neighbour_heat(heat, width, height, x, y, dx, dy)->0;
                &&& best <= other
                &&& offset_rank(dx, dy) < offset_rank(d.0 as int, d.1 as int) ==> best < other
            }
    }
}

/// The direction field holds the direction of steepest descent on every
/// tile of the grid.
pub open spec fn is_steepest_field(
    heat: Seq<Option<u64>>,
    field: Seq<(i32, i32)>,
    width: int,
    height: int,
) -> bool {
    forall|x: int, y: int|
        in_grid(width, height, x, y) ==> is_steepest_direction(
            heat,
            width,
            height,
            x,
            y,
            #[trigger] field[cell_index(width, x, y)],
        )
}

/// The direction of steepest descent from the tile `(rx, ry)`.
fn steepest_neighbour(
    heat: &Vec<Option<u64>>,
    width: usize,
    height: usize,
    rx: usize,
    ry: usize,
) -> (d: (i32, i32))
    requires
        heat.len() == width * height,
        width * height <= u32::MAX,
        rx < width,
        ry < height,
    ensures
        is_steepest_direction(heat@, width as int, height as int, rx as int, ry as int, d),
{
    let ghost h = heat@;
    let ghost (w, hh, x, y) = (width as int, height as int, rx as int, ry as int);
    assert(width <= u32::MAX && height <= u32::MAX) by (nonlinear_arith)
        requires
            width * height <= u32::MAX,
            rx < width,
            ry < height,
    ;
    let mut dir: (i32, i32) = (0, 0);
    let mut min_value: Option<u64> = None;
    let mut k: i32 = 0;
    while k < 9
        invariant
            0 <= k <= 9,
            h == heat@,
            heat.len() == width * height,
            width <= u32::MAX,
            height <= u32::MAX,
            rx < width,
            ry < height,
            w == width as int,
            hh == height as int,
            x == rx as int,
            y == ry as int,
            min_value is None ==> dir == (0i32, 0i32),
            min_value is None ==> forall|dx: int, dy: int|
                is_offset(dx, dy) && offset_rank(dx, dy) < k
                    ==> #[trigger] neighbour_heat(h, w, hh, x, y, dx, dy) is None,
            min_value is Some ==> {
                &&& is_offset(dir.0 as int, dir.1 as int)
                &&& offset_rank(dir.0 as int, dir.1 as int) < k
                &&& neighbour_heat(h, w, hh, x, y, dir.0 as int, dir.1 as int) == min_value
                &&& forall|dx: int, dy: int|
                    is_offset(dx, dy) && offset_rank(dx, dy) < k
                        && (#[trigger] neighbour_heat(h, w, hh, x, y, dx, dy)) is Some ==> {
                        &&& min_value->0 <= neighbour_heat(h, w, hh, x, y, dx, dy)->0
                        &&& offset_rank(dx, dy) < offset_rank(dir.0 as int, dir.1 as int)
                            ==> min_value->0 < neighbour_heat(h, w, hh, x, y, dx, dy)->0
                    }
            },
        decreases 9 - k,
    {
        let dx: i32 = k / 3 - 1;
        let dy: i32 = k % 3 - 1;
        assert(offset_rank(dx as int, dy as int) == k);
        if !(dx == 0 && dy == 0) {
            let cx: i64 = rx as i64 + dx as i64;
            let cy: i64 = ry as i64 + dy as i64;
            if 0 <= cx && cx < width as i64 && 0 <= cy && cy < height as i64 {
                proof {
                    lemma_cell_index_bounds(w, hh, cx as int, cy as int);
                }
                let index_c: usize = cx as usize + cy as usize * width;
                if let Some(v) = heat[index_c] {
                    let better = match min_value {
                        None => true,
                        Some(m) => v < m,
                    };
                    if better {
                        dir = (dx, dy);
                        min_value = Some(v);
                    }
                }
            }
        }
        proof {
            // every offset of rank below k + 1 is either below k or (dx, dy)
            assert forall|ox: int, oy: int| is_offset(ox, oy) && offset_rank(ox, oy) == k implies ox
                == dx && oy == dy by {}
        }
        k = k + 1;
    }
    proof {
        assert forall|ox: int, oy: int| is_offset(ox, oy) implies offset_rank(ox, oy) < 9 by {}
    }
    dir
}

/// The search state held by the executable queue, bit vector and heat map.
spec fn search_view(open: Queue<(usize, usize)>, closed: BitVec, heat: Seq<Option<u64>>) -> SearchState {
    SearchState { queue: queue_items(open), closed: bitvec_bits(closed), heat }
}

/// Looks at the neighbour `(dx, dy)` of the expanded tile `r`, whose heat is
/// `heat_r`: one `relax` of the search.
fn relax_neighbour(
    heatmap: &mut Vec<Option<u64>>,
    closed: &mut BitVec,
    open: &mut Queue<(usize, usize)>,
    map: &Vec<u32>,
    width: usize,
    height: usize,
    r: (usize, usize),
    heat_r: u64,
    dx: i32,
    dy: i32,
    Ghost(src): Ghost<(usize, usize)>,
)
    requires
        width * height <= u32::MAX,
        map.len() == width * height,
        search_sound(search_view(*old(open), *old(closed), old(heatmap)@), width as int, height as int, src),
        reached_closed(search_view(*old(open), *old(closed), old(heatmap)@)),
        0 <= cell_index(width as int, r.0 as int, r.1 as int) < width * height,
        old(heatmap)@[cell_index(width as int, r.0 as int, r.1 as int)] == Some(heat_r),
        -1 <= dx <= 1,
        -1 <= dy <= 1,
    ensures
        search_view(*final(open), *final(closed), final(heatmap)@) == relax(
            search_view(*old(open), *old(closed), old(heatmap)@),
            width as int,
            height as int,
            map@,
            r,
            dx as int,
            dy as int,
        ),
{
    let ghost w = width as int;
    let ghost h = height as int;
    let ghost s = search_view(*open, *closed, heatmap@);
    assert(w >= 1 && h >= 1) by (nonlinear_arith)
        requires
            0 <= cell_index(w, r.0 as int, r.1 as int) < w * h,
            0 <= w,
            0 <= h,
    ;
    assert(r.0 <= cell_index(w, r.0 as int, r.1 as int) && r.1 <= cell_index(w, r.0 as int, r.1 as int))
        by (nonlinear_arith)
        requires
            w >= 1,
            0 <= r.0,
            0 <= r.1,
    ;
    let cx: usize;
    if dx < 0 {
        if r.0 == 0 {
            return;
        }
        cx = r.0 - 1;
    } else if dx > 0 {
        cx = r.0 + 1;
    } else {
        cx = r.0;
    }
    let cy: usize;
    if dy < 0 {
        if r.1 == 0 {
            return;
        }
        cy = r.1 - 1;
    } else if dy > 0 {
        cy = r.1 + 1;
    } else {
        cy = r.1;
    }
    // Do not run out of bounds
    if cx >= width || cy >= height {
        return;
    }
    proof {
        lemma_cell_index_bounds(w, h, cx as int, cy as int);
    }
    let index_c = cx + cy * width;
    // Cancel if closed
    if bitvec_index(closed, index_c) {
        return;
    }
    proof {
        lemma_count_reached_bound(heatmap@);
        assert(heat_r <= (w * h - 1) * step_room());
        assert((w * h - 1) * step_room() + step_room() <= u64::MAX) by (nonlinear_arith)
            requires
                w * h <= u32::MAX,
                step_room() == 0x1_0000_0000,
        ;
    }
    let new_value: u64 = heat_r + map[index_c] as u64 + 1;
    // If this tile has not been set or a lower value is possible
    let better = match heatmap[index_c] {
        None => true,
        Some(old) => old == 0 || old > new_value,
    };
    if better {
        heatmap.set(index_c, Some(new_value));
        queue_add(open, (cx, cy));
        bitvec_set(closed, index_c, true);
    }
    proof {
        let t = search_view(*open, *closed, heatmap@);
        let u = relax(s, w, h, map@, r, dx as int, dy as int);
        assert(t.queue =~= u.queue);
        assert(t.closed =~= u.closed);
        assert(t.heat =~= u.heat);
    }
}

impl NavigationData {
    /// The grid dimensions agree with the lengths of the three layers, and
    /// the grid is small enough for every accumulated cost to fit in `u64`.
    pub open spec fn wf(&self) -> bool {
        &&& self.width * self.height <= u32::MAX
        &&& self.map.len() == self.width * self.height
        &&& self.heatmap.len() == self.width * self.height
        &&& self.vectorfield.len() == self.width * self.height
    }

    /// A grid of `width` by `height` tiles with zero cost everywhere, a heat
    /// of zero everywhere and no direction anywhere.
    pub fn new(width: usize, height: usize) -> (res: Self)
        requires
            width * height <= u32::MAX,
        ensures
            res.wf(),
            res.width == width,
            res.height == height,
            res.map@ == Seq::new((width * height) as nat, |i: int| 0u32),
            res.heatmap@ == Seq::new((width * height) as nat, |i: int| Some(0u64)),
            res.vectorfield@ == Seq::new((width * height) as nat, |i: int| (0i32, 0i32)),
    {
        let count = width * height;
        let mut map: Vec<u32> = Vec::new();
        let mut heatmap: Vec<Option<u64>> = Vec::new();
        let mut vectorfield: Vec<(i32, i32)> = Vec::new();
        let mut i: usize = 0;
        while i < count
            invariant
                i <= count,
                count == width * height,
                map@ == Seq::new(i as nat, |j: int| 0u32),
                heatmap@ == Seq::new(i as nat, |j: int| Some(0u64)),
                vectorfield@ == Seq::new(i as nat, |j: int| (0i32, 0i32)),
            decreases count - i,
        {
            map.push(0);
            heatmap.push(Some(0));
            vectorfield.push((0, 0));
            i = i + 1;
        }
        NavigationData { map, heatmap, vectorfield, width, height }
    }

    /// Fills the heat map by a breadth-first search from the affector tile
    /// `(affector_x, affector_y)`: the affector gets heat zero, and each tile
    /// reached from an expanded tile gets that tile's heat plus its own cost
    /// plus one. Tiles are expanded in the order they are reached, and each
    /// looks at its neighbours to the left, below, above and to the right.
    pub fn generate_heatmap(&mut self, affector_x: usize, affector_y: usize)
        requires
            old(self).wf(),
            affector_x + affector_y * old(self).width < old(self).heatmap.len(),
        ensures
            final(self).wf(),
            final(self).map == old(self).map,
            final(self).vectorfield == old(self).vectorfield,
            final(self).width == old(self).width,
            final(self).height == old(self).height,
            is_search_result(
                old(self).width as int,
                old(self).height as int,
                old(self).map@,
                (affector_x, affector_y),
                final(self).heatmap@,
            ),
            in_grid(old(self).width as int, old(self).height as int, affector_x as int, affector_y as int)
                ==> is_layered_heatmap(
                final(self).heatmap@,
                old(self).width as int,
                old(self).height as int,
                old(self).map@,
                (affector_x, affector_y),
            ),
            in_grid(old(self).width as int, old(self).height as int, affector_x as int, affector_y as int)
                && (forall|i: int| 0 <= i < old(self).map.len() ==> old(self).map@[i] == 0)
                ==> forall|x: int, y: int|
                in_grid(old(self).width as int, old(self).height as int, x, y)
                    ==> #[trigger] final(self).heatmap@[cell_index(old(self).width as int, x, y)]
                    is Some && final(self).heatmap@[cell_index(old(self).width as int, x, y)]->0
                    == grid_distance((affector_x, affector_y), x, y),
    {
        let width = self.width;
        let height = self.height;
        let ghost (w, h) = (width as int, height as int);
        let ghost src = (affector_x, affector_y);
        // the index of the affector
        let index_affector: usize = affector_x + affector_y * width;
        let count = width * height;
        let mut closed_map = bitvec_from_elem(count, false);
        let mut i: usize = 0;
        while i < count
            invariant
                self.wf(),
                width == self.width,
                height == self.height,
                count == width * height,
                i <= count,
                self.map == old(self).map,
                self.vectorfield == old(self).vectorfield,
                forall|j: int| 0 <= j < i ==> self.heatmap@[j] is None,
            decreases count - i,
        {
            self.heatmap.set(i, None);
            i = i + 1;
        }
        let mut open_list = queue_new();
        queue_add(&mut open_list, (affector_x, affector_y));
        // Set the source point to zero
        self.heatmap.set(index_affector, Some(0));
        let ghost mut n: nat = 0;
        proof {
            let s = search_view(open_list, closed_map, self.heatmap@);
            let t = search_run(w, h, self.map@, src, 0);
            assert(s.queue =~= t.queue);
            assert(s.closed =~= t.closed);
            assert(s.heat =~= t.heat);
        }
        loop
            invariant
                self.wf(),
                width == self.width,
                height == self.height,
                w == width as int,
                h == height as int,
                src == (affector_x, affector_y),
                index_affector == cell_index(w, affector_x as int, affector_y as int),
                index_affector < width * height,
                self.map == old(self).map,
                self.vectorfield == old(self).vectorfield,
                search_view(open_list, closed_map, self.heatmap@) == search_run(
                    w,
                    h,
                    self.map@,
                    src,
                    n,
                ),
            ensures
                self.wf(),
                self.map == old(self).map,
                self.vectorfield == old(self).vectorfield,
                width == self.width,
                height == self.height,
                search_view(open_list, closed_map, self.heatmap@) == search_run(
                    w,
                    h,
                    self.map@,
                    src,
                    n,
                ),
                queue_items(open_list).len() == 0,
            decreases search_measure(search_view(open_list, closed_map, self.heatmap@)),
        {
            let ghost s = search_view(open_list, closed_map, self.heatmap@);
            proof {
                lemma_run_sound(w, h, self.map@, src, n);
                lemma_step_sound(s, w, h, self.map@, src);
            }
            let popped = queue_remove(&mut open_list);
            let real_pos = match popped {
                None => break,
                Some(p) => p,
            };
            let rx = real_pos.0;
            let ry = real_pos.1;
            proof {
                if real_pos != src {
                    lemma_cell_index_bounds(w, h, rx as int, ry as int);
                }
                assert(s.queue[0] == real_pos);
            }
            let index_r = rx + ry * width;
            bitvec_set(&mut closed_map, index_r, true);
            let heat_r = self.heatmap[index_r].unwrap();
            proof {
                lemma_pop_sound(s, w, h, src);
                assert(search_view(open_list, closed_map, self.heatmap@) == pop_front(s, w));
            }
            // neighbours to the left, below, above and to the right
            let mut k: usize = 0;
            while k < 4
                invariant
                    self.wf(),
                    width == self.width,
                    height == self.height,
                    w == width as int,
                    h == height as int,
                    k <= 4,
                    rx == real_pos.0,
                    ry == real_pos.1,
                    src == (affector_x, affector_y),
                    self.map == old(self).map,
                    self.vectorfield == old(self).vectorfield,
                    0 <= cell_index(w, rx as int, ry as int) < w * h,
                    self.heatmap@[cell_index(w, rx as int, ry as int)] == Some(heat_r),
                    search_sound(search_view(open_list, closed_map, self.heatmap@), w, h, src),
                    reached_closed(search_view(open_list, closed_map, self.heatmap@)),
                    search_view(open_list, closed_map, self.heatmap@) == relax_prefix(
                        pop_front(s, w),
                        w,
                        h,
                        self.map@,
                        real_pos,
                        k as int,
                    ),
                decreases 4 - k,
            {
                let (dx, dy): (i32, i32) = if k == 0 {
                    (-1, 0)
                } else if k == 1 {
                    (0, -1)
                } else if k == 2 {
                    (0, 1)
                } else {
                    (1, 0)
                };
                let ghost before = search_view(open_list, closed_map, self.heatmap@);
                proof {
                    lemma_relax_sound(before, w, h, self.map@, src, real_pos, dx as int, dy as int);
                }
                relax_neighbour(&mut self.heatmap, &mut closed_map, &mut open_list, &self.map,
                    width, height, real_pos, heat_r, dx, dy, Ghost(src));
                k = k + 1;
            }
            proof {
                lemma_step_is_prefix(s, w, h, self.map@);
                n = n + 1;
            }
        }
        proof {
            assert(search_run(w, h, self.map@, src, n).queue.len() == 0);
            if in_grid(w, h, affector_x as int, affector_y as int) {
                lemma_finished_layered(w, h, self.map@, src, n);
                if forall|i: int| 0 <= i < self.map.len() ==> self.map@[i] == 0 {
                    assert forall|x: int, y: int| in_grid(w, h, x, y) implies
                        #[trigger] self.heatmap@[cell_index(w, x, y)] is Some
                        && self.heatmap@[cell_index(w, x, y)]->0 == grid_distance(src, x, y) by {
                        lemma_uniform_cost_heat(self.heatmap@, w, h, self.map@, src, 0, x, y);
                    }
                }
            }
        }
    }

    /// Fills the direction field from the heat map: every tile gets the
    /// direction of steepest descent towards its reached neighbours.
    pub fn generate_vectorfield(&mut self)
        requires
            old(self).wf(),
        ensures
            final(self).wf(),
            final(self).map == old(self).map,
            final(self).heatmap == old(self).heatmap,
            final(self).width == old(self).width,
            final(self).height == old(self).height,
            is_steepest_field(
                final(self).heatmap@,
                final(self).vectorfield@,
                final(self).width as int,
                final(self).height as int,
            ),
    {
        let width = self.width;
        let height = self.height;
        let ghost (w, h) = (width as int, height as int);
        let mut rx: usize = 0;
        while rx < width
            invariant
                self.wf(),
                rx <= width,
                width == self.width,
                height == self.height,
                w == width as int,
                h == height as int,
                self.map == old(self).map,
                self.heatmap == old(self).heatmap,
                forall|x: int, y: int|
                    in_grid(w, h, x, y) && x < rx ==> is_steepest_direction(
                        self.heatmap@,
                        w,
                        h,
                        x,
                        y,
                        #[trigger] self.vectorfield@[cell_index(w, x, y)],
                    ),
            decreases width - rx,
        {
            let mut ry: usize = 0;
            while ry < height
                invariant
                    self.wf(),
                    rx < width,
                    ry <= height,
                    width == self.width,
                    height == self.height,
                    w == width as int,
                    h == height as int,
                    self.map == old(self).map,
                    self.heatmap == old(self).heatmap,
                    forall|x: int, y: int|
                        in_grid(w, h, x, y) && (x < rx || (x == rx && y < ry))
                            ==> is_steepest_direction(
                            self.heatmap@,
                            w,
                            h,
                            x,
                            y,
                            #[trigger] self.vectorfield@[cell_index(w, x, y)],
                        ),
                decreases height - ry,
            {
                let dir = steepest_neighbour(&self.heatmap, width, height, rx, ry);
                proof {
                    lemma_cell_index_bounds(w, h, rx as int, ry as int);
                }
                let index_r = rx + ry * width;
                let ghost before = self.vectorfield@;
                self.vectorfield.set(index_r, dir);
                proof {
                    assert forall|x: int, y: int|
                        in_grid(w, h, x, y) && (x < rx || (x == rx && y < ry + 1)) implies
                        is_steepest_direction(
                            self.heatmap@,
                            w,
                            h,
                            x,
                            y,
                            #[trigger] self.vectorfield@[cell_index(w, x, y)],
                        ) by {
                        lemma_cell_index_bounds(w, h, x, y);
                        if x == rx && y == ry {
                        } else {
                            if cell_index(w, x, y) == cell_index(w, rx as int, ry as int) {
                                lemma_cell_index_injective(w, h, x, y, rx as int, ry as int);
                            }
                            assert(self.vectorfield@[cell_index(w, x, y)] == before[cell_index(w, x, y)]);
                        }
                    }
                }
                ry = ry + 1;
            }
            rx = rx + 1;
        }
    }

    /// The direction stored for the tile at index `x + y * width`.
    pub fn get_field_value(&self, x: usize, y: usize) -> (res: (i32, i32))
        requires
            x + y * self.width < self.vectorfield.len(),
        ensures
            res == self.vectorfield@[x + y * self.width],
    {
        self.vectorfield[x + y * self.width]
    }
}

} // verus!
