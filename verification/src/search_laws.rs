//! What the heat-map search guarantees when the affector lies on the grid:
//! the affector has heat zero, every tile is reached, and every other tile
//! is reached from a neighbour one step closer to the affector, its heat
//! being that neighbour's heat plus its own cost plus one.
use vstd::prelude::*;
use crate::navigation::{
    cell_index, in_grid, is_offset, is_steepest_direction, is_steepest_field,
    lemma_cell_index_bounds, lemma_cell_index_injective, neighbour_heat,
};
use crate::search::{
    lemma_pop_sound, lemma_relax_sound, lemma_run_sound, lemma_step_is_prefix, neighbour_offset,
    pop_front, reached_closed, reached_closed_or_start, relax, relax_prefix, search_run,
    search_sound, search_start, search_step, SearchState,
};

verus! {

pub open spec fn abs_int(v: int) -> int {
    if v < 0 {
        -v
    } else {
        v
    }
}

/// Number of steps between `(x, y)` and the affector along grid lines.
pub open spec fn grid_distance(src: (usize, usize), x: int, y: int) -> int {
    abs_int(x - src.0) + abs_int(y - src.1)
}

/// The heat of tile `(x, y)`.
pub open spec fn heat_at(heat: Seq<Option<u64>>, width: int, x: int, y: int) -> Option<u64> {
    heat[cell_index(width, x, y)]
}

/// Whether the tile `(x, y)` is waiting in the queue.
pub open spec fn queued(queue: Seq<(usize, usize)>, x: int, y: int) -> bool {
    exists|j: int| 0 <= j < queue.len() && (#[trigger] queue[j]).0 == x && queue[j].1 == y
}

/// The neighbour at `(dx, dy)` of `(x, y)` lies outside the grid or is reached.
pub open spec fn neighbour_reached(
    heat: Seq<Option<u64>>,
    width: int,
    height: int,
    x: int,
    y: int,
    dx: int,
    dy: int,
) -> bool {
    in_grid(width, height, x + dx, y + dy) ==> heat_at(heat, width, x + dx, y + dy) is Some
}

/// All four side neighbours of `(x, y)` on the grid are reached.
pub open spec fn neighbours_reached(
    heat: Seq<Option<u64>>,
    width: int,
    height: int,
    x: int,
    y: int,
) -> bool {
    &&& neighbour_reached(heat, width, height, x, y, -1, 0)
    &&& neighbour_reached(heat, width, height, x, y, 0, -1)
    &&& neighbour_reached(heat, width, height, x, y, 0, 1)
    &&& neighbour_reached(heat, width, height, x, y, 1, 0)
}

/// `(px, py)` is a side neighbour of `(x, y)` one step closer to the
/// affector, and the heat of `(x, y)` is its heat plus the cost of `(x, y)`
/// plus one.
pub open spec fn reached_from(
    heat: Seq<Option<u64>>,
    width: int,
    height: int,
    map: Seq<u32>,
    src: (usize, usize),
    x: int,
    y: int,
    px: int,
    py: int,
) -> bool {
    &&& in_grid(width, height, px, py)
    &&& abs_int(px - x) + abs_int(py - y) == 1
    &&& grid_distance(src, px, py) + 1 == grid_distance(src, x, y)
    &&& heat_at(heat, width, px, py) is Some
    &&& heat_at(heat, width, x, y)->0 == heat_at(heat, width, px, py)->0 + map[cell_index(
        width,
        x,
        y,
    )] + 1
}

pub open spec fn has_predecessor(
    heat: Seq<Option<u64>>,
    width: int,
    height: int,
    map: Seq<u32>,
    src: (usize, usize),
    x: int,
    y: int,
) -> bool {
    exists|px: int, py: int| #[trigger] reached_from(heat, width, height, map, src, x, y, px, py)
}

/// The heat map of a finished search from an affector on the grid: the
/// affector has heat zero, every tile is reached, and every other tile is
/// reached from a side neighbour one step closer to the affector, with
/// that neighbour's heat plus its own cost plus one.
pub open spec fn is_layered_heatmap(
    heat: Seq<Option<u64>>,
    width: int,
    height: int,
    map: Seq<u32>,
    src: (usize, usize),
) -> bool {
    &&& heat_at(heat, width, src.0 as int, src.1 as int) == Some(0u64)
    &&& forall|x: int, y: int|
        in_grid(width, height, x, y) ==> (#[trigger] heat_at(heat, width, x, y)) is Some
    &&& forall|x: int, y: int|
        in_grid(width, height, x, y) && !(x == src.0 && y == src.1) ==> has_predecessor(
            heat,
            width,
            height,
            map,
            src,
            x,
            y,
        ) && #[trigger] heat_at(heat, width, x, y) is Some
}

/// Every reached tile other than the affector has a predecessor.
#[verifier::opaque]
pub open spec fn predecessors_ok(
    heat: Seq<Option<u64>>,
    width: int,
    height: int,
    map: Seq<u32>,
    src: (usize, usize),
) -> bool {
    forall|x: int, y: int|
        in_grid(width, height, x, y) && (#[trigger] heat_at(heat, width, x, y)) is Some && !(x
            == src.0 && y == src.1) ==> has_predecessor(heat, width, height, map, src, x, y)
}

/// Every reached tile that is not queued, other than `skip`, has all its
/// side neighbours reached.
#[verifier::opaque]
pub open spec fn expanded_ok(s: SearchState, width: int, height: int, skip: Option<(usize, usize)>) -> bool {
    forall|x: int, y: int|
        in_grid(width, height, x, y) && (#[trigger] heat_at(s.heat, width, x, y)) is Some
            && !queued(s.queue, x, y) && !(skip matches Some(r) && x == r.0 && y == r.1)
            ==> neighbours_reached(s.heat, width, height, x, y)
}

/// Queued tiles come in order of distance from the affector.
#[verifier::opaque]
pub open spec fn queue_sorted(queue: Seq<(usize, usize)>, src: (usize, usize)) -> bool {
    forall|j1: int, j2: int|
        0 <= j1 <= j2 < queue.len() ==> grid_distance(src, (#[trigger] queue[j1]).0 as int, queue[j1].1 as int)
            <= grid_distance(src, (#[trigger] queue[j2]).0 as int, queue[j2].1 as int)
}

/// Every queued tile lies at distance `level` or `level + 1`.
#[verifier::opaque]
pub open spec fn queue_within(queue: Seq<(usize, usize)>, src: (usize, usize), level: int) -> bool {
    forall|j: int|
        0 <= j < queue.len() ==> level <= grid_distance(
            src,
            (#[trigger] queue[j]).0 as int,
            queue[j].1 as int,
        ) <= level + 1
}

/// Every closed tile is reached.
#[verifier::opaque]
pub open spec fn closed_reached(s: SearchState) -> bool {
    forall|i: int| 0 <= i < s.closed.len() && #[trigger] s.closed[i] ==> s.heat[i] is Some
}

/// Every tile closer to the affector than `level` is reached.
#[verifier::opaque]
pub open spec fn reached_below(heat: Seq<Option<u64>>, width: int, height: int, src: (usize, usize), level: int) -> bool {
    forall|x: int, y: int|
        in_grid(width, height, x, y) && grid_distance(src, x, y) < level ==> (#[trigger] heat_at(
            heat,
            width,
            x,
            y,
        )) is Some
}

/// The facts the search keeps between steps.
pub open spec fn layered(
    s: SearchState,
    width: int,
    height: int,
    map: Seq<u32>,
    src: (usize, usize),
) -> bool {
    &&& in_grid(width, height, src.0 as int, src.1 as int)
    &&& heat_at(s.heat, width, src.0 as int, src.1 as int) == Some(0u64)
    &&& predecessors_ok(s.heat, width, height, map, src)
    &&& expanded_ok(s, width, height, None)
    &&& queue_sorted(s.queue, src)
    &&& (s.queue.len() > 0 ==> queue_within(
        s.queue,
        src,
        grid_distance(src, s.queue[0].0 as int, s.queue[0].1 as int),
    ))
    &&& closed_reached(s)
}

/// Every tile closer to the affector than the oldest queued tile, or every
/// tile once nothing is queued, has been reached.
#[verifier::spinoff_prover]
pub proof fn lemma_reached_before_front(
    s: SearchState,
    width: int,
    height: int,
    src: (usize, usize),
    x: int,
    y: int,
)
    requires
        in_grid(width, height, src.0 as int, src.1 as int),
        heat_at(s.heat, width, src.0 as int, src.1 as int) is Some,
        expanded_ok(s, width, height, None),
        queue_sorted(s.queue, src),
        in_grid(width, height, x, y),
        s.queue.len() == 0 || grid_distance(src, x, y) < grid_distance(
            src,
            s.queue[0].0 as int,
            s.queue[0].1 as int,
        ),
    ensures
        heat_at(s.heat, width, x, y) is Some,
    decreases grid_distance(src, x, y),
{
    if x == src.0 && y == src.1 {
    } else {
        let px = if x > src.0 {
            x - 1
        } else if x < src.0 {
            x + 1
        } else {
            x
        };
        let py = if x != src.0 {
            y
        } else if y > src.1 {
            y - 1
        } else {
            y + 1
        };
        assert(grid_distance(src, px, py) == grid_distance(src, x, y) - 1);
        assert(in_grid(width, height, px, py));
        lemma_reached_before_front(s, width, height, src, px, py);
        assert(!queued(s.queue, px, py)) by {
            if queued(s.queue, px, py) {
                let j = choose|j: int|
                    0 <= j < s.queue.len() && (#[trigger] s.queue[j]).0 == px && s.queue[j].1 == py;
                reveal(queue_sorted);
                assert(grid_distance(src, s.queue[0].0 as int, s.queue[0].1 as int) <= grid_distance(
                    src,
                    s.queue[j].0 as int,
                    s.queue[j].1 as int,
                ));
            }
        }
        assert(neighbours_reached(s.heat, width, height, px, py)) by {
            reveal(expanded_ok);
            assert(heat_at(s.heat, width, px, py) is Some);
        }
        assert(neighbour_reached(s.heat, width, height, px, py, x - px, y - py));
    }
}

/// The facts kept while the neighbours of the expanded tile `r` are looked
/// at, after the first `k` of them.
pub open spec fn layered_mid(
    t: SearchState,
    width: int,
    height: int,
    map: Seq<u32>,
    src: (usize, usize),
    r: (usize, usize),
    k: int,
) -> bool {
    let level = grid_distance(src, r.0 as int, r.1 as int);
    &&& in_grid(width, height, src.0 as int, src.1 as int)
    &&& in_grid(width, height, r.0 as int, r.1 as int)
    &&& heat_at(t.heat, width, r.0 as int, r.1 as int) is Some
    &&& heat_at(t.heat, width, src.0 as int, src.1 as int) == Some(0u64)
    &&& predecessors_ok(t.heat, width, height, map, src)
    &&& expanded_ok(t, width, height, Some(r))
    &&& k > 0 ==> neighbour_reached(t.heat, width, height, r.0 as int, r.1 as int, -1, 0)
    &&& k > 1 ==> neighbour_reached(t.heat, width, height, r.0 as int, r.1 as int, 0, -1)
    &&& k > 2 ==> neighbour_reached(t.heat, width, height, r.0 as int, r.1 as int, 0, 1)
    &&& k > 3 ==> neighbour_reached(t.heat, width, height, r.0 as int, r.1 as int, 1, 0)
    &&& queue_within(t.queue, src, level)
    &&& queue_sorted(t.queue, src)
    &&& reached_below(t.heat, width, height, src, level)
    &&& closed_reached(t)
}

/// Looking at one more neighbour of `r` keeps the facts of `layered_mid`.
pub proof fn lemma_relax_layered(
    t: SearchState,
    width: int,
    height: int,
    map: Seq<u32>,
    src: (usize, usize),
    r: (usize, usize),
    k: int,
)
    requires
        width * height <= u32::MAX,
        map.len() == width * height,
        search_sound(t, width, height, src),
        reached_closed(t),
        layered_mid(t, width, height, map, src, r, k),
        0 <= k < 4,
    ensures
        ({
            let d = neighbour_offset(k);
            let u = relax(t, width, height, map, r, d.0, d.1);
            &&& search_sound(u, width, height, src)
            &&& reached_closed(u)
            &&& layered_mid(u, width, height, map, src, r, k + 1)
        }),
{
    let d = neighbour_offset(k);
    let u = relax(t, width, height, map, r, d.0, d.1);
    let level = grid_distance(src, r.0 as int, r.1 as int);
    lemma_cell_index_bounds(width, height, r.0 as int, r.1 as int);
    lemma_relax_sound(t, width, height, map, src, r, d.0, d.1);
    let cx = r.0 + d.0;
    let cy = r.1 + d.1;
    if u == t {
        if in_grid(width, height, cx, cy) {
            lemma_cell_index_bounds(width, height, cx, cy);
            reveal(closed_reached);
            assert(t.closed[cell_index(width, cx, cy)]);
        }
    } else {
        let ci = cell_index(width, cx, cy);
        lemma_cell_index_bounds(width, height, cx, cy);
        // the new tile lies one step further from the affector than r
        if grid_distance(src, cx, cy) < level {
            reveal(reached_below);
            assert(heat_at(t.heat, width, cx, cy) is Some);
        }
        assert(grid_distance(src, cx, cy) == level + 1);
        assert forall|x: int, y: int|
            in_grid(width, height, x, y) && (#[trigger] heat_at(u.heat, width, x, y)) is Some
                implies heat_at(t.heat, width, x, y) is Some || (x == cx && y == cy) by {
            lemma_cell_index_bounds(width, height, x, y);
            if cell_index(width, x, y) == ci {
                lemma_cell_index_injective(width, height, x, y, cx, cy);
            }
        }
        assert forall|x: int, y: int|
            in_grid(width, height, x, y) && (#[trigger] heat_at(t.heat, width, x, y)) is Some
                implies heat_at(u.heat, width, x, y) == heat_at(t.heat, width, x, y) by {
            lemma_cell_index_bounds(width, height, x, y);
        }
        assert(predecessors_ok(u.heat, width, height, map, src)) by {
            reveal(predecessors_ok);
            assert forall|x: int, y: int|
                in_grid(width, height, x, y) && (#[trigger] heat_at(u.heat, width, x, y)) is Some
                    && !(x == src.0 && y == src.1) implies has_predecessor(
                u.heat,
                width,
                height,
                map,
                src,
                x,
                y,
            ) by {
                lemma_cell_index_bounds(width, height, x, y);
                if x == cx && y == cy {
                    assert(reached_from(u.heat, width, height, map, src, x, y, r.0 as int, r.1 as int));
                } else {
                    assert(heat_at(t.heat, width, x, y) is Some);
                    assert(has_predecessor(t.heat, width, height, map, src, x, y));
                    let (px, py) = choose|px: int, py: int|
                        #[trigger] reached_from(t.heat, width, height, map, src, x, y, px, py);
                    assert(heat_at(u.heat, width, px, py) == heat_at(t.heat, width, px, py));
                    assert(reached_from(u.heat, width, height, map, src, x, y, px, py));
                }
            }
        }
        assert(expanded_ok(u, width, height, Some(r))) by {
            reveal(expanded_ok);
            assert forall|x: int, y: int|
                in_grid(width, height, x, y) && (#[trigger] heat_at(u.heat, width, x, y)) is Some
                    && !queued(u.queue, x, y) && !(Some(r) matches Some(rr) && x == rr.0 && y == rr.1)
                    implies neighbours_reached(u.heat, width, height, x, y) by {
                if x == cx && y == cy {
                    let j = t.queue.len() as int;
                    assert(u.queue[j] == (cx as usize, cy as usize));
                    assert(false);
                }
                assert(heat_at(t.heat, width, x, y) is Some);
                if queued(t.queue, x, y) {
                    let j = choose|j: int|
                        0 <= j < t.queue.len() && (#[trigger] t.queue[j]).0 == x && t.queue[j].1 == y;
                    assert(u.queue[j] == t.queue[j]);
                    assert(false);
                }
                assert(neighbours_reached(t.heat, width, height, x, y));
            }
        }
        assert(queue_within(u.queue, src, level)) by {
            reveal(queue_within);
            assert forall|j: int| 0 <= j < u.queue.len() implies level <= grid_distance(
                src,
                (#[trigger] u.queue[j]).0 as int,
                u.queue[j].1 as int,
            ) <= level + 1 by {
                if j < t.queue.len() {
                    assert(u.queue[j] == t.queue[j]);
                }
            }
        }
        assert(queue_sorted(u.queue, src)) by {
            reveal(queue_sorted);
            reveal(queue_within);
            assert forall|j1: int, j2: int| 0 <= j1 <= j2 < u.queue.len() implies grid_distance(
                src,
                (#[trigger] u.queue[j1]).0 as int,
                u.queue[j1].1 as int,
            ) <= grid_distance(src, (#[trigger] u.queue[j2]).0 as int, u.queue[j2].1 as int) by {
                if j2 < t.queue.len() {
                    assert(u.queue[j1] == t.queue[j1]);
                    assert(u.queue[j2] == t.queue[j2]);
                } else if j1 < t.queue.len() {
                    assert(u.queue[j1] == t.queue[j1]);
                }
            }
        }
        assert(reached_below(u.heat, width, height, src, level)) by {
            reveal(reached_below);
            assert forall|x: int, y: int|
                in_grid(width, height, x, y) && grid_distance(src, x, y) < level implies (
                #[trigger] heat_at(u.heat, width, x, y)) is Some by {
                assert(heat_at(t.heat, width, x, y) is Some);
                assert(heat_at(u.heat, width, x, y) == heat_at(t.heat, width, x, y));
            }
        }
        assert(closed_reached(u)) by {
            reveal(closed_reached);
        }
    }
}

/// Taking the oldest tile off the queue starts `layered_mid` for it.
pub proof fn lemma_pop_layered(
    s: SearchState,
    width: int,
    height: int,
    map: Seq<u32>,
    src: (usize, usize),
)
    requires
        search_sound(s, width, height, src),
        reached_closed_or_start(s, width, src),
        layered(s, width, height, map, src),
        s.queue.len() > 0,
    ensures
        layered_mid(pop_front(s, width), width, height, map, src, s.queue[0], 0),
{
    let r = s.queue[0];
    let s0 = pop_front(s, width);
    let level = grid_distance(src, r.0 as int, r.1 as int);
    lemma_pop_sound(s, width, height, src);
    assert(in_grid(width, height, r.0 as int, r.1 as int));
    assert(reached_below(s0.heat, width, height, src, level)) by {
        reveal(reached_below);
        assert forall|x: int, y: int|
            in_grid(width, height, x, y) && grid_distance(src, x, y) < level implies (
            #[trigger] heat_at(s0.heat, width, x, y)) is Some by {
            lemma_reached_before_front(s, width, height, src, x, y);
        }
    }
    assert(expanded_ok(s0, width, height, Some(r))) by {
        reveal(expanded_ok);
        assert forall|x: int, y: int|
            in_grid(width, height, x, y) && (#[trigger] heat_at(s0.heat, width, x, y)) is Some
                && !queued(s0.queue, x, y) && !(Some(r) matches Some(rr) && x == rr.0 && y == rr.1)
                implies neighbours_reached(s0.heat, width, height, x, y) by {
            if queued(s.queue, x, y) {
                let j = choose|j: int|
                    0 <= j < s.queue.len() && (#[trigger] s.queue[j]).0 == x && s.queue[j].1 == y;
                assert(j != 0);
                assert(s0.queue[j - 1] == s.queue[j]);
                assert(false);
            }
        }
    }
    assert(queue_within(s0.queue, src, level)) by {
        reveal(queue_within);
        assert forall|j: int| 0 <= j < s0.queue.len() implies level <= grid_distance(
            src,
            (#[trigger] s0.queue[j]).0 as int,
            s0.queue[j].1 as int,
        ) <= level + 1 by {
            assert(s0.queue[j] == s.queue[j + 1]);
        }
    }
    assert(queue_sorted(s0.queue, src)) by {
        reveal(queue_sorted);
        assert forall|j1: int, j2: int| 0 <= j1 <= j2 < s0.queue.len() implies grid_distance(
            src,
            (#[trigger] s0.queue[j1]).0 as int,
            s0.queue[j1].1 as int,
        ) <= grid_distance(src, (#[trigger] s0.queue[j2]).0 as int, s0.queue[j2].1 as int) by {
            assert(s0.queue[j1] == s.queue[j1 + 1]);
            assert(s0.queue[j2] == s.queue[j2 + 1]);
        }
    }
    assert(closed_reached(s0)) by {
        reveal(closed_reached);
    }
}

/// Once all four neighbours of `r` are looked at, the facts kept between
/// steps hold again.
pub proof fn lemma_mid_layered_end(
    t: SearchState,
    width: int,
    height: int,
    map: Seq<u32>,
    src: (usize, usize),
    r: (usize, usize),
)
    requires
        layered_mid(t, width, height, map, src, r, 4),
    ensures
        layered(t, width, height, map, src),
{
    assert(expanded_ok(t, width, height, None)) by {
        reveal(expanded_ok);
    }
    if t.queue.len() > 0 {
        let level = grid_distance(src, r.0 as int, r.1 as int);
        assert(queue_within(t.queue, src, grid_distance(src, t.queue[0].0 as int, t.queue[0].1 as int))) by {
            reveal(queue_within);
            reveal(queue_sorted);
            assert forall|j: int| 0 <= j < t.queue.len() implies grid_distance(
                src,
                t.queue[0].0 as int,
                t.queue[0].1 as int,
            ) <= grid_distance(src, (#[trigger] t.queue[j]).0 as int, t.queue[j].1 as int)
                <= grid_distance(src, t.queue[0].0 as int, t.queue[0].1 as int) + 1 by {
                assert(level <= grid_distance(src, t.queue[0].0 as int, t.queue[0].1 as int));
                assert(grid_distance(src, t.queue[j].0 as int, t.queue[j].1 as int) <= level + 1);
            }
        }
    }
}

pub proof fn lemma_start_layered(width: int, height: int, map: Seq<u32>, src: (usize, usize))
    requires
        in_grid(width, height, src.0 as int, src.1 as int),
    ensures
        layered(search_start(width, height, src), width, height, map, src),
{
    let s = search_start(width, height, src);
    let si = cell_index(width, src.0 as int, src.1 as int);
    lemma_cell_index_bounds(width, height, src.0 as int, src.1 as int);
    assert forall|x: int, y: int|
        in_grid(width, height, x, y) && (#[trigger] heat_at(s.heat, width, x, y)) is Some
            implies x == src.0 && y == src.1 by {
        lemma_cell_index_bounds(width, height, x, y);
        if cell_index(width, x, y) == si {
            lemma_cell_index_injective(width, height, x, y, src.0 as int, src.1 as int);
        }
    }
    assert(predecessors_ok(s.heat, width, height, map, src)) by {
        reveal(predecessors_ok);
    }
    assert(expanded_ok(s, width, height, None)) by {
        reveal(expanded_ok);
        assert forall|x: int, y: int|
            in_grid(width, height, x, y) && (#[trigger] heat_at(s.heat, width, x, y)) is Some
                && !queued(s.queue, x, y) && !(None::<(usize, usize)> matches Some(rr) && x == rr.0 && y == rr.1)
                implies neighbours_reached(s.heat, width, height, x, y) by {
            assert(s.queue[0] == src);
        }
    }
    assert(queue_sorted(s.queue, src)) by {
        reveal(queue_sorted);
    }
    assert(queue_within(s.queue, src, grid_distance(src, s.queue[0].0 as int, s.queue[0].1 as int))) by {
        reveal(queue_within);
    }
    assert(closed_reached(s)) by {
        reveal(closed_reached);
    }
}

pub proof fn lemma_step_layered(
    s: SearchState,
    width: int,
    height: int,
    map: Seq<u32>,
    src: (usize, usize),
)
    requires
        width * height <= u32::MAX,
        map.len() == width * height,
        search_sound(s, width, height, src),
        reached_closed_or_start(s, width, src),
        layered(s, width, height, map, src),
    ensures
        layered(search_step(s, width, height, map), width, height, map, src),
{
    if s.queue.len() > 0 {
        let r = s.queue[0];
        let s0 = pop_front(s, width);
        lemma_pop_sound(s, width, height, src);
        lemma_pop_layered(s, width, height, map, src);
        lemma_relax_layered(s0, width, height, map, src, r, 0);
        let s1 = relax_prefix(s0, width, height, map, r, 1);
        assert(s1 == relax(s0, width, height, map, r, -1, 0)) by {
            reveal_with_fuel(relax_prefix, 2);
        }
        lemma_relax_layered(s1, width, height, map, src, r, 1);
        let s2 = relax_prefix(s0, width, height, map, r, 2);
        assert(s2 == relax(s1, width, height, map, r, 0, -1));
        lemma_relax_layered(s2, width, height, map, src, r, 2);
        let s3 = relax_prefix(s0, width, height, map, r, 3);
        assert(s3 == relax(s2, width, height, map, r, 0, 1));
        lemma_relax_layered(s3, width, height, map, src, r, 3);
        let s4 = relax_prefix(s0, width, height, map, r, 4);
        assert(s4 == relax(s3, width, height, map, r, 1, 0));
        lemma_step_is_prefix(s, width, height, map);
        lemma_mid_layered_end(s4, width, height, map, src, r);
    }
}

pub proof fn lemma_run_layered(
    width: int,
    height: int,
    map: Seq<u32>,
    src: (usize, usize),
    n: nat,
)
    requires
        width * height <= u32::MAX,
        map.len() == width * height,
        in_grid(width, height, src.0 as int, src.1 as int),
    ensures
        layered(search_run(width, height, map, src, n), width, height, map, src),
    decreases n,
{
    lemma_cell_index_bounds(width, height, src.0 as int, src.1 as int);
    if n == 0 {
        lemma_start_layered(width, height, map, src);
    } else {
        lemma_run_layered(width, height, map, src, (n - 1) as nat);
        lemma_run_sound(width, height, map, src, (n - 1) as nat);
        lemma_step_layered(search_run(width, height, map, src, (n - 1) as nat), width, height, map, src);
    }
}

/// A finished search from an affector on the grid leaves a layered heat map.
pub proof fn lemma_finished_layered(
    width: int,
    height: int,
    map: Seq<u32>,
    src: (usize, usize),
    n: nat,
)
    requires
        width * height <= u32::MAX,
        map.len() == width * height,
        in_grid(width, height, src.0 as int, src.1 as int),
        search_run(width, height, map, src, n).queue.len() == 0,
    ensures
        is_layered_heatmap(search_run(width, height, map, src, n).heat, width, height, map, src),
{
    let s = search_run(width, height, map, src, n);
    lemma_run_layered(width, height, map, src, n);
    assert forall|x: int, y: int| in_grid(width, height, x, y) implies (#[trigger] heat_at(
        s.heat,
        width,
        x,
        y,
    )) is Some by {
        lemma_reached_before_front(s, width, height, src, x, y);
    }
    assert forall|x: int, y: int|
        in_grid(width, height, x, y) && !(x == src.0 && y == src.1) implies has_predecessor(
        s.heat,
        width,
        height,
        map,
        src,
        x,
        y,
    ) && #[trigger] heat_at(s.heat, width, x, y) is Some by {
        lemma_reached_before_front(s, width, height, src, x, y);
        reveal(predecessors_ok);
    }
}

/// With the same cost `c` on every tile, a layered heat map holds on each
/// tile its distance from the affector times `c + 1`.
pub proof fn lemma_uniform_cost_heat(
    heat: Seq<Option<u64>>,
    width: int,
    height: int,
    map: Seq<u32>,
    src: (usize, usize),
    c: u32,
    x: int,
    y: int,
)
    requires
        is_layered_heatmap(heat, width, height, map, src),
        map.len() == width * height,
        forall|i: int| 0 <= i < map.len() ==> map[i] == c,
        in_grid(width, height, x, y),
    ensures
        heat_at(heat, width, x, y) is Some,
        heat_at(heat, width, x, y)->0 == grid_distance(src, x, y) * (c + 1),
    decreases grid_distance(src, x, y),
{
    lemma_cell_index_bounds(width, height, x, y);
    assert(heat_at(heat, width, x, y) is Some);
    if x == src.0 && y == src.1 {
        assert(grid_distance(src, x, y) == 0);
        assert(0 * (c + 1) == 0);
    } else {
        assert(has_predecessor(heat, width, height, map, src, x, y));
        let (px, py) = choose|px: int, py: int|
            #[trigger] reached_from(heat, width, height, map, src, x, y, px, py);
        lemma_uniform_cost_heat(heat, width, height, map, src, c, px, py);
        let d = grid_distance(src, x, y);
        assert(map[cell_index(width, x, y)] == c);
        assert(grid_distance(src, px, py) == d - 1);
        assert(heat_at(heat, width, px, py)->0 == (d - 1) * (c + 1));
        assert(heat_at(heat, width, x, y)->0 == (d - 1) * (c + 1) + c + 1);
        assert((d - 1) * (c + 1) + c + 1 == d * (c + 1)) by (nonlinear_arith);
        assert(0 <= (d - 1) * (c + 1)) by (nonlinear_arith)
            requires
                d >= 1,
        ;
    }
}

/// The tile reached from `(x, y)` by following the direction field `n`
/// times.
pub open spec fn follow_field(field: Seq<(i32, i32)>, width: int, x: int, y: int, n: nat) -> (int, int)
    decreases n,
{
    if n == 0 {
        (x, y)
    } else {
        let d = field[cell_index(width, x, y)];
        follow_field(field, width, x + d.0, y + d.1, (n - 1) as nat)
    }
}

/// On a layered heat map, the steepest direction of every tile other than
/// the affector leads to a neighbour on the grid with strictly less heat.
pub proof fn lemma_field_descends(
    heat: Seq<Option<u64>>,
    field: Seq<(i32, i32)>,
    width: int,
    height: int,
    map: Seq<u32>,
    src: (usize, usize),
    x: int,
    y: int,
)
    requires
        is_layered_heatmap(heat, width, height, map, src),
        is_steepest_field(heat, field, width, height),
        in_grid(width, height, x, y),
        !(x == src.0 && y == src.1),
    ensures
        ({
            let d = field[cell_index(width, x, y)];
            &&& is_offset(d.0 as int, d.1 as int)
            &&& in_grid(width, height, x + d.0, y + d.1)
            &&& heat_at(heat, width, x + d.0, y + d.1) is Some
            &&& heat_at(heat, width, x + d.0, y + d.1)->0 < heat_at(heat, width, x, y)->0
        }),
{
    let d = field[cell_index(width, x, y)];
    assert(heat_at(heat, width, x, y) is Some);
    assert(has_predecessor(heat, width, height, map, src, x, y));
    let (px, py) = choose|px: int, py: int|
        #[trigger] reached_from(heat, width, height, map, src, x, y, px, py);
    assert(is_offset(px - x, py - y));
    assert(neighbour_heat(heat, width, height, x, y, px - x, py - y) is Some);
    assert(is_steepest_direction(heat, width, height, x, y, d));
}

/// On a layered heat map with its steepest direction field, following the
/// field from any tile reaches the affector within as many moves as the
/// tile's heat.
pub proof fn lemma_field_reaches_affector(
    heat: Seq<Option<u64>>,
    field: Seq<(i32, i32)>,
    width: int,
    height: int,
    map: Seq<u32>,
    src: (usize, usize),
    x: int,
    y: int,
) -> (n: nat)
    requires
        is_layered_heatmap(heat, width, height, map, src),
        is_steepest_field(heat, field, width, height),
        in_grid(width, height, x, y),
    ensures
        heat_at(heat, width, x, y) is Some,
        n <= heat_at(heat, width, x, y)->0,
        follow_field(field, width, x, y, n) == (src.0 as int, src.1 as int),
    decreases heat_at(heat, width, x, y)->0,
{
    assert(heat_at(heat, width, x, y) is Some);
    if x == src.0 && y == src.1 {
        0
    } else {
        lemma_field_descends(heat, field, width, height, map, src, x, y);
        let d = field[cell_index(width, x, y)];
        let m = lemma_field_reaches_affector(heat, field, width, height, map, src, x + d.0, y + d.1);
        assert(follow_field(field, width, x, y, m + 1) == follow_field(
            field,
            width,
            x + d.0,
            y + d.1,
            m,
        ));
        m + 1
    }
}

} // verus!
