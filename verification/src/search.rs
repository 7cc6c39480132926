//! The breadth-first search that fills the heat map, stated step by step
//! over plain sequences, with the facts each step keeps.
use vstd::prelude::*;
use crate::navigation::{cell_index, in_grid, lemma_cell_index_bounds};

verus! {

/// Room one tile may add to an accumulated cost: a `u32` tile cost plus one.
pub open spec fn step_room() -> int {
    0x1_0000_0000
}

/// The search between two steps: the open tiles in the order they will be
/// expanded, the closed flags and the heat found so far, both by index.
pub struct SearchState {
    pub queue: Seq<(usize, usize)>,
    pub closed: Seq<bool>,
    pub heat: Seq<Option<u64>>,
}

/// Number of reached tiles.
pub open spec fn count_reached(heat: Seq<Option<u64>>) -> nat
    decreases heat.len(),
{
    if heat.len() == 0 {
        0
    } else {
        count_reached(heat.drop_last()) + if heat.last() is Some {
            1nat
        } else {
            0nat
        }
    }
}

/// Number of open (not closed) tiles.
pub open spec fn count_open(closed: Seq<bool>) -> nat
    decreases closed.len(),
{
    if closed.len() == 0 {
        0
    } else {
        count_open(closed.drop_last()) + if closed.last() {
            0nat
        } else {
            1nat
        }
    }
}

pub proof fn lemma_count_reached_bound(heat: Seq<Option<u64>>)
    ensures
        count_reached(heat) <= heat.len(),
    decreases heat.len(),
{
    if heat.len() > 0 {
        lemma_count_reached_bound(heat.drop_last());
    }
}

pub proof fn lemma_count_reached_update(heat: Seq<Option<u64>>, i: int, v: u64)
    requires
        0 <= i < heat.len(),
        heat[i] is None,
    ensures
        count_reached(heat.update(i, Some(v))) == count_reached(heat) + 1,
    decreases heat.len(),
{
    let new = heat.update(i, Some(v));
    if i == heat.len() - 1 {
        assert(new.drop_last() =~= heat.drop_last());
    } else {
        lemma_count_reached_update(heat.drop_last(), i, v);
        assert(new.drop_last() =~= heat.drop_last().update(i, Some(v)));
    }
}

pub proof fn lemma_count_open_update(closed: Seq<bool>, i: int)
    requires
        0 <= i < closed.len(),
    ensures
        count_open(closed.update(i, true)) == count_open(closed) - if closed[i] {
            0int
        } else {
            1int
        },
    decreases closed.len(),
{
    let new = closed.update(i, true);
    if i == closed.len() - 1 {
        assert(new.drop_last() =~= closed.drop_last());
    } else {
        lemma_count_open_update(closed.drop_last(), i);
        assert(new.drop_last() =~= closed.drop_last().update(i, true));
    }
}

/// The search before its first step: the affector is the one open tile,
/// its heat is zero, every other tile is unreached and nothing is closed.
pub open spec fn search_start(width: int, height: int, src: (usize, usize)) -> SearchState {
    SearchState {
        queue: seq![src],
        closed: Seq::new((width * height) as nat, |i: int| false),
        heat: Seq::new((width * height) as nat, |i: int| None::<u64>).update(
            cell_index(width, src.0 as int, src.1 as int),
            Some(0u64),
        ),
    }
}

/// Looks at the neighbour `(dx, dy)` of the expanded tile `r`: a tile inside
/// the grid that is not closed gets the heat of `r` plus its own cost plus
/// one, when it has none yet, has zero, or had more; it is then closed and
/// queued.
pub open spec fn relax(
    s: SearchState,
    width: int,
    height: int,
    map: Seq<u32>,
    r: (usize, usize),
    dx: int,
    dy: int,
) -> SearchState {
    let cx = r.0 + dx;
    let cy = r.1 + dy;
    if !in_grid(width, height, cx, cy) {
        s
    } else {
        let ci = cell_index(width, cx, cy);
        if s.closed[ci] {
            s
        } else {
            let new_value = s.heat[cell_index(width, r.0 as int, r.1 as int)]->0 + map[ci] + 1;
            let better = match s.heat[ci] {
                None => true,
                Some(old) => old == 0 || old > new_value,
            };
            if better {
                SearchState {
                    queue: s.queue.push((cx as usize, cy as usize)),
                    closed: s.closed.update(ci, true),
                    heat: s.heat.update(ci, Some(new_value as u64)),
                }
            } else {
                s
            }
        }
    }
}

/// Takes the oldest open tile off the queue and closes it.
pub open spec fn pop_front(s: SearchState, width: int) -> SearchState {
    let r = s.queue[0];
    SearchState {
        queue: s.queue.drop_first(),
        closed: s.closed.update(cell_index(width, r.0 as int, r.1 as int), true),
        heat: s.heat,
    }
}

/// One step of the search: expand the oldest open tile, looking at its
/// neighbours to the left, below, above and to the right, in that order.
/// With nothing open the search is finished and stays as it is.
pub open spec fn search_step(s: SearchState, width: int, height: int, map: Seq<u32>) -> SearchState {
    if s.queue.len() == 0 {
        s
    } else {
        let r = s.queue[0];
        let s0 = pop_front(s, width);
        let s1 = relax(s0, width, height, map, r, -1, 0);
        let s2 = relax(s1, width, height, map, r, 0, -1);
        let s3 = relax(s2, width, height, map, r, 0, 1);
        relax(s3, width, height, map, r, 1, 0)
    }
}

/// The search after `n` steps from the affector `src`.
pub open spec fn search_run(
    width: int,
    height: int,
    map: Seq<u32>,
    src: (usize, usize),
    n: nat,
) -> SearchState
    decreases n,
{
    if n == 0 {
        search_start(width, height, src)
    } else {
        search_step(search_run(width, height, map, src, (n - 1) as nat), width, height, map)
    }
}

/// The heat map that the search from `src` leaves once nothing is open.
pub open spec fn is_search_result(
    width: int,
    height: int,
    map: Seq<u32>,
    src: (usize, usize),
    heat: Seq<Option<u64>>,
) -> bool {
    exists|n: nat|
        {
            let s = #[trigger] search_run(width, height, map, src, n);
            s.queue.len() == 0 && s.heat == heat
        }
}

/// Facts every state of the search keeps, whatever the affector: the
/// sizes, where queued tiles lie, and a bound on every heat that keeps
/// the sums inside `u64`.
pub open spec fn search_sound(s: SearchState, width: int, height: int, src: (usize, usize)) -> bool {
    &&& s.closed.len() == width * height
    &&& s.heat.len() == width * height
    &&& 0 <= cell_index(width, src.0 as int, src.1 as int) < width * height
    &&& count_reached(s.heat) >= 1
    &&& forall|j: int|
        0 <= j < s.queue.len() ==> {
            let q = #[trigger] s.queue[j];
            &&& (q == src || in_grid(width, height, q.0 as int, q.1 as int))
            &&& s.heat[cell_index(width, q.0 as int, q.1 as int)] is Some
        }
    &&& forall|i: int|
        0 <= i < s.heat.len() && (#[trigger] s.heat[i]) is Some ==> s.heat[i]->0 <= (count_reached(
            s.heat,
        ) - 1) * step_room()
}

/// Every reached tile is closed.
pub open spec fn reached_closed(s: SearchState) -> bool {
    forall|i: int| 0 <= i < s.heat.len() && (#[trigger] s.heat[i]) is Some ==> s.closed[i]
}

/// Between steps a reached tile is closed, unless the search has not made
/// its first step yet.
pub open spec fn reached_closed_or_start(s: SearchState, width: int, src: (usize, usize)) -> bool {
    forall|i: int|
        0 <= i < s.heat.len() && (#[trigger] s.heat[i]) is Some && !s.closed[i] ==> i == cell_index(
            width,
            src.0 as int,
            src.1 as int,
        ) && s.queue == seq![src]
}

/// The measure that every step of the search lowers.
pub open spec fn search_measure(s: SearchState) -> int {
    2 * count_open(s.closed) + s.queue.len() as int
}

pub proof fn lemma_relax_sound(
    s: SearchState,
    width: int,
    height: int,
    map: Seq<u32>,
    src: (usize, usize),
    r: (usize, usize),
    dx: int,
    dy: int,
)
    requires
        width * height <= u32::MAX,
        map.len() == width * height,
        search_sound(s, width, height, src),
        reached_closed(s),
        0 <= cell_index(width, r.0 as int, r.1 as int) < width * height,
        s.heat[cell_index(width, r.0 as int, r.1 as int)] is Some,
        -1 <= dx <= 1,
        -1 <= dy <= 1,
    ensures
        ({
            let t = relax(s, width, height, map, r, dx, dy);
            &&& search_sound(t, width, height, src)
            &&& reached_closed(t)
            &&& search_measure(t) <= search_measure(s)
            &&& t.queue.len() >= s.queue.len()
            &&& forall|j: int| 0 <= j < s.queue.len() ==> t.queue[j] == s.queue[j]
            &&& forall|i: int|
                0 <= i < s.heat.len() && s.heat[i] is Some ==> #[trigger] t.heat[i] == s.heat[i]
            &&& t == s || {
                let cx = r.0 + dx;
                let cy = r.1 + dy;
                let ci = cell_index(width, cx, cy);
                &&& in_grid(width, height, cx, cy)
                &&& s.heat[ci] is None
                &&& !s.closed[ci]
                &&& t.queue == s.queue.push((cx as usize, cy as usize))
                &&& (cx as usize) as int == cx
                &&& (cy as usize) as int == cy
                &&& t.closed == s.closed.update(ci, true)
                &&& t.heat.len() == s.heat.len()
                &&& t.heat[ci] is Some
                &&& t.heat[ci]->0 == s.heat[cell_index(width, r.0 as int, r.1 as int)]->0 + map[ci] + 1
                &&& t.heat == s.heat.update(ci, t.heat[ci])
            }
        }),
{
    let t = relax(s, width, height, map, r, dx, dy);
    let cx = r.0 + dx;
    let cy = r.1 + dy;
    if in_grid(width, height, cx, cy) {
        let ci = cell_index(width, cx, cy);
        lemma_cell_index_bounds(width, height, cx, cy);
        if !s.closed[ci] {
            assert(s.heat[ci] is None);
            let new_value = s.heat[cell_index(width, r.0 as int, r.1 as int)]->0 + map[ci] + 1;
            let n = count_reached(s.heat);
            lemma_count_reached_bound(s.heat);
            // an unreached tile exists, so fewer than all tiles are reached
            if n == s.heat.len() {
                lemma_count_reached_full(s.heat, ci);
            }
            assert(new_value <= n * step_room());
            assert(n * step_room() < u64::MAX) by (nonlinear_arith)
                requires
                    n < width * height,
                    width * height <= u32::MAX,
                    step_room() == 0x1_0000_0000,
            ;
            lemma_count_reached_update(s.heat, ci, new_value as u64);
            assert(cx <= width * height && cy <= width * height) by (nonlinear_arith)
                requires
                    0 <= cx < width,
                    0 <= cy < height,
            ;
            lemma_count_open_update(s.closed, ci);
            assert forall|j: int| 0 <= j < t.queue.len() implies {
                let q = #[trigger] t.queue[j];
                &&& (q == src || in_grid(width, height, q.0 as int, q.1 as int))
                &&& t.heat[cell_index(width, q.0 as int, q.1 as int)] is Some
            } by {
                if j < s.queue.len() {
                    assert(t.queue[j] == s.queue[j]);
                    let q = s.queue[j];
                    if q != src {
                        lemma_cell_index_bounds(width, height, q.0 as int, q.1 as int);
                    }
                } else {
                    assert(cx <= width * height) by (nonlinear_arith)
                        requires
                            0 <= cx < width,
                            0 <= cy < height,
                    ;
                    assert(cy <= width * height) by (nonlinear_arith)
                        requires
                            0 <= cx < width,
                            0 <= cy < height,
                    ;
                    assert(t.queue[j] == (cx as usize, cy as usize));
                    assert((cx as usize) as int == cx);
                    assert((cy as usize) as int == cy);
                }
            }
        }
    }
}

/// A sequence of options with every entry reached has as many reached
/// entries as entries; so an unreached one leaves the count below the length.
pub proof fn lemma_count_reached_full(heat: Seq<Option<u64>>, i: int)
    requires
        0 <= i < heat.len(),
        heat[i] is None,
    ensures
        count_reached(heat) < heat.len(),
    decreases heat.len(),
{
    if i == heat.len() - 1 {
        lemma_count_reached_bound(heat.drop_last());
    } else {
        lemma_count_reached_full(heat.drop_last(), i);
    }
}

pub proof fn lemma_count_reached_none(n: nat)
    ensures
        count_reached(Seq::new(n, |i: int| None::<u64>)) == 0,
    decreases n,
{
    if n > 0 {
        lemma_count_reached_none((n - 1) as nat);
        assert(Seq::new(n, |i: int| None::<u64>).drop_last() =~= Seq::new(
            (n - 1) as nat,
            |i: int| None::<u64>,
        ));
    }
}

pub proof fn lemma_start_sound(width: int, height: int, src: (usize, usize))
    requires
        0 <= width,
        0 <= height,
        0 <= cell_index(width, src.0 as int, src.1 as int) < width * height,
    ensures
        search_sound(search_start(width, height, src), width, height, src),
        reached_closed_or_start(search_start(width, height, src), width, src),
{
    let s = search_start(width, height, src);
    let n = (width * height) as nat;
    lemma_count_reached_none(n);
    lemma_count_reached_update(
        Seq::new(n, |i: int| None::<u64>),
        cell_index(width, src.0 as int, src.1 as int),
        0u64,
    );
}

pub proof fn lemma_pop_sound(s: SearchState, width: int, height: int, src: (usize, usize))
    requires
        search_sound(s, width, height, src),
        reached_closed_or_start(s, width, src),
        s.queue.len() > 0,
    ensures
        ({
            let r = s.queue[0];
            let s0 = pop_front(s, width);
            &&& search_sound(s0, width, height, src)
            &&& reached_closed(s0)
            &&& 0 <= cell_index(width, r.0 as int, r.1 as int) < width * height
            &&& s0.heat[cell_index(width, r.0 as int, r.1 as int)] is Some
            &&& search_measure(s0) < search_measure(s)
        }),
{
    let r = s.queue[0];
    let ri = cell_index(width, r.0 as int, r.1 as int);
    if r != src {
        lemma_cell_index_bounds(width, height, r.0 as int, r.1 as int);
    }
    let s0 = pop_front(s, width);
    lemma_count_open_update(s.closed, ri);
    assert(search_sound(s0, width, height, src)) by {
        assert forall|j: int| 0 <= j < s0.queue.len() implies {
            let q = #[trigger] s0.queue[j];
            &&& (q == src || in_grid(width, height, q.0 as int, q.1 as int))
            &&& s0.heat[cell_index(width, q.0 as int, q.1 as int)] is Some
        } by {
            assert(s0.queue[j] == s.queue[j + 1]);
            let q = s.queue[j + 1];
            if q != src {
                lemma_cell_index_bounds(width, height, q.0 as int, q.1 as int);
            }
        }
    }
    assert(reached_closed(s0));
}

pub proof fn lemma_step_sound(
    s: SearchState,
    width: int,
    height: int,
    map: Seq<u32>,
    src: (usize, usize),
)
    requires
        width * height <= u32::MAX,
        map.len() == width * height,
        search_sound(s, width, height, src),
        reached_closed_or_start(s, width, src),
    ensures
        ({
            let t = search_step(s, width, height, map);
            &&& search_sound(t, width, height, src)
            &&& reached_closed_or_start(t, width, src)
            &&& s.queue.len() > 0 ==> search_measure(t) < search_measure(s)
        }),
{
    if s.queue.len() > 0 {
        let r = s.queue[0];
        let s0 = pop_front(s, width);
        lemma_pop_sound(s, width, height, src);
        let s1 = relax(s0, width, height, map, r, -1, 0);
        lemma_relax_sound(s0, width, height, map, src, r, -1, 0);
        let s2 = relax(s1, width, height, map, r, 0, -1);
        lemma_relax_sound(s1, width, height, map, src, r, 0, -1);
        let s3 = relax(s2, width, height, map, r, 0, 1);
        lemma_relax_sound(s2, width, height, map, src, r, 0, 1);
        lemma_relax_sound(s3, width, height, map, src, r, 1, 0);
    }
}

pub proof fn lemma_run_sound(width: int, height: int, map: Seq<u32>, src: (usize, usize), n: nat)
    requires
        0 <= width,
        0 <= height,
        width * height <= u32::MAX,
        map.len() == width * height,
        0 <= cell_index(width, src.0 as int, src.1 as int) < width * height,
    ensures
        search_sound(search_run(width, height, map, src, n), width, height, src),
        reached_closed_or_start(search_run(width, height, map, src, n), width, src),
    decreases n,
{
    if n == 0 {
        lemma_start_sound(width, height, src);
    } else {
        lemma_run_sound(width, height, map, src, (n - 1) as nat);
        lemma_step_sound(search_run(width, height, map, src, (n - 1) as nat), width, height, map, src);
    }
}

/// The offsets looked at when a tile is expanded, in order: left, below,
/// above, right.
pub open spec fn neighbour_offset(k: int) -> (int, int) {
    if k == 0 {
        (-1, 0)
    } else if k == 1 {
        (0, -1)
    } else if k == 2 {
        (0, 1)
    } else {
        (1, 0)
    }
}

/// The state after looking at the first `k` neighbours of `r`.
pub open spec fn relax_prefix(
    s: SearchState,
    width: int,
    height: int,
    map: Seq<u32>,
    r: (usize, usize),
    k: int,
) -> SearchState
    decreases k,
{
    if k <= 0 {
        s
    } else {
        let d = neighbour_offset(k - 1);
        relax(relax_prefix(s, width, height, map, r, k - 1), width, height, map, r, d.0, d.1)
    }
}

pub proof fn lemma_step_is_prefix(s: SearchState, width: int, height: int, map: Seq<u32>)
    requires
        s.queue.len() > 0,
    ensures
        search_step(s, width, height, map) == relax_prefix(
            pop_front(s, width),
            width,
            height,
            map,
            s.queue[0],
            4,
        ),
{
    reveal_with_fuel(relax_prefix, 5);
}

/// Once nothing is queued the search stays where it is.
pub proof fn lemma_run_settled(
    width: int,
    height: int,
    map: Seq<u32>,
    src: (usize, usize),
    n: nat,
    m: nat,
)
    requires
        n <= m,
        search_run(width, height, map, src, n).queue.len() == 0,
    ensures
        search_run(width, height, map, src, m) == search_run(width, height, map, src, n),
    decreases m - n,
{
    if n < m {
        lemma_run_settled(width, height, map, src, n, (m - 1) as nat);
    }
}

/// The heat map a search leaves depends only on the grid size, the tile
/// costs and the affector: two finished searches leave the same heat map.
pub proof fn lemma_search_result_unique(
    width: int,
    height: int,
    map: Seq<u32>,
    src: (usize, usize),
    heat1: Seq<Option<u64>>,
    heat2: Seq<Option<u64>>,
)
    requires
        is_search_result(width, height, map, src, heat1),
        is_search_result(width, height, map, src, heat2),
    ensures
        heat1 == heat2,
{
    let n1 = choose|n: nat|
        {
            let s = #[trigger] search_run(width, height, map, src, n);
            s.queue.len() == 0 && s.heat == heat1
        };
    let n2 = choose|n: nat|
        {
            let s = #[trigger] search_run(width, height, map, src, n);
            s.queue.len() == 0 && s.heat == heat2
        };
    if n1 <= n2 {
        lemma_run_settled(width, height, map, src, n1, n2);
    } else {
        lemma_run_settled(width, height, map, src, n2, n1);
    }
}

} // verus!
