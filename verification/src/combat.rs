//! Health and projectile hits.
use vstd::prelude::*;

verus! {

#[derive(Clone, Copy, Debug, PartialEq, Eq)]
pub struct Health {
    pub health: i32,
    pub healthmax: i32,
}

impl Health {
    /// Takes `damage_amount` off the health.
    pub fn damage(&mut self, damage_amount: i32)
        requires
            i32::MIN <= old(self).health - damage_amount <= i32::MAX,
        ensures
            final(self).health == old(self).health - damage_amount,
            final(self).healthmax == old(self).healthmax,
    {
        self.health -= damage_amount;
    }

    /// Whether the health has run out: an entity in this state is removed
    /// and leaves blood behind.
    pub fn is_depleted(&self) -> (dead: bool)
        ensures
            dead == (self.health <= 0),
    {
        self.health <= 0
    }
}

/// The first enemy, by index, that a projectile overlaps (`row[e]` tells
/// whether it overlaps enemy `e`), searching from index `from`.
pub open spec fn first_hit_from(row: Seq<bool>, from: int) -> Option<int>
    decreases row.len() - from,
{
    if from < 0 || from >= row.len() {
        None
    } else if row[from] {
        Some(from)
    } else {
        first_hit_from(row, from + 1)
    }
}

/// The overlap rows as plain sequences.
pub open spec fn overlap_rows(overlaps: Seq<Vec<bool>>) -> Seq<Seq<bool>> {
    overlaps.map_values(|r: Vec<bool>| r@)
}

/// The enemy a projectile hits: the first one it overlaps.
pub open spec fn first_hit(row: Seq<bool>) -> Option<int> {
    first_hit_from(row, 0)
}

/// Damage that the first `k` projectiles deal to enemy `e`.
pub open spec fn damage_dealt(damages: Seq<i32>, overlaps: Seq<Seq<bool>>, e: int, k: int) -> int
    decreases k,
{
    if k <= 0 {
        0
    } else {
        damage_dealt(damages, overlaps, e, k - 1) + if first_hit(overlaps[k - 1]) == Some(e) {
            damages[k - 1] as int
        } else {
            0
        }
    }
}

pub proof fn lemma_first_hit_from(row: Seq<bool>, from: int)
    requires
        0 <= from <= row.len(),
    ensures
        first_hit_from(row, from) matches Some(e) ==> from <= e < row.len() && row[e] && forall|
            v: int,
        | from <= v < e ==> !row[v],
        first_hit_from(row, from) is None ==> forall|v: int| from <= v < row.len() ==> !row[v],
    decreases row.len() - from,
{
    if from < row.len() && !row[from] {
        lemma_first_hit_from(row, from + 1);
    }
}

/// Enemy `e` is the first enemy that the projectile with overlap row `row`
/// overlaps.
pub open spec fn is_first_overlap(row: Seq<bool>, e: int) -> bool {
    &&& 0 <= e < row.len()
    &&& row[e]
    &&& forall|v: int| 0 <= v < e ==> !row[v]
}

/// The sum of a sequence of integers.
pub open spec fn sum_ints(s: Seq<int>) -> int
    decreases s.len(),
{
    if s.len() == 0 {
        0
    } else {
        sum_ints(s.drop_last()) + s.last()
    }
}

/// For each of the first `k` projectiles, its damage when enemy `e` is the
/// first enemy it overlaps, and zero otherwise.
pub open spec fn damages_landing_on(damages: Seq<i32>, rows: Seq<Seq<bool>>, e: int, k: int) -> Seq<int> {
    Seq::new(
        k as nat,
        |p: int|
            if is_first_overlap(rows[p], e) {
                damages[p] as int
            } else {
                0
            },
    )
}

pub proof fn lemma_first_hit_is_first_overlap(row: Seq<bool>, e: int)
    ensures
        (first_hit(row) == Some(e)) == is_first_overlap(row, e),
{
    lemma_first_hit_from(row, 0);
    if first_hit(row) is Some {
        let f = first_hit(row)->0;
        if is_first_overlap(row, e) && f != e {
            if f < e {
                assert(!row[f]);
            } else {
                assert(!row[e]);
            }
        }
    }
}

pub proof fn lemma_damage_dealt_is_sum(damages: Seq<i32>, rows: Seq<Seq<bool>>, e: int, k: int)
    requires
        0 <= k <= damages.len(),
        k <= rows.len(),
    ensures
        damage_dealt(damages, rows, e, k) == sum_ints(damages_landing_on(damages, rows, e, k)),
    decreases k,
{
    if k > 0 {
        lemma_damage_dealt_is_sum(damages, rows, e, k - 1);
        lemma_first_hit_is_first_overlap(rows[k - 1], e);
        assert(damages_landing_on(damages, rows, e, k).drop_last() =~= damages_landing_on(
            damages,
            rows,
            e,
            k - 1,
        ));
    }
}

/// Resolves the hits of one frame. Projectile `p` deals `damages[p]`, and
/// `overlaps[p][e]` tells whether it overlaps enemy `e`. Each projectile, in
/// turn, hits the first enemy it overlaps, takes its damage off that
/// enemy's health and is used up; a projectile that overlaps no enemy
/// flies on. Returns, for each projectile, whether it was used up.
pub fn resolve_projectile_hits(
    damages: &Vec<i32>,
    overlaps: &Vec<Vec<bool>>,
    healths: &mut Vec<Health>,
) -> (used: Vec<bool>)
    requires
        overlaps.len() == damages.len(),
        forall|p: int| 0 <= p < overlaps.len() ==> (#[trigger] overlaps@[p]).len() == old(healths).len(),
        forall|e: int, k: int|
            0 <= e < old(healths).len() && 0 <= k <= damages.len() ==> i32::MIN <= old(healths)@[e].health
                - #[trigger] damage_dealt(damages@, overlap_rows(overlaps@), e, k)
                <= i32::MAX,
    ensures
        final(healths).len() == old(healths).len(),
        used.len() == damages.len(),
        forall|p: int|
            0 <= p < damages.len() ==> #[trigger] used@[p] == first_hit(overlaps@[p]@) is Some,
        forall|e: int|
            0 <= e < old(healths).len() ==> {
                &&& #[trigger] final(healths)@[e].health == old(healths)@[e].health - damage_dealt(
                    damages@,
                    overlap_rows(overlaps@),
                    e,
                    damages.len() as int,
                )
                &&& final(healths)@[e].healthmax == old(healths)@[e].healthmax
            },
        // a projectile is used up exactly when it overlaps some enemy
        forall|p: int|
            0 <= p < damages.len() ==> (#[trigger] used@[p] <==> exists|e: int|
                0 <= e < old(healths).len() && #[trigger] overlaps@[p]@[e]),
        // each enemy loses the damage of exactly the projectiles whose first
        // overlapped enemy it is
        forall|e: int|
            0 <= e < old(healths).len() ==> #[trigger] final(healths)@[e].health == old(
                healths,
            )@[e].health - sum_ints(
                damages_landing_on(damages@, overlap_rows(overlaps@), e, damages.len() as int),
            ),
{
    let ghost rows = overlap_rows(overlaps@);
    let mut used: Vec<bool> = Vec::new();
    let n = damages.len();
    let mut p: usize = 0;
    while p < n
        invariant
            n == damages.len(),
            p <= n,
            overlaps.len() == n,
            rows == overlap_rows(overlaps@),
            forall|q: int| 0 <= q < overlaps.len() ==> (#[trigger] overlaps@[q]).len() == old(healths).len(),
            forall|e: int, k: int|
                0 <= e < old(healths).len() && 0 <= k <= damages.len() ==> i32::MIN <= old(
                    healths,
                )@[e].health - #[trigger] damage_dealt(damages@, rows, e, k) <= i32::MAX,
            healths.len() == old(healths).len(),
            used.len() == p,
            forall|q: int| 0 <= q < p ==> #[trigger] used@[q] == first_hit(overlaps@[q]@) is Some,
            forall|e: int|
                0 <= e < old(healths).len() ==> {
                    &&& #[trigger] healths@[e].health == old(healths)@[e].health - damage_dealt(
                        damages@,
                        rows,
                        e,
                        p as int,
                    )
                    &&& healths@[e].healthmax == old(healths)@[e].healthmax
                },
        decreases n - p,
    {
        let ghost before = healths@;
        let row = &overlaps[p];
        let m = healths.len();
        let mut hit = false;
        let mut e: usize = 0;
        proof {
            lemma_first_hit_from(row@, 0);
            assert(rows[p as int] == row@);
        }
        while e < m
            invariant_except_break
                !hit,
            invariant
                m == healths.len(),
                row@.len() == m,
                e <= m,
                forall|v: int| 0 <= v < e ==> !row@[v],
            ensures
                hit ==> e < m && row@[e as int],
                !hit ==> e == m,
            decreases m - e,
        {
            if row[e] {
                hit = true;
                break;
            }
            e = e + 1;
        }
        proof {
            lemma_first_hit_from(row@, 0);
        }
        assert(hit ==> first_hit(row@) == Some(e as int));
        assert(!hit ==> first_hit(row@) is None);
        if hit {
            proof {
                assert(damage_dealt(damages@, rows, e as int, p + 1) == damage_dealt(
                    damages@,
                    rows,
                    e as int,
                    p as int,
                ) + damages@[p as int]);
            }
            let mut h = healths[e];
            h.damage(damages[p]);
            healths.set(e, h);
        }
        used.push(hit);
        proof {
            assert forall|f: int| 0 <= f < old(healths).len() implies {
                &&& #[trigger] healths@[f].health == old(healths)@[f].health - damage_dealt(
                    damages@,
                    rows,
                    f,
                    p + 1,
                )
                &&& healths@[f].healthmax == old(healths)@[f].healthmax
            } by {
                assert(rows[p as int] == row@);
                assert(before[f].health == old(healths)@[f].health - damage_dealt(damages@, rows, f, p as int));
                assert(before[f].healthmax == old(healths)@[f].healthmax);
                if hit && f == e {
                    assert(healths@[f].health == before[f].health - damages@[p as int]);
                    assert(healths@[f].healthmax == before[f].healthmax);
                } else {
                    assert(healths@[f] == before[f]);
                }
                assert(damage_dealt(damages@, rows, f, p + 1) == damage_dealt(damages@, rows, f, p as int)
                    + if first_hit(rows[p as int]) == Some(f) {
                    damages@[p as int] as int
                } else {
                    0
                });
            }
        }
        p = p + 1;
    }
    proof {
        assert forall|q: int| 0 <= q < n implies (#[trigger] used@[q] <==> exists|e: int|
            0 <= e < old(healths).len() && #[trigger] overlaps@[q]@[e]) by {
            lemma_first_hit_from(overlaps@[q]@, 0);
        }
        assert forall|e: int| 0 <= e < old(healths).len() implies #[trigger] healths@[e].health
            == old(healths)@[e].health - sum_ints(
            damages_landing_on(damages@, rows, e, n as int),
        ) by {
            lemma_damage_dealt_is_sum(damages@, rows, e, n as int);
        }
    }
    used
}

} // verus!
