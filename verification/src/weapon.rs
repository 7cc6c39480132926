//! Weapons lying around or carried, and the holders that pick them up.
//! Entities are named by their `u64` ids.
use vstd::prelude::*;
use crate::timing::{cooldown_elapsed, elapsed};

verus! {

/// A weapon: which settings it uses, when it last fired (nanoseconds),
/// whether its holder wants it to fire, and who carries it.
#[derive(Clone, Copy, Debug, PartialEq, Eq)]
pub struct Weapon {
    pub settings: usize,
    pub timer_shoot: u64,
    pub request_shoot: bool,
    pub owner: Option<u64>,
}

/// Something that can carry a weapon: whether it wants to pick one up,
/// and the weapon it carries.
#[derive(Clone, Copy, Debug, PartialEq, Eq)]
pub struct WeaponHolder {
    pub request_pickup: bool,
    pub weapon: Option<u64>,
}

impl Weapon {
    /// Whether the weapon fires this frame: its holder asks for it, the
    /// frame clock has ticked, and more than `firerate` nanoseconds have
    /// passed since it last fired; when it fires, that time becomes `now`.
    pub fn try_fire(&mut self, now: Option<u64>, firerate: u64) -> (fired: bool)
        ensures
            fired == (old(self).request_shoot && (now matches Some(t) && elapsed(
                t,
                old(self).timer_shoot,
            ) > firerate)),
            fired == (old(self).request_shoot && now is Some && now->0 >= old(self).timer_shoot
                && now->0 - old(self).timer_shoot > firerate),
            final(self).timer_shoot == if fired {
                now->0
            } else {
                old(self).timer_shoot
            },
            final(self).settings == old(self).settings,
            final(self).request_shoot == old(self).request_shoot,
            final(self).owner == old(self).owner,
    {
        if self.request_shoot {
            cooldown_elapsed(&mut self.timer_shoot, now, firerate)
        } else {
            false
        }
    }
}

/// The first weapon, from index `from` on, that nobody carries and that is
/// within reach (`row[w]`).
pub open spec fn free_weapon_from(owners: Seq<Option<u64>>, row: Seq<bool>, from: int) -> Option<int>
    decreases owners.len() - from,
{
    if from < 0 || from >= owners.len() || from >= row.len() {
        None
    } else if owners[from] is None && row[from] {
        Some(from)
    } else {
        free_weapon_from(owners, row, from + 1)
    }
}

/// The weapon a holder picks up: the first free one within reach.
pub open spec fn free_weapon(owners: Seq<Option<u64>>, row: Seq<bool>) -> Option<int> {
    free_weapon_from(owners, row, 0)
}

pub proof fn lemma_free_weapon_from(owners: Seq<Option<u64>>, row: Seq<bool>, from: int)
    requires
        0 <= from <= owners.len(),
        owners.len() == row.len(),
    ensures
        free_weapon_from(owners, row, from) matches Some(w) ==> from <= w < owners.len()
            && owners[w] is None && row[w] && forall|v: int|
            from <= v < w ==> !(owners[v] is None && row[v]),
        free_weapon_from(owners, row, from) is None ==> forall|v: int|
            from <= v < owners.len() ==> !(owners[v] is None && row[v]),
    decreases owners.len() - from,
{
    if from < owners.len() && !(owners[from] is None && row[from]) {
        lemma_free_weapon_from(owners, row, from + 1);
    }
}

/// The weapon each holder picks up, in holder order: a holder that asks to
/// pick up takes the first weapon within reach that nobody carries at that
/// point.
pub open spec fn pickup_choice(
    requests: Seq<bool>,
    holder_ids: Seq<u64>,
    owners: Seq<Option<u64>>,
    rows: Seq<Seq<bool>>,
    k: int,
) -> Option<int> {
    if requests[k] {
        free_weapon(owners_after(requests, holder_ids, owners, rows, k), rows[k])
    } else {
        None
    }
}

/// Who carries each weapon once the first `k` holders have had their turn.
pub open spec fn owners_after(
    requests: Seq<bool>,
    holder_ids: Seq<u64>,
    owners: Seq<Option<u64>>,
    rows: Seq<Seq<bool>>,
    k: int,
) -> Seq<Option<u64>>
    decreases k,
{
    if k <= 0 {
        owners
    } else {
        let before = owners_after(requests, holder_ids, owners, rows, k - 1);
        if requests[k - 1] && free_weapon(before, rows[k - 1]) is Some {
            before.update(free_weapon(before, rows[k - 1])->0, Some(holder_ids[k - 1]))
        } else {
            before
        }
    }
}

pub open spec fn holder_requests(holders: Seq<WeaponHolder>) -> Seq<bool> {
    holders.map_values(|h: WeaponHolder| h.request_pickup)
}

pub open spec fn weapon_owners(weapons: Seq<Weapon>) -> Seq<Option<u64>> {
    weapons.map_values(|w: Weapon| w.owner)
}

pub open spec fn reach_rows(in_range: Seq<Vec<bool>>) -> Seq<Seq<bool>> {
    in_range.map_values(|r: Vec<bool>| r@)
}

/// Some holder before holder `h` took weapon `w`.
pub open spec fn taken_before(picked: Seq<Option<usize>>, h: int, w: int) -> bool {
    exists|g: int| 0 <= g < h && #[trigger] picked[g] == Some(w as usize)
}

pub proof fn lemma_taken_before_push(picked: Seq<Option<usize>>, taken: Option<usize>, h: int, w: int)
    requires
        h == picked.len(),
        0 <= w,
    ensures
        forall|g: int| 0 <= g <= h ==> (taken_before(picked.push(taken), g, w) == taken_before(picked, g, w)),
        taken_before(picked.push(taken), h + 1, w) == (taken_before(picked, h, w) || taken == Some(w as usize)),
{
    let q = picked.push(taken);
    assert forall|g: int| 0 <= g <= h implies (taken_before(q, g, w) == taken_before(picked, g, w)) by {
        if taken_before(q, g, w) {
            let k = choose|k: int| 0 <= k < g && #[trigger] q[k] == Some(w as usize);
            assert(picked[k] == q[k]);
        }
        if taken_before(picked, g, w) {
            let k = choose|k: int| 0 <= k < g && #[trigger] picked[k] == Some(w as usize);
            assert(picked[k] == q[k]);
        }
    }
    if taken_before(q, h + 1, w) {
        let k = choose|k: int| 0 <= k < h + 1 && #[trigger] q[k] == Some(w as usize);
        if k < h {
            assert(picked[k] == q[k]);
        }
    }
    if taken_before(picked, h, w) {
        let k = choose|k: int| 0 <= k < h && #[trigger] picked[k] == Some(w as usize);
        assert(picked[k] == q[k]);
    }
    if taken == Some(w as usize) {
        assert(q[h] == taken);
    }
}

/// Lets the holders pick up weapons. Holder `h` has id `holder_ids[h]`,
/// weapon `w` has id `weapon_ids[w]`, and `in_range[h][w]` tells whether
/// weapon `w` is within reach of holder `h`. In holder order, each holder
/// that asks to pick up takes the first weapon within reach that nobody
/// carries: the weapon's owner becomes the holder and the holder's weapon
/// becomes that weapon. Returns, for each holder, the index of the weapon it
/// took, if any.
pub fn pickup_weapons(
    holders: &mut Vec<WeaponHolder>,
    holder_ids: &Vec<u64>,
    weapons: &mut Vec<Weapon>,
    weapon_ids: &Vec<u64>,
    in_range: &Vec<Vec<bool>>,
) -> (picked: Vec<Option<usize>>)
    requires
        holder_ids.len() == old(holders).len(),
        weapon_ids.len() == old(weapons).len(),
        in_range.len() == old(holders).len(),
        forall|h: int| 0 <= h < in_range.len() ==> (#[trigger] in_range@[h]).len() == old(weapons).len(),
    ensures
        final(holders).len() == old(holders).len(),
        final(weapons).len() == old(weapons).len(),
        picked.len() == old(holders).len(),
        forall|h: int|
            0 <= h < old(holders).len() ==> {
                let choice = pickup_choice(
                    holder_requests(old(holders)@),
                    holder_ids@,
                    weapon_owners(old(weapons)@),
                    reach_rows(in_range@),
                    h,
                );
                &&& (#[trigger] picked@[h] matches Some(w) ==> choice == Some(w as int))
                &&& (picked@[h] is None ==> choice is None)
                &&& final(holders)@[h].request_pickup == old(holders)@[h].request_pickup
                &&& final(holders)@[h].weapon == if choice is Some {
                    Some(weapon_ids@[choice->0])
                } else {
                    old(holders)@[h].weapon
                }
            },
        weapon_owners(final(weapons)@) == owners_after(
            holder_requests(old(holders)@),
            holder_ids@,
            weapon_owners(old(weapons)@),
            reach_rows(in_range@),
            old(holders).len() as int,
        ),
        forall|w: int|
            0 <= w < old(weapons).len() ==> {
                &&& #[trigger] final(weapons)@[w].settings == old(weapons)@[w].settings
                &&& final(weapons)@[w].timer_shoot == old(weapons)@[w].timer_shoot
                &&& final(weapons)@[w].request_shoot == old(weapons)@[w].request_shoot
            },
        // a weapon that is carried stays with its carrier
        forall|w: int|
            0 <= w < old(weapons).len() && (#[trigger] old(weapons)@[w]).owner is Some
                ==> final(weapons)@[w].owner == old(weapons)@[w].owner,
        // a holder that took a weapon carries it, and the weapon is owned by it
        forall|h: int|
            0 <= h < old(holders).len() && #[trigger] picked@[h] is Some ==> {
                let w = picked@[h]->0 as int;
                &&& w < old(weapons).len()
                &&& final(weapons)@[w].owner == Some(holder_ids@[h])
                &&& final(holders)@[h].weapon == Some(weapon_ids@[w])
            },
        // a holder that does not ask to pick up takes nothing
        forall|h: int|
            0 <= h < old(holders).len() && !(#[trigger] old(holders)@[h]).request_pickup
                ==> picked@[h] is None,
        // what a holder takes: a weapon within its reach that nobody carried
        // and no earlier holder took, and before which every weapon within
        // reach was carried or taken by an earlier holder
        forall|h: int|
            0 <= h < old(holders).len() && #[trigger] picked@[h] is Some ==> {
                let w = picked@[h]->0 as int;
                &&& old(holders)@[h].request_pickup
                &&& w < old(weapons).len()
                &&& in_range@[h]@[w]
                &&& old(weapons)@[w].owner is None
                &&& !taken_before(picked@, h, w)
                &&& forall|v: int|
                    0 <= v < w && #[trigger] in_range@[h]@[v] ==> old(weapons)@[v].owner is Some
                        || taken_before(picked@, h, v)
            },
        // a holder that asks and takes nothing has no weapon within reach
        // that is free at its turn
        forall|h: int|
            0 <= h < old(holders).len() && (#[trigger] old(holders)@[h]).request_pickup
                && picked@[h] is None ==> forall|v: int|
                0 <= v < old(weapons).len() && #[trigger] in_range@[h]@[v] ==> old(weapons)@[v].owner
                    is Some || taken_before(picked@, h, v),
        // only weapons that were taken change owner
        forall|w: int|
            0 <= w < old(weapons).len() && !taken_before(picked@, old(holders).len() as int, w)
                ==> #[trigger] final(weapons)@[w].owner == old(weapons)@[w].owner,
        // a holder's weapon changes only to the weapon it took
        forall|h: int|
            0 <= h < old(holders).len() ==> #[trigger] final(holders)@[h].weapon == match picked@[h] {
                Some(w) => Some(weapon_ids@[w as int]),
                None => old(holders)@[h].weapon,
            },
{
    let ghost requests = holder_requests(holders@);
    let ghost owners0 = weapon_owners(weapons@);
    let ghost rows = reach_rows(in_range@);
    let ghost old_holders = holders@;
    let ghost old_weapons = weapons@;
    let mut picked: Vec<Option<usize>> = Vec::new();
    let nh = holders.len();
    let nw = weapons.len();
    let mut h: usize = 0;
    while h < nh
        invariant
            nh == holders.len(),
            nw == weapons.len(),
            h <= nh,
            old_holders.len() == nh,
            old_weapons.len() == nw,
            holder_ids.len() == nh,
            weapon_ids.len() == nw,
            in_range.len() == nh,
            forall|g: int| 0 <= g < in_range.len() ==> (#[trigger] in_range@[g]).len() == nw,
            requests == holder_requests(old_holders),
            owners0 == weapon_owners(old_weapons),
            rows == reach_rows(in_range@),
            picked.len() == h,
            weapon_owners(weapons@) == owners_after(requests, holder_ids@, owners0, rows, h as int),
            forall|w: int|
                0 <= w < nw ==> {
                    &&& #[trigger] weapons@[w].settings == old_weapons[w].settings
                    &&& weapons@[w].timer_shoot == old_weapons[w].timer_shoot
                    &&& weapons@[w].request_shoot == old_weapons[w].request_shoot
                },
            forall|w: int|
                0 <= w < nw && (#[trigger] old_weapons[w]).owner is Some ==> weapons@[w].owner
                    == old_weapons[w].owner,
            forall|g: int|
                0 <= g < h ==> {
                    let choice = pickup_choice(requests, holder_ids@, owners0, rows, g);
                    &&& (#[trigger] picked@[g] matches Some(w) ==> choice == Some(w as int))
                    &&& (picked@[g] is None ==> choice is None)
                },
            forall|g: int|
                0 <= g < nh ==> {
                    let choice = pickup_choice(requests, holder_ids@, owners0, rows, g);
                    &&& (#[trigger] holders@[g]).request_pickup == old_holders[g].request_pickup
                    &&& holders@[g].weapon == if g < h && choice is Some {
                        Some(weapon_ids@[choice->0])
                    } else {
                        old_holders[g].weapon
                    }
                },
            forall|g: int|
                0 <= g < h && !(#[trigger] old_holders[g]).request_pickup ==> picked@[g] is None,
            forall|g: int|
                0 <= g < h && #[trigger] picked@[g] is Some ==> {
                    let w = picked@[g]->0 as int;
                    &&& old_holders[g].request_pickup
                    &&& w < nw
                    &&& in_range@[g]@[w]
                    &&& old_weapons[w].owner is None
                    &&& !taken_before(picked@, g, w)
                    &&& weapons@[w].owner == Some(holder_ids@[g])
                    &&& forall|v: int|
                        0 <= v < w && #[trigger] in_range@[g]@[v] ==> old_weapons[v].owner is Some
                            || taken_before(picked@, g, v)
                },
            forall|g: int|
                0 <= g < h && (#[trigger] old_holders[g]).request_pickup && picked@[g] is None
                    ==> forall|v: int|
                    0 <= v < nw && #[trigger] in_range@[g]@[v] ==> old_weapons[v].owner is Some
                        || taken_before(picked@, g, v),
            forall|w: int|
                0 <= w < nw && !taken_before(picked@, h as int, w) ==> #[trigger] weapons@[w].owner
                    == old_weapons[w].owner,
            forall|g: int|
                0 <= g < nh ==> #[trigger] holders@[g].weapon == if g < h {
                    match picked@[g] {
                        Some(w) => Some(weapon_ids@[w as int]),
                        None => old_holders[g].weapon,
                    }
                } else {
                    old_holders[g].weapon
                },
        decreases nh - h,
    {
        let ghost owners_h = weapon_owners(weapons@);
        let ghost holders_before = holders@;
        let ghost weapons_before = weapons@;
        let mut taken: Option<usize> = None;
        // If the holder does not want to pick up, skip it
        if holders[h].request_pickup {
            let row = &in_range[h];
            proof {
                assert(rows[h as int] == row@);
                lemma_free_weapon_from(owners_h, row@, 0);
            }
            // Search for a weapon
            let mut w: usize = 0;
            while w < nw
                invariant_except_break
                    taken is None,
                invariant
                    nw == weapons.len(),
                    row@.len() == nw,
                    weapons@ == weapons_before,
                    owners_h == weapon_owners(weapons_before),
                    w <= nw,
                    forall|v: int| 0 <= v < w ==> !(owners_h[v] is None && row@[v]),
                ensures
                    taken matches Some(t) ==> t < nw && owners_h[t as int] is None && row@[t as int]
                        && forall|v: int| 0 <= v < t ==> !(owners_h[v] is None && row@[v]),
                    taken is None ==> forall|v: int| 0 <= v < nw ==> !(owners_h[v] is None && row@[v]),
                decreases nw - w,
            {
                // Ignore the weapon if it already has an owner
                if weapons[w].owner.is_none() && row[w] {
                    taken = Some(w);
                    break;
                }
                w = w + 1;
            }
            if let Some(t) = taken {
                let mut weapon = weapons[t];
                weapon.owner = Some(holder_ids[h]);
                weapons.set(t, weapon);
                let mut holder = holders[h];
                holder.weapon = Some(weapon_ids[t]);
                holders.set(h, holder);
            }
        }
        let ghost picked_before = picked@;
        picked.push(taken);
        proof {
            // a weapon is free at this turn exactly when nobody carried it and
            // no earlier holder took it
            assert forall|v: int| 0 <= v < nw implies (owners_h[v] is None <==> (
            old_weapons[v].owner is None && !taken_before(picked_before, h as int, v))) by {
                if taken_before(picked_before, h as int, v) {
                    let g = choose|g: int|
                        0 <= g < h && #[trigger] picked_before[g] == Some(v as usize);
                    assert(weapons_before[v].owner == Some(holder_ids@[g]));
                }
            }
            assert forall|v: int| 0 <= v < nw implies taken_before(picked@, h + 1, v) == (
            taken_before(picked_before, h as int, v) || taken == Some(v as usize)) && forall|g: int|
                0 <= g <= h ==> (taken_before(picked@, g, v) == taken_before(picked_before, g, v)) by {
                lemma_taken_before_push(picked_before, taken, h as int, v);
            }
            assert(in_range@[h as int]@ == rows[h as int]);
            assert forall|g: int| 0 <= g < h + 1 && #[trigger] picked@[g] is Some implies {
                let w = picked@[g]->0 as int;
                &&& old_holders[g].request_pickup
                &&& w < nw
                &&& in_range@[g]@[w]
                &&& old_weapons[w].owner is None
                &&& !taken_before(picked@, g, w)
                &&& weapons@[w].owner == Some(holder_ids@[g])
                &&& forall|v: int|
                    0 <= v < w && #[trigger] in_range@[g]@[v] ==> old_weapons[v].owner is Some
                        || taken_before(picked@, g, v)
            } by {
                let w = picked@[g]->0 as int;
                if g < h {
                    assert(picked@[g] == picked_before[g]);
                    assert(weapons_before[w].owner == Some(holder_ids@[g]));
                    if taken is Some {
                        assert(taken->0 != w);
                    }
                    assert forall|v: int|
                        0 <= v < w && #[trigger] in_range@[g]@[v] implies old_weapons[v].owner is Some
                            || taken_before(picked@, g, v) by {
                        assert(old_weapons[v].owner is Some || taken_before(picked_before, g, v));
                    }
                } else {
                    assert(taken == Some(w as usize));
                    assert forall|v: int|
                        0 <= v < w && #[trigger] in_range@[g]@[v] implies old_weapons[v].owner is Some
                            || taken_before(picked@, g, v) by {
                        assert(!(owners_h[v] is None && rows[h as int][v]));
                    }
                }
            }
            assert forall|g: int|
                0 <= g < h + 1 && (#[trigger] old_holders[g]).request_pickup && picked@[g] is None
                    implies forall|v: int|
                    0 <= v < nw && #[trigger] in_range@[g]@[v] ==> old_weapons[v].owner is Some
                        || taken_before(picked@, g, v) by {
                if g < h {
                    assert(picked@[g] == picked_before[g]);
                    assert forall|v: int|
                        0 <= v < nw && #[trigger] in_range@[g]@[v] implies old_weapons[v].owner is Some
                            || taken_before(picked@, g, v) by {
                        assert(old_weapons[v].owner is Some || taken_before(picked_before, g, v));
                    }
                } else {
                    assert(holders_before[g].request_pickup == old_holders[g].request_pickup);
                    assert forall|v: int|
                        0 <= v < nw && #[trigger] in_range@[g]@[v] implies old_weapons[v].owner is Some
                            || taken_before(picked@, g, v) by {
                        assert(!(owners_h[v] is None && rows[h as int][v]));
                    }
                }
            }
            assert forall|g: int|
                0 <= g < h + 1 && !(#[trigger] old_holders[g]).request_pickup implies picked@[g] is None by {
                if g < h {
                    assert(picked@[g] == picked_before[g]);
                } else {
                    assert(holders_before[g].request_pickup == old_holders[g].request_pickup);
                }
            }
            assert forall|w: int|
                0 <= w < nw && !taken_before(picked@, h + 1, w) implies #[trigger] weapons@[w].owner
                    == old_weapons[w].owner by {
                assert(weapons_before[w].owner == old_weapons[w].owner);
            }
            assert forall|g: int| 0 <= g < nh implies #[trigger] holders@[g].weapon == if g < h + 1 {
                match picked@[g] {
                    Some(w) => Some(weapon_ids@[w as int]),
                    None => old_holders[g].weapon,
                }
            } else {
                old_holders[g].weapon
            } by {
                assert(holders_before[g].weapon == if g < h {
                    match picked_before[g] {
                        Some(w) => Some(weapon_ids@[w as int]),
                        None => old_holders[g].weapon,
                    }
                } else {
                    old_holders[g].weapon
                });
                if g < h {
                    assert(picked@[g] == picked_before[g]);
                }
            }
            let choice = pickup_choice(requests, holder_ids@, owners0, rows, h as int);
            lemma_free_weapon_from(owners_h, rows[h as int], 0);
            assert(holders_before[h as int].request_pickup == old_holders[h as int].request_pickup);
            assert(requests[h as int] == holders_before[h as int].request_pickup);
            assert forall|w: int| 0 <= w < nw implies {
                &&& #[trigger] weapons@[w].settings == old_weapons[w].settings
                &&& weapons@[w].timer_shoot == old_weapons[w].timer_shoot
                &&& weapons@[w].request_shoot == old_weapons[w].request_shoot
            } by {
                assert(weapons_before[w].settings == old_weapons[w].settings);
            }
            assert forall|g: int| 0 <= g < nh implies {
                let choice = pickup_choice(requests, holder_ids@, owners0, rows, g);
                &&& (#[trigger] holders@[g]).request_pickup == old_holders[g].request_pickup
                &&& holders@[g].weapon == if g < h + 1 && choice is Some {
                    Some(weapon_ids@[choice->0])
                } else {
                    old_holders[g].weapon
                }
            } by {
                assert(holders_before[g].request_pickup == old_holders[g].request_pickup);
            }
            if taken is Some {
                assert(choice == Some(taken->0 as int));
            } else {
                assert(choice is None);
            }
            assert(weapon_owners(weapons@) =~= owners_after(
                requests,
                holder_ids@,
                owners0,
                rows,
                h + 1,
            ));
            assert forall|w: int|
                0 <= w < nw && (#[trigger] old_weapons[w]).owner is Some implies weapons@[w].owner
                    == old_weapons[w].owner by {
                assert(weapons_before[w].owner == old_weapons[w].owner);
                assert(owners_h[w] == weapons_before[w].owner);
            }
        }
        h = h + 1;
    }
    proof {
        assert forall|g: int| 0 <= g < nh && #[trigger] picked@[g] is Some implies {
            let w = picked@[g]->0 as int;
            &&& w < nw
            &&& weapons@[w].owner == Some(holder_ids@[g])
            &&& holders@[g].weapon == Some(weapon_ids@[w])
        } by {
            lemma_pickup_pairs(requests, holder_ids@, owners0, rows, g);
            let w = picked@[g]->0 as int;
            assert(weapon_owners(weapons@)[w] == weapons@[w].owner);
        }
    }
    picked
}

/// A weapon that somebody carries after the first `k` turns is still
/// carried by the same holder after the first `m` turns.
pub proof fn lemma_owners_after_keeps(
    requests: Seq<bool>,
    holder_ids: Seq<u64>,
    owners: Seq<Option<u64>>,
    rows: Seq<Seq<bool>>,
    k: int,
    m: int,
    w: int,
)
    requires
        0 <= k <= m,
        0 <= w < owners.len(),
        forall|h: int| 0 <= h < rows.len() ==> (#[trigger] rows[h]).len() == owners.len(),
        m <= rows.len(),
        owners_after(requests, holder_ids, owners, rows, k)[w] is Some,
    ensures
        owners_after(requests, holder_ids, owners, rows, m)[w] == owners_after(
            requests,
            holder_ids,
            owners,
            rows,
            k,
        )[w],
        owners_after(requests, holder_ids, owners, rows, m).len() == owners.len(),
    decreases m - k,
{
    lemma_owners_after_len(requests, holder_ids, owners, rows, m);
    if k < m {
        lemma_owners_after_keeps(requests, holder_ids, owners, rows, k, m - 1, w);
        let before = owners_after(requests, holder_ids, owners, rows, m - 1);
        lemma_owners_after_len(requests, holder_ids, owners, rows, m - 1);
        lemma_free_weapon_from(before, rows[m - 1], 0);
    }
}

pub proof fn lemma_owners_after_len(
    requests: Seq<bool>,
    holder_ids: Seq<u64>,
    owners: Seq<Option<u64>>,
    rows: Seq<Seq<bool>>,
    k: int,
)
    requires
        forall|h: int| 0 <= h < rows.len() ==> (#[trigger] rows[h]).len() == owners.len(),
        k <= rows.len(),
    ensures
        owners_after(requests, holder_ids, owners, rows, k).len() == owners.len(),
    decreases k,
{
    if k > 0 {
        lemma_owners_after_len(requests, holder_ids, owners, rows, k - 1);
        let before = owners_after(requests, holder_ids, owners, rows, k - 1);
        lemma_free_weapon_from(before, rows[k - 1], 0);
    }
}

/// After the pickups, a holder that took a weapon carries it and the
/// weapon's owner is that holder.
pub proof fn lemma_pickup_pairs(
    requests: Seq<bool>,
    holder_ids: Seq<u64>,
    owners: Seq<Option<u64>>,
    rows: Seq<Seq<bool>>,
    h: int,
)
    requires
        0 <= h < rows.len(),
        forall|g: int| 0 <= g < rows.len() ==> (#[trigger] rows[g]).len() == owners.len(),
        pickup_choice(requests, holder_ids, owners, rows, h) is Some,
    ensures
        ({
            let w = pickup_choice(requests, holder_ids, owners, rows, h)->0;
            &&& 0 <= w < owners.len()
            &&& owners_after(requests, holder_ids, owners, rows, rows.len() as int)[w] == Some(
                holder_ids[h],
            )
        }),
{
    let before = owners_after(requests, holder_ids, owners, rows, h);
    lemma_owners_after_len(requests, holder_ids, owners, rows, h);
    lemma_free_weapon_from(before, rows[h], 0);
    let w = pickup_choice(requests, holder_ids, owners, rows, h)->0;
    assert(owners_after(requests, holder_ids, owners, rows, h + 1)[w] == Some(holder_ids[h]));
    lemma_owners_after_keeps(requests, holder_ids, owners, rows, h + 1, rows.len() as int, w);
}

} // verus!
