use sjovt::combat::{resolve_projectile_hits, Health};

#[test]
fn damage_lowers_health() {
    let mut h = Health { health: 10, healthmax: 10 };
    h.damage(3);
    assert_eq!(h, Health { health: 7, healthmax: 10 });
    h.damage(-2);
    assert_eq!(h.health, 9);
}

#[test]
fn depleted_at_zero_and_below() {
    assert!(Health { health: 0, healthmax: 10 }.is_depleted());
    assert!(Health { health: -4, healthmax: 10 }.is_depleted());
    assert!(!Health { health: 1, healthmax: 10 }.is_depleted());
}

#[test]
fn projectiles_hit_first_overlapped_enemy() {
    let damages = vec![1, 5, 2];
    let overlaps = vec![vec![false, true], vec![true, true], vec![false, false]];
    let mut healths = vec![Health { health: 10, healthmax: 10 }, Health { health: 3, healthmax: 8 }];
    let used = resolve_projectile_hits(&damages, &overlaps, &mut healths);
    assert_eq!(used, vec![true, true, false]);
    assert_eq!(healths[0], Health { health: 5, healthmax: 10 });
    assert_eq!(healths[1], Health { health: 2, healthmax: 8 });
}

#[test]
fn projectile_hits_depleted_enemy_again() {
    let damages = vec![4, 4];
    let overlaps = vec![vec![true], vec![true]];
    let mut healths = vec![Health { health: 5, healthmax: 5 }];
    let used = resolve_projectile_hits(&damages, &overlaps, &mut healths);
    assert_eq!(used, vec![true, true]);
    assert_eq!(healths[0].health, -3);
}

#[test]
fn no_projectiles_no_change() {
    let mut healths = vec![Health { health: 5, healthmax: 5 }];
    let used = resolve_projectile_hits(&vec![], &vec![], &mut healths);
    assert!(used.is_empty());
    assert_eq!(healths[0].health, 5);
}
