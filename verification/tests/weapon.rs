use sjovt::weapon::{pickup_weapons, Weapon, WeaponHolder};

fn weapon(owner: Option<u64>) -> Weapon {
    Weapon { settings: 0, timer_shoot: 0, request_shoot: false, owner }
}

#[test]
fn fires_after_the_fire_rate() {
    let mut w = Weapon { settings: 1, timer_shoot: 100, request_shoot: true, owner: Some(9) };
    assert!(!w.try_fire(Some(150), 50));
    assert_eq!(w.timer_shoot, 100);
    assert!(w.try_fire(Some(151), 50));
    assert_eq!(w.timer_shoot, 151);
    assert_eq!(w.settings, 1);
    assert_eq!(w.owner, Some(9));
}

#[test]
fn does_not_fire_unasked_or_without_clock() {
    let mut w = Weapon { settings: 0, timer_shoot: 0, request_shoot: false, owner: None };
    assert!(!w.try_fire(Some(1_000), 10));
    w.request_shoot = true;
    assert!(!w.try_fire(None, 10));
    assert_eq!(w.timer_shoot, 0);
}

#[test]
fn does_not_fire_when_clock_is_behind() {
    let mut w = Weapon { settings: 0, timer_shoot: 500, request_shoot: true, owner: None };
    assert!(!w.try_fire(Some(100), 0));
    assert_eq!(w.timer_shoot, 500);
}

#[test]
fn holders_take_first_free_weapon_in_reach() {
    let mut holders = vec![
        WeaponHolder { request_pickup: true, weapon: None },
        WeaponHolder { request_pickup: true, weapon: None },
        WeaponHolder { request_pickup: false, weapon: Some(77) },
    ];
    let holder_ids = vec![10, 11, 12];
    let mut weapons = vec![weapon(Some(99)), weapon(None), weapon(None)];
    let weapon_ids = vec![20, 21, 22];
    let in_range = vec![
        vec![true, true, true],
        vec![false, true, true],
        vec![true, true, true],
    ];
    let picked = pickup_weapons(&mut holders, &holder_ids, &mut weapons, &weapon_ids, &in_range);
    assert_eq!(picked, vec![Some(1), Some(2), None]);
    assert_eq!(weapons[0].owner, Some(99));
    assert_eq!(weapons[1].owner, Some(10));
    assert_eq!(weapons[2].owner, Some(11));
    assert_eq!(holders[0].weapon, Some(21));
    assert_eq!(holders[1].weapon, Some(22));
    assert_eq!(holders[2].weapon, Some(77));
}

#[test]
fn holder_without_free_weapon_keeps_its_own() {
    let mut holders = vec![WeaponHolder { request_pickup: true, weapon: Some(5) }];
    let mut weapons = vec![weapon(Some(3)), weapon(None)];
    let picked = pickup_weapons(&mut holders, &vec![1], &mut weapons, &vec![5, 6], &vec![vec![true, false]]);
    assert_eq!(picked, vec![None]);
    assert_eq!(holders[0].weapon, Some(5));
    assert_eq!(weapons[0].owner, Some(3));
    assert_eq!(weapons[1].owner, None);
}

#[test]
fn holder_replaces_carried_weapon_reference() {
    let mut holders = vec![WeaponHolder { request_pickup: true, weapon: Some(5) }];
    let mut weapons = vec![weapon(Some(1)), weapon(None)];
    let picked = pickup_weapons(&mut holders, &vec![1], &mut weapons, &vec![5, 6], &vec![vec![true, true]]);
    assert_eq!(picked, vec![Some(1)]);
    assert_eq!(holders[0].weapon, Some(6));
    assert_eq!(weapons[0].owner, Some(1));
    assert_eq!(weapons[1].owner, Some(1));
}
