use sjovt::blood::{fill_red_channel, BloodState};

#[test]
fn add_blood_raises_alpha_and_saturates() {
    let state = BloodState { size: 2 };
    let mut data = vec![0u8; 16];
    state.add_blood(1, 1, &mut data);
    assert_eq!(data[15], 128);
    state.add_blood(1, 1, &mut data);
    assert_eq!(data[15], 255);
    state.add_blood(1, 1, &mut data);
    assert_eq!(data[15], 255);
    assert!(data[..15].iter().all(|b| *b == 0));
}

#[test]
fn add_blood_hits_the_alpha_of_the_pixel() {
    let state = BloodState { size: 3 };
    let mut data = vec![10u8; 36];
    state.add_blood(2, 1, &mut data);
    // pixel 2 + 1 * 3 = 5, alpha byte 5 * 4 + 3 = 23
    assert_eq!(data[23], 138);
    assert_eq!(data.iter().filter(|b| **b != 10).count(), 1);
}

#[test]
fn add_blood_outside_leaves_data() {
    let state = BloodState { size: 2 };
    let mut data = vec![7u8; 16];
    state.add_blood(0, 2, &mut data);
    assert_eq!(data, vec![7u8; 16]);
}

#[test]
fn fill_red_channel_sets_every_fourth_byte() {
    let mut data = vec![1u8; 9];
    fill_red_channel(&mut data);
    assert_eq!(data, vec![255, 1, 1, 1, 255, 1, 1, 1, 1]);
}

#[test]
fn fill_red_channel_whole_pixels() {
    let mut data = vec![0u8; 8];
    fill_red_channel(&mut data);
    assert_eq!(data, vec![255, 0, 0, 0, 255, 0, 0, 0]);
}

#[test]
fn fill_red_channel_empty() {
    let mut data: Vec<u8> = Vec::new();
    fill_red_channel(&mut data);
    assert!(data.is_empty());
}
