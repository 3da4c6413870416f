use bevy::input::ButtonInput;
use sentinel::input::{spawn_virtual_keyboard, update_virtual_keyboards, Keyboard};

#[test]
fn a_new_keyboard_holds_no_key() {
    let (name, keyboard) = spawn_virtual_keyboard();
    assert_eq!(name, "Virtual Keyboard");
    assert!(!keyboard.pressed(1));
    assert!(!keyboard.just_pressed(1));
    assert!(!keyboard.just_released(1));
}

#[test]
fn keyboards_follow_the_global_presses_and_releases() {
    let mut global = ButtonInput::<u64>::default();
    global.press(1);
    global.press(2);
    let mut keyboards = vec![Keyboard::new(), Keyboard::new()];
    update_virtual_keyboards(&mut keyboards, &global);
    for k in &keyboards {
        assert!(k.pressed(1) && k.pressed(2));
        assert!(k.just_pressed(1) && k.just_pressed(2));
        assert!(!k.just_released(1));
    }
    let mut next = ButtonInput::<u64>::default();
    next.press(2);
    next.release(2);
    next.clear_just_pressed(2);
    next.press(3);
    keyboards[0].feed(&next);
    let k = &keyboards[0];
    assert!(k.pressed(1));
    assert!(!k.pressed(2));
    assert!(k.pressed(3));
    assert!(k.just_released(2));
    assert!(k.just_pressed(3));
    assert!(k.just_pressed(2));
    assert!(keyboards[1].pressed(2));
}

#[test]
fn a_key_pressed_and_released_in_one_frame_ends_released() {
    let mut global = ButtonInput::<u64>::default();
    global.press(7);
    global.release(7);
    let mut k = Keyboard::new();
    k.feed(&global);
    assert!(!k.pressed(7));
    assert!(k.just_pressed(7));
    assert!(k.just_released(7));
}

#[test]
fn feed_keys_presses_then_releases() {
    let mut k = Keyboard::new();
    k.feed_keys(&vec![1, 2], &vec![]);
    assert!(k.pressed(1) && k.pressed(2));
    assert!(k.just_pressed(1) && k.just_pressed(2));
    k.feed_keys(&vec![3], &vec![2, 3]);
    assert!(k.pressed(1));
    assert!(!k.pressed(2) && !k.pressed(3));
    assert!(k.just_pressed(3));
    assert!(k.just_released(2) && k.just_released(3));
    assert!(!k.just_released(1));
}
