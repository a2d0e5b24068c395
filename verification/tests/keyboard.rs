use bronze_kernel::keyboard::KeyboardManager;

#[test]
fn new_has_no_key_down() {
    let km = KeyboardManager::new();
    for k in 0..128u8 {
        assert!(!km.is_key_down(k, false));
        assert!(!km.is_key_down(k, true));
    }
    assert!(!km.is_extending());
}

#[test]
fn press_and_release() {
    let mut km = KeyboardManager::new();
    km.register_scancode(0x1E); // 'a' pressed
    assert!(km.is_key_down(0x1E, false));
    assert!(!km.is_key_down(0x1E, true));
    km.register_scancode(0x9E); // 'a' released
    assert!(!km.is_key_down(0x1E, false));
}

#[test]
fn extended_prefix_selects_extended_keys_for_good() {
    let mut km = KeyboardManager::new();
    km.register_scancode(0xE0);
    assert!(km.is_extending());
    km.register_scancode(0x1C); // keypad enter
    assert!(km.is_key_down(0x1C, true));
    assert!(!km.is_key_down(0x1C, false));
    // the prefix is never cleared: later codes keep going to the extended keys
    km.register_scancode(0x1E);
    assert!(km.is_key_down(0x1E, true));
    assert!(!km.is_key_down(0x1E, false));
}

#[test]
fn only_the_named_key_changes() {
    let mut km = KeyboardManager::new();
    km.register_scancode(0x02);
    km.register_scancode(0x03);
    km.register_scancode(0x82);
    assert!(!km.is_key_down(0x02, false));
    assert!(km.is_key_down(0x03, false));
}

#[test]
fn release_undoes_press_in_extended_table() {
    let mut km = KeyboardManager::new();
    km.register_scancode(0xE0);
    km.register_scancode(0x35);
    km.register_scancode(0xB5);
    assert!(!km.is_key_down(0x35, true));
    for k in 0..128u8 {
        assert!(!km.is_key_down(k, false));
        assert!(!km.is_key_down(k, true));
    }
}
