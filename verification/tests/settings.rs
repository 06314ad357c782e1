use glitchwing::settings::{
    button_name, parse_bindings, render_bindings, Action, Bindings, ACTIONS,
};

#[test]
fn default_bindings() {
    assert_eq!(Bindings::default().keys, [108, 97, 96, 100, 99, 102, 109, 103]);
    assert_eq!(Bindings::default().get(Action::Arm), 108);
    assert_eq!(Bindings::default().get(Action::Takeoff), 97);
    assert_eq!(Bindings::default().get(Action::TrimReset), 103);
}

#[test]
fn actions_are_listed_in_place_with_labels() {
    let labels: Vec<&str> = ACTIONS.iter().map(|a| a.label()).collect();
    assert_eq!(
        labels,
        ["ARM", "TAKEOFF", "LAND", "FLIP", "CALIBRATE", "HEADLESS", "EMERGENCY", "TRIM RESET"]
    );
    for (i, a) in ACTIONS.iter().enumerate() {
        assert_eq!(a.index(), i);
    }
}

#[test]
fn setting_one_action_leaves_the_others() {
    let mut b = Bindings::default();
    b.set(Action::Flip, 104);
    assert_eq!(b.get(Action::Flip), 104);
    for a in ACTIONS {
        if a != Action::Flip {
            assert_eq!(b.get(a), Bindings::default().get(a));
        }
    }
}

#[test]
fn buttons_have_names() {
    for (kc, name) in [(96, "A"), (97, "B"), (99, "X"), (100, "Y"), (102, "L1"), (103, "R1"),
                       (104, "L2"), (105, "R2"), (106, "L-STICK"), (107, "R-STICK"),
                       (108, "START"), (109, "SELECT"), (110, "MODE")] {
        assert_eq!(button_name(kc), name);
    }
    assert_eq!(button_name(98), "K98");
    assert_eq!(button_name(0), "K0");
    assert_eq!(button_name(u32::MAX), "K4294967295");
}

#[test]
fn bindings_are_stored_as_eight_numbers() {
    assert_eq!(render_bindings(&Bindings::default()), "108 97 96 100 99 102 109 103");
}

#[test]
fn saved_bindings_are_loaded_back() {
    let mut b = Bindings { keys: [0, 1, 9, 10, 99, 100, 4294967295, 1000000000] };
    assert_eq!(parse_bindings(&render_bindings(&b)), b);
    b.set(Action::Arm, 7);
    assert_eq!(parse_bindings(&render_bindings(&b)), b);
}

#[test]
fn any_white_space_separates() {
    let b = parse_bindings("  1\t2\n3\u{a0}4\u{2003}5\u{3000}6\r\n7 8 \n");
    assert_eq!(b.keys, [1, 2, 3, 4, 5, 6, 7, 8]);
}

#[test]
fn words_that_are_no_numbers_are_passed_over() {
    let b = parse_bindings("+1 2 x 3 -4 4 5a 5 6 4294967296 7 + 0008");
    assert_eq!(b.keys, [1, 2, 3, 4, 5, 6, 7, 8]);
}

#[test]
fn damaged_settings_give_the_defaults() {
    for s in ["", " ", "1 2 3 4 5 6 7", "1 2 3 4 5 6 7 8 9", "nonsense"] {
        assert_eq!(parse_bindings(s), Bindings::default());
    }
}
