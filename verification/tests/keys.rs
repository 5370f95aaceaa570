use commedit_gtk::keys::{key_action, moved_block, Gesture, Key, KeyAction, Modifiers};

const NONE: Modifiers = Modifiers {
    ctrl: false,
    shift: false,
    alt: false,
};
const CTRL: Modifiers = Modifiers {
    ctrl: true,
    shift: false,
    alt: false,
};
const CTRL_SHIFT: Modifiers = Modifiers {
    ctrl: true,
    shift: true,
    alt: false,
};
const ALT: Modifiers = Modifiers {
    ctrl: false,
    shift: false,
    alt: true,
};

#[test]
fn keys_edit_the_diff_by_plan() {
    let act = |key, m| key_action(key, m, true, false);
    assert_eq!(act(Key::Z, CTRL), KeyAction::Undo);
    assert_eq!(act(Key::Z, CTRL_SHIFT), KeyAction::Redo);
    assert_eq!(act(Key::Y, CTRL), KeyAction::Redo);
    assert_eq!(act(Key::C, CTRL), KeyAction::Copy);
    assert_eq!(act(Key::C, CTRL_SHIFT), KeyAction::Pass);
    assert_eq!(act(Key::X, CTRL), KeyAction::Cut);
    assert_eq!(act(Key::Enter, NONE), KeyAction::Plan(Gesture::Newline));
    assert_eq!(act(Key::Backspace, NONE), KeyAction::Plan(Gesture::Backspace));
    assert_eq!(act(Key::Delete, NONE), KeyAction::Plan(Gesture::Delete));
    assert_eq!(act(Key::D, CTRL), KeyAction::Plan(Gesture::DeleteLine));
    assert_eq!(
        act(Key::Up, ALT),
        KeyAction::Plan(Gesture::MoveLine { down: false })
    );
    assert_eq!(
        act(Key::Down, ALT),
        KeyAction::Plan(Gesture::MoveLine { down: true })
    );
    assert_eq!(act(Key::Down, NONE), KeyAction::Pass);
}

#[test]
fn typing_passes() {
    for key in [Key::C, Key::D, Key::X, Key::Y, Key::Z, Key::Other] {
        assert_eq!(key_action(key, NONE, true, false), KeyAction::Pass);
    }
}

#[test]
fn conflicts_are_edited_as_text() {
    assert_eq!(key_action(Key::Z, CTRL, true, true), KeyAction::Undo);
    assert_eq!(key_action(Key::Y, CTRL, true, true), KeyAction::Redo);
    assert_eq!(key_action(Key::Enter, NONE, true, true), KeyAction::Pass);
    assert_eq!(key_action(Key::X, CTRL, true, true), KeyAction::Pass);
}

#[test]
fn a_read_only_pane_takes_no_key() {
    assert_eq!(key_action(Key::Z, CTRL, false, false), KeyAction::Pass);
    assert_eq!(key_action(Key::Enter, NONE, false, false), KeyAction::Pass);
}

#[test]
fn a_block_moves_by_one_line() {
    assert_eq!(moved_block(3, 5, true), (4, 6));
    assert_eq!(moved_block(3, 5, false), (2, 4));
}
