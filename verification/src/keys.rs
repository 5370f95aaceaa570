//! What the keys do in the diff pane.
use vstd::prelude::*;

verus! {

/// A key that the pane knows; letters in either case, and the keypad's too.
#[derive(Clone, Copy, Debug, PartialEq, Eq, Structural)]
pub enum Key {
    C,
    D,
    X,
    Y,
    Z,
    Up,
    Down,
    Enter,
    Backspace,
    Delete,
    Other,
}

/// The modifiers held with a key.
#[derive(Clone, Copy, Debug, PartialEq, Eq, Structural)]
pub struct Modifiers {
    pub ctrl: bool,
    pub shift: bool,
    pub alt: bool,
}

/// An edit that changes the lines of a diff, and so has to be planned.
#[derive(Clone, Copy, Debug, PartialEq, Eq, Structural)]
pub enum Gesture {
    Newline,
    Backspace,
    Delete,
    DeleteLine,
    MoveLine { down: bool },
}

/// What a key does.
#[derive(Clone, Copy, Debug, PartialEq, Eq, Structural)]
pub enum KeyAction {
    /// Nothing of the pane's own: the text view handles the key.
    Pass,
    Undo,
    Redo,
    /// Copies the selection without the markers of its lines.
    Copy,
    /// Copies it likewise, and deletes it as planned.
    Cut,
    Plan(Gesture),
}

/// What a key does. Undoing and redoing also work on conflicts, where every other key
/// edits text as usual; nothing works where the pane cannot be edited.
pub open spec fn action_of(key: Key, m: Modifiers, editable: bool, conflict: bool) -> KeyAction {
    if !editable {
        KeyAction::Pass
    } else if m.ctrl && key == Key::Z && !m.shift {
        KeyAction::Undo
    } else if m.ctrl && (key == Key::Y || key == Key::Z) {
        KeyAction::Redo
    } else if conflict {
        KeyAction::Pass
    } else if m.alt && !m.ctrl && !m.shift && (key == Key::Up || key == Key::Down) {
        KeyAction::Plan(Gesture::MoveLine { down: key == Key::Down })
    } else if m.ctrl && key == Key::C && !m.shift {
        KeyAction::Copy
    } else if m.ctrl && key == Key::X {
        KeyAction::Cut
    } else if key == Key::Enter {
        KeyAction::Plan(Gesture::Newline)
    } else if key == Key::Backspace {
        KeyAction::Plan(Gesture::Backspace)
    } else if key == Key::Delete {
        KeyAction::Plan(Gesture::Delete)
    } else if key == Key::D && m.ctrl {
        KeyAction::Plan(Gesture::DeleteLine)
    } else {
        KeyAction::Pass
    }
}

/// What a key does.
pub fn key_action(key: Key, m: Modifiers, editable: bool, conflict: bool) -> (r: KeyAction)
    ensures
        r == action_of(key, m, editable, conflict),
{
    if !editable {
        return KeyAction::Pass;
    }
    if m.ctrl {
        match key {
            Key::Z => {
                return if m.shift {
                    KeyAction::Redo
                } else {
                    KeyAction::Undo
                };
            },
            Key::Y => {
                return KeyAction::Redo;
            },
            _ => {},
        }
    }
    if conflict {
        return KeyAction::Pass;
    }
    match key {
        Key::Up => if m.alt && !m.ctrl && !m.shift {
            KeyAction::Plan(Gesture::MoveLine { down: false })
        } else {
            KeyAction::Pass
        },
        Key::Down => if m.alt && !m.ctrl && !m.shift {
            KeyAction::Plan(Gesture::MoveLine { down: true })
        } else {
            KeyAction::Pass
        },
        Key::C => if m.ctrl && !m.shift {
            KeyAction::Copy
        } else {
            KeyAction::Pass
        },
        Key::X => if m.ctrl {
            KeyAction::Cut
        } else {
            KeyAction::Pass
        },
        Key::Enter => KeyAction::Plan(Gesture::Newline),
        Key::Backspace => KeyAction::Plan(Gesture::Backspace),
        Key::Delete => KeyAction::Plan(Gesture::Delete),
        Key::D => if m.ctrl {
            KeyAction::Plan(Gesture::DeleteLine)
        } else {
            KeyAction::Pass
        },
        _ => KeyAction::Pass,
    }
}

/// The lines of a block once it has been moved by one line.
pub fn moved_block(first: usize, last: usize, down: bool) -> (r: (usize, usize))
    requires
        down ==> first < usize::MAX && last < usize::MAX,
        !down ==> first > 0 && last > 0,
    ensures
        r == if down {
            ((first + 1) as usize, (last + 1) as usize)
        } else {
            ((first - 1) as usize, (last - 1) as usize)
        },
{
    if down {
        (first + 1, last + 1)
    } else {
        (first - 1, last - 1)
    }
}

/// A plain letter, or any other key without a modifier that the pane does not know,
/// is left to the text view, so that input methods keep working.
pub proof fn law_typing_passes(key: Key, m: Modifiers, editable: bool, conflict: bool)
    requires
        !m.ctrl,
        !m.alt,
        !(key == Key::Enter || key == Key::Backspace || key == Key::Delete),
    ensures
        action_of(key, m, editable, conflict) == KeyAction::Pass,
{
}

/// Undo and redo work wherever the text can be edited, in a conflict too; every other
/// key of the diff is the editor's own business only outside conflicts, and where
/// nothing can be edited no key is taken.
pub proof fn law_keys_act_where_they_may(
    key: Key,
    m: Modifiers,
    editable: bool,
    conflict: bool,
    r: KeyAction,
)
    requires
        call_ensures(key_action, (key, m, editable, conflict), r),
    ensures
        !editable ==> r == KeyAction::Pass,
        editable && m.ctrl && key == Key::Z ==> r == if m.shift {
            KeyAction::Redo
        } else {
            KeyAction::Undo
        },
        editable && m.ctrl && key == Key::Y ==> r == KeyAction::Redo,
        conflict && !(m.ctrl && (key == Key::Z || key == Key::Y)) ==> r == KeyAction::Pass,
        editable && !conflict && m.alt && !m.ctrl && !m.shift && key == Key::Up ==> r
            == KeyAction::Plan(Gesture::MoveLine { down: false }),
        editable && !conflict && m.alt && !m.ctrl && !m.shift && key == Key::Down ==> r
            == KeyAction::Plan(Gesture::MoveLine { down: true }),
        editable && !conflict && m.ctrl && !m.shift && key == Key::C ==> r == KeyAction::Copy,
        editable && !conflict && m.ctrl && key == Key::X ==> r == KeyAction::Cut,
        editable && !conflict && m.ctrl && key == Key::D ==> r == KeyAction::Plan(
            Gesture::DeleteLine,
        ),
        editable && !conflict && key == Key::Enter ==> r == KeyAction::Plan(Gesture::Newline),
        editable && !conflict && key == Key::Backspace ==> r == KeyAction::Plan(Gesture::Backspace),
        editable && !conflict && key == Key::Delete ==> r == KeyAction::Plan(Gesture::Delete),
{
}

/// A block that is moved down and up again stands where it stood, and keeps its size.
pub proof fn law_a_moved_block_moves_back(
    first: usize,
    last: usize,
    down: (usize, usize),
    back: (usize, usize),
)
    requires
        first < usize::MAX,
        last < usize::MAX,
        call_ensures(moved_block, (first, last, true), down),
        down.0 > 0 && down.1 > 0 ==> call_ensures(moved_block, (down.0, down.1, false), back),
    ensures
        down.0 == first + 1,
        down.1 - down.0 == last - first,
        back == (first, last),
{
}

} // verus!
