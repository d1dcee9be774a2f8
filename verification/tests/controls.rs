use blockfish::controls::{default_bindings, LCTRLMOD, LSHIFT, RCTRLMOD, RSHIFT};
use blockfish::{Action, Controls, EngineOp, Input, KeyStroke};

const KEY_LEFT: i32 = 0x4000_0050;
const KEY_TAB: i32 = 0x09;
const KEY_E: i32 = 0x65;
const KEY_Q: i32 = 0x71;
const LALTMOD: u16 = 0x0100;

#[test]
fn test_default_controls() {
    let controls = Controls::default();
    assert_eq!(
        controls.key_stroke(Action::Game(Input::Left)),
        Some(KeyStroke::Only(KEY_LEFT))
    );
    assert_eq!(controls.key_stroke(Action::Game(Input::Hold)), Some(KeyStroke::Shift));
    assert_eq!(
        controls.key_stroke(Action::Engine(EngineOp::Prev)),
        Some(KeyStroke::Control(KEY_TAB))
    );
    // not bound
    assert_eq!(controls.key_stroke(Action::Engine(EngineOp::StepForward)), None);
    assert_eq!(controls.key_stroke(Action::Engine(EngineOp::StepBackward)), None);

    assert_eq!(controls.parse(KEY_LEFT, 0), Some(Action::Game(Input::Left)));
    assert_eq!(controls.parse(KEY_TAB, 0), Some(Action::Engine(EngineOp::Next)));
    assert_eq!(controls.parse(KEY_TAB, LCTRLMOD), Some(Action::Engine(EngineOp::Prev)));
    assert_eq!(controls.parse(KEY_TAB, RCTRLMOD), Some(Action::Engine(EngineOp::Prev)));
    assert_eq!(
        controls.parse(KEY_TAB, LCTRLMOD | RCTRLMOD | LALTMOD),
        Some(Action::Engine(EngineOp::Prev))
    );
    // other modifiers do not count
    assert_eq!(controls.parse(KEY_TAB, LALTMOD), Some(Action::Engine(EngineOp::Next)));
    // e is bound with control only
    assert_eq!(controls.parse(KEY_E, 0), None);
    assert_eq!(controls.parse(KEY_E, LCTRLMOD), Some(Action::Engine(EngineOp::Toggle)));
    // both shift keys hold
    assert_eq!(controls.parse(LSHIFT, 0), Some(Action::Game(Input::Hold)));
    assert_eq!(controls.parse(RSHIFT, 0), Some(Action::Game(Input::Hold)));
    assert_eq!(controls.parse(LSHIFT, RCTRLMOD), None);
    assert_eq!(controls.parse(KEY_Q, 0), None);
}

#[test]
fn test_default_bindings_bind_each_action_once() {
    let bindings = default_bindings();
    assert_eq!(bindings.len(), 11);
    for (k, (action, _)) in bindings.iter().enumerate() {
        for (other, _) in &bindings[..k] {
            assert_ne!(action, other);
        }
    }
}

#[test]
fn test_later_binding_wins() {
    let controls = Controls::new(vec![
        (Action::Game(Input::Left), KeyStroke::Only(KEY_Q)),
        (Action::Game(Input::Right), KeyStroke::Only(KEY_Q)),
        (Action::Game(Input::Left), KeyStroke::Control(KEY_E)),
    ]);
    // the key is the second action's
    assert_eq!(controls.parse(KEY_Q, 0), Some(Action::Game(Input::Right)));
    // the action has its last key stroke, and the first one still leads to
    // it where no other binding took the key
    assert_eq!(
        controls.key_stroke(Action::Game(Input::Left)),
        Some(KeyStroke::Control(KEY_E))
    );
    assert_eq!(controls.parse(KEY_E, LCTRLMOD), Some(Action::Game(Input::Left)));
    assert_eq!(controls.parse(KEY_E, 0), None);
    assert_eq!(controls.key_stroke(Action::Game(Input::Right)), Some(KeyStroke::Only(KEY_Q)));
}

#[test]
fn test_no_bindings() {
    let controls = Controls::new(vec![]);
    assert_eq!(controls.parse(KEY_Q, 0), None);
    assert_eq!(controls.key_stroke(Action::Game(Input::HD)), None);
}

#[test]
fn test_extreme_key_codes() {
    let controls = Controls::new(vec![
        (Action::Game(Input::SD), KeyStroke::Only(i32::MIN)),
        (Action::Game(Input::HD), KeyStroke::Control(i32::MAX)),
    ]);
    assert_eq!(controls.parse(i32::MIN, 0), Some(Action::Game(Input::SD)));
    assert_eq!(controls.parse(i32::MIN, LCTRLMOD), None);
    assert_eq!(controls.parse(i32::MAX, LCTRLMOD), Some(Action::Game(Input::HD)));
    assert_eq!(controls.parse(i32::MAX, 0), None);
}

#[test]
fn test_key_stroke_labels() {
    assert_eq!(KeyStroke::Only(KEY_LEFT).label("Left"), "left");
    assert_eq!(KeyStroke::Only(KEY_Q).label("Q"), "q");
    assert_eq!(KeyStroke::Control(KEY_E).label("E"), "C-e");
    assert_eq!(KeyStroke::Control(KEY_TAB).label("Tab"), "C-tab");
    assert_eq!(KeyStroke::Shift.label("LShift"), "shift");
    assert_eq!(KeyStroke::Shift.label(""), "shift");
    // beyond ASCII too
    assert_eq!(KeyStroke::Only(0xC4).label("\u{c4}"), "\u{e4}");
    // with the name in lowercase already, nothing is changed
    assert_eq!(KeyStroke::Only(KEY_LEFT).label_of("left"), "left");
    assert_eq!(KeyStroke::Only(KEY_LEFT).label_of("Left"), "Left");
    assert_eq!(KeyStroke::Control(KEY_E).label_of("e"), "C-e");
    assert_eq!(KeyStroke::Shift.label_of("lshift"), "shift");
}
