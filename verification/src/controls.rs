//! Key bindings: which key stroke triggers which action.
//!
//! A key is named by its key code, a plain `i32`, and the modifier keys held
//! with it by their bit mask, a plain `u16`.

use crate::piece::Input;
use std::collections::HashMap;
use vstd::prelude::*;
use vstd::string::StringExecFns;

verus! {

broadcast use vstd::std_specs::hash::group_hash_axioms;

/// The key code of the left shift key.
pub const LSHIFT: i32 = 0x4000_00E1;

/// The key code of the right shift key.
pub const RSHIFT: i32 = 0x4000_00E5;

/// The modifier bit of the left control key.
pub const LCTRLMOD: u16 = 0x0040;

/// The modifier bit of the right control key.
pub const RCTRLMOD: u16 = 0x0080;

/// Something a key stroke sets off: an input to the game, or an operation
/// of the engine.
#[derive(Copy, Clone, Debug, Eq, PartialEq, Ord, PartialOrd, Hash, Structural)]
pub enum Action {
    Game(Input),
    Engine(EngineOp),
}

/// An operation of the engine.
#[derive(Copy, Clone, Debug, Eq, PartialEq, Ord, PartialOrd, Hash, Structural)]
pub enum EngineOp {
    Toggle,
    Next,
    Prev,
    StepForward,
    StepBackward,
    Goto,
}

/// A key stroke: a key alone, a key with control held, or either shift key.
#[derive(Copy, Clone, Debug, Eq, PartialEq, Hash, Structural)]
pub enum KeyStroke {
    Only(i32),
    Control(i32),
    Shift,
}

/// The lowercase form of a string, as Unicode defines it.
pub uninterp spec fn spec_lowercase(s: Seq<char>) -> Seq<char>;

/// The lowercase form of `s`.
///
/// Calls `str::to_lowercase` of the standard library. Its result is a
/// function of the string alone, defined by the tables of Unicode; the
/// contract gives it the name [`spec_lowercase`] and claims no more.
#[verifier::external_body]
fn lowercase(s: &str) -> (lower: String)
    ensures
        lower@ == spec_lowercase(s@),
{
    s.to_lowercase()
}

impl KeyStroke {
    /// The label of the key stroke, given the name of its key in lowercase:
    /// the name for a key alone, the name after `C-` for a key with
    /// control, and `shift` for the shift keys.
    pub open spec fn spec_label(self, lower_name: Seq<char>) -> Seq<char> {
        match self {
            KeyStroke::Only(_) => lower_name,
            KeyStroke::Control(_) => "C-"@ + lower_name,
            KeyStroke::Shift => "shift"@,
        }
    }

    /// The label of the key stroke, given the name of its key in lowercase.
    pub fn label_of(&self, lower_name: &str) -> (label: String)
        ensures
            label@ == self.spec_label(lower_name@),
    {
        match self {
            KeyStroke::Only(_) => String::from_str(lower_name),
            KeyStroke::Control(_) => String::from_str("C-").concat(lower_name),
            KeyStroke::Shift => String::from_str("shift"),
        }
    }

    /// The label of the key stroke, given the name of its key as the window
    /// system has it: the name in lowercase for a key alone, the same after
    /// `C-` for a key with control, and `shift` for the shift keys, whatever
    /// the name.
    pub fn label(&self, key_name: &str) -> (label: String)
        ensures
            label@ == self.spec_label(spec_lowercase(key_name@)),
    {
        let lower = lowercase(key_name);
        self.label_of(lower.as_str())
    }
}

/// A number for each action, a different one for each.
pub open spec fn action_code(action: Action) -> u64 {
    match action {
        Action::Game(Input::Left) => 0,
        Action::Game(Input::Right) => 1,
        Action::Game(Input::CW) => 2,
        Action::Game(Input::CCW) => 3,
        Action::Game(Input::Hold) => 4,
        Action::Game(Input::SD) => 5,
        Action::Game(Input::HD) => 6,
        Action::Engine(EngineOp::Toggle) => 7,
        Action::Engine(EngineOp::Next) => 8,
        Action::Engine(EngineOp::Prev) => 9,
        Action::Engine(EngineOp::StepForward) => 10,
        Action::Engine(EngineOp::StepBackward) => 11,
        Action::Engine(EngineOp::Goto) => 12,
    }
}

/// A number for each key with or without control, a different one for each.
pub open spec fn key_code(key: (i32, bool)) -> u64 {
    ((key.0 + 0x8000_0000) * 2 + if key.1 {
        1int
    } else {
        0int
    }) as u64
}

/// Whether a control key is among the modifiers held.
pub open spec fn spec_control(keymod: u16) -> bool {
    (keymod & LCTRLMOD) != 0 || (keymod & RCTRLMOD) != 0
}

/// The key stroke of each action after the first `n` bindings: a later
/// binding of an action replaces an earlier one.
pub open spec fn bound_actions(bindings: Seq<(Action, KeyStroke)>, n: int) -> Map<
    Action,
    KeyStroke,
>
    decreases n,
{
    if n <= 0 {
        Map::empty()
    } else {
        bound_actions(bindings, n - 1).insert(bindings[n - 1].0, bindings[n - 1].1)
    }
}

/// The action of each key, with or without control, after the first `n`
/// bindings: a later binding of a key replaces an earlier one, and a binding
/// to shift binds both shift keys.
pub open spec fn bound_keys(bindings: Seq<(Action, KeyStroke)>, n: int) -> Map<(i32, bool), Action>
    decreases n,
{
    if n <= 0 {
        Map::empty()
    } else {
        let before = bound_keys(bindings, n - 1);
        let action = bindings[n - 1].0;
        match bindings[n - 1].1 {
            KeyStroke::Only(kc) => before.insert((kc, false), action),
            KeyStroke::Control(kc) => before.insert((kc, true), action),
            KeyStroke::Shift => before.insert((LSHIFT, false), action).insert(
                (RSHIFT, false),
                action,
            ),
        }
    }
}

/// The bindings of a new game.
pub open spec fn spec_default_bindings() -> Seq<(Action, KeyStroke)> {
    seq![
        (Action::Game(Input::Left), KeyStroke::Only(0x4000_0050)),
        (Action::Game(Input::Right), KeyStroke::Only(0x4000_004F)),
        (Action::Game(Input::CCW), KeyStroke::Only(0x7A)),
        (Action::Game(Input::CW), KeyStroke::Only(0x78)),
        (Action::Game(Input::Hold), KeyStroke::Shift),
        (Action::Game(Input::SD), KeyStroke::Only(0x4000_0051)),
        (Action::Game(Input::HD), KeyStroke::Only(0x20)),
        (Action::Engine(EngineOp::Toggle), KeyStroke::Control(0x65)),
        (Action::Engine(EngineOp::Next), KeyStroke::Only(0x09)),
        (Action::Engine(EngineOp::Prev), KeyStroke::Control(0x09)),
        (Action::Engine(EngineOp::Goto), KeyStroke::Only(0x0D)),
    ]
}

/// The bindings of a new game: the arrow keys move, `z` and `x` turn, shift
/// holds, down and space drop; control with `e` toggles the engine, tab and
/// control with tab step through its suggestions, return takes one.
pub fn default_bindings() -> (bindings: Vec<(Action, KeyStroke)>)
    ensures
        bindings@ == spec_default_bindings(),
{
    let bindings = vec![
        (Action::Game(Input::Left), KeyStroke::Only(0x4000_0050)),
        (Action::Game(Input::Right), KeyStroke::Only(0x4000_004F)),
        (Action::Game(Input::CCW), KeyStroke::Only(0x7A)),
        (Action::Game(Input::CW), KeyStroke::Only(0x78)),
        (Action::Game(Input::Hold), KeyStroke::Shift),
        (Action::Game(Input::SD), KeyStroke::Only(0x4000_0051)),
        (Action::Game(Input::HD), KeyStroke::Only(0x20)),
        (Action::Engine(EngineOp::Toggle), KeyStroke::Control(0x65)),
        (Action::Engine(EngineOp::Next), KeyStroke::Only(0x09)),
        (Action::Engine(EngineOp::Prev), KeyStroke::Control(0x09)),
        (Action::Engine(EngineOp::Goto), KeyStroke::Only(0x0D)),
    ];
    assert(bindings@ =~= spec_default_bindings());
    bindings
}

/// The number of an action.
fn code_of_action(action: Action) -> (code: u64)
    ensures
        code == action_code(action),
{
    match action {
        Action::Game(Input::Left) => 0,
        Action::Game(Input::Right) => 1,
        Action::Game(Input::CW) => 2,
        Action::Game(Input::CCW) => 3,
        Action::Game(Input::Hold) => 4,
        Action::Game(Input::SD) => 5,
        Action::Game(Input::HD) => 6,
        Action::Engine(EngineOp::Toggle) => 7,
        Action::Engine(EngineOp::Next) => 8,
        Action::Engine(EngineOp::Prev) => 9,
        Action::Engine(EngineOp::StepForward) => 10,
        Action::Engine(EngineOp::StepBackward) => 11,
        Action::Engine(EngineOp::Goto) => 12,
    }
}

/// The number of a key with or without control.
fn code_of_key(keycode: i32, control: bool) -> (code: u64)
    ensures
        code == key_code((keycode, control)),
{
    let base: u64 = (keycode as i64 + 0x8000_0000) as u64;
    if control {
        base * 2 + 1
    } else {
        base * 2
    }
}

/// A set of key bindings, for looking up the action that a key stroke sets
/// off and the key stroke that an action is bound to.
pub struct Controls {
    from_keycode: HashMap<u64, Action>,
    from_action: HashMap<u64, KeyStroke>,
}

impl Controls {
    /// The key stroke that each bound action is bound to.
    pub closed spec fn spec_from_action(&self) -> Map<Action, KeyStroke> {
        Map::new(
            |a: Action| self.from_action@.contains_key(action_code(a)),
            |a: Action| self.from_action@[action_code(a)],
        )
    }

    /// The action that each bound key, with or without control, sets off.
    pub closed spec fn spec_from_keycode(&self) -> Map<(i32, bool), Action> {
        Map::new(
            |k: (i32, bool)| self.from_keycode@.contains_key(key_code(k)),
            |k: (i32, bool)| self.from_keycode@[key_code(k)],
        )
    }

    /// The controls with these bindings, made in their order.
    pub fn new(bindings: Vec<(Action, KeyStroke)>) -> (controls: Controls)
        ensures
            controls.spec_from_action() == bound_actions(bindings@, bindings@.len() as int),
            controls.spec_from_keycode() == bound_keys(bindings@, bindings@.len() as int),
    {
        let mut controls = Controls { from_keycode: HashMap::new(), from_action: HashMap::new() };
        assert(controls.spec_from_action() =~= bound_actions(bindings@, 0));
        assert(controls.spec_from_keycode() =~= bound_keys(bindings@, 0));
        let mut n: usize = 0;
        while n < bindings.len()
            invariant
                n <= bindings@.len(),
                controls.spec_from_action() == bound_actions(bindings@, n as int),
                controls.spec_from_keycode() == bound_keys(bindings@, n as int),
            decreases bindings@.len() - n,
        {
            let (action, ks) = bindings[n];
            let ghost actions = controls.spec_from_action();
            let ghost keys = controls.spec_from_keycode();
            controls.from_action.insert(code_of_action(action), ks);
            assert(controls.spec_from_action() =~= actions.insert(action, ks));
            match ks {
                KeyStroke::Only(kc) => {
                    controls.from_keycode.insert(code_of_key(kc, false), action);
                    assert(controls.spec_from_keycode() =~= keys.insert((kc, false), action));
                },
                KeyStroke::Control(kc) => {
                    controls.from_keycode.insert(code_of_key(kc, true), action);
                    assert(controls.spec_from_keycode() =~= keys.insert((kc, true), action));
                },
                KeyStroke::Shift => {
                    controls.from_keycode.insert(code_of_key(LSHIFT, false), action);
                    assert(controls.spec_from_keycode() =~= keys.insert((LSHIFT, false), action));
                    controls.from_keycode.insert(code_of_key(RSHIFT, false), action);
                    assert(controls.spec_from_keycode() =~= keys.insert(
                        (LSHIFT, false),
                        action,
                    ).insert((RSHIFT, false), action));
                },
            }
            n += 1;
        }
        controls
    }

    /// The key stroke that `action` is bound to, if it is bound.
    pub fn key_stroke(&self, action: Action) -> (ks: Option<KeyStroke>)
        ensures
            ks == if self.spec_from_action().contains_key(action) {
                Some(self.spec_from_action()[action])
            } else {
                None
            },
    {
        let code = code_of_action(action);
        match self.from_action.get(&code) {
            Some(ks) => Some(*ks),
            None => None,
        }
    }

    /// The action that the key `keycode` sets off while the modifier keys
    /// `keymod` are held, if these controls give it one. Of the modifiers
    /// only the control keys count.
    pub fn parse(&self, keycode: i32, keymod: u16) -> (action: Option<Action>)
        ensures
            action == if self.spec_from_keycode().contains_key((keycode, spec_control(keymod))) {
                Some(self.spec_from_keycode()[(keycode, spec_control(keymod))])
            } else {
                None
            },
    {
        let control = (keymod & LCTRLMOD) != 0 || (keymod & RCTRLMOD) != 0;
        let code = code_of_key(keycode, control);
        match self.from_keycode.get(&code) {
            Some(action) => Some(*action),
            None => None,
        }
    }
}

impl Default for Controls {
    /// The controls of a new game.
    fn default() -> (controls: Controls)
        ensures
            controls.spec_from_action() == bound_actions(
                spec_default_bindings(),
                spec_default_bindings().len() as int,
            ),
            controls.spec_from_keycode() == bound_keys(
                spec_default_bindings(),
                spec_default_bindings().len() as int,
            ),
    {
        Controls::new(default_bindings())
    }
}

} // verus!
