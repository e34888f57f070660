//! The vocabulary the input layer speaks to the core in: directions,
//! key-binding actions, and the compositor actions they map to.

use vstd::prelude::*;

verus! {

/// A direction on the output plane, for focus and window moves.
#[derive(Clone, Copy, PartialEq, Eq, Structural, Debug)]
pub enum Direction {
    Left,
    Right,
    Up,
    Down,
}

/// What a key binding asks for, as configured.
#[derive(Clone, PartialEq, Eq, Debug)]
pub enum Action {
    MoveWindowLeft,
    MoveWindowRight,
    MoveWindowDown,
    MoveWindowUp,
    MoveContainerLeft,
    MoveContainerRight,
    MoveContainerDown,
    MoveContainerUp,
    MoveFocusLeft,
    ToggleFullScreenWindow,
    ToggleFullScreenContainer,
    MoveFocusRight,
    MoveFocusDown,
    MoveFocusUp,
    MoveToWorkspace(u8),
    LayoutVertical,
    LayoutHorizontal,
    ToggleFloating,
    Run { env: Vec<(String, String)>, command: String },
    Close,
    Quit,
}

/// What the event loop carries out; `Idle` is the action of ignoring a
/// key press that matches no binding.
#[derive(Clone, PartialEq, Eq, Debug)]
pub enum KeyAction {
    ToggleFullScreenWindow,
    ToggleFullScreenContainer,
    MoveWindow(Direction),
    MoveContainer(Direction),
    MoveFocus(Direction),
    Run(String, Vec<(String, String)>),
    MoveToWorkspace(u8),
    LayoutVertical,
    LayoutHorizontal,
    ToggleFloating,
    VtSwitch(i32),
    Close,
    Quit,
    Idle,
}

/// One environment entry handed to a spawned command.
#[derive(Clone, PartialEq, Eq, Debug)]
pub struct EnvVar {
    pub key: String,
    pub value: String,
}

impl EnvVar {
    pub fn new(key: String, value: String) -> (r: EnvVar)
        ensures
            r == (EnvVar { key, value }),
    {
        EnvVar { key, value }
    }
}

/// A modifier key that can take part in a binding.
#[derive(Clone, Copy, PartialEq, Eq, Structural, Debug)]
pub enum Modifier {
    Ctrl,
    Alt,
    Shift,
    Logo,
    CapsLock,
    NumLock,
}

/// The event-loop action each configured action maps to.
pub open spec fn key_action_of(a: Action) -> KeyAction {
    match a {
        Action::MoveWindowLeft => KeyAction::MoveWindow(Direction::Left),
        Action::MoveWindowRight => KeyAction::MoveWindow(Direction::Right),
        Action::MoveWindowDown => KeyAction::MoveWindow(Direction::Down),
        Action::MoveWindowUp => KeyAction::MoveWindow(Direction::Up),
        Action::MoveContainerLeft => KeyAction::MoveContainer(Direction::Left),
        Action::MoveContainerRight => KeyAction::MoveContainer(Direction::Right),
        Action::MoveContainerDown => KeyAction::MoveContainer(Direction::Down),
        Action::MoveContainerUp => KeyAction::MoveContainer(Direction::Up),
        Action::MoveFocusLeft => KeyAction::MoveFocus(Direction::Left),
        Action::MoveFocusRight => KeyAction::MoveFocus(Direction::Right),
        Action::MoveFocusDown => KeyAction::MoveFocus(Direction::Down),
        Action::MoveFocusUp => KeyAction::MoveFocus(Direction::Up),
        Action::MoveToWorkspace(num) => KeyAction::MoveToWorkspace(num),
        Action::LayoutVertical => KeyAction::LayoutVertical,
        Action::LayoutHorizontal => KeyAction::LayoutHorizontal,
        Action::ToggleFloating => KeyAction::ToggleFloating,
        Action::Run { command, env } => KeyAction::Run(command, env),
        Action::Close => KeyAction::Close,
        Action::Quit => KeyAction::Quit,
        Action::ToggleFullScreenWindow => KeyAction::ToggleFullScreenWindow,
        Action::ToggleFullScreenContainer => KeyAction::ToggleFullScreenContainer,
    }
}

impl Action {
    /// Turn a configured action into the event-loop action it stands for.
    pub fn to_key_action(self) -> (r: KeyAction)
        ensures
            r == key_action_of(self),
    {
        match self {
            Action::MoveWindowLeft => KeyAction::MoveWindow(Direction::Left),
            Action::MoveWindowRight => KeyAction::MoveWindow(Direction::Right),
            Action::MoveWindowDown => KeyAction::MoveWindow(Direction::Down),
            Action::MoveWindowUp => KeyAction::MoveWindow(Direction::Up),
            Action::MoveContainerLeft => KeyAction::MoveContainer(Direction::Left),
            Action::MoveContainerRight => KeyAction::MoveContainer(Direction::Right),
            Action::MoveContainerDown => KeyAction::MoveContainer(Direction::Down),
            Action::MoveContainerUp => KeyAction::MoveContainer(Direction::Up),
            Action::MoveFocusLeft => KeyAction::MoveFocus(Direction::Left),
            Action::MoveFocusRight => KeyAction::MoveFocus(Direction::Right),
            Action::MoveFocusDown => KeyAction::MoveFocus(Direction::Down),
            Action::MoveFocusUp => KeyAction::MoveFocus(Direction::Up),
            Action::MoveToWorkspace(num) => KeyAction::MoveToWorkspace(num),
            Action::LayoutVertical => KeyAction::LayoutVertical,
            Action::LayoutHorizontal => KeyAction::LayoutHorizontal,
            Action::ToggleFloating => KeyAction::ToggleFloating,
            Action::Run { command, env } => KeyAction::Run(command, env),
            Action::Close => KeyAction::Close,
            Action::Quit => KeyAction::Quit,
            Action::ToggleFullScreenWindow => KeyAction::ToggleFullScreenWindow,
            Action::ToggleFullScreenContainer => KeyAction::ToggleFullScreenContainer,
        }
    }
}

} // verus!
