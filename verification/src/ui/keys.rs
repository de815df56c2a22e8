//! Keyboard shortcuts.

use super::state::{UiState, UiView};
use vstd::prelude::*;

verus! {

#[derive(Clone, Copy, Debug, PartialEq, Eq, Structural)]
pub enum Key {
    Enter,
    Character(char),
    Other,
}

/// A key going down or up, with the modifiers held.
#[derive(Clone, Copy, Debug, PartialEq, Eq, Structural)]
pub struct KeyEvent {
    pub key: Key,
    pub down: bool,
    pub is_repeat: bool,
    pub command: bool,
    pub shift: bool,
    pub alt: bool,
}

/// What a shortcut asks for.
#[derive(Clone, Copy, Debug, PartialEq, Eq, Structural)]
pub enum Shortcut {
    Implement,
    Undo,
    Redo,
    ToggleDebug,
    Unbound,
}

impl KeyEvent {
    /// The shortcut that the event is bound to. Releases, repeats and
    /// unknown combinations are bound to none.
    pub open spec fn shortcut(self) -> Shortcut {
        if !self.down || self.is_repeat || self.alt {
            Shortcut::Unbound
        } else if self.key == Key::Enter && self.command && !self.shift {
            Shortcut::Implement
        } else if self.key == Key::Character('z') && self.command && !self.shift {
            Shortcut::Undo
        } else if self.key == Key::Character('z') && self.command && self.shift {
            Shortcut::Redo
        } else if self.key == Key::Character('y') && self.command && !self.shift {
            Shortcut::Redo
        } else if self.key == Key::Character('.') && !self.command && !self.shift {
            Shortcut::ToggleDebug
        } else {
            Shortcut::Unbound
        }
    }

    /// The shortcut that the event is bound to.
    pub fn bound_to(&self) -> (r: Shortcut)
        ensures
            r == self.shortcut(),
    {
        if !self.down || self.is_repeat || self.alt {
            return Shortcut::Unbound;
        }
        match self.key {
            Key::Enter => if self.command && !self.shift {
                Shortcut::Implement
            } else {
                Shortcut::Unbound
            },
            Key::Character(c) => if c == 'z' && self.command {
                if self.shift {
                    Shortcut::Redo
                } else {
                    Shortcut::Undo
                }
            } else if c == 'y' && self.command && !self.shift {
                Shortcut::Redo
            } else if c == '.' && !self.command && !self.shift {
                Shortcut::ToggleDebug
            } else {
                Shortcut::Unbound
            },
            Key::Other => Shortcut::Unbound,
        }
    }
}

impl UiView {
    /// The shortcut has something to do.
    pub open spec fn takes(self, what: Shortcut) -> bool {
        match what {
            Shortcut::Implement => self.current_project is Some,
            Shortcut::Undo => self.current_project is Some,
            Shortcut::Redo => self.has_redo,
            Shortcut::ToggleDebug => true,
            Shortcut::Unbound => false,
        }
    }

    /// After a shortcut that has something to do.
    pub open spec fn after_shortcut(self, what: Shortcut, crossed: Seq<bool>) -> UiView {
        if !self.takes(what) {
            self
        } else {
            match what {
                Shortcut::Implement => self.implemented(crossed).blipped(740),
                Shortcut::Undo => UiView { has_redo: true, ..self },
                Shortcut::Redo => UiView { has_redo: false, ..self },
                Shortcut::ToggleDebug => UiView { show_debug: !self.show_debug, ..self },
                Shortcut::Unbound => self,
            }
        }
    }
}

impl UiState {
    /// Implement button and shortcut.
    pub fn press_implement(&mut self, crossed: Vec<bool>)
        requires
            old(self)@.can_implement(),
        ensures
            final(self)@ == old(self)@.implemented(crossed@).blipped(740),
    {
        self.implement_project(crossed);
        self.blip(740);
    }

    fn toggle_debug(&mut self)
        ensures
            final(self)@ == (UiView { show_debug: !old(self)@.show_debug, ..old(self)@ }),
    {
        self.show_debug = !self.show_debug;
    }

    /// Global shortcuts. True when the event was consumed. `crossed` tells
    /// which cells [`UiState::planned_walls`] cross.
    pub fn handle_shortcut(&mut self, event: KeyEvent, crossed: Vec<bool>) -> (r: bool)
        requires
            event.shortcut() == Shortcut::Implement && old(self)@.takes(Shortcut::Implement)
                ==> old(self)@.can_implement(),
        ensures
            r == old(self)@.takes(event.shortcut()),
            final(self)@ == old(self)@.after_shortcut(event.shortcut(), crossed@),
    {
        match event.bound_to() {
            Shortcut::Implement => {
                if self.current_project.is_none() {
                    return false;
                }
                self.press_implement(crossed);
                true
            },
            Shortcut::Undo => self.undo(),
            Shortcut::Redo => self.redo(),
            Shortcut::ToggleDebug => {
                self.toggle_debug();
                true
            },
            Shortcut::Unbound => false,
        }
    }
}

/// Undo then redo leaves everything as it was with nothing to redo.
pub proof fn law_redo_answers_undo(s: UiView, crossed: Seq<bool>)
    requires
        s.current_project is Some,
    ensures
        s.after_shortcut(Shortcut::Undo, crossed).takes(Shortcut::Redo),
        s.after_shortcut(Shortcut::Undo, crossed).after_shortcut(Shortcut::Redo, crossed) == (
        UiView { has_redo: false, ..s }),
{
}

/// Toggling the debug window twice changes nothing.
pub proof fn law_debug_toggles(s: UiView, crossed: Seq<bool>)
    ensures
        s.after_shortcut(Shortcut::ToggleDebug, crossed).after_shortcut(
            Shortcut::ToggleDebug,
            crossed,
        ) == s,
{
}

} // verus!
