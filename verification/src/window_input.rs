//! What a native window makes of keys, modifiers and drags before the application sees them.
use vstd::prelude::*;
use crate::keystroke::{Keystroke, KeystrokeView};
use crate::native_event::Modifiers;
use crate::text::same_text;

verus! {

/// What the application made of an event.
#[derive(Clone, Copy, Debug, PartialEq, Eq, Structural)]
pub enum WindowEventResult {
    Handled,
    Unhandled { can_accept_input: bool },
}

/// What the platform is answered for a key.
#[derive(Clone, Copy, Debug, PartialEq, Eq, Structural)]
pub enum KeyReply {
    Yes,
    No,
    AskInputMethod,
}

/// What the platform is answered for a key that the application was asked about; nobody may listen.
pub fn key_reply(result: Option<WindowEventResult>) -> (r: KeyReply)
    ensures
        r == (match result {
            Some(WindowEventResult::Handled) => KeyReply::Yes,
            Some(WindowEventResult::Unhandled { can_accept_input: true }) =>
                KeyReply::AskInputMethod,
            _ => KeyReply::No,
        }),
{
    match result {
        Some(WindowEventResult::Handled) => KeyReply::Yes,
        Some(WindowEventResult::Unhandled { can_accept_input }) => if can_accept_input {
            KeyReply::AskInputMethod
        } else {
            KeyReply::No
        },
        None => KeyReply::No,
    }
}

/// A key that was pressed, with the text that it enters.
pub struct KeyPress {
    pub keystroke: Keystroke,
    pub input: Option<String>,
}

/// The meaning of such a key.
#[verifier::ext_equal]
pub struct KeyPressView {
    pub keystroke: KeystrokeView,
    pub input: Option<Seq<char>>,
}

impl View for KeyPress {
    type V = KeyPressView;

    open spec fn view(&self) -> KeyPressView {
        KeyPressView {
            keystroke: self.keystroke@,
            input: match self.input {
                Some(text) => Some(text@),
                None => None,
            },
        }
    }
}

impl KeyPress {
    /// Whether two presses are the same.
    pub fn same(&self, other: &KeyPress) -> (r: bool)
        ensures
            r == (self@ == other@),
    {
        let a: &Keystroke = &self.keystroke;
        let b: &Keystroke = &other.keystroke;
        let inputs: bool = match (&self.input, &other.input) {
            (Some(x), Some(y)) => same_text(x.as_str(), y.as_str()),
            (None, None) => true,
            _ => false,
        };
        a.ctrl == b.ctrl && a.alt == b.alt && a.shift == b.shift && a.cmd == b.cmd && a.function
            == b.function && same_text(a.key.as_str(), b.key.as_str()) && inputs
    }
}

/// Something that happens in the content of a window.
#[derive(Clone, Copy, Debug, PartialEq, Eq, Structural)]
pub enum ViewInput {
    Dragged,
    LeftButtonUp,
    ModifiersChanged(Modifiers),
    Other,
}

/// Whether the application is told, and which drag begins to repeat.
#[derive(Clone, Copy, Debug, PartialEq, Eq, Structural)]
pub struct ViewStep {
    pub deliver: bool,
    pub drag: Option<usize>,
}

/// The last key that was pressed afresh, the modifiers that were last reported, and the number of the
/// drag that goes on.
pub struct WindowInput {
    last_fresh_keydown: Option<KeyPress>,
    previous_modifiers: Option<Modifiers>,
    synthetic_drag_counter: usize,
}

/// The meaning of that record.
#[verifier::ext_equal]
pub struct WindowInputView {
    pub last_fresh_keydown: Option<KeyPressView>,
    pub previous_modifiers: Option<Modifiers>,
    pub synthetic_drag_counter: usize,
}

impl View for WindowInput {
    type V = WindowInputView;

    closed spec fn view(&self) -> WindowInputView {
        WindowInputView {
            last_fresh_keydown: match self.last_fresh_keydown {
                Some(press) => Some(press@),
                None => None,
            },
            previous_modifiers: self.previous_modifiers,
            synthetic_drag_counter: self.synthetic_drag_counter,
        }
    }
}

/// The keystroke that closes a dialog.
pub open spec fn cancel_press() -> KeyPressView {
    KeyPressView {
        keystroke: KeystrokeView {
            ctrl: false,
            alt: false,
            shift: false,
            cmd: true,
            function: false,
            key: "."@,
        },
        input: Some("."@),
    }
}

/// What happens to the record and to the application for something in the content of a window. A
/// drag begins anew with each move and ends when the left button comes up; modifiers that did not
/// change are not reported.
pub open spec fn view_step(w: WindowInputView, input: ViewInput) -> (WindowInputView, ViewStep) {
    match input {
        ViewInput::Dragged => {
            let drag = (w.synthetic_drag_counter + 1) as usize;
            (
                WindowInputView { synthetic_drag_counter: drag, ..w },
                ViewStep { deliver: true, drag: Some(drag) },
            )
        },
        ViewInput::LeftButtonUp => (
            WindowInputView {
                synthetic_drag_counter: (w.synthetic_drag_counter + 1) as usize,
                ..w
            },
            ViewStep { deliver: true, drag: None },
        ),
        ViewInput::ModifiersChanged(modifiers) => if w.previous_modifiers == Some(modifiers) {
            (w, ViewStep { deliver: false, drag: None })
        } else {
            (
                WindowInputView { previous_modifiers: Some(modifiers), ..w },
                ViewStep { deliver: true, drag: None },
            )
        },
        ViewInput::Other => (w, ViewStep { deliver: true, drag: None }),
    }
}

/// Whether a key is passed on. One that is held down is ignored once another key was pressed.
pub open spec fn key_counts(w: WindowInputView, press: KeyPressView, is_held: bool) -> bool {
    !is_held || w.last_fresh_keydown == Some(press)
}

/// Modifiers are reported once.
pub proof fn modifiers_are_reported_once(w: WindowInputView, modifiers: Modifiers)
    ensures
        !view_step(
            view_step(w, ViewInput::ModifiersChanged(modifiers)).0,
            ViewInput::ModifiersChanged(modifiers),
        ).1.deliver,
{
}

/// A drag goes on until the mouse moves again or the button comes up.
pub proof fn drag_ends(w: WindowInputView, next: ViewInput)
    requires
        w.synthetic_drag_counter < usize::MAX - 1,
    ensures
        ({
            let begun = view_step(w, ViewInput::Dragged);
            let after = view_step(begun.0, next).0;
            (begun.1.drag == Some(after.synthetic_drag_counter)) <==> !(next is Dragged)
                && !(next is LeftButtonUp)
        }),
{
}

impl WindowInput {
    /// Nothing has happened.
    pub fn new() -> (r: WindowInput)
        ensures
            r@ == (WindowInputView {
                last_fresh_keydown: None,
                previous_modifiers: None,
                synthetic_drag_counter: 0,
            }),
    {
        WindowInput {
            last_fresh_keydown: None,
            previous_modifiers: None,
            synthetic_drag_counter: 0,
        }
    }

    /// A key went down, or is held down; tells whether it is passed on.
    pub fn key_down(&mut self, press: KeyPress, is_held: bool) -> (deliver: bool)
        ensures
            deliver == key_counts(old(self)@, press@, is_held),
            final(self)@ == (if is_held {
                old(self)@
            } else {
                WindowInputView { last_fresh_keydown: Some(press@), ..old(self)@ }
            }),
    {
        if is_held {
            match &self.last_fresh_keydown {
                Some(last) => last.same(&press),
                None => false,
            }
        } else {
            self.last_fresh_keydown = Some(press);
            true
        }
    }

    /// A dialog is to be closed: that counts as a key that was pressed afresh.
    pub fn cancel_operation(&mut self)
        ensures
            final(self)@ == (WindowInputView {
                last_fresh_keydown: Some(cancel_press()),
                ..old(self)@
            }),
    {
        let keystroke = Keystroke {
            ctrl: false,
            alt: false,
            shift: false,
            cmd: true,
            function: false,
            key: ".".to_owned(),
        };
        let press = KeyPress { keystroke, input: Some(".".to_owned()) };
        assert(press@ =~= cancel_press());
        self.last_fresh_keydown = Some(press);
    }

    /// Something happened in the content of the window.
    pub fn view_input(&mut self, input: ViewInput) -> (r: ViewStep)
        requires
            input is Dragged || input is LeftButtonUp ==> old(self)@.synthetic_drag_counter
                < usize::MAX,
        ensures
            (final(self)@, r) == view_step(old(self)@, input),
    {
        match input {
            ViewInput::Dragged => {
                self.synthetic_drag_counter = self.synthetic_drag_counter + 1;
                ViewStep { deliver: true, drag: Some(self.synthetic_drag_counter) }
            },
            ViewInput::LeftButtonUp => {
                self.synthetic_drag_counter = self.synthetic_drag_counter + 1;
                ViewStep { deliver: true, drag: None }
            },
            ViewInput::ModifiersChanged(modifiers) => {
                let unchanged: bool = match self.previous_modifiers {
                    Some(previous) => previous == modifiers,
                    None => false,
                };
                if unchanged {
                    ViewStep { deliver: false, drag: None }
                } else {
                    self.previous_modifiers = Some(modifiers);
                    ViewStep { deliver: true, drag: None }
                }
            },
            ViewInput::Other => ViewStep { deliver: true, drag: None },
        }
    }

    /// Whether a drag still repeats.
    pub fn drag_goes_on(&self, drag: usize) -> (r: bool)
        ensures
            r == (self@.synthetic_drag_counter == drag),
    {
        self.synthetic_drag_counter == drag
    }
}

impl Default for WindowInput {
    fn default() -> (r: Self)
        ensures
            r@ == (WindowInputView {
                last_fresh_keydown: None,
                previous_modifiers: None,
                synthetic_drag_counter: 0,
            }),
    {
        WindowInput::new()
    }
}

/// After how many milliseconds a drag is repeated.
pub const DRAG_INTERVAL: u64 = 16;

/// How serious a prompt is.
#[derive(Clone, Copy, Debug, PartialEq, Eq, Structural)]
pub enum PromptLevel {
    Info,
    Warning,
    Critical,
}

/// The number of the alert style that the platform shows a prompt in.
pub fn alert_style(level: PromptLevel) -> (r: u64)
    ensures
        r == (match level {
            PromptLevel::Info => 1u64,
            PromptLevel::Warning => 0u64,
            PromptLevel::Critical => 2u64,
        }),
{
    match level {
        PromptLevel::Info => 1,
        PromptLevel::Warning => 0,
        PromptLevel::Critical => 2,
    }
}

/// The location by which the platform says that there is no range.
pub const NOT_FOUND: u64 = 0x7fff_ffff_ffff_ffff;

/// A range of text as the platform writes it.
#[derive(Clone, Copy, Debug, PartialEq, Eq, Structural)]
pub struct NativeRange {
    pub location: u64,
    pub length: u64,
}

impl NativeRange {
    /// Whether there is a range.
    pub fn is_valid(&self) -> (r: bool)
        ensures
            r == (self.location != NOT_FOUND),
    {
        self.location != NOT_FOUND
    }

    /// The range of the selected text: an empty one at the start if nobody knows it, and of no
    /// length if it ends before it starts.
    pub fn of_selection(selection: Option<(u64, u64)>) -> (r: NativeRange)
        ensures
            r == (match selection {
                Some((start, end)) => NativeRange {
                    location: start,
                    length: if start <= end {
                        (end - start) as u64
                    } else {
                        0
                    },
                },
                None => NativeRange { location: 0, length: 0 },
            }),
    {
        match selection {
            Some((start, end)) => NativeRange {
                location: start,
                length: if start <= end {
                    end - start
                } else {
                    0
                },
            },
            None => NativeRange { location: 0, length: 0 },
        }
    }

    /// The range that entered text replaces, from its start to its end.
    pub fn replaced(&self) -> (r: Option<(u64, u64)>)
        requires
            self.location != NOT_FOUND ==> self.location + self.length <= u64::MAX,
        ensures
            r == (if self.location == NOT_FOUND {
                None
            } else {
                Some((self.location, (self.location + self.length) as u64))
            }),
    {
        if self.is_valid() {
            Some((self.location, self.location + self.length))
        } else {
            None
        }
    }
}

/// Whether a window closes: nobody needs to be asked, or whoever was asked agreed.
pub fn should_close(answer: Option<bool>) -> (r: bool)
    ensures
        r == !(answer == Some(false)),
{
    match answer {
        Some(agreed) => agreed,
        None => true,
    }
}

/// All is delivered but modifiers that are still held as before.
pub proof fn input_is_delivered(w: WindowInputView, input: ViewInput)
    ensures
        view_step(w, input).1.deliver <==> !(input matches ViewInput::ModifiersChanged(modifiers)
            && w.previous_modifiers == Some(modifiers)),
        view_step(w, input).1.drag is Some <==> input is Dragged,
        input matches ViewInput::ModifiersChanged(modifiers) ==> view_step(
            w,
            input,
        ).0.previous_modifiers == Some(modifiers),
        !(input is ModifiersChanged) ==> view_step(w, input).0.previous_modifiers
            == w.previous_modifiers,
        view_step(w, input).0.last_fresh_keydown == w.last_fresh_keydown,
        w.synthetic_drag_counter < usize::MAX && (input is Dragged || input is LeftButtonUp)
            ==> view_step(w, input).0.synthetic_drag_counter == w.synthetic_drag_counter + 1,
        !(input is Dragged) && !(input is LeftButtonUp) ==> view_step(
            w,
            input,
        ).0.synthetic_drag_counter == w.synthetic_drag_counter,
{
}

/// A key that is held counts if it is the one that was pressed last; a key that is pressed counts.
pub proof fn held_keys_repeat_the_last(w: WindowInputView, press: KeyPressView)
    ensures
        key_counts(w, press, false),
        key_counts(w, press, true) <==> (w.last_fresh_keydown matches Some(last) && last == press),
{
}

/// Cancelling is the command key and a full stop.
pub proof fn cancelling_is_a_key()
    ensures
        cancel_press().keystroke.cmd,
        !cancel_press().keystroke.ctrl,
        !cancel_press().keystroke.alt,
        !cancel_press().keystroke.shift,
        !cancel_press().keystroke.function,
        cancel_press().keystroke.key == seq!['.'],
        cancel_press().input == Some(seq!['.']),
{
    reveal_strlit(".");
    assert("."@ =~= seq!['.']);
}

} // verus!
