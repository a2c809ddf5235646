//! Native events of the platform, as the application takes them.
use vstd::prelude::*;
use crate::keystroke::{Keystroke, KeystrokeView};
use crate::presenter::MouseButton;
use crate::text::same_text;

verus! {

/// The character that the platform uses for a named key.
pub open spec fn native_code(key: Seq<char>) -> Option<char> {
    if key == "space"@ {
        Some('\u{20}')
    } else if key == "backspace"@ {
        Some('\u{7f}')
    } else if key == "up"@ {
        Some('\u{f700}')
    } else if key == "down"@ {
        Some('\u{f701}')
    } else if key == "left"@ {
        Some('\u{f702}')
    } else if key == "right"@ {
        Some('\u{f703}')
    } else if key == "pageup"@ {
        Some('\u{f72c}')
    } else if key == "pagedown"@ {
        Some('\u{f72d}')
    } else if key == "delete"@ {
        Some('\u{f728}')
    } else if key == "f1"@ {
        Some('\u{f704}')
    } else if key == "f2"@ {
        Some('\u{f705}')
    } else if key == "f3"@ {
        Some('\u{f706}')
    } else if key == "f4"@ {
        Some('\u{f707}')
    } else if key == "f5"@ {
        Some('\u{f708}')
    } else if key == "f6"@ {
        Some('\u{f709}')
    } else if key == "f7"@ {
        Some('\u{f70a}')
    } else if key == "f8"@ {
        Some('\u{f70b}')
    } else if key == "f9"@ {
        Some('\u{f70c}')
    } else if key == "f10"@ {
        Some('\u{f70d}')
    } else if key == "f11"@ {
        Some('\u{f70e}')
    } else if key == "f12"@ {
        Some('\u{f70f}')
    } else {
        None
    }
}

/// The name of the key that the platform reports by a character code.
pub open spec fn name_of_code(code: u32) -> Option<Seq<char>> {
    if code == 0x20 {
        Some("space"@)
    } else if code == 0x7f {
        Some("backspace"@)
    } else if code == 0xf700 {
        Some("up"@)
    } else if code == 0xf701 {
        Some("down"@)
    } else if code == 0xf702 {
        Some("left"@)
    } else if code == 0xf703 {
        Some("right"@)
    } else if code == 0xf72c {
        Some("pageup"@)
    } else if code == 0xf72d {
        Some("pagedown"@)
    } else if code == 0xf728 {
        Some("delete"@)
    } else if code == 0xf704 {
        Some("f1"@)
    } else if code == 0xf705 {
        Some("f2"@)
    } else if code == 0xf706 {
        Some("f3"@)
    } else if code == 0xf707 {
        Some("f4"@)
    } else if code == 0xf708 {
        Some("f5"@)
    } else if code == 0xf709 {
        Some("f6"@)
    } else if code == 0xf70a {
        Some("f7"@)
    } else if code == 0xf70b {
        Some("f8"@)
    } else if code == 0xf70c {
        Some("f9"@)
    } else if code == 0xf70d {
        Some("f10"@)
    } else if code == 0xf70e {
        Some("f11"@)
    } else if code == 0xf70f {
        Some("f12"@)
    } else if code == 0xd || code == 0x3 {
        Some("enter"@)
    } else if code == 0x1b {
        Some("escape"@)
    } else if code == 0x9 || code == 0x19 {
        Some("tab"@)
    } else {
        None
    }
}

fn native_char(key: &str) -> (r: Option<char>)
    ensures
        r == native_code(key@),
{
    if same_text(key, "space") {
        Some('\u{20}')
    } else if same_text(key, "backspace") {
        Some('\u{7f}')
    } else if same_text(key, "up") {
        Some('\u{f700}')
    } else if same_text(key, "down") {
        Some('\u{f701}')
    } else if same_text(key, "left") {
        Some('\u{f702}')
    } else if same_text(key, "right") {
        Some('\u{f703}')
    } else if same_text(key, "pageup") {
        Some('\u{f72c}')
    } else if same_text(key, "pagedown") {
        Some('\u{f72d}')
    } else if same_text(key, "delete") {
        Some('\u{f728}')
    } else if same_text(key, "f1") {
        Some('\u{f704}')
    } else if same_text(key, "f2") {
        Some('\u{f705}')
    } else if same_text(key, "f3") {
        Some('\u{f706}')
    } else if same_text(key, "f4") {
        Some('\u{f707}')
    } else if same_text(key, "f5") {
        Some('\u{f708}')
    } else if same_text(key, "f6") {
        Some('\u{f709}')
    } else if same_text(key, "f7") {
        Some('\u{f70a}')
    } else if same_text(key, "f8") {
        Some('\u{f70b}')
    } else if same_text(key, "f9") {
        Some('\u{f70c}')
    } else if same_text(key, "f10") {
        Some('\u{f70d}')
    } else if same_text(key, "f11") {
        Some('\u{f70e}')
    } else if same_text(key, "f12") {
        Some('\u{f70f}')
    } else {
        None
    }
}

fn key_name(code: u32) -> (r: Option<&'static str>)
    ensures
        r is Some == name_of_code(code) is Some,
        r matches Some(name) ==> Some(name@) == name_of_code(code),
{
    if code == 0x20 {
        Some("space")
    } else if code == 0x7f {
        Some("backspace")
    } else if code == 0xf700 {
        Some("up")
    } else if code == 0xf701 {
        Some("down")
    } else if code == 0xf702 {
        Some("left")
    } else if code == 0xf703 {
        Some("right")
    } else if code == 0xf72c {
        Some("pageup")
    } else if code == 0xf72d {
        Some("pagedown")
    } else if code == 0xf728 {
        Some("delete")
    } else if code == 0xf704 {
        Some("f1")
    } else if code == 0xf705 {
        Some("f2")
    } else if code == 0xf706 {
        Some("f3")
    } else if code == 0xf707 {
        Some("f4")
    } else if code == 0xf708 {
        Some("f5")
    } else if code == 0xf709 {
        Some("f6")
    } else if code == 0xf70a {
        Some("f7")
    } else if code == 0xf70b {
        Some("f8")
    } else if code == 0xf70c {
        Some("f9")
    } else if code == 0xf70d {
        Some("f10")
    } else if code == 0xf70e {
        Some("f11")
    } else if code == 0xf70f {
        Some("f12")
    } else if code == 0xd || code == 0x3 {
        Some("enter")
    } else if code == 0x1b {
        Some("escape")
    } else if code == 0x9 || code == 0x19 {
        Some("tab")
    } else {
        None
    }
}

/// The text by which the platform knows a key: a named key has a character of its own, any other is
/// its own text.
pub open spec fn native_key(key: Seq<char>) -> Seq<char> {
    match native_code(key) {
        Some(c) => seq![c],
        None => key,
    }
}

/// The text by which the platform knows a key.
pub fn key_to_native(key: &str) -> (r: String)
    ensures
        r@ == native_key(key@),
{
    match native_char(key) {
        Some(c) => {
            let mut r: String = String::new();
            r.push(c);
            assert(r@ =~= native_key(key@));
            r
        },
        None => key.to_owned(),
    }
}

/// The name of the key for the characters that the platform reports: that of the first character,
/// by the lower sixteen bits of its code, or else the characters themselves. Without characters
/// there is no key.
pub open spec fn key_text(characters: Seq<char>) -> Option<Seq<char>> {
    if characters.len() == 0 {
        None
    } else {
        match name_of_code((characters[0] as u32 % 0x10000) as u32) {
            Some(name) => Some(name),
            None => Some(characters),
        }
    }
}

/// The name of the key for the characters that the platform reports.
pub fn get_key_text(characters: &str) -> (r: Option<String>)
    ensures
        r is Some == key_text(characters@) is Some,
        r matches Some(name) ==> Some(name@) == key_text(characters@),
{
    if characters.unicode_len() == 0 {
        None
    } else {
        let first: char = characters.get_char(0);
        let code: u32 = first as u32 % 0x10000;
        match key_name(code) {
            Some(name) => Some(name.to_owned()),
            None => Some(characters.to_owned()),
        }
    }
}

/// The platform reports a named key by the character that it knows the key by.
pub proof fn native_key_is_read_back(key: Seq<char>)
    requires
        native_code(key) is Some,
    ensures
        key_text(native_key(key)) == Some(key),
{
}

/// The modifier keys that are down.
#[derive(Clone, Copy, Debug, PartialEq, Eq, Structural)]
pub struct Modifiers {
    pub ctrl: bool,
    pub alt: bool,
    pub shift: bool,
    pub cmd: bool,
}

/// The sorts of native events.
#[derive(Clone, Copy, Debug, PartialEq, Eq, Structural)]
pub enum NativeKind {
    FlagsChanged,
    KeyDown,
    KeyUp,
    MouseDown,
    MouseUp,
    MouseDragged,
    MouseMoved,
    ScrollWheel,
    Other,
}

/// The sort that the platform's number of an event stands for: three numbers for each of the mouse's
/// sorts, since the left button, the right one and the others have their own. All other numbers, and
/// those that the platform gives to events of its own (0, 21, 32, 33, 35, 36 and 37), are passed over.
pub open spec fn kind_with_code(code: u64) -> NativeKind {
    if code == 1 || code == 3 || code == 25 {
        NativeKind::MouseDown
    } else if code == 2 || code == 4 || code == 26 {
        NativeKind::MouseUp
    } else if code == 5 {
        NativeKind::MouseMoved
    } else if code == 6 || code == 7 || code == 27 {
        NativeKind::MouseDragged
    } else if code == 10 {
        NativeKind::KeyDown
    } else if code == 11 {
        NativeKind::KeyUp
    } else if code == 12 {
        NativeKind::FlagsChanged
    } else if code == 22 {
        NativeKind::ScrollWheel
    } else {
        NativeKind::Other
    }
}

/// The sort of the event that the platform gives this number.
pub fn kind_of_code(code: u64) -> (r: NativeKind)
    ensures
        r == kind_with_code(code),
{
    match code {
        1 | 3 | 25 => NativeKind::MouseDown,
        2 | 4 | 26 => NativeKind::MouseUp,
        5 => NativeKind::MouseMoved,
        6 | 7 | 27 => NativeKind::MouseDragged,
        10 => NativeKind::KeyDown,
        11 => NativeKind::KeyUp,
        12 => NativeKind::FlagsChanged,
        22 => NativeKind::ScrollWheel,
        _ => NativeKind::Other,
    }
}

/// The bit of the shift key among the platform's flags.
pub const SHIFT_MASK: u64 = 0x20000;

/// The bit of the control key.
pub const CONTROL_MASK: u64 = 0x40000;

/// The bit of the alternate key.
pub const ALTERNATE_MASK: u64 = 0x80000;

/// The bit of the command key.
pub const COMMAND_MASK: u64 = 0x100000;

/// The modifier keys whose bits are set. The other bits say nothing of them.
pub open spec fn modifiers_with_flags(flags: u64) -> Modifiers {
    Modifiers {
        ctrl: flags & CONTROL_MASK == CONTROL_MASK,
        alt: flags & ALTERNATE_MASK == ALTERNATE_MASK,
        shift: flags & SHIFT_MASK == SHIFT_MASK,
        cmd: flags & COMMAND_MASK == COMMAND_MASK,
    }
}

/// The modifier keys that the platform's flags name.
pub fn modifiers_of_flags(flags: u64) -> (r: Modifiers)
    ensures
        r == modifiers_with_flags(flags),
{
    Modifiers {
        ctrl: flags & CONTROL_MASK == CONTROL_MASK,
        alt: flags & ALTERNATE_MASK == ALTERNATE_MASK,
        shift: flags & SHIFT_MASK == SHIFT_MASK,
        cmd: flags & COMMAND_MASK == COMMAND_MASK,
    }
}

/// What a native event carries. An event in a window has a position, which its owner keeps.
pub struct NativeEvent {
    pub kind: NativeKind,
    pub modifiers: Modifiers,
    pub characters: String,
    pub is_repeat: bool,
    pub button_number: i64,
    pub click_count: usize,
    pub precise_scrolling: bool,
    pub in_window: bool,
}

/// An event as the application takes it.
pub enum PlatformEvent {
    ModifiersChanged(Modifiers),
    KeyDown { keystroke: Keystroke, is_held: bool },
    KeyUp { keystroke: Keystroke },
    MouseDown { button: MouseButton, modifiers: Modifiers, click_count: usize },
    MouseUp { button: MouseButton, modifiers: Modifiers, click_count: usize },
    MouseMoved { pressed_button: Option<MouseButton>, modifiers: Modifiers },
    ScrollWheel { precise: bool },
}

/// The meaning of an event.
pub enum PlatformEventView {
    ModifiersChanged(Modifiers),
    KeyDown { keystroke: KeystrokeView, is_held: bool },
    KeyUp { keystroke: KeystrokeView },
    MouseDown { button: MouseButton, modifiers: Modifiers, click_count: usize },
    MouseUp { button: MouseButton, modifiers: Modifiers, click_count: usize },
    MouseMoved { pressed_button: Option<MouseButton>, modifiers: Modifiers },
    ScrollWheel { precise: bool },
}

impl View for PlatformEvent {
    type V = PlatformEventView;

    open spec fn view(&self) -> PlatformEventView {
        match *self {
            PlatformEvent::ModifiersChanged(modifiers) => PlatformEventView::ModifiersChanged(
                modifiers,
            ),
            PlatformEvent::KeyDown { keystroke, is_held } => PlatformEventView::KeyDown {
                keystroke: keystroke@,
                is_held,
            },
            PlatformEvent::KeyUp { keystroke } => PlatformEventView::KeyUp {
                keystroke: keystroke@,
            },
            PlatformEvent::MouseDown { button, modifiers, click_count } =>
                PlatformEventView::MouseDown { button, modifiers, click_count },
            PlatformEvent::MouseUp { button, modifiers, click_count } =>
                PlatformEventView::MouseUp { button, modifiers, click_count },
            PlatformEvent::MouseMoved { pressed_button, modifiers } =>
                PlatformEventView::MouseMoved { pressed_button, modifiers },
            PlatformEvent::ScrollWheel { precise } => PlatformEventView::ScrollWheel { precise },
        }
    }
}

/// The button with a number. Buttons after the fifth are not tracked.
pub open spec fn button_of(number: i64) -> Option<MouseButton> {
    if number == 0 {
        Some(MouseButton::Left)
    } else if number == 1 {
        Some(MouseButton::Right)
    } else if number == 2 {
        Some(MouseButton::Middle)
    } else if number == 3 {
        Some(MouseButton::NavigateBack)
    } else if number == 4 {
        Some(MouseButton::NavigateForward)
    } else {
        None
    }
}

/// The button with a number.
pub fn mouse_button(number: i64) -> (r: Option<MouseButton>)
    ensures
        r == button_of(number),
{
    if number == 0 {
        Some(MouseButton::Left)
    } else if number == 1 {
        Some(MouseButton::Right)
    } else if number == 2 {
        Some(MouseButton::Middle)
    } else if number == 3 {
        Some(MouseButton::NavigateBack)
    } else if number == 4 {
        Some(MouseButton::NavigateForward)
    } else {
        None
    }
}

/// A key with the modifiers that are down.
pub open spec fn keystroke_with(key: Seq<char>, modifiers: Modifiers) -> KeystrokeView {
    KeystrokeView {
        ctrl: modifiers.ctrl,
        alt: modifiers.alt,
        shift: modifiers.shift,
        cmd: modifiers.cmd,
        function: false,
        key,
    }
}

/// The event that the application takes for a native one. Events of other sorts, keys without
/// characters, untracked buttons, and mouse events outside of a window are not taken.
pub open spec fn event_of(native: NativeEvent) -> Option<PlatformEventView> {
    let modifiers = native.modifiers;
    match native.kind {
        NativeKind::FlagsChanged => Some(PlatformEventView::ModifiersChanged(modifiers)),
        NativeKind::KeyDown => match key_text(native.characters@) {
            Some(key) => Some(
                PlatformEventView::KeyDown {
                    keystroke: keystroke_with(key, modifiers),
                    is_held: native.is_repeat,
                },
            ),
            None => None,
        },
        NativeKind::KeyUp => match key_text(native.characters@) {
            Some(key) => Some(
                PlatformEventView::KeyUp { keystroke: keystroke_with(key, modifiers) },
            ),
            None => None,
        },
        NativeKind::MouseDown => match button_of(native.button_number) {
            Some(button) => if native.in_window {
                Some(
                    PlatformEventView::MouseDown {
                        button,
                        modifiers,
                        click_count: native.click_count,
                    },
                )
            } else {
                None
            },
            None => None,
        },
        NativeKind::MouseUp => match button_of(native.button_number) {
            Some(button) => if native.in_window {
                Some(
                    PlatformEventView::MouseUp {
                        button,
                        modifiers,
                        click_count: native.click_count,
                    },
                )
            } else {
                None
            },
            None => None,
        },
        NativeKind::MouseDragged => match button_of(native.button_number) {
            Some(button) => if native.in_window {
                Some(PlatformEventView::MouseMoved { pressed_button: Some(button), modifiers })
            } else {
                None
            },
            None => None,
        },
        NativeKind::MouseMoved => if native.in_window {
            Some(PlatformEventView::MouseMoved { pressed_button: None, modifiers })
        } else {
            None
        },
        NativeKind::ScrollWheel => if native.in_window {
            Some(PlatformEventView::ScrollWheel { precise: native.precise_scrolling })
        } else {
            None
        },
        NativeKind::Other => None,
    }
}

/// A button of the mouse is known by its number, counted from the left one, the right one and the
/// middle one to the two for navigation: in whatever way it is used in a window, the event names the
/// button with the number of the native event, and an event with another number is not taken.
pub proof fn buttons_have_their_numbers(native: NativeEvent)
    requires
        native.in_window,
    ensures
        ({
            let numbered = |b: MouseButton|
                match b {
                    MouseButton::Left => native.button_number == 0,
                    MouseButton::Right => native.button_number == 1,
                    MouseButton::Middle => native.button_number == 2,
                    MouseButton::NavigateBack => native.button_number == 3,
                    MouseButton::NavigateForward => native.button_number == 4,
                };
            let known = 0 <= native.button_number <= 4;
            &&& native.kind is MouseDown && known ==> (event_of(native) matches Some(
                PlatformEventView::MouseDown { button, .. },
            ) && numbered(button))
            &&& native.kind is MouseUp && known ==> (event_of(native) matches Some(
                PlatformEventView::MouseUp { button, .. },
            ) && numbered(button))
            &&& native.kind is MouseDragged && known ==> (event_of(native) matches Some(
                PlatformEventView::MouseMoved { pressed_button: Some(button), .. },
            ) && numbered(button))
            &&& !known && (native.kind is MouseDown || native.kind is MouseUp
                || native.kind is MouseDragged) ==> event_of(native) is None
        }),
{
}

/// An event says of the keys and the mouse what the native one says: it is of the same sort, with the
/// same modifiers, clicks and repetitions. Only what happens in the window has a place there, and only
/// a key with characters is one.
pub proof fn events_say_what_happened(native: NativeEvent)
    ensures
        native.kind is FlagsChanged ==> event_of(native) == Some(
            PlatformEventView::ModifiersChanged(native.modifiers),
        ),
        native.kind is KeyDown && native.characters@.len() > 0 ==> (event_of(native) matches Some(
            PlatformEventView::KeyDown { keystroke, is_held },
        ) && is_held == native.is_repeat && keystroke.ctrl == native.modifiers.ctrl && keystroke.alt
            == native.modifiers.alt && keystroke.shift == native.modifiers.shift && keystroke.cmd
            == native.modifiers.cmd && !keystroke.function && Some(keystroke.key) == key_text(
            native.characters@,
        )),
        native.kind is KeyUp && native.characters@.len() > 0 ==> (event_of(native) matches Some(
            PlatformEventView::KeyUp { keystroke },
        ) && keystroke.ctrl == native.modifiers.ctrl && keystroke.alt == native.modifiers.alt
            && keystroke.shift == native.modifiers.shift && keystroke.cmd == native.modifiers.cmd
            && !keystroke.function && Some(keystroke.key) == key_text(native.characters@)),
        (native.kind is KeyDown || native.kind is KeyUp) && native.characters@.len() == 0
            ==> event_of(native) is None,
        event_of(native) matches Some(PlatformEventView::MouseDown { modifiers, click_count, .. })
            ==> native.kind is MouseDown && modifiers == native.modifiers && click_count
            == native.click_count,
        event_of(native) matches Some(PlatformEventView::MouseUp { modifiers, click_count, .. })
            ==> native.kind is MouseUp && modifiers == native.modifiers && click_count
            == native.click_count,
        event_of(native) matches Some(PlatformEventView::MouseMoved { modifiers, pressed_button })
            ==> modifiers == native.modifiers && (pressed_button is Some <==> native.kind is MouseDragged)
            && (pressed_button is None <==> native.kind is MouseMoved),
        native.kind is MouseMoved && native.in_window ==> event_of(native) is Some,
        native.kind is ScrollWheel && native.in_window ==> event_of(native) == Some(
            PlatformEventView::ScrollWheel { precise: native.precise_scrolling },
        ),
        !native.in_window && event_of(native) is Some ==> native.kind is FlagsChanged
            || native.kind is KeyDown || native.kind is KeyUp,
        native.kind is Other ==> event_of(native) is None,
{
}

fn pressed_key(native: &NativeEvent) -> (r: Option<Keystroke>)
    ensures
        r is Some == key_text(native.characters@) is Some,
        r matches Some(k) ==> k@ == keystroke_with(
            key_text(native.characters@)->0,
            native.modifiers,
        ),
{
    match get_key_text(native.characters.as_str()) {
        Some(key) => Some(
            Keystroke {
                ctrl: native.modifiers.ctrl,
                alt: native.modifiers.alt,
                shift: native.modifiers.shift,
                cmd: native.modifiers.cmd,
                function: false,
                key,
            },
        ),
        None => None,
    }
}

impl PlatformEvent {
    /// The event that the application takes for a native one.
    pub fn from_native(native: &NativeEvent) -> (r: Option<PlatformEvent>)
        ensures
            r is Some == event_of(*native) is Some,
            r matches Some(event) ==> Some(event@) == event_of(*native),
    {
        let modifiers: Modifiers = native.modifiers;
        match native.kind {
            NativeKind::FlagsChanged => Some(PlatformEvent::ModifiersChanged(modifiers)),
            NativeKind::KeyDown => match pressed_key(native) {
                Some(keystroke) => Some(
                    PlatformEvent::KeyDown { keystroke, is_held: native.is_repeat },
                ),
                None => None,
            },
            NativeKind::KeyUp => match pressed_key(native) {
                Some(keystroke) => Some(PlatformEvent::KeyUp { keystroke }),
                None => None,
            },
            NativeKind::MouseDown => match mouse_button(native.button_number) {
                Some(button) => if native.in_window {
                    Some(
                        PlatformEvent::MouseDown {
                            button,
                            modifiers,
                            click_count: native.click_count,
                        },
                    )
                } else {
                    None
                },
                None => None,
            },
            NativeKind::MouseUp => match mouse_button(native.button_number) {
                Some(button) => if native.in_window {
                    Some(
                        PlatformEvent::MouseUp {
                            button,
                            modifiers,
                            click_count: native.click_count,
                        },
                    )
                } else {
                    None
                },
                None => None,
            },
            NativeKind::MouseDragged => match mouse_button(native.button_number) {
                Some(button) => if native.in_window {
                    Some(PlatformEvent::MouseMoved { pressed_button: Some(button), modifiers })
                } else {
                    None
                },
                None => None,
            },
            NativeKind::MouseMoved => if native.in_window {
                Some(PlatformEvent::MouseMoved { pressed_button: None, modifiers })
            } else {
                None
            },
            NativeKind::ScrollWheel => if native.in_window {
                Some(PlatformEvent::ScrollWheel { precise: native.precise_scrolling })
            } else {
                None
            },
            NativeKind::Other => None,
        }
    }
}

/// The platform's names of keys: the arrows, the page keys, the function keys from the first to the
/// twelfth, and the keys that have a character of ASCII, whatever else is held down with them. A key
/// without a name of its own is known by its characters.
pub proof fn keys_have_their_names(characters: Seq<char>)
    requires
        characters.len() > 0,
    ensures
        ({
            let code = characters[0] as u32 as int % 0x10000;
            let is = |name: Seq<char>| key_text(characters) == Some(name);
            &&& code == 0x20 ==> is("space"@)
            &&& code == 0x7f ==> is("backspace"@)
            &&& code == 0x3 || code == 0xd ==> is("enter"@)
            &&& code == 0x9 || code == 0x19 ==> is("tab"@)
            &&& code == 0x1b ==> is("escape"@)
            &&& code == 0xf700 ==> is("up"@)
            &&& code == 0xf701 ==> is("down"@)
            &&& code == 0xf702 ==> is("left"@)
            &&& code == 0xf703 ==> is("right"@)
            &&& code == 0xf728 ==> is("delete"@)
            &&& code == 0xf72c ==> is("pageup"@)
            &&& code == 0xf72d ==> is("pagedown"@)
            &&& 0xf704 <= code <= 0xf70f ==> is(
                seq!['f'] + crate::text::decimal((code - 0xf703) as nat),
            )
            &&& 0x20 < code < 0x7f || 0x7f < code < 0xf700 || 0xf710 <= code < 0xf728 ==> is(
                characters,
            )
        }),
{
    reveal_strlit("f1");
    reveal_strlit("f2");
    reveal_strlit("f3");
    reveal_strlit("f4");
    reveal_strlit("f5");
    reveal_strlit("f6");
    reveal_strlit("f7");
    reveal_strlit("f8");
    reveal_strlit("f9");
    reveal_strlit("f10");
    reveal_strlit("f11");
    reveal_strlit("f12");
    reveal_with_fuel(crate::text::decimal, 3);
    let code = characters[0] as u32 as int % 0x10000;
    if 0xf704 <= code <= 0xf70c {
        let n = (code - 0xf703) as nat;
        assert(crate::text::decimal(n) =~= seq![crate::text::digit(n)]);
        assert(key_text(characters)->0 =~= seq!['f'] + crate::text::decimal(n));
    } else if 0xf70d <= code <= 0xf70f {
        let n = (code - 0xf703) as nat;
        assert(crate::text::decimal(n) =~= seq!['1', crate::text::digit((n - 10) as nat)]);
        assert(key_text(characters)->0 =~= seq!['f'] + crate::text::decimal(n));
    }
}

/// The character by which the platform knows a named key is the one by which it reports it; a key
/// without a name is known by its own text.
pub proof fn keys_are_known_by_what_is_reported(key: Seq<char>)
    ensures
        native_key(key).len() == 1 && native_key(key) != key ==> key_text(native_key(key)) == Some(key),
        key == "up"@ ==> native_key(key) == seq!['\u{f700}'],
        key == "down"@ ==> native_key(key) == seq!['\u{f701}'],
        key == "left"@ ==> native_key(key) == seq!['\u{f702}'],
        key == "right"@ ==> native_key(key) == seq!['\u{f703}'],
        key == "space"@ ==> native_key(key) == seq![' '],
        key == "backspace"@ ==> native_key(key) == seq!['\u{7f}'],
        key == "delete"@ ==> native_key(key) == seq!['\u{f728}'],
        key == "pageup"@ ==> native_key(key) == seq!['\u{f72c}'],
        key == "pagedown"@ ==> native_key(key) == seq!['\u{f72d}'],
        key.len() == 1 ==> native_key(key) == key,
{
    reveal_strlit("space");
    reveal_strlit("backspace");
    reveal_strlit("up");
    reveal_strlit("down");
    reveal_strlit("left");
    reveal_strlit("right");
    reveal_strlit("delete");
    reveal_strlit("pageup");
    reveal_strlit("pagedown");
    reveal_strlit("f1");
    reveal_strlit("f2");
    reveal_strlit("f3");
    reveal_strlit("f4");
    reveal_strlit("f5");
    reveal_strlit("f6");
    reveal_strlit("f7");
    reveal_strlit("f8");
    reveal_strlit("f9");
    reveal_strlit("f10");
    reveal_strlit("f11");
    reveal_strlit("f12");
    assert("up"@[0] != "down"@[0]);
    assert("left"@[0] != "down"@[0]);
    assert("space"@[0] != "right"@[0]);
    assert("delete"@[0] != "pageup"@[0]);
}

/// Each sort of event has its numbers: the left button goes down with 1 and comes up with 2, the right
/// one with 3 and 4, and the others with 25 and 26; the mouse is dragged with 6, 7 and 27.
pub proof fn kinds_have_their_numbers(code: u64)
    ensures
        kind_with_code(code) is MouseDown <==> code == 1 || code == 3 || code == 25,
        kind_with_code(code) is MouseUp <==> code == 2 || code == 4 || code == 26,
        kind_with_code(code) is MouseDragged <==> code == 6 || code == 7 || code == 27,
        kind_with_code(code) is MouseMoved <==> code == 5,
        kind_with_code(code) is KeyDown <==> code == 10,
        kind_with_code(code) is KeyUp <==> code == 11,
        kind_with_code(code) is FlagsChanged <==> code == 12,
        kind_with_code(code) is ScrollWheel <==> code == 22,
{
}

/// The modifier keys are the bits from the seventeenth to the twentieth: shift, control, alternate and
/// command.
pub proof fn flags_are_bits(flags: u64)
    ensures
        modifiers_with_flags(flags).shift <==> flags / 0x20000 % 2 == 1,
        modifiers_with_flags(flags).ctrl <==> flags / 0x40000 % 2 == 1,
        modifiers_with_flags(flags).alt <==> flags / 0x80000 % 2 == 1,
        modifiers_with_flags(flags).cmd <==> flags / 0x100000 % 2 == 1,
{
    assert(flags & 0x20000 == 0x20000 <==> flags / 0x20000 % 2 == 1) by (bit_vector);
    assert(flags & 0x40000 == 0x40000 <==> flags / 0x40000 % 2 == 1) by (bit_vector);
    assert(flags & 0x80000 == 0x80000 <==> flags / 0x80000 % 2 == 1) by (bit_vector);
    assert(flags & 0x100000 == 0x100000 <==> flags / 0x100000 % 2 == 1) by (bit_vector);
}

} // verus!
