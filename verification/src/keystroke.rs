//! Keystrokes: a key and the modifiers held down with it.
use vstd::prelude::*;
use crate::text::{chars_of, same_text, split_text};

verus! {

/// A key together with the modifiers that are held down.
#[derive(Debug, PartialEq, Eq, PartialOrd, Ord)]
pub struct Keystroke {
    pub ctrl: bool,
    pub alt: bool,
    pub shift: bool,
    pub cmd: bool,
    pub function: bool,
    pub key: String,
}

/// What a keystroke means: its modifiers and the text that names its key.
#[verifier::ext_equal]
pub struct KeystrokeView {
    pub ctrl: bool,
    pub alt: bool,
    pub shift: bool,
    pub cmd: bool,
    pub function: bool,
    pub key: Seq<char>,
}

impl View for Keystroke {
    type V = KeystrokeView;

    open spec fn view(&self) -> KeystrokeView {
        KeystrokeView {
            ctrl: self.ctrl,
            alt: self.alt,
            shift: self.shift,
            cmd: self.cmd,
            function: self.function,
            key: self.key@,
        }
    }
}

/// The meaning of a list of keystrokes.
pub open spec fn strokes(keys: Seq<Keystroke>) -> Seq<KeystrokeView> {
    keys.map_values(|k: Keystroke| k@)
}

/// A text that names no keystroke.
#[derive(Debug, PartialEq, Eq)]
pub struct InvalidKeystroke {
    pub source: String,
}

impl InvalidKeystroke {
    /// The sentence shown to the user.
    pub fn message(&self) -> (r: String)
        ensures
            r@ == "Invalid keystroke `"@ + self.source@ + "`"@,
    {
        String::from_str("Invalid keystroke `").concat(self.source.as_str()).concat("`")
    }
}

/// The names that stand for modifiers.
pub open spec fn is_modifier(t: Seq<char>) -> bool {
    t == "ctrl"@ || t == "alt"@ || t == "shift"@ || t == "cmd"@ || t == "fn"@
}

/// How many of the pieces, from the first on, name modifiers.
pub open spec fn leading_modifiers(pieces: Seq<Seq<char>>) -> nat
    decreases pieces.len(),
{
    if pieces.len() == 0 || !is_modifier(pieces[0]) {
        0
    } else {
        1 + leading_modifiers(pieces.skip(1))
    }
}

/// The keystroke that a text names: modifiers and then a key, joined by dashes. A key that is
/// followed by an empty piece at the end of the text is the dash itself.
pub open spec fn keystroke_of(source: Seq<char>) -> Option<KeystrokeView> {
    let pieces = crate::text::split(source, '-');
    let n = leading_modifiers(pieces) as int;
    let held = pieces.take(n);
    if n == pieces.len() {
        None
    } else if n + 1 < pieces.len() && !(pieces[n + 1].len() == 0 && source.last() == '-') {
        None
    } else {
        Some(
            KeystrokeView {
                ctrl: held.contains("ctrl"@),
                alt: held.contains("alt"@),
                shift: held.contains("shift"@),
                cmd: held.contains("cmd"@),
                function: held.contains("fn"@),
                key: if n + 1 < pieces.len() {
                    seq!['-']
                } else {
                    pieces[n]
                },
            },
        )
    }
}

proof fn lemma_leading_modifiers(pieces: Seq<Seq<char>>, n: int)
    requires
        0 <= n <= pieces.len(),
        forall|j: int| 0 <= j < n ==> is_modifier(#[trigger] pieces[j]),
        n < pieces.len() ==> !is_modifier(pieces[n]),
    ensures
        leading_modifiers(pieces) == n,
    decreases n,
{
    if n > 0 {
        let rest = pieces.skip(1);
        assert(is_modifier(pieces[0]));
        assert forall|j: int| 0 <= j < n - 1 implies is_modifier(#[trigger] rest[j]) by {
            assert(is_modifier(pieces[j + 1]));
        }
        lemma_leading_modifiers(rest, n - 1);
    }
}

proof fn lemma_take_contains(pieces: Seq<Seq<char>>, n: int, t: Seq<char>)
    requires
        0 <= n < pieces.len(),
    ensures
        pieces.take(n + 1).contains(t) == (pieces.take(n).contains(t) || pieces[n] == t),
{
    let long = pieces.take(n + 1);
    let short = pieces.take(n);
    if short.contains(t) {
        let i = choose|i: int| 0 <= i < short.len() && short[i] == t;
        assert(long[i] == t);
    }
    if pieces[n] == t {
        assert(long[n] == t);
    }
    if long.contains(t) && pieces[n] != t {
        let i = choose|i: int| 0 <= i < long.len() && long[i] == t;
        assert(short[i] == t);
    }
}

proof fn lemma_modifier_names()
    ensures
        "ctrl"@ != "alt"@,
        "ctrl"@ != "shift"@,
        "ctrl"@ != "cmd"@,
        "ctrl"@ != "fn"@,
        "alt"@ != "shift"@,
        "alt"@ != "cmd"@,
        "alt"@ != "fn"@,
        "shift"@ != "cmd"@,
        "shift"@ != "fn"@,
        "cmd"@ != "fn"@,
{
    reveal_strlit("ctrl");
    reveal_strlit("alt");
    reveal_strlit("shift");
    reveal_strlit("cmd");
    reveal_strlit("fn");
    assert("ctrl"@.len() == 4 && "alt"@.len() == 3 && "shift"@.len() == 5 && "cmd"@.len() == 3
        && "fn"@.len() == 2);
    assert("alt"@[0] == 'a' && "cmd"@[0] == 'c');
}

impl Keystroke {
    /// Reads a keystroke such as `ctrl-shift-p`.
    pub fn parse(source: &str) -> (r: Result<Keystroke, InvalidKeystroke>)
        ensures
            r is Ok == keystroke_of(source@) is Some,
            r matches Ok(k) ==> keystroke_of(source@) == Some(k@),
            r matches Err(e) ==> e.source@ == source@,
    {
        let chars: Vec<char> = chars_of(source);
        let pieces: Vec<String> = split_text(&chars, '-');
        let ghost parts = crate::text::split(source@, '-');
        let mut ctrl: bool = false;
        let mut alt: bool = false;
        let mut shift: bool = false;
        let mut cmd: bool = false;
        let mut function: bool = false;
        let mut i: usize = 0;
        proof {
            lemma_modifier_names();
        }
        while i < pieces.len()
            invariant
                i <= pieces.len(),
                chars@ == source@,
                parts == crate::text::split(source@, '-'),
                parts == crate::text::texts(pieces@),
                forall|j: int| 0 <= j < i ==> is_modifier(#[trigger] parts[j]),
                ctrl == parts.take(i as int).contains("ctrl"@),
                alt == parts.take(i as int).contains("alt"@),
                shift == parts.take(i as int).contains("shift"@),
                cmd == parts.take(i as int).contains("cmd"@),
                function == parts.take(i as int).contains("fn"@),
            decreases pieces.len() - i,
        {
            let piece: &str = pieces[i].as_str();
            assert(piece@ == parts[i as int]);
            proof {
                lemma_modifier_names();
                lemma_take_contains(parts, i as int, "ctrl"@);
                lemma_take_contains(parts, i as int, "alt"@);
                lemma_take_contains(parts, i as int, "shift"@);
                lemma_take_contains(parts, i as int, "cmd"@);
                lemma_take_contains(parts, i as int, "fn"@);
            }
            if same_text(piece, "ctrl") {
                ctrl = true;
            } else if same_text(piece, "alt") {
                alt = true;
            } else if same_text(piece, "shift") {
                shift = true;
            } else if same_text(piece, "cmd") {
                cmd = true;
            } else if same_text(piece, "fn") {
                function = true;
            } else {
                proof {
                    lemma_leading_modifiers(parts, i as int);
                }
                let key: String = if i + 1 < pieces.len() {
                    let next: &str = pieces[i + 1].as_str();
                    assert(next@ == parts[i + 1]);
                    if next.is_empty() && chars.len() > 0 && chars[chars.len() - 1] == '-' {
                        let mut dash: String = String::new();
                        dash.push('-');
                        assert(dash@ =~= seq!['-']);
                        dash
                    } else {
                        return Err(InvalidKeystroke { source: source.to_owned() });
                    }
                } else {
                    pieces[i].clone()
                };
                return Ok(Keystroke { ctrl, alt, shift, cmd, function, key });
            }
            i += 1;
        }
        proof {
            lemma_leading_modifiers(parts, i as int);
        }
        Err(InvalidKeystroke { source: source.to_owned() })
    }

    /// Whether a modifier other than the function key is held down.
    pub fn modified(&self) -> (r: bool)
        ensures
            r == (self.ctrl || self.alt || self.shift || self.cmd),
    {
        self.ctrl || self.alt || self.shift || self.cmd
    }

    /// Whether two keystrokes mean the same.
    pub fn same(&self, other: &Keystroke) -> (r: bool)
        ensures
            r == (self@ == other@),
    {
        self.ctrl == other.ctrl && self.alt == other.alt && self.shift == other.shift && self.cmd
            == other.cmd && self.function == other.function && self.key == other.key
    }

    /// The way the keystroke is shown in menus.
    pub fn to_text(&self) -> (r: String)
        ensures
            r@ == shown(self@),
    {
        let mut r: String = String::new();
        if self.ctrl {
            r.push('^');
        }
        if self.alt {
            r.push('⎇');
        }
        if self.cmd {
            r.push('⌘');
        }
        if self.shift {
            r.push('⇧');
        }
        assert(r@ =~= shown_modifiers(self@));
        let key: &str = self.key.as_str();
        if same_text(key, "backspace") {
            r.push('⌫');
        } else if same_text(key, "up") {
            r.push('↑');
        } else if same_text(key, "down") {
            r.push('↓');
        } else if same_text(key, "left") {
            r.push('←');
        } else if same_text(key, "right") {
            r.push('→');
        } else if same_text(key, "tab") {
            r.push('⇥');
        } else if same_text(key, "escape") {
            r.push('⎋');
        } else if key.unicode_len() == 1 && (key.get_char(0) as u32) < 128 {
            r.push(upper(key.get_char(0)));
        } else {
            r.append(key);
        }
        assert(r@ =~= shown(self@));
        r
    }
}

/// The upper case of an ASCII letter; any other character as it is.
pub open spec fn ascii_upper(c: char) -> char {
    if 'a' <= c <= 'z' {
        (c as u32 - 32) as char
    } else {
        c
    }
}

fn upper(c: char) -> (r: char)
    requires
        (c as u32) < 128,
    ensures
        r == ascii_upper(c),
{
    if 'a' <= c && c <= 'z' {
        let n: u8 = c as u8;
        (n - 32) as char
    } else {
        c
    }
}

/// The signs of the modifiers, in the order in which they are shown.
pub open spec fn shown_modifiers(k: KeystrokeView) -> Seq<char> {
    (if k.ctrl {
        seq!['^']
    } else {
        seq![]
    }) + (if k.alt {
        seq!['⎇']
    } else {
        seq![]
    }) + (if k.cmd {
        seq!['⌘']
    } else {
        seq![]
    }) + (if k.shift {
        seq!['⇧']
    } else {
        seq![]
    })
}

/// The sign of a key: a picture for the keys that have one, upper case for an ASCII character.
pub open spec fn shown_key(key: Seq<char>) -> Seq<char> {
    if key == "backspace"@ {
        seq!['⌫']
    } else if key == "up"@ {
        seq!['↑']
    } else if key == "down"@ {
        seq!['↓']
    } else if key == "left"@ {
        seq!['←']
    } else if key == "right"@ {
        seq!['→']
    } else if key == "tab"@ {
        seq!['⇥']
    } else if key == "escape"@ {
        seq!['⎋']
    } else if key.len() == 1 && (key[0] as u32) < 128 {
        seq![ascii_upper(key[0])]
    } else {
        key
    }
}

/// The text shown for a keystroke.
pub open spec fn shown(k: KeystrokeView) -> Seq<char> {
    shown_modifiers(k) + shown_key(k.key)
}

impl Clone for Keystroke {
    fn clone(&self) -> (r: Self)
        ensures
            r == *self,
    {
        Keystroke {
            ctrl: self.ctrl,
            alt: self.alt,
            shift: self.shift,
            cmd: self.cmd,
            function: self.function,
            key: self.key.clone(),
        }
    }
}

/// A modifier with a dash in front of a keystroke holds down that modifier and changes nothing else.
pub proof fn modifiers_are_held(modifier: Seq<char>, s: Seq<char>)
    requires
        modifier == "ctrl"@ || modifier == "alt"@ || modifier == "shift"@ || modifier == "cmd"@
            || modifier == "fn"@,
        s.len() > 0,
    ensures
        match keystroke_of(s) {
            Some(k) => keystroke_of(modifier.push('-') + s) == Some(
                KeystrokeView {
                    ctrl: k.ctrl || modifier == "ctrl"@,
                    alt: k.alt || modifier == "alt"@,
                    shift: k.shift || modifier == "shift"@,
                    cmd: k.cmd || modifier == "cmd"@,
                    function: k.function || modifier == "fn"@,
                    key: k.key,
                },
            ),
            None => keystroke_of(modifier.push('-') + s) is None,
        },
{
    reveal_strlit("ctrl");
    reveal_strlit("alt");
    reveal_strlit("shift");
    reveal_strlit("cmd");
    reveal_strlit("fn");
    assert(!modifier.contains('-'));
    let whole = modifier.push('-') + s;
    crate::text::first_piece_is_cut_off(modifier, '-', s);
    let pieces = crate::text::split(s, '-');
    let all = crate::text::split(whole, '-');
    assert(all == seq![modifier] + pieces);
    assert(all.skip(1) =~= pieces);
    assert(whole.last() == s.last());
    let n = leading_modifiers(pieces) as int;
    lemma_leading(pieces);
    assert(leading_modifiers(all) == n + 1);
    let held = pieces.take(n);
    let more = all.take(n + 1);
    assert(more =~= seq![modifier] + held);
    assert forall|m: Seq<char>| #[trigger] more.contains(m) <==> m == modifier || held.contains(m) by {
        assert(more[0] == modifier);
        if held.contains(m) {
            let k = choose|k: int| 0 <= k < held.len() && held[k] == m;
            assert(more[k + 1] == m);
        }
        if more.contains(m) && m != modifier {
            let k = choose|k: int| 0 <= k < more.len() && more[k] == m;
            assert(held[k - 1] == m);
        }
    }
}

proof fn lemma_leading(pieces: Seq<Seq<char>>)
    ensures
        leading_modifiers(pieces) <= pieces.len(),
    decreases pieces.len(),
{
    if pieces.len() > 0 && is_modifier(pieces[0]) {
        lemma_leading(pieces.skip(1));
    }
}

/// A text without a dash that names no modifier is a key, with nothing held down; a modifier alone is
/// no keystroke, and neither is a key with something behind it. The dash itself is a key.
pub proof fn keys_stand_for_themselves(key: Seq<char>, rest: Seq<char>)
    requires
        !key.contains('-'),
    ensures
        ({
            let modifier = key == "ctrl"@ || key == "alt"@ || key == "shift"@ || key == "cmd"@ || key
                == "fn"@;
            &&& !modifier ==> keystroke_of(key) == Some(
                KeystrokeView {
                    ctrl: false,
                    alt: false,
                    shift: false,
                    cmd: false,
                    function: false,
                    key,
                },
            )
            &&& modifier ==> keystroke_of(key) is None
            &&& !modifier && rest.len() > 0 && rest[0] != '-' ==> keystroke_of(key.push('-') + rest)
                is None
        }),
        keystroke_of(seq!['-']) == Some(
            KeystrokeView {
                ctrl: false,
                alt: false,
                shift: false,
                cmd: false,
                function: false,
                key: seq!['-'],
            },
        ),
{
    crate::text::first_piece_is_cut_off(key, '-', rest);
    let one = crate::text::split(key, '-');
    assert(one.skip(1) =~= Seq::empty());
    assert(leading_modifiers(one.skip(1)) == 0);
    assert(one.take(0) =~= Seq::empty());
    if rest.len() > 0 && rest[0] != '-' {
        let all = crate::text::split(key.push('-') + rest, '-');
        let pieces = crate::text::split(rest, '-');
        assert(all[1] == pieces[0]);
        lemma_first_piece(rest);
    }
    crate::text::first_piece_is_cut_off(Seq::empty(), '-', Seq::empty());
    let dash = seq!['-'];
    assert(Seq::<char>::empty().push('-') + Seq::<char>::empty() =~= dash);
    assert(crate::text::split(dash, '-') =~= seq![Seq::<char>::empty(), Seq::<char>::empty()]);
    reveal_strlit("ctrl");
    reveal_strlit("alt");
    reveal_strlit("shift");
    reveal_strlit("cmd");
    reveal_strlit("fn");
    assert(crate::text::split(dash, '-').take(0) =~= Seq::empty());
}

proof fn lemma_first_piece(s: Seq<char>)
    requires
        s.len() > 0,
        s[0] != '-',
    ensures
        crate::text::split(s, '-').len() > 0,
        crate::text::split(s, '-')[0].len() > 0,
    decreases s.len(),
{
    crate::text::pieces_join_back(s.drop_last(), '-');
    if s.len() > 1 {
        lemma_first_piece(s.drop_last());
    } else {
        assert(s.drop_last() =~= Seq::empty());
    }
}

/// A keystroke is shown as the signs of its modifiers and then its key: each modifier that is held down
/// puts its sign in front, the control key in front of the alternate key, that in front of the command
/// key, and that in front of the shift key. The function key is not shown.
pub proof fn modifiers_are_shown_in_order(k: KeystrokeView)
    ensures
        shown(KeystrokeView { ctrl: true, ..k }) == seq!['^'] + shown(
            KeystrokeView { ctrl: false, ..k },
        ),
        !k.ctrl ==> shown(KeystrokeView { alt: true, ..k }) == seq!['⎇'] + shown(
            KeystrokeView { alt: false, ..k },
        ),
        !k.ctrl && !k.alt ==> shown(KeystrokeView { cmd: true, ..k }) == seq!['⌘'] + shown(
            KeystrokeView { cmd: false, ..k },
        ),
        !k.ctrl && !k.alt && !k.cmd ==> shown(KeystrokeView { shift: true, ..k }) == seq!['⇧'] + shown(
            KeystrokeView { shift: false, ..k },
        ),
        shown(KeystrokeView { function: true, ..k }) == shown(KeystrokeView { function: false, ..k }),
{
    assert(shown(KeystrokeView { ctrl: true, ..k }) =~= seq!['^'] + shown(
        KeystrokeView { ctrl: false, ..k },
    ));
    if !k.ctrl {
        assert(shown(KeystrokeView { alt: true, ..k }) =~= seq!['⎇'] + shown(
            KeystrokeView { alt: false, ..k },
        ));
        if !k.alt {
            assert(shown(KeystrokeView { cmd: true, ..k }) =~= seq!['⌘'] + shown(
                KeystrokeView { cmd: false, ..k },
            ));
            if !k.cmd {
                assert(shown(KeystrokeView { shift: true, ..k }) =~= seq!['⇧'] + shown(
                    KeystrokeView { shift: false, ..k },
                ));
            }
        }
    }
}

/// Without modifiers a key is shown as it is, but for a letter of ASCII alone, which is shown in upper
/// case, and the keys that have a picture.
pub proof fn keys_are_shown_as_they_are(k: KeystrokeView)
    requires
        !k.ctrl && !k.alt && !k.cmd && !k.shift,
    ensures
        k.key.len() == 1 && 'a' <= k.key[0] <= 'z' ==> shown(k).len() == 1 && shown(k)[0] as int + 32
            == k.key[0] as int,
        k.key.len() == 1 && !('a' <= k.key[0] <= 'z') ==> shown(k) == k.key,
        k.key.len() != 1 && k.key != "backspace"@ && k.key != "up"@ && k.key != "down"@ && k.key
            != "left"@ && k.key != "right"@ && k.key != "tab"@ && k.key != "escape"@ ==> shown(k)
            == k.key,
        k.key == "backspace"@ ==> shown(k) == seq!['⌫'],
        k.key == "up"@ ==> shown(k) == seq!['↑'],
        k.key == "down"@ ==> shown(k) == seq!['↓'],
        k.key == "left"@ ==> shown(k) == seq!['←'],
        k.key == "right"@ ==> shown(k) == seq!['→'],
        k.key == "tab"@ ==> shown(k) == seq!['⇥'],
        k.key == "escape"@ ==> shown(k) == seq!['⎋'],
{
    reveal_strlit("backspace");
    reveal_strlit("up");
    reveal_strlit("down");
    reveal_strlit("left");
    reveal_strlit("right");
    reveal_strlit("tab");
    reveal_strlit("escape");
    assert(shown(k) =~= shown_key(k.key));
    assert(shown(k).len() == 1 && k.key.len() == 1 ==> (shown(k)[0] == k.key[0] ==> shown(k)
        =~= k.key));
    assert("up"@[0] != "down"@[0]);
    assert("left"@.len() != "down"@.len() || "left"@[0] != "down"@[0]);
}

} // verus!
