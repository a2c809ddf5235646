//! The order of keystrokes: modifiers first, then the text of the key, and lists of keystrokes
//! item by item.
use vstd::prelude::*;
use crate::keystroke::{strokes, Keystroke, KeystrokeView};

verus! {

/// Whether text `a` stands before text `b` in the order of their characters.
pub open spec fn text_less(a: Seq<char>, b: Seq<char>) -> bool
    decreases a.len(),
{
    if b.len() == 0 {
        false
    } else if a.len() == 0 {
        true
    } else if a[0] != b[0] {
        a[0] < b[0]
    } else {
        text_less(a.skip(1), b.skip(1))
    }
}

/// Whether keystroke `a` stands before keystroke `b`: one without a modifier before one with it.
pub open spec fn stroke_less(a: KeystrokeView, b: KeystrokeView) -> bool {
    if a.ctrl != b.ctrl {
        b.ctrl
    } else if a.alt != b.alt {
        b.alt
    } else if a.shift != b.shift {
        b.shift
    } else if a.cmd != b.cmd {
        b.cmd
    } else if a.function != b.function {
        b.function
    } else {
        text_less(a.key, b.key)
    }
}

/// Whether a list of keystrokes stands before another.
pub open spec fn strokes_less(a: Seq<KeystrokeView>, b: Seq<KeystrokeView>) -> bool
    decreases a.len(),
{
    if b.len() == 0 {
        false
    } else if a.len() == 0 {
        true
    } else if a[0] != b[0] {
        stroke_less(a[0], b[0])
    } else {
        strokes_less(a.skip(1), b.skip(1))
    }
}

/// The order of texts is a strict order in which any two different texts are comparable.
pub proof fn lemma_text_less(a: Seq<char>, b: Seq<char>, c: Seq<char>)
    ensures
        !text_less(a, a),
        a != b ==> text_less(a, b) || text_less(b, a),
        text_less(a, b) && text_less(b, c) ==> text_less(a, c),
    decreases a.len(),
{
    if a.len() == 0 && b.len() == 0 {
        assert(a =~= b);
    }
    if a.len() > 0 {
        lemma_text_less(a.skip(1), b.skip(1), c.skip(1));
        if b.len() > 0 && a[0] == b[0] && a.skip(1) == b.skip(1) {
            assert(a =~= seq![a[0]] + a.skip(1));
            assert(b =~= seq![b[0]] + b.skip(1));
        }
    }
}

proof fn lemma_stroke_less(a: KeystrokeView, b: KeystrokeView, c: KeystrokeView)
    ensures
        !stroke_less(a, a),
        a != b ==> stroke_less(a, b) || stroke_less(b, a),
        stroke_less(a, b) && stroke_less(b, c) ==> stroke_less(a, c),
        stroke_less(a, b) ==> a != b,
{
    lemma_text_less(a.key, b.key, c.key);
}

proof fn lemma_strokes_less(
    a: Seq<KeystrokeView>,
    b: Seq<KeystrokeView>,
    c: Seq<KeystrokeView>,
)
    ensures
        !strokes_less(a, a),
        a != b ==> strokes_less(a, b) || strokes_less(b, a),
        strokes_less(a, b) && strokes_less(b, c) ==> strokes_less(a, c),
    decreases a.len(),
{
    if a.len() == 0 && b.len() == 0 {
        assert(a =~= b);
    }
    if a.len() > 0 {
        lemma_strokes_less(a.skip(1), b.skip(1), c.skip(1));
        if b.len() > 0 {
            if c.len() > 0 {
                lemma_stroke_less(a[0], b[0], c[0]);
                lemma_stroke_less(b[0], a[0], c[0]);
            } else {
                lemma_stroke_less(a[0], b[0], a[0]);
            }
            if a[0] == b[0] && a.skip(1) == b.skip(1) {
                assert(a =~= seq![a[0]] + a.skip(1));
                assert(b =~= seq![b[0]] + b.skip(1));
            }
        }
    }
}

/// No list of keystrokes stands before itself.
pub proof fn strokes_less_is_irreflexive(a: Seq<KeystrokeView>)
    ensures
        !strokes_less(a, a),
{
    lemma_strokes_less(a, a, a);
}

/// Of two different lists of keystrokes one stands before the other.
pub proof fn strokes_are_comparable(a: Seq<KeystrokeView>, b: Seq<KeystrokeView>)
    ensures
        a == b || strokes_less(a, b) || strokes_less(b, a),
{
    lemma_strokes_less(a, b, a);
}

/// The order carries over.
pub proof fn strokes_less_is_transitive(
    a: Seq<KeystrokeView>,
    b: Seq<KeystrokeView>,
    c: Seq<KeystrokeView>,
)
    requires
        strokes_less(a, b),
        strokes_less(b, c),
    ensures
        strokes_less(a, c),
{
    lemma_strokes_less(a, b, c);
}

/// Compares two texts.
pub fn key_text_less(a: &str, b: &str) -> (r: bool)
    ensures
        r == text_less(a@, b@),
{
    let n: usize = a.unicode_len();
    let m: usize = b.unicode_len();
    let mut i: usize = 0;
    assert(a@.skip(0) =~= a@);
    assert(b@.skip(0) =~= b@);
    while i < n && i < m
        invariant
            n == a@.len(),
            m == b@.len(),
            i <= n,
            i <= m,
            text_less(a@, b@) == text_less(a@.skip(i as int), b@.skip(i as int)),
        decreases n - i,
    {
        let c: char = a.get_char(i);
        let d: char = b.get_char(i);
        if c != d {
            return c < d;
        }
        assert(a@.skip(i as int).skip(1) =~= a@.skip(i + 1));
        assert(b@.skip(i as int).skip(1) =~= b@.skip(i + 1));
        i += 1;
    }
    i < m
}

fn key_less(a: &Keystroke, b: &Keystroke) -> (r: bool)
    ensures
        r == stroke_less(a@, b@),
{
    if a.ctrl != b.ctrl {
        b.ctrl
    } else if a.alt != b.alt {
        b.alt
    } else if a.shift != b.shift {
        b.shift
    } else if a.cmd != b.cmd {
        b.cmd
    } else if a.function != b.function {
        b.function
    } else {
        key_text_less(a.key.as_str(), b.key.as_str())
    }
}

/// Compares two lists of keystrokes.
pub fn keys_less(a: &Vec<Keystroke>, b: &Vec<Keystroke>) -> (r: bool)
    ensures
        r == strokes_less(strokes(a@), strokes(b@)),
{
    let ghost x = strokes(a@);
    let ghost y = strokes(b@);
    let mut i: usize = 0;
    assert(x.skip(0) =~= x);
    assert(y.skip(0) =~= y);
    while i < a.len() && i < b.len()
        invariant
            x == strokes(a@),
            y == strokes(b@),
            i <= a.len(),
            i <= b.len(),
            strokes_less(x, y) == strokes_less(x.skip(i as int), y.skip(i as int)),
        decreases a.len() - i,
    {
        assert(x.skip(i as int)[0] == a@[i as int]@);
        assert(y.skip(i as int)[0] == b@[i as int]@);
        if !a[i].same(&b[i]) {
            return key_less(&a[i], &b[i]);
        }
        assert(x.skip(i as int).skip(1) =~= x.skip(i + 1));
        assert(y.skip(i as int).skip(1) =~= y.skip(i + 1));
        i += 1;
    }
    i < b.len()
}

/// The first character in which two texts differ decides which stands first; a text stands in front of
/// its continuations.
pub proof fn first_difference_decides(a: Seq<char>, b: Seq<char>, i: int)
    requires
        0 <= i <= a.len(),
        i <= b.len(),
        a.take(i) == b.take(i),
    ensures
        i < a.len() && i < b.len() && a[i] != b[i] ==> text_less(a, b) == (a[i] < b[i]),
        i == a.len() ==> text_less(a, b) == (i < b.len()),
        i == b.len() ==> !text_less(a, b),
    decreases i,
{
    if i > 0 {
        assert(a[0] == a.take(i)[0]);
        assert(b[0] == b.take(i)[0]);
        assert(a.skip(1).take(i - 1) =~= a.take(i).skip(1));
        assert(b.skip(1).take(i - 1) =~= b.take(i).skip(1));
        first_difference_decides(a.skip(1), b.skip(1), i - 1);
    }
}

/// A keystroke without a modifier stands in front of one with it. The control key counts most, and then
/// the alternate, the shift, the command and the function key; with the same modifiers the keys decide.
pub proof fn modifiers_come_behind(a: KeystrokeView, b: KeystrokeView)
    ensures
        !a.ctrl && b.ctrl ==> stroke_less(a, b),
        a.ctrl == b.ctrl && !a.alt && b.alt ==> stroke_less(a, b),
        a.ctrl == b.ctrl && a.alt == b.alt && !a.shift && b.shift ==> stroke_less(a, b),
        a.ctrl == b.ctrl && a.alt == b.alt && a.shift == b.shift && !a.cmd && b.cmd ==> stroke_less(
            a,
            b,
        ),
        a.ctrl == b.ctrl && a.alt == b.alt && a.shift == b.shift && a.cmd == b.cmd && !a.function
            && b.function ==> stroke_less(a, b),
        stroke_less(a, KeystrokeView { key: b.key, ..a }) == text_less(a.key, b.key),
{
}

/// The first keystroke in which two lists differ decides which stands first; a list stands in front of
/// its continuations.
pub proof fn first_stroke_decides(a: Seq<KeystrokeView>, b: Seq<KeystrokeView>, i: int)
    requires
        0 <= i <= a.len(),
        i <= b.len(),
        a.take(i) == b.take(i),
    ensures
        i < a.len() && i < b.len() && a[i] != b[i] ==> strokes_less(a, b) == stroke_less(a[i], b[i]),
        i == a.len() ==> strokes_less(a, b) == (i < b.len()),
        i == b.len() ==> !strokes_less(a, b),
    decreases i,
{
    if i > 0 {
        assert(a[0] == a.take(i)[0]);
        assert(b[0] == b.take(i)[0]);
        assert(a.skip(1).take(i - 1) =~= a.take(i).skip(1));
        assert(b.skip(1).take(i - 1) =~= b.take(i).skip(1));
        first_stroke_decides(a.skip(1), b.skip(1), i - 1);
    }
}

} // verus!
