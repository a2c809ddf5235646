//! Text helpers: the library reads text as a sequence of characters and builds new text one
//! character at a time.
use vstd::prelude::*;

verus! {

/// `String::push` appends one character to the text.
pub assume_specification[ String::push ](s: &mut String, c: char)
    ensures
        final(s)@ == old(s)@.push(c),
;

/// The characters of `s`, in order.
pub fn chars_of(s: &str) -> (r: Vec<char>)
    ensures
        r@ == s@,
{
    let mut r: Vec<char> = Vec::new();
    for c in iter: s.chars()
        invariant
            r@ == iter.seq().take(iter.index() as int),
    {
        r.push(c);
    }
    r
}

/// The text made of the characters `chars[from..to]`.
pub fn text_of(chars: &Vec<char>, from: usize, to: usize) -> (r: String)
    requires
        from <= to <= chars.len(),
    ensures
        r@ == chars@.subrange(from as int, to as int),
{
    let mut r: String = String::new();
    let mut i: usize = from;
    while i < to
        invariant
            from <= i <= to <= chars.len(),
            r@ == chars@.subrange(from as int, i as int),
        decreases to - i,
    {
        r.push(chars[i]);
        i += 1;
    }
    r
}

/// Whether two texts hold the same characters.
pub fn same_text(a: &str, b: &str) -> (r: bool)
    ensures
        r == (a@ == b@),
{
    a.to_owned() == b.to_owned()
}

/// The decimal digit of `d`.
pub open spec fn digit(d: nat) -> char {
    ('0' as u32 + d % 10) as char
}

/// The decimal notation of `n`, without leading zeros.
pub open spec fn decimal(n: nat) -> Seq<char>
    decreases n,
{
    if n < 10 {
        seq![digit(n)]
    } else {
        decimal(n / 10).push(digit(n % 10))
    }
}

/// Writes `n` in decimal notation.
pub fn decimal_text(n: usize) -> (r: String)
    ensures
        r@ == decimal(n as nat),
    decreases n,
{
    let mut r: String = if n < 10 {
        String::new()
    } else {
        decimal_text(n / 10)
    };
    let d: u8 = (n % 10) as u8;
    let c: char = (48u8 + d) as char;
    r.push(c);
    r
}

/// The pieces of `s` between the separators `sep`: always one more than there are separators.
pub open spec fn split(s: Seq<char>, sep: char) -> Seq<Seq<char>>
    decreases s.len(),
{
    if s.len() == 0 {
        seq![Seq::<char>::empty()]
    } else {
        let pieces = split(s.drop_last(), sep);
        if s.last() == sep {
            pieces.push(Seq::<char>::empty())
        } else {
            pieces.drop_last().push(pieces.last().push(s.last()))
        }
    }
}

/// The texts that the strings hold.
pub open spec fn texts(strings: Seq<String>) -> Seq<Seq<char>> {
    strings.map_values(|s: String| s@)
}

/// Cuts a text at every separator.
pub fn split_text(chars: &Vec<char>, sep: char) -> (r: Vec<String>)
    ensures
        texts(r@) == split(chars@, sep),
        r@.len() >= 1,
{
    let mut pieces: Vec<String> = Vec::new();
    let mut piece: String = String::new();
    let mut i: usize = 0;
    assert(texts(pieces@).push(piece@) =~= split(chars@.take(0), sep));
    while i < chars.len()
        invariant
            i <= chars.len(),
            texts(pieces@).push(piece@) == split(chars@.take(i as int), sep),
        decreases chars.len() - i,
    {
        let c: char = chars[i];
        let ghost whole = split(chars@.take(i as int), sep);
        assert(chars@.take(i + 1).drop_last() =~= chars@.take(i as int));
        assert(whole.drop_last() =~= texts(pieces@));
        assert(whole.last() == piece@);
        if c == sep {
            let ghost before = texts(pieces@).push(piece@);
            pieces.push(piece);
            piece = String::new();
            assert(texts(pieces@) =~= before);
        } else {
            piece.push(c);
        }
        i += 1;
    }
    assert(chars@.take(i as int) =~= chars@);
    let ghost before = texts(pieces@).push(piece@);
    pieces.push(piece);
    assert(texts(pieces@) =~= before);
    pieces
}

/// The characters that Unicode gives the property `White_Space`.
pub open spec fn is_space(c: char) -> bool {
    let n = c as u32;
    ||| 0x9 <= n <= 0xd
    ||| n == 0x20
    ||| n == 0x85
    ||| n == 0xa0
    ||| n == 0x1680
    ||| 0x2000 <= n <= 0x200a
    ||| n == 0x2028
    ||| n == 0x2029
    ||| n == 0x202f
    ||| n == 0x205f
    ||| n == 0x3000
}

/// Tells white space from other characters.
pub fn space(c: char) -> (r: bool)
    ensures
        r == is_space(c),
{
    let n: u32 = c as u32;
    (0x9 <= n && n <= 0xd) || n == 0x20 || n == 0x85 || n == 0xa0 || n == 0x1680 || (0x2000 <= n && n
        <= 0x200a) || n == 0x2028 || n == 0x2029 || n == 0x202f || n == 0x205f || n == 0x3000
}

/// The words of `s`: its longest pieces without white space.
pub open spec fn words(s: Seq<char>) -> Seq<Seq<char>>
    decreases s.len(),
{
    if s.len() == 0 {
        Seq::empty()
    } else if is_space(s.last()) {
        words(s.drop_last())
    } else if s.len() == 1 || is_space(s[s.len() - 2]) {
        words(s.drop_last()).push(seq![s.last()])
    } else {
        let before = words(s.drop_last());
        before.drop_last().push(before.last().push(s.last()))
    }
}

/// Cuts a text at white space.
pub fn split_words(chars: &Vec<char>) -> (r: Vec<String>)
    ensures
        texts(r@) == words(chars@),
{
    let mut done: Vec<String> = Vec::new();
    let mut word: String = String::new();
    let mut open: bool = false;
    let mut i: usize = 0;
    assert(texts(done@) =~= words(chars@.take(0)));
    while i < chars.len()
        invariant
            i <= chars.len(),
            open == (i > 0 && !is_space(chars@[i - 1])),
            !open ==> texts(done@) == words(chars@.take(i as int)) && word@.len() == 0,
            open ==> texts(done@).push(word@) == words(chars@.take(i as int)),
        decreases chars.len() - i,
    {
        let c: char = chars[i];
        let ghost prefix = chars@.take(i as int);
        let ghost next = chars@.take(i + 1);
        assert(next.drop_last() =~= prefix);
        assert(i > 0 ==> next[next.len() - 2] == chars@[i - 1]);
        if space(c) {
            if open {
                let ghost before = texts(done@).push(word@);
                done.push(word);
                word = String::new();
                assert(texts(done@) =~= before);
            }
            open = false;
        } else {
            proof {
                if open {
                    assert(words(prefix).drop_last() =~= texts(done@));
                    assert(words(prefix).last() == word@);
                } else {
                    assert(word@.push(c) =~= seq![c]);
                }
            }
            word.push(c);
            open = true;
        }
        i += 1;
    }
    assert(chars@.take(i as int) =~= chars@);
    if open {
        let ghost before = texts(done@).push(word@);
        done.push(word);
        assert(texts(done@) =~= before);
    }
    done
}

/// Pieces with a separator between each two of them.
pub open spec fn joined_by(pieces: Seq<Seq<char>>, sep: char) -> Seq<char>
    decreases pieces.len(),
{
    if pieces.len() == 0 {
        Seq::empty()
    } else if pieces.len() == 1 {
        pieces[0]
    } else {
        joined_by(pieces.drop_last(), sep).push(sep) + pieces.last()
    }
}

/// Cutting a text at separators only takes these away: no piece has one in it, and the pieces, with
/// separators between them, are the text.
pub proof fn pieces_join_back(s: Seq<char>, sep: char)
    ensures
        split(s, sep).len() >= 1,
        joined_by(split(s, sep), sep) == s,
        forall|i: int|
            0 <= i < split(s, sep).len() ==> !(#[trigger] split(s, sep)[i]).contains(sep),
    decreases s.len(),
{
    let pieces = split(s, sep);
    reveal_with_fuel(joined_by, 2);
    if s.len() > 0 {
        let init = s.drop_last();
        let before = split(init, sep);
        pieces_join_back(init, sep);
        if s.last() == sep {
            assert(pieces.drop_last() =~= before);
            assert(pieces.last() =~= Seq::<char>::empty());
            assert(joined_by(pieces, sep) =~= s);
        } else {
            let grown = before.last().push(s.last());
            assert(pieces.last() == grown);
            assert(pieces.drop_last() =~= before.drop_last());
            if before.len() > 1 {
                let front = joined_by(before.drop_last(), sep).push(sep);
                assert(joined_by(before, sep) == front + before.last());
                assert(joined_by(pieces, sep) == joined_by(pieces.drop_last(), sep).push(sep)
                    + pieces.last());
                assert(front + grown =~= (front + before.last()).push(s.last()));
                assert(init.push(s.last()) =~= s);
            } else {
                assert(before[0] =~= init);
                assert(pieces[0] == init.push(s.last()));
                assert(init.push(s.last()) =~= s);
                assert(joined_by(pieces, sep) =~= s);
            }
            assert(!before[before.len() - 1].contains(sep));
            assert(!grown.contains(sep)) by {
                if grown.contains(sep) {
                    let k = choose|k: int| 0 <= k < grown.len() && grown[k] == sep;
                    assert(before.last()[k] == sep);
                }
            }
        }
    } else {
        assert(joined_by(pieces, sep) =~= s);
    }
}

/// A piece without separators in front of a text and a separator is its first piece.
pub proof fn first_piece_is_cut_off(piece: Seq<char>, sep: char, s: Seq<char>)
    requires
        !piece.contains(sep),
    ensures
        split(piece, sep) == seq![piece],
        split(piece.push(sep) + s, sep) == seq![piece] + split(s, sep),
    decreases s.len(),
{
    lemma_one_piece(piece, sep);
    let whole = piece.push(sep) + s;
    if s.len() == 0 {
        assert(whole =~= piece.push(sep));
        assert(whole.drop_last() =~= piece);
        assert(split(whole, sep) =~= seq![piece] + split(s, sep));
    } else {
        let init = s.drop_last();
        first_piece_is_cut_off(piece, sep, init);
        pieces_join_back(init, sep);
        assert(whole.drop_last() =~= piece.push(sep) + init);
        assert(split(whole, sep) =~= seq![piece] + split(s, sep));
    }
}

proof fn lemma_one_piece(piece: Seq<char>, sep: char)
    requires
        !piece.contains(sep),
    ensures
        split(piece, sep) == seq![piece],
    decreases piece.len(),
{
    if piece.len() > 0 {
        let init = piece.drop_last();
        assert(!init.contains(sep)) by {
            if init.contains(sep) {
                let k = choose|k: int| 0 <= k < init.len() && init[k] == sep;
                assert(piece[k] == sep);
            }
        }
        assert(piece[piece.len() - 1] != sep);
        lemma_one_piece(init, sep);
        assert(init.push(piece.last()) =~= piece);
        assert(seq![init].drop_last() =~= Seq::<Seq<char>>::empty());
        assert(split(piece, sep) =~= seq![piece]);
    } else {
        assert(piece =~= Seq::<char>::empty());
        assert(split(piece, sep) =~= seq![piece]);
    }
}

/// Words one after the other.
pub open spec fn run_together(words: Seq<Seq<char>>) -> Seq<char>
    decreases words.len(),
{
    if words.len() == 0 {
        Seq::empty()
    } else {
        run_together(words.drop_last()) + words.last()
    }
}

/// Cutting a text into words only takes white space away: no word is empty or has white space in it,
/// and the words one after the other are all the other characters.
pub proof fn words_are_what_is_not_space(s: Seq<char>)
    ensures
        forall|i: int| 0 <= i < words(s).len() ==> (#[trigger] words(s)[i]).len() > 0,
        forall|i: int, k: int|
            0 <= i < words(s).len() && 0 <= k < words(s)[i].len() ==> !is_space(
                #[trigger] words(s)[i][k],
            ),
        run_together(words(s)) == s.filter(|c: char| !is_space(c)),
        s.len() > 0 && !is_space(s.last()) ==> words(s).len() > 0,
    decreases s.len(),
{
    reveal(Seq::filter);
    let found = words(s);
    if s.len() > 0 {
        let init = s.drop_last();
        let before = words(init);
        words_are_what_is_not_space(init);
        if is_space(s.last()) {
        } else if s.len() == 1 || is_space(s[s.len() - 2]) {
            assert(found.drop_last() =~= before);
            assert(run_together(found) =~= run_together(before).push(s.last()));
        } else {
            assert(init.last() == s[s.len() - 2]);
            assert(found.drop_last() =~= before.drop_last());
            assert(run_together(found) =~= run_together(before).push(s.last()));
            let last = found.len() - 1;
            assert forall|i: int, k: int|
                0 <= i < found.len() && 0 <= k < found[i].len() implies !is_space(
                #[trigger] found[i][k],
            ) by {
                if i == last {
                    if k < before.last().len() {
                        assert(found[i][k] == before[before.len() - 1][k]);
                    }
                } else {
                    assert(found[i][k] == before[i][k]);
                }
            }
        }
    }
}

/// A word ends where white space begins: a text, white space and a further text have the words of the
/// one and then those of the other.
pub proof fn space_separates_words(a: Seq<char>, c: char, b: Seq<char>)
    requires
        is_space(c),
    ensures
        words(a.push(c) + b) == words(a) + words(b),
    decreases b.len(),
{
    let whole = a.push(c) + b;
    if b.len() == 0 {
        assert(whole =~= a.push(c));
        assert(whole.drop_last() =~= a);
        assert(words(whole) =~= words(a) + words(b));
    } else {
        let init = b.drop_last();
        space_separates_words(a, c, init);
        assert(whole.drop_last() =~= a.push(c) + init);
        assert(whole.last() == b.last());
        if !is_space(b.last()) {
            if b.len() == 1 {
                assert(whole[whole.len() - 2] == c);
            } else {
                assert(whole[whole.len() - 2] == b[b.len() - 2]);
                if !is_space(b[b.len() - 2]) {
                    words_are_what_is_not_space(init);
                    assert(init.last() == b[b.len() - 2]);
                }
            }
        }
        assert(words(whole) =~= words(a) + words(b));
    }
}

/// A text without white space is one word.
pub proof fn unbroken_text_is_a_word(s: Seq<char>)
    requires
        s.len() > 0,
        forall|i: int| 0 <= i < s.len() ==> !is_space(#[trigger] s[i]),
    ensures
        words(s) == seq![s],
    decreases s.len(),
{
    let init = s.drop_last();
    assert(!is_space(s[s.len() - 1]));
    if s.len() == 1 {
        assert(words(init) =~= Seq::empty());
        assert(seq![s.last()] =~= s);
        assert(words(s) =~= seq![s]);
    } else {
        assert forall|i: int| 0 <= i < init.len() implies !is_space(#[trigger] init[i]) by {
            assert(init[i] == s[i]);
        }
        unbroken_text_is_a_word(init);
        assert(!is_space(s[s.len() - 2]));
        assert(init.push(s.last()) =~= s);
        assert(seq![init].drop_last() =~= Seq::<Seq<char>>::empty());
        assert(words(s) =~= seq![s]);
    }
}

/// The number that a decimal notation stands for.
pub open spec fn decimal_value(digits: Seq<char>) -> int
    decreases digits.len(),
{
    if digits.len() == 0 {
        0
    } else {
        10 * decimal_value(digits.drop_last()) + (digits.last() as int - '0' as int)
    }
}

/// The decimal notation of a number is made of digits, stands for the number, and has no zero in
/// front, except for zero itself.
pub proof fn decimal_stands_for_the_number(n: nat)
    ensures
        decimal(n).len() > 0,
        decimal_value(decimal(n)) == n,
        forall|i: int| 0 <= i < decimal(n).len() ==> '0' <= #[trigger] decimal(n)[i] <= '9',
        n > 0 ==> decimal(n)[0] != '0',
    decreases n,
{
    reveal_with_fuel(decimal_value, 2);
    if n < 10 {
        assert(decimal(n).drop_last() =~= Seq::empty());
    } else {
        decimal_stands_for_the_number(n / 10);
        assert(decimal(n).drop_last() =~= decimal(n / 10));
        assert(decimal(n)[0] == decimal(n / 10)[0]);
    }
}

/// A space, a tab, a line feed and a carriage return are white space; the characters that words and
/// signs of ASCII are written with are not.
pub proof fn space_is_what_cannot_be_seen(c: char)
    ensures
        c == ' ' || c == '\t' || c == '\n' || c == '\r' ==> is_space(c),
        '!' <= c <= '~' ==> !is_space(c),
        is_space(c) && (c as u32) < 128 ==> c == ' ' || 0x9 <= c as u32 <= 0xd,
{
}

} // verus!
