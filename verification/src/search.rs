//! Searching text for a query: a plain text or a regular expression.
use vstd::prelude::*;
use vstd::utf8::encode_utf8;
use aho_corasick::AhoCorasickBuilder;
use regex::RegexBuilder;
use crate::copilot::{bytes_len, utf8_len};
use crate::file_url::utf8_text;
use crate::text::{chars_of, is_space, space, split, split_text, texts};

verus! {

/// Whether two bytes are the same, or the same letter of ASCII in another case if `fold` is set.
pub open spec fn same_byte(a: u8, b: u8, fold: bool) -> bool {
    a == b || (fold && lower(a) == lower(b))
}

/// A letter of ASCII in lowercase; any other byte as it is.
pub open spec fn lower(b: u8) -> u8 {
    if 65 <= b <= 90 {
        (b + 32) as u8
    } else {
        b
    }
}

/// Whether a query stands at an offset of a text.
pub open spec fn occurs_at(text: Seq<u8>, query: Seq<u8>, i: int, fold: bool) -> bool {
    &&& 0 <= i
    &&& i + query.len() <= text.len()
    &&& forall|k: int| 0 <= k < query.len() ==> same_byte(text[i + k], #[trigger] query[k], fold)
}

/// How far behind the beginning of a place the next one can begin: behind its end, and in any case
/// further on.
pub open spec fn step_of(query: Seq<u8>) -> int {
    if query.len() == 0 {
        1
    } else {
        query.len() as int
    }
}

/// Where a query stands in a text from an offset on: each time the next place that does not overlap
/// the one before it. An empty query stands at every offset.
pub open spec fn occurrences(text: Seq<u8>, query: Seq<u8>, from: int, fold: bool) -> Seq<
    (usize, usize),
>
    decreases text.len() + 1 - from,
{
    if from + query.len() > text.len() {
        Seq::empty()
    } else if occurs_at(text, query, from, fold) {
        seq![(from as usize, (from + query.len()) as usize)] + occurrences(
            text,
            query,
            from + step_of(query),
            fold,
        )
    } else {
        occurrences(text, query, from + 1, fold)
    }
}

/// Every place that is found is one where the query stands, behind the place found before it.
pub proof fn found_places_are_right(text: Seq<u8>, query: Seq<u8>, from: int, fold: bool, i: int)
    requires
        0 <= from,
        text.len() <= usize::MAX,
        0 <= i < occurrences(text, query, from, fold).len(),
    ensures
        ({
            let found = occurrences(text, query, from, fold);
            &&& from <= found[i].0
            &&& found[i].1 == found[i].0 + query.len()
            &&& occurs_at(text, query, found[i].0 as int, fold)
            &&& i > 0 ==> found[i - 1].0 < found[i].0 && found[i - 1].1 <= found[i].0
        }),
    decreases text.len() + 1 - from,
{
    let found = occurrences(text, query, from, fold);
    if from + query.len() > text.len() {
    } else if occurs_at(text, query, from, fold) {
        let rest = occurrences(text, query, from + step_of(query), fold);
        if i > 0 {
            found_places_are_right(text, query, from + step_of(query), fold, i - 1);
            assert(found[i] == rest[i - 1]);
            if i > 1 {
                assert(found[i - 1] == rest[i - 2]);
            }
        }
    } else {
        found_places_are_right(text, query, from + 1, fold, i);
    }
}

/// No place is missed: where the query stands, it begins within a place that is found, or at one if
/// it is empty.
pub proof fn no_place_is_missed(text: Seq<u8>, query: Seq<u8>, from: int, fold: bool, p: int) -> (i:
    int)
    requires
        0 <= from <= p,
        text.len() <= usize::MAX,
        occurs_at(text, query, p, fold),
    ensures
        0 <= i < occurrences(text, query, from, fold).len(),
        occurrences(text, query, from, fold)[i].0 <= p,
        p < occurrences(text, query, from, fold)[i].0 + if query.len() == 0 {
            1
        } else {
            query.len() as int
        },
    decreases text.len() + 1 - from,
{
    let found = occurrences(text, query, from, fold);
    if occurs_at(text, query, from, fold) {
        if p < from + step_of(query) {
            0
        } else {
            let k = no_place_is_missed(text, query, from + step_of(query), fold, p);
            assert(found[k + 1] == occurrences(text, query, from + step_of(query), fold)[k]);
            k + 1
        }
    } else {
        no_place_is_missed(text, query, from + 1, fold, p)
    }
}

/// `AhoCorasick::stream_find_iter` of `aho_corasick`, on an automaton that
/// `AhoCorasickBuilder::build` made of one pattern: the places where the pattern stands in the
/// text, from the left and without overlaps; an empty pattern stands at every offset, also behind the
/// last byte. With `ascii_case_insensitive` the case of ASCII letters does not count.
#[verifier::external_body]
fn find_text(query: &str, case_sensitive: bool, text: &[u8]) -> (r: Vec<(usize, usize)>)
    ensures
        r@ == occurrences(text@, encode_utf8(query@), 0, !case_sensitive),
{
    let search = AhoCorasickBuilder::new()
        .auto_configure(&[query])
        .ascii_case_insensitive(!case_sensitive)
        .build(&[query]);
    search.stream_find_iter(text)
        .map(|found| {
            let found = found.unwrap();
            (found.start(), found.end())
        })
        .collect()
}

/// A compiled regular expression of `regex`.
#[verifier::external_type_specification]
#[verifier::external_body]
pub struct ExRegex(regex::Regex);

/// Why a pattern is refused: it is not a regular expression, or the expression is too big.
#[derive(Clone, Copy, Debug, PartialEq, Eq, Structural)]
pub enum RegexRefusal {
    Grammar,
    TooBig,
}

/// What a regular expression was made of: the pattern, whether case counts, and whether `^` and `$`
/// stand for the ends of lines.
pub uninterp spec fn regex_source(regex: regex::Regex) -> (Seq<char>, bool, bool);

/// What `Regex::find_iter` finds in a text: the offsets of the matches, in bytes.
pub uninterp spec fn regex_matches(
    pattern: Seq<char>,
    case_insensitive: bool,
    multi_line: bool,
    text: Seq<char>,
) -> Seq<(usize, usize)>;

/// Whether `RegexBuilder::build` can read a pattern with these two settings.
pub uninterp spec fn regex_parses(
    pattern: Seq<char>,
    case_insensitive: bool,
    multi_line: bool,
) -> bool;

/// `RegexBuilder::build` of `regex`: what it makes was made of the pattern and the two settings. It
/// reads the pattern before anything else, and whether it can is a matter of the pattern and the
/// settings. Which expressions it then refuses as too big depends on how much memory they take on the
/// machine, and is left unsaid.
#[verifier::external_body]
fn build_regex(pattern: &str, case_insensitive: bool, multi_line: bool) -> (r: Result<
    regex::Regex,
    RegexRefusal,
>)
    ensures
        r matches Ok(regex) ==> regex_source(regex) == (pattern@, case_insensitive, multi_line),
        (r matches Err(refusal) && refusal is Grammar) == !regex_parses(
            pattern@,
            case_insensitive,
            multi_line,
        ),
{
    let built = RegexBuilder::new(pattern)
        .case_insensitive(case_insensitive)
        .multi_line(multi_line)
        .build();
    match built {
        Ok(regex) => Ok(regex),
        Err(regex::Error::Syntax(_)) => Err(RegexRefusal::Grammar),
        Err(_) => Err(RegexRefusal::TooBig),
    }
}

/// `Regex::find_iter` of `regex`: the matches depend on what the expression was made of and on the
/// text, and each is a range of the text.
#[verifier::external_body]
fn find_regex(regex: &regex::Regex, text: &str) -> (r: Vec<(usize, usize)>)
    ensures
        r@ == regex_matches(
            regex_source(*regex).0,
            regex_source(*regex).1,
            regex_source(*regex).2,
            text@,
        ),
        forall|i: int|
            0 <= i < r@.len() ==> (#[trigger] r@[i]).0 <= r@[i].1 <= encode_utf8(text@).len(),
{
    regex.find_iter(text).map(|found| (found.start(), found.end())).collect()
}

/// `Regex::find` of `regex`: it finds something exactly if `Regex::find_iter` does.
#[verifier::external_body]
fn regex_finds(regex: &regex::Regex, text: &str) -> (r: bool)
    ensures
        r == (regex_matches(
            regex_source(*regex).0,
            regex_source(*regex).1,
            regex_source(*regex).2,
            text@,
        ).len() > 0),
{
    regex.find(text).is_some()
}

/// Whether `char::is_alphanumeric` holds of a character.
pub uninterp spec fn alphanumeric(c: char) -> bool;

/// `char::is_alphanumeric` of the standard library: a property of the character.
#[verifier::external_body]
fn is_alphanumeric(c: char) -> (r: bool)
    ensures
        r == alphanumeric(c),
{
    c.is_alphanumeric()
}

/// What kind of character something is; words are made of characters of one kind.
#[derive(Clone, Copy, Debug, PartialEq, Eq, Structural)]
pub enum CharKind {
    Newline,
    Punctuation,
    Whitespace,
    Word,
}

/// The kind of a character.
pub open spec fn kind_of(c: char) -> CharKind {
    if c == '\n' {
        CharKind::Newline
    } else if is_space(c) {
        CharKind::Whitespace
    } else if alphanumeric(c) || c == '_' {
        CharKind::Word
    } else {
        CharKind::Punctuation
    }
}

/// Tells the kind of a character.
pub fn char_kind(c: char) -> (r: CharKind)
    ensures
        r == kind_of(c),
{
    let letter: bool = is_alphanumeric(c);
    kind_with(c, letter)
}

/// The kind of a character of which it is known whether it is a letter or a digit.
pub fn kind_with(c: char, letter: bool) -> (r: CharKind)
    ensures
        r == (if c == '\n' {
            CharKind::Newline
        } else if is_space(c) {
            CharKind::Whitespace
        } else if letter || c == '_' {
            CharKind::Word
        } else {
            CharKind::Punctuation
        }),
{
    if c == '\n' {
        CharKind::Newline
    } else if space(c) {
        CharKind::Whitespace
    } else if letter || c == '_' {
        CharKind::Word
    } else {
        CharKind::Punctuation
    }
}

/// The number of whole characters in front of an offset in bytes.
pub open spec fn char_index(text: Seq<char>, offset: int) -> int
    decreases text.len(),
{
    if text.len() == 0 || bytes_len(text) <= offset {
        text.len() as int
    } else {
        char_index(text.drop_last(), offset)
    }
}

/// The kind of the character with a number, if there is one.
pub open spec fn kind_at(text: Seq<char>, i: int) -> Option<CharKind> {
    if 0 <= i < text.len() {
        Some(kind_of(text[i]))
    } else {
        None
    }
}

/// Whether a range of a text is not part of a longer word: the characters at its ends and those next
/// to them are of different kinds.
pub open spec fn is_whole_word(text: Seq<char>, range: (usize, usize)) -> bool {
    let i = char_index(text, range.0 as int);
    let j = char_index(text, range.1 as int);
    let prev = kind_at(text, i - 1);
    let next = kind_at(text, j);
    !(prev is Some && kind_at(text, i) == prev) && !(next is Some && kind_at(text, j - 1) == next)
}

/// The ranges that are whole words.
pub open spec fn whole_words(text: Seq<char>, ranges: Seq<(usize, usize)>) -> Seq<(usize, usize)> {
    ranges.filter(|r: (usize, usize)| is_whole_word(text, r))
}

/// Ranges, all of them further to the right.
pub open spec fn shifted(ranges: Seq<(usize, usize)>, by: int) -> Seq<(usize, usize)> {
    ranges.map_values(|r: (usize, usize)| ((r.0 + by) as usize, (r.1 + by) as usize))
}

/// The length of lines in bytes, each with a line feed behind it.
pub open spec fn lines_len(lines: Seq<Seq<char>>) -> int
    decreases lines.len(),
{
    if lines.len() == 0 {
        0
    } else {
        lines_len(lines.drop_last()) + bytes_len(lines.last()) + 1
    }
}

/// What a regular expression finds in lines, one after the other.
pub open spec fn line_matches(source: (Seq<char>, bool, bool), lines: Seq<Seq<char>>) -> Seq<
    (usize, usize),
>
    decreases lines.len(),
{
    if lines.len() == 0 {
        Seq::empty()
    } else {
        line_matches(source, lines.drop_last()) + shifted(
            regex_matches(source.0, source.1, source.2, lines.last()),
            lines_len(lines.drop_last()),
        )
    }
}

/// What is found in lines is what is found in each of them: every match in a line stands among the
/// results, as far to the right as the lines in front of it reach.
pub proof fn every_match_of_a_line_is_found(
    source: (Seq<char>, bool, bool),
    lines: Seq<Seq<char>>,
    i: int,
    k: int,
) -> (j: int)
    requires
        0 <= i < lines.len(),
        0 <= k < regex_matches(source.0, source.1, source.2, lines[i]).len(),
    ensures
        0 <= j < line_matches(source, lines).len(),
        ({
            let m = regex_matches(source.0, source.1, source.2, lines[i])[k];
            let start = line_start(lines, i);
            line_matches(source, lines)[j] == ((start + m.0) as usize, (start + m.1) as usize)
        }),
    decreases lines.len(),
{
    let init = lines.drop_last();
    let before = line_matches(source, init);
    if i < init.len() {
        assert(init[i] == lines[i]);
        lemma_line_start(lines, i);
        lemma_line_start(init, i);
        assert(init.take(i) =~= lines.take(i));
        let j = every_match_of_a_line_is_found(source, init, i, k);
        assert(line_matches(source, lines)[j] == before[j]);
        j
    } else {
        lemma_line_start(lines, i);
        assert(lines.take(i) =~= init);
        before.len() + k
    }
}

/// Nothing else is found: every result stands for a match in one of the lines.
pub proof fn every_result_is_a_match_of_a_line(
    source: (Seq<char>, bool, bool),
    lines: Seq<Seq<char>>,
    j: int,
) -> (place: (int, int))
    requires
        0 <= j < line_matches(source, lines).len(),
    ensures
        0 <= place.0 < lines.len(),
        0 <= place.1 < regex_matches(source.0, source.1, source.2, lines[place.0]).len(),
        ({
            let m = regex_matches(source.0, source.1, source.2, lines[place.0])[place.1];
            let start = line_start(lines, place.0);
            line_matches(source, lines)[j] == ((start + m.0) as usize, (start + m.1) as usize)
        }),
    decreases lines.len(),
{
    let init = lines.drop_last();
    let before = line_matches(source, init);
    if j < before.len() {
        let place = every_result_is_a_match_of_a_line(source, init, j);
        assert(init[place.0] == lines[place.0]);
        lemma_line_start(lines, place.0);
        lemma_line_start(init, place.0);
        assert(init.take(place.0) =~= lines.take(place.0));
        place
    } else {
        lemma_line_start(lines, lines.len() - 1);
        assert(lines.take(lines.len() - 1) =~= init);
        (lines.len() - 1, j - before.len())
    }
}

/// How many matches there are in all lines together.
pub open spec fn matches_in_lines(source: (Seq<char>, bool, bool), lines: Seq<Seq<char>>) -> int
    decreases lines.len(),
{
    if lines.len() == 0 {
        0
    } else {
        regex_matches(source.0, source.1, source.2, lines[0]).len() + matches_in_lines(
            source,
            lines.skip(1),
        )
    }
}

proof fn lemma_matches_in_front(source: (Seq<char>, bool, bool), lines: Seq<Seq<char>>)
    requires
        lines.len() > 0,
    ensures
        matches_in_lines(source, lines) == matches_in_lines(source, lines.drop_last())
            + regex_matches(source.0, source.1, source.2, lines.last()).len(),
    decreases lines.len(),
{
    if lines.len() == 1 {
        assert(lines.skip(1) =~= Seq::empty());
        assert(lines.drop_last() =~= Seq::empty());
        assert(matches_in_lines(source, lines.skip(1)) == 0);
    } else {
        lemma_matches_in_front(source, lines.skip(1));
        assert(lines.skip(1).drop_last() =~= lines.drop_last().skip(1));
    }
}

/// There are as many results as there are matches in the lines.
pub proof fn results_are_counted(source: (Seq<char>, bool, bool), lines: Seq<Seq<char>>)
    ensures
        line_matches(source, lines).len() == matches_in_lines(source, lines),
    decreases lines.len(),
{
    if lines.len() > 0 {
        results_are_counted(source, lines.drop_last());
        lemma_matches_in_front(source, lines);
    }
}

/// The offset in bytes at which a line begins: behind all lines in front of it and their line feeds.
pub open spec fn line_start(lines: Seq<Seq<char>>, i: int) -> int
    decreases i,
{
    if i <= 0 {
        0
    } else {
        line_start(lines, i - 1) + encode_utf8(lines[i - 1]).len() + 1
    }
}

proof fn lemma_line_start(lines: Seq<Seq<char>>, i: int)
    requires
        0 <= i <= lines.len(),
    ensures
        line_start(lines, i) == lines_len(lines.take(i)),
    decreases i,
{
    if i > 0 {
        lemma_line_start(lines, i - 1);
        assert(lines.take(i).drop_last() =~= lines.take(i - 1));
        lemma_encoded_len(lines[i - 1]);
    }
}

/// Whether a text has another one in it.
pub open spec fn has_text(text: Seq<char>, part: Seq<char>) -> bool {
    exists|i: int|
        0 <= i && i + part.len() <= text.len() && #[trigger] text.subrange(i, i + part.len())
            == part
}

/// A query.
pub enum SearchQuery {
    Text { query: String, whole_word: bool, case_sensitive: bool },
    Regex { multiline: bool, regex: regex::Regex },
}

/// A pattern that is refused, and why.
#[derive(Debug)]
pub struct InvalidRegex {
    pub pattern: String,
    pub refusal: RegexRefusal,
}

/// A file that is not text in UTF-8.
#[derive(Clone, Copy, Debug, PartialEq, Eq, Structural)]
pub struct NotText;

/// The pattern that stands for a query: with word boundaries around it if whole words are asked for.
pub open spec fn pattern_of(query: Seq<char>, whole_word: bool) -> Seq<char> {
    if whole_word {
        "\\b"@ + query + "\\b"@
    } else {
        query
    }
}

/// Whether a query can be read as a regular expression.
pub open spec fn can_be_read(query: Seq<char>, whole_word: bool, case_sensitive: bool) -> bool {
    let pattern = pattern_of(query, whole_word);
    regex_parses(pattern, !case_sensitive, spans_lines(pattern))
}

/// Whether a pattern speaks of line feeds.
pub open spec fn spans_lines(pattern: Seq<char>) -> bool {
    pattern.contains('\n') || has_text(pattern, "\\n"@)
}

fn finds_text(text: &Vec<char>, part: &Vec<char>) -> (r: bool)
    requires
        part@.len() > 0,
    ensures
        r == has_text(text@, part@),
{
    if part.len() > text.len() {
        return false;
    }
    let mut i: usize = 0;
    while i <= text.len() - part.len()
        invariant
            0 < part@.len() <= text@.len(),
            i <= text@.len() - part@.len() + 1,
            forall|k: int|
                0 <= k < i ==> #[trigger] text@.subrange(k, k + part@.len()) != part@,
        decreases text@.len() - i,
    {
        let mut k: usize = 0;
        let ghost here = text@.subrange(i as int, i + part@.len());
        while k < part.len() && text[i + k] == part[k]
            invariant
                i + part.len() <= text.len(),
                i + part@.len() <= text@.len() <= usize::MAX,
                k <= part@.len(),
                here == text@.subrange(i as int, i + part@.len()),
                forall|m: int| 0 <= m < k ==> here[m] == #[trigger] part@[m],
            decreases part.len() - k,
        {
            k += 1;
        }
        if k == part.len() {
            assert(here =~= part@);
            return true;
        }
        assert(here[k as int] != part@[k as int]);
        i += 1;
    }
    proof {
        if has_text(text@, part@) {
            let k = choose|k: int|
                0 <= k && k + part@.len() <= text@.len() && #[trigger] text@.subrange(
                    k,
                    k + part@.len(),
                ) == part@;
            assert(k < i);
        }
    }
    false
}

/// Tells whether a pattern speaks of line feeds.
pub fn is_multiline(pattern: &str) -> (r: bool)
    ensures
        r == spans_lines(pattern@),
{
    let chars: Vec<char> = chars_of(pattern);
    let mut i: usize = 0;
    while i < chars.len()
        invariant
            i <= chars@.len(),
            chars@ == pattern@,
            forall|k: int| 0 <= k < i ==> chars@[k] != '\n',
        decreases chars.len() - i,
    {
        if chars[i] == '\n' {
            assert(pattern@[i as int] == '\n');
            return true;
        }
        i += 1;
    }
    let part: Vec<char> = chars_of("\\n");
    proof {
        reveal_strlit("\\n");
    }
    finds_text(&chars, &part)
}

/// The offsets in bytes at which the characters of a text begin, and its length.
fn char_starts(text: &Vec<char>) -> (r: Vec<usize>)
    requires
        bytes_len(text@) <= usize::MAX,
    ensures
        r@.len() == text@.len() + 1,
        forall|i: int| 0 <= i <= text@.len() ==> #[trigger] r@[i] == bytes_len(text@.take(i)),
{
    let mut r: Vec<usize> = Vec::new();
    r.push(0);
    let mut i: usize = 0;
    assert(text@.take(0) =~= Seq::empty());
    while i < text.len()
        invariant
            i <= text@.len(),
            bytes_len(text@) <= usize::MAX,
            r@.len() == i + 1,
            forall|k: int| 0 <= k <= i ==> #[trigger] r@[k] == bytes_len(text@.take(k)),
        decreases text.len() - i,
    {
        let code: u32 = text[i] as u32;
        let len: usize = if code < 0x80 {
            1
        } else if code < 0x800 {
            2
        } else if code < 0x10000 {
            3
        } else {
            4
        };
        proof {
            assert(text@.take(i + 1).drop_last() =~= text@.take(i as int));
            lemma_bytes_grow(text@, i + 1, text@.len() as int);
            assert(text@.take(text@.len() as int) =~= text@);
        }
        let next: usize = r[i] + len;
        r.push(next);
        i += 1;
    }
    r
}

proof fn lemma_bytes_grow(text: Seq<char>, i: int, j: int)
    requires
        0 <= i <= j <= text.len(),
    ensures
        0 <= bytes_len(text.take(i)) <= bytes_len(text.take(j)),
        i < j ==> bytes_len(text.take(i)) < bytes_len(text.take(j)),
    decreases j,
{
    if i < j {
        lemma_bytes_grow(text, i, j - 1);
        assert(text.take(j).drop_last() =~= text.take(j - 1));
    } else if i > 0 {
        lemma_bytes_grow(text, i - 1, i - 1);
        assert(text.take(i).drop_last() =~= text.take(i - 1));
    }
}

/// A number of characters is that in front of an offset if they end at or before it and the next one
/// ends behind it.
pub proof fn char_index_is(text: Seq<char>, offset: int, i: int)
    requires
        0 <= i <= text.len(),
        bytes_len(text.take(i)) <= offset,
        i < text.len() ==> bytes_len(text.take(i + 1)) > offset,
    ensures
        char_index(text, offset) == i,
    decreases text.len(),
{
    assert(text.take(text.len() as int) =~= text);
    if i < text.len() {
        lemma_bytes_grow(text, i + 1, text.len() as int);
        let rest = text.drop_last();
        assert(rest.take(i) =~= text.take(i));
        if i < rest.len() {
            assert(rest.take(i + 1) =~= text.take(i + 1));
        }
        char_index_is(rest, offset, i);
    }
}

fn find_char(text: &Vec<char>, starts: &Vec<usize>, offset: usize) -> (r: usize)
    requires
        starts@.len() == text@.len() + 1,
        forall|i: int| 0 <= i <= text@.len() ==> #[trigger] starts@[i] == bytes_len(text@.take(i)),
    ensures
        r == char_index(text@, offset as int),
        r <= text@.len(),
{
    let mut low: usize = 0;
    let mut high: usize = starts.len();
    proof {
        assert(text@.take(0) =~= Seq::empty());
        assert(starts@[0] == bytes_len(text@.take(0)));
    }
    while high - low > 1
        invariant
            low < high <= starts@.len(),
            starts@.len() == text@.len() + 1,
            forall|i: int|
                0 <= i <= text@.len() ==> #[trigger] starts@[i] == bytes_len(text@.take(i)),
            starts@[low as int] <= offset,
            high < starts@.len() ==> starts@[high as int] > offset,
        decreases high - low,
    {
        let mid: usize = low + (high - low) / 2;
        if starts[mid] <= offset {
            low = mid;
        } else {
            high = mid;
        }
    }
    proof {
        assert(starts@[low as int] == bytes_len(text@.take(low as int)));
        if high < starts@.len() {
            assert(starts@[high as int] == bytes_len(text@.take(high as int)));
        }
        char_index_is(text@, offset as int, low as int);
    }
    low
}

fn kind_of_char(text: &Vec<char>, i: usize) -> (r: Option<CharKind>)
    ensures
        r == kind_at(text@, i as int),
{
    if i < text.len() {
        Some(char_kind(text[i]))
    } else {
        None
    }
}

fn whole_word_at(text: &Vec<char>, starts: &Vec<usize>, range: (usize, usize)) -> (r: bool)
    requires
        starts@.len() == text@.len() + 1,
        forall|i: int| 0 <= i <= text@.len() ==> #[trigger] starts@[i] == bytes_len(text@.take(i)),
    ensures
        r == is_whole_word(text@, range),
{
    let i: usize = find_char(text, starts, range.0);
    let j: usize = find_char(text, starts, range.1);
    let prev: Option<CharKind> = if i > 0 {
        kind_of_char(text, i - 1)
    } else {
        None
    };
    let last: Option<CharKind> = if j > 0 {
        kind_of_char(text, j - 1)
    } else {
        None
    };
    let first: Option<CharKind> = kind_of_char(text, i);
    let next: Option<CharKind> = kind_of_char(text, j);
    let left: bool = match (prev, first) {
        (Some(a), Some(b)) => a == b,
        _ => false,
    };
    let right: bool = match (last, next) {
        (Some(a), Some(b)) => a == b,
        _ => false,
    };
    !left && !right
}

/// Keeps the ranges that are whole words.
pub fn keep_whole_words(text: &Vec<char>, ranges: &Vec<(usize, usize)>) -> (r: Vec<(usize, usize)>)
    requires
        bytes_len(text@) <= usize::MAX,
    ensures
        r@ == whole_words(text@, ranges@),
{
    let starts: Vec<usize> = char_starts(text);
    let mut r: Vec<(usize, usize)> = Vec::new();
    let mut i: usize = 0;
    let ghost keep = |x: (usize, usize)| is_whole_word(text@, x);
    proof {
        reveal(Seq::filter);
        assert(ranges@.take(0) =~= Seq::empty());
    }
    while i < ranges.len()
        invariant
            i <= ranges@.len(),
            starts@.len() == text@.len() + 1,
            forall|k: int|
                0 <= k <= text@.len() ==> #[trigger] starts@[k] == bytes_len(text@.take(k)),
            keep == (|x: (usize, usize)| is_whole_word(text@, x)),
            r@ == ranges@.take(i as int).filter(keep),
        decreases ranges.len() - i,
    {
        proof {
            reveal(Seq::filter);
            assert(ranges@.take(i + 1).drop_last() =~= ranges@.take(i as int));
        }
        if whole_word_at(text, &starts, ranges[i]) {
            r.push(ranges[i]);
        }
        i += 1;
    }
    assert(ranges@.take(i as int) =~= ranges@);
    r
}

proof fn lemma_encoded_len(text: Seq<char>)
    ensures
        encode_utf8(text).len() == bytes_len(text),
    decreases text.len(),
{
    if text.len() > 0 {
        lemma_encoded_len(text.drop_first());
        lemma_bytes_from_left(text);
        assert(encode_utf8(text) == vstd::utf8::encode_scalar(text[0] as u32) + encode_utf8(
            text.drop_first(),
        ));
        assert(vstd::utf8::encode_scalar(text[0] as u32).len() == utf8_len(text[0])) by {
            vstd::utf8::char_is_scalar(text[0]);
        }
    }
}

proof fn lemma_bytes_from_left(text: Seq<char>)
    requires
        text.len() > 0,
    ensures
        bytes_len(text) == utf8_len(text[0]) + bytes_len(text.drop_first()),
    decreases text.len(),
{
    if text.len() == 1 {
        assert(text.drop_last() =~= Seq::empty());
        assert(text.drop_first() =~= Seq::empty());
    } else {
        lemma_bytes_from_left(text.drop_last());
        assert(text.drop_last().drop_first() =~= text.drop_first().drop_last());
    }
}

fn line_len(line: &str) -> (r: usize)
    ensures
        r == bytes_len(line@),
{
    proof {
        lemma_encoded_len(line@);
    }
    line.as_bytes().len()
}

proof fn lemma_lines_len(text: Seq<char>)
    ensures
        lines_len(split(text, '\n')) == bytes_len(text) + 1,
        split(text, '\n').len() >= 1,
    decreases text.len(),
{
    reveal_with_fuel(lines_len, 2);
    let pieces = split(text, '\n');
    if text.len() == 0 {
        assert(pieces.drop_last() =~= Seq::empty());
    } else {
        let before = split(text.drop_last(), '\n');
        lemma_lines_len(text.drop_last());
        if text.last() == '\n' {
            assert(pieces.drop_last() =~= before);
        } else {
            assert(pieces.drop_last() =~= before.drop_last());
            assert(pieces.last() == before.last().push(text.last()));
            assert(pieces.last().drop_last() =~= before.last());
        }
    }
}

proof fn lemma_lines_prefix(lines: Seq<Seq<char>>, k: int)
    requires
        0 <= k <= lines.len(),
    ensures
        0 <= lines_len(lines.take(k)) <= lines_len(lines),
    decreases lines.len(),
{
    if k < lines.len() {
        lemma_lines_prefix(lines.drop_last(), k);
        assert(lines.drop_last().take(k) =~= lines.take(k));
        lemma_bytes_grow(lines.last(), 0, 0);
        lemma_bytes_grow(lines.last(), 0, lines.last().len() as int);
        assert(lines.last().take(lines.last().len() as int) =~= lines.last());
    } else {
        assert(lines.take(k) =~= lines);
        if k > 0 {
            lemma_lines_prefix(lines.drop_last(), k - 1);
            assert(lines.drop_last().take(k - 1) =~= lines.drop_last());
            lemma_bytes_grow(lines.last(), 0, lines.last().len() as int);
            assert(lines.last().take(lines.last().len() as int) =~= lines.last());
        }
    }
}

/// Where a byte sequence is cut into lines: behind each line feed; the last line has none if it is
/// not empty. A carriage return in front of a line feed belongs to it.
pub open spec fn file_lines(bytes: Seq<u8>, from: int) -> Seq<Seq<u8>>
    decreases bytes.len() - from,
{
    if from >= bytes.len() {
        Seq::empty()
    } else {
        let end = crate::lsp::line_end(bytes, from);
        if from < end <= bytes.len() {
            seq![without_ending(bytes.subrange(from, end))] + file_lines(bytes, end)
        } else {
            Seq::empty()
        }
    }
}

/// A line without its line feed and the carriage return in front of it.
pub open spec fn without_ending(line: Seq<u8>) -> Seq<u8> {
    if line.len() > 0 && line.last() == 10 {
        let rest = line.drop_last();
        if rest.len() > 0 && rest.last() == 13 {
            rest.drop_last()
        } else {
            rest
        }
    } else {
        line
    }
}

/// Whether a regular expression finds something in lines: the first line that it finds something in,
/// or that is not text, decides.
pub open spec fn detected_in_lines(source: (Seq<char>, bool, bool), lines: Seq<Seq<u8>>) -> Result<
    bool,
    NotText,
>
    decreases lines.len(),
{
    if lines.len() == 0 {
        Ok(false)
    } else if !vstd::utf8::valid_utf8(lines[0]) {
        Err(NotText)
    } else if regex_matches(
        source.0,
        source.1,
        source.2,
        vstd::utf8::decode_utf8(lines[0]),
    ).len() > 0 {
        Ok(true)
    } else {
        detected_in_lines(source, lines.skip(1))
    }
}

fn detect_in_lines(regex: &regex::Regex, bytes: &Vec<u8>) -> (r: Result<bool, NotText>)
    ensures
        r == detected_in_lines(regex_source(*regex), file_lines(bytes@, 0)),
{
    let ghost source = regex_source(*regex);
    let mut from: usize = 0;
    while from < bytes.len()
        invariant
            from <= bytes@.len(),
            source == regex_source(*regex),
            detected_in_lines(source, file_lines(bytes@, 0)) == detected_in_lines(
                source,
                file_lines(bytes@, from as int),
            ),
        decreases bytes.len() - from,
    {
        let mut end: usize = from;
        while end < bytes.len() && bytes[end] != 10
            invariant
                from <= end <= bytes@.len(),
                forall|k: int| from <= k < end ==> #[trigger] bytes@[k] != 10,
                crate::lsp::line_end(bytes@, from as int) == crate::lsp::line_end(
                    bytes@,
                    end as int,
                ),
            decreases bytes.len() - end,
        {
            end += 1;
        }
        let next: usize = if end < bytes.len() {
            end + 1
        } else {
            end
        };
        let cut: usize = if end < bytes.len() && end > from && bytes[end - 1] == 13 {
            end - 1
        } else {
            end
        };
        let line: Vec<u8> = crate::block_chunks::piece_of(bytes, from, cut);
        proof {
            let lines = file_lines(bytes@, from as int);
            let whole = bytes@.subrange(from as int, next as int);
            assert(line@ =~= without_ending(whole)) by {
                if end < bytes@.len() {
                    assert(whole.last() == 10);
                    let rest = bytes@.subrange(from as int, end as int);
                    assert(whole.drop_last() =~= rest);
                    if rest.len() > 0 && rest.last() == 13 {
                        assert(rest.drop_last() =~= line@);
                    } else {
                        assert(rest =~= line@);
                    }
                } else {
                    assert(whole.last() == bytes@[end - 1]);
                    assert(whole =~= line@);
                }
            }
            assert(lines =~= seq![line@] + file_lines(bytes@, next as int));
            assert(lines.skip(1) =~= file_lines(bytes@, next as int));
        }
        match utf8_text(line) {
            None => {
                return Err(NotText);
            },
            Some(text) => {
                if regex_finds(regex, text.as_str()) {
                    return Ok(true);
                }
            },
        }
        from = next;
    }
    Ok(false)
}

impl SearchQuery {
    /// A query for a plain text.
    pub fn text(query: String, whole_word: bool, case_sensitive: bool) -> (r: SearchQuery)
        ensures
            r == (SearchQuery::Text { query, whole_word, case_sensitive }),
    {
        SearchQuery::Text { query, whole_word, case_sensitive }
    }

    /// A query for a regular expression. What can be read is refused only if it is too big.
    pub fn regex(query: &str, whole_word: bool, case_sensitive: bool) -> (r: Result<
        SearchQuery,
        InvalidRegex,
    >)
        ensures
            match r {
                Ok(SearchQuery::Regex { multiline, regex }) => {
                    &&& multiline == spans_lines(pattern_of(query@, whole_word))
                    &&& regex_source(regex) == (
                        pattern_of(query@, whole_word),
                        !case_sensitive,
                        multiline,
                    )
                },
                Ok(_) => false,
                Err(e) => e.pattern@ == pattern_of(query@, whole_word),
            },
            (r matches Err(e) && e.refusal is Grammar) == !can_be_read(
                query@,
                whole_word,
                case_sensitive,
            ),
    {
        let pattern: String = if whole_word {
            String::from_str("\\b").concat(query).concat("\\b")
        } else {
            query.to_owned()
        };
        let multiline: bool = is_multiline(pattern.as_str());
        match build_regex(pattern.as_str(), !case_sensitive, multiline) {
            Ok(regex) => Ok(SearchQuery::Regex { multiline, regex }),
            Err(refusal) => Err(InvalidRegex { pattern, refusal }),
        }
    }

    /// Whether a file with these bytes has something in it that the query asks for. A regular
    /// expression that speaks of line feeds is looked for in the whole text, any other one in each
    /// line.
    pub fn detect(&self, bytes: Vec<u8>) -> (r: Result<bool, NotText>)
        ensures
            match *self {
                SearchQuery::Text { query, case_sensitive, .. } => r == Ok::<bool, NotText>(
                    occurrences(bytes@, encode_utf8(query@), 0, !case_sensitive).len() > 0,
                ),
                SearchQuery::Regex { multiline, regex } => r == if multiline {
                    if vstd::utf8::valid_utf8(bytes@) {
                        Ok(
                            regex_matches(
                                regex_source(regex).0,
                                regex_source(regex).1,
                                regex_source(regex).2,
                                vstd::utf8::decode_utf8(bytes@),
                            ).len() > 0,
                        )
                    } else {
                        Err(NotText)
                    }
                } else {
                    detected_in_lines(regex_source(regex), file_lines(bytes@, 0))
                },
            },
    {
        match self {
            SearchQuery::Text { query, case_sensitive, .. } => {
                let found: Vec<(usize, usize)> = find_text(
                    query.as_str(),
                    *case_sensitive,
                    bytes.as_slice(),
                );
                Ok(found.len() > 0)
            },
            SearchQuery::Regex { multiline, regex } => {
                if *multiline {
                    match utf8_text(bytes) {
                        Some(text) => Ok(regex_finds(regex, text.as_str())),
                        None => Err(NotText),
                    }
                } else {
                    detect_in_lines(regex, &bytes)
                }
            },
        }
    }

    /// The ranges of a text that the query asks for, in bytes. A regular expression that speaks of
    /// line feeds is looked for in the whole text, any other one in each line.
    pub fn search(&self, text: &str) -> (r: Vec<(usize, usize)>)
        requires
            self matches SearchQuery::Text { query, whole_word, .. } ==> *whole_word
                ==> query@.len() > 0,
            bytes_len(text@) < usize::MAX,
        ensures
            r@ == match *self {
                SearchQuery::Text { query, whole_word, case_sensitive } => {
                    let found = occurrences(
                        encode_utf8(text@),
                        encode_utf8(query@),
                        0,
                        !case_sensitive,
                    );
                    if whole_word {
                        whole_words(text@, found)
                    } else {
                        found
                    }
                },
                SearchQuery::Regex { multiline, regex } => if multiline {
                    regex_matches(
                        regex_source(regex).0,
                        regex_source(regex).1,
                        regex_source(regex).2,
                        text@,
                    )
                } else {
                    line_matches(regex_source(regex), split(text@, '\n'))
                },
            },
    {
        match self {
            SearchQuery::Text { query, whole_word, case_sensitive } => {
                let found: Vec<(usize, usize)> = find_text(
                    query.as_str(),
                    *case_sensitive,
                    text.as_bytes(),
                );
                if *whole_word {
                    let chars: Vec<char> = chars_of(text);
                    keep_whole_words(&chars, &found)
                } else {
                    found
                }
            },
            SearchQuery::Regex { multiline, regex } => {
                if *multiline {
                    find_regex(regex, text)
                } else {
                    search_lines(regex, text)
                }
            },
        }
    }
}

fn search_lines(regex: &regex::Regex, text: &str) -> (r: Vec<(usize, usize)>)
    requires
        bytes_len(text@) < usize::MAX,
    ensures
        r@ == line_matches(regex_source(*regex), split(text@, '\n')),
{
    let chars: Vec<char> = chars_of(text);
    let lines: Vec<String> = split_text(&chars, '\n');
    let ghost views = texts(lines@);
    let ghost source = regex_source(*regex);
    let mut r: Vec<(usize, usize)> = Vec::new();
    let mut offset: usize = 0;
    let mut i: usize = 0;
    proof {
        assert(views.take(0) =~= Seq::empty());
        lemma_lines_len(text@);
    }
    while i < lines.len()
        invariant
            i <= lines@.len(),
            views == texts(lines@),
            source == regex_source(*regex),
            lines_len(views) <= usize::MAX,
            offset == lines_len(views.take(i as int)),
            r@ == line_matches(source, views.take(i as int)),
        decreases lines.len() - i,
    {
        let line: &str = lines[i].as_str();
        let found: Vec<(usize, usize)> = find_regex(regex, line);
        let len: usize = line_len(line);
        let ghost before = r@;
        proof {
            assert(line@ == views[i as int]);
            assert(views.take(i + 1).drop_last() =~= views.take(i as int));
            lemma_lines_prefix(views, i + 1);
            lemma_encoded_len(line@);
        }
        let mut k: usize = 0;
        while k < found.len()
            invariant
                k <= found@.len(),
                offset + len < usize::MAX,
                forall|m: int|
                    0 <= m < found@.len() ==> (#[trigger] found@[m]).0 <= found@[m].1 <= len,
                r@ == before + shifted(found@.take(k as int), offset as int),
            decreases found.len() - k,
        {
            let (start, end) = found[k];
            r.push((offset + start, offset + end));
            k += 1;
            assert(r@ =~= before + shifted(found@.take(k as int), offset as int));
        }
        assert(found@.take(k as int) =~= found@);
        offset = offset + len + 1;
        i += 1;
    }
    assert(views.take(i as int) =~= views);
    r
}

/// Two bytes count as the same if they are, or if case does not count and they are the two cases of a
/// letter of ASCII, which are thirty-two apart.
pub proof fn only_case_is_passed_over(a: u8, b: u8)
    ensures
        same_byte(a, b, false) <==> a == b,
        same_byte(a, b, true) <==> a == b || (65 <= a <= 90 && b == a + 32) || (65 <= b <= 90 && a == b
            + 32),
{
}

/// A letter, a digit and an underscore belong to words, a line feed is a kind of its own, other white
/// space is white space, and everything else is punctuation.
pub proof fn kinds_are_told_apart(c: char)
    ensures
        kind_of('\n') is Newline,
        kind_of('_') is Word,
        kind_of(c) is Newline <==> c == '\n',
        kind_of(c) is Whitespace <==> is_space(c) && c != '\n',
        kind_of(c) is Word <==> !is_space(c) && (alphanumeric(c) || c == '_'),
        kind_of(c) is Punctuation <==> !is_space(c) && !alphanumeric(c) && c != '_',
{
}

/// A range is kept if it is one of those found and the characters on both sides of each of its ends are
/// of different kinds, or the text begins or ends there. Nothing else is kept, and the order stays.
pub proof fn whole_words_end_where_kinds_change(
    text: Seq<char>,
    ranges: Seq<(usize, usize)>,
    range: (usize, usize),
    i: int,
    j: int,
)
    requires
        0 <= i <= j <= text.len(),
        encode_utf8(text.take(i)).len() == range.0,
        encode_utf8(text.take(j)).len() == range.1,
    ensures
        is_whole_word(text, range) <==> (i == 0 || i == text.len() || kind_of(text[i - 1]) != kind_of(
            text[i],
        )) && (j == 0 || j == text.len() || kind_of(text[j - 1]) != kind_of(text[j])),
        whole_words(text, ranges).contains(range) <==> ranges.contains(range) && is_whole_word(
            text,
            range,
        ),
        whole_words(text, ranges) == ranges.filter(|r: (usize, usize)| is_whole_word(text, r)),
{
    lemma_encoded_len(text.take(i));
    lemma_encoded_len(text.take(j));
    if i < text.len() {
        lemma_bytes_grow(text, i, i + 1);
    }
    if j < text.len() {
        lemma_bytes_grow(text, j, j + 1);
    }
    char_index_is(text, range.0 as int, i);
    char_index_is(text, range.1 as int, j);
    let keep = |r: (usize, usize)| is_whole_word(text, r);
    assert(whole_words(text, ranges) =~= ranges.filter(keep));
    lemma_kept(ranges, keep, range);
}

proof fn lemma_kept(
    ranges: Seq<(usize, usize)>,
    keep: spec_fn((usize, usize)) -> bool,
    range: (usize, usize),
)
    ensures
        ranges.filter(keep).contains(range) <==> ranges.contains(range) && keep(range),
    decreases ranges.len(),
{
    reveal(Seq::filter);
    if ranges.len() > 0 {
        let init = ranges.drop_last();
        let before = init.filter(keep);
        lemma_kept(init, keep, range);
        assert(init.push(ranges.last()) =~= ranges);
        assert(ranges.contains(range) <==> init.contains(range) || range == ranges.last()) by {
            if init.contains(range) {
                let k = choose|k: int| 0 <= k < init.len() && init[k] == range;
                assert(ranges[k] == range);
            }
            assert(ranges[ranges.len() - 1] == ranges.last());
            if ranges.contains(range) && range != ranges.last() {
                let k = choose|k: int| 0 <= k < ranges.len() && ranges[k] == range;
                assert(init[k] == range);
            }
        }
        if keep(ranges.last()) {
            let after = before.push(ranges.last());
            assert(after[before.len() as int] == ranges.last());
            if before.contains(range) {
                let k = choose|k: int| 0 <= k < before.len() && before[k] == range;
                assert(after[k] == range);
            }
            if after.contains(range) && range != ranges.last() {
                let k = choose|k: int| 0 <= k < after.len() && after[k] == range;
                assert(before[k] == range);
            }
        }
    }
}

/// Whole words are asked for by word boundaries in front of the query and behind it; otherwise the
/// query is the pattern.
pub proof fn pattern_has_the_query_in_it(query: Seq<char>)
    ensures
        pattern_of(query, false) == query,
        pattern_of(query, true) == seq!['\\', 'b'] + query + seq!['\\', 'b'],
{
    reveal_strlit("\\b");
    assert("\\b"@ =~= seq!['\\', 'b']);
}

/// A pattern speaks of line feeds if one stands in it, or a backslash with an `n` behind it.
pub proof fn line_feeds_are_noticed(pattern: Seq<char>)
    ensures
        spans_lines(pattern) <==> exists|i: int|
            0 <= i < pattern.len() && (#[trigger] pattern[i] == '\n' || (pattern[i] == '\\' && i + 1
                < pattern.len() && pattern[i + 1] == 'n')),
{
    reveal_strlit("\\n");
    let part = "\\n"@;
    assert(part =~= seq!['\\', 'n']);
    if has_text(pattern, part) {
        let i = choose|i: int|
            0 <= i && i + part.len() <= pattern.len() && #[trigger] pattern.subrange(
                i,
                i + part.len(),
            ) == part;
        let here = pattern.subrange(i, i + 2);
        assert(here[0] == '\\' && here[1] == 'n');
        assert(pattern[i] == '\\');
        assert(pattern[i + 1] == 'n');
    }
    if pattern.contains('\n') {
        let i = choose|i: int| 0 <= i < pattern.len() && pattern[i] == '\n';
        assert(pattern[i] == '\n');
    }
    if exists|i: int|
        0 <= i < pattern.len() && (#[trigger] pattern[i] == '\n' || (pattern[i] == '\\' && i + 1
            < pattern.len() && pattern[i + 1] == 'n')) {
        let i = choose|i: int|
            0 <= i < pattern.len() && (#[trigger] pattern[i] == '\n' || (pattern[i] == '\\' && i + 1
                < pattern.len() && pattern[i + 1] == 'n'));
        if pattern[i] != '\n' {
            assert(pattern.subrange(i, i + part.len()) =~= part);
        }
    }
}

/// What a line of a file has in it decides as soon as it is text and something is found in it; a line in
/// front of it that is not text ends the search. If nothing is found in any line, nothing is detected.
pub proof fn first_telling_line_decides(
    source: (Seq<char>, bool, bool),
    lines: Seq<Seq<u8>>,
    i: int,
)
    requires
        0 <= i <= lines.len(),
        forall|k: int|
            0 <= k < i ==> vstd::utf8::valid_utf8(#[trigger] lines[k]) && regex_matches(
                source.0,
                source.1,
                source.2,
                vstd::utf8::decode_utf8(lines[k]),
            ).len() == 0,
    ensures
        i == lines.len() ==> detected_in_lines(source, lines) == Ok::<bool, NotText>(false),
        i < lines.len() && !vstd::utf8::valid_utf8(lines[i]) ==> detected_in_lines(source, lines)
            == Err::<bool, NotText>(NotText),
        i < lines.len() && vstd::utf8::valid_utf8(lines[i]) && regex_matches(
            source.0,
            source.1,
            source.2,
            vstd::utf8::decode_utf8(lines[i]),
        ).len() > 0 ==> detected_in_lines(source, lines) == Ok::<bool, NotText>(true),
    decreases i,
{
    if i > 0 {
        let rest = lines.skip(1);
        assert(vstd::utf8::valid_utf8(lines[0]));
        assert forall|k: int| 0 <= k < i - 1 implies vstd::utf8::valid_utf8(#[trigger] rest[k])
            && regex_matches(
            source.0,
            source.1,
            source.2,
            vstd::utf8::decode_utf8(rest[k]),
        ).len() == 0 by {
            assert(rest[k] == lines[k + 1]);
        }
        if i < lines.len() {
            assert(rest[i - 1] == lines[i]);
        }
        first_telling_line_decides(source, rest, i - 1);
    }
}

proof fn lemma_line_end_shifts(bytes: Seq<u8>, from: int, by: int)
    requires
        0 <= by <= from,
    ensures
        crate::lsp::line_end(bytes, from) == crate::lsp::line_end(bytes.skip(by), from - by) + by
            || by > bytes.len(),
    decreases bytes.len() - from,
{
    if by <= bytes.len() && from < bytes.len() {
        assert(bytes.skip(by)[from - by] == bytes[from]);
        if bytes[from] != 10 {
            lemma_line_end_shifts(bytes, from + 1, by);
        }
    }
}

proof fn lemma_line_end_within(bytes: Seq<u8>, from: int)
    requires
        0 <= from <= bytes.len(),
    ensures
        from <= crate::lsp::line_end(bytes, from) <= bytes.len(),
        from < bytes.len() ==> from < crate::lsp::line_end(bytes, from),
    decreases bytes.len() - from,
{
    if from < bytes.len() && bytes[from] != 10 {
        lemma_line_end_within(bytes, from + 1);
    }
}

proof fn lemma_file_lines_shift(bytes: Seq<u8>, from: int, by: int)
    requires
        0 <= by <= from <= bytes.len(),
    ensures
        file_lines(bytes, from) == file_lines(bytes.skip(by), from - by),
    decreases bytes.len() - from,
{
    if from < bytes.len() {
        let end = crate::lsp::line_end(bytes, from);
        lemma_line_end_shifts(bytes, from, by);
        lemma_line_end_within(bytes, from);
        lemma_file_lines_shift(bytes, end, by);
        assert(bytes.skip(by).subrange(from - by, end - by) =~= bytes.subrange(from, end));
    }
}

/// A file is cut into lines at its line feeds: what stands in front of the first one is the first line,
/// without a carriage return at its end, and what follows it are the others. A rest without a line feed
/// is a line as it is, unless it is empty.
pub proof fn files_are_cut_at_line_feeds(line: Seq<u8>, rest: Seq<u8>)
    requires
        !line.contains(10u8),
    ensures
        file_lines(line, 0) == (if line.len() == 0 {
            Seq::<Seq<u8>>::empty()
        } else {
            seq![line]
        }),
        file_lines(line.push(10u8) + rest, 0) == seq![
            if line.len() > 0 && line.last() == 13 {
                line.drop_last()
            } else {
                line
            },
        ] + file_lines(rest, 0),
{
    let n = line.len() as int;
    lemma_line_end_at(line, 0, n);
    if n > 0 {
        assert(line.subrange(0, n) =~= line);
        assert(line[n - 1] != 10);
        assert(file_lines(line, n) =~= Seq::empty());
        assert(seq![line] + Seq::<Seq<u8>>::empty() =~= seq![line]);
        assert(file_lines(line, 0) =~= seq![line]);
    }
    let whole = line.push(10u8) + rest;
    assert forall|k: int| 0 <= k < n implies whole[k] != 10 by {
        assert(whole[k] == line[k]);
    }
    lemma_line_end_at(whole, 0, n);
    let cut = whole.subrange(0, n + 1);
    assert(cut =~= line.push(10u8));
    assert(cut.drop_last() =~= line);
    lemma_file_lines_shift(whole, n + 1, n + 1);
    assert(whole.skip(n + 1) =~= rest);
}

proof fn lemma_line_end_at(bytes: Seq<u8>, from: int, feed: int)
    requires
        0 <= from <= feed <= bytes.len(),
        forall|k: int| from <= k < feed ==> bytes[k] != 10,
        feed < bytes.len() ==> bytes[feed] == 10,
    ensures
        crate::lsp::line_end(bytes, from) == if feed < bytes.len() {
            feed + 1
        } else {
            feed
        },
    decreases feed - from,
{
    if from < feed {
        lemma_line_end_at(bytes, from + 1, feed);
    }
}

/// A query occurs where the text reads as it does; where case is passed over, where both read alike in
/// small letters.
pub proof fn query_occurs_where_it_stands(text: Seq<u8>, query: Seq<u8>, i: int)
    ensures
        occurs_at(text, query, i, false) <==> 0 <= i <= text.len() - query.len() && text.subrange(
            i,
            i + query.len(),
        ) == query,
        occurs_at(text, query, i, true) <==> 0 <= i <= text.len() - query.len() && text.subrange(
            i,
            i + query.len(),
        ).map_values(|b: u8| lower(b)) == query.map_values(|b: u8| lower(b)),
{
    if 0 <= i <= text.len() - query.len() {
        let here = text.subrange(i, i + query.len());
        if occurs_at(text, query, i, false) {
            assert(here =~= query);
        }
        if here == query {
            assert forall|k: int| 0 <= k < query.len() implies same_byte(
                text[i + k],
                #[trigger] query[k],
                false,
            ) by {
                assert(here[k] == query[k]);
            }
        }
        let small = |b: u8| lower(b);
        if occurs_at(text, query, i, true) {
            assert forall|k: int| 0 <= k < query.len() implies here.map_values(small)[k]
                == query.map_values(small)[k] by {
                assert(same_byte(text[i + k], query[k], true));
            }
            assert(here.map_values(small) =~= query.map_values(small));
        }
        if here.map_values(small) == query.map_values(small) {
            assert forall|k: int| 0 <= k < query.len() implies same_byte(
                text[i + k],
                #[trigger] query[k],
                true,
            ) by {
                assert(here.map_values(small)[k] == query.map_values(small)[k]);
            }
        }
    }
}

} // verus!
