//! Contexts, and the predicates over them that say where a key binding applies.
use vstd::prelude::*;
use crate::text::{chars_of, same_text, text_of};
use crate::text_map::{TextMap, TextSet};

verus! {

/// What a view tells about itself: identifiers that hold, and values under names.
#[derive(Debug, PartialEq, Eq)]
pub struct Context {
    pub set: TextSet,
    pub map: TextMap,
}

/// The meaning of a context.
#[verifier::ext_equal]
pub struct ContextView {
    pub set: Set<Seq<char>>,
    pub map: Map<Seq<char>, Seq<char>>,
}

impl View for Context {
    type V = ContextView;

    open spec fn view(&self) -> ContextView {
        ContextView { set: self.set@, map: self.map@ }
    }
}

impl ContextView {
    /// This context with all of `other` added; where both name a value, that of `other` stays.
    pub open spec fn extended(self, other: ContextView) -> ContextView {
        ContextView {
            set: self.set.union(other.set),
            map: self.map.union_prefer_right(other.map),
        }
    }

    /// The context that says nothing.
    pub open spec fn empty() -> ContextView {
        ContextView { set: Set::empty(), map: Map::empty() }
    }
}

impl Context {
    /// Adds everything that `other` says.
    pub fn extend(&mut self, other: &Context)
        ensures
            final(self)@ == old(self)@.extended(other@),
    {
        self.set.extend(&other.set);
        self.map.extend(&other.map);
    }

    /// Whether two contexts say the same.
    pub fn same(&self, other: &Context) -> (r: bool)
        ensures
            r == (self@ == other@),
    {
        self.set.same(&other.set) && self.map.same(&other.map)
    }
}

impl Clone for Context {
    fn clone(&self) -> (r: Self)
        ensures
            r@ == self@,
    {
        Context { set: self.set.clone(), map: self.map.clone() }
    }
}

impl Default for Context {
    fn default() -> (r: Self)
        ensures
            r@ == ContextView::empty(),
    {
        Context { set: TextSet::new(), map: TextMap::new() }
    }
}

/// Extending twice by the same context changes nothing the second time.
pub proof fn extend_is_idempotent(a: ContextView, b: ContextView)
    ensures
        a.extended(b).extended(b) == a.extended(b),
{
    assert(a.extended(b).extended(b) =~= a.extended(b));
}

/// Extending step by step is extending by the extension.
pub proof fn extend_is_associative(a: ContextView, b: ContextView, c: ContextView)
    ensures
        a.extended(b).extended(c) == a.extended(b.extended(c)),
{
    assert(a.extended(b).extended(c) =~= a.extended(b.extended(c)));
}

/// The empty context changes nothing when it extends or is extended.
pub proof fn extend_by_empty(a: ContextView)
    ensures
        a.extended(ContextView::empty()) == a,
        ContextView::empty().extended(a) == a,
{
    assert(a.extended(ContextView::empty()) =~= a);
    assert(ContextView::empty().extended(a) =~= a);
}

/// A condition on a context.
#[derive(Debug, PartialEq, Eq)]
pub enum ContextPredicate {
    Identifier(String),
    Equal(String, String),
    NotEqual(String, String),
    Not(Box<ContextPredicate>),
    And(Box<ContextPredicate>, Box<ContextPredicate>),
    Or(Box<ContextPredicate>, Box<ContextPredicate>),
}

/// The meaning of a predicate.
pub enum PredicateView {
    Identifier(Seq<char>),
    Equal(Seq<char>, Seq<char>),
    NotEqual(Seq<char>, Seq<char>),
    Not(Box<PredicateView>),
    And(Box<PredicateView>, Box<PredicateView>),
    Or(Box<PredicateView>, Box<PredicateView>),
}

impl PredicateView {
    /// Whether the predicate holds in a context.
    pub open spec fn holds(self, cx: ContextView) -> bool
        decreases self,
    {
        match self {
            PredicateView::Identifier(name) => cx.set.contains(name),
            PredicateView::Equal(name, value) => cx.map.dom().contains(name) && cx.map[name]
                == value,
            PredicateView::NotEqual(name, value) => !(cx.map.dom().contains(name) && cx.map[name]
                == value),
            PredicateView::Not(p) => !p.holds(cx),
            PredicateView::And(p, q) => p.holds(cx) && q.holds(cx),
            PredicateView::Or(p, q) => p.holds(cx) || q.holds(cx),
        }
    }

    /// Whether the predicate asks for an identifier anywhere. Names and values that are compared
    /// do not count.
    pub open spec fn mentions(self, id: Seq<char>) -> bool
        decreases self,
    {
        match self {
            PredicateView::Identifier(name) => name == id,
            PredicateView::Equal(_, _) => false,
            PredicateView::NotEqual(_, _) => false,
            PredicateView::Not(p) => p.mentions(id),
            PredicateView::And(p, q) => p.mentions(id) || q.mentions(id),
            PredicateView::Or(p, q) => p.mentions(id) || q.mentions(id),
        }
    }
}

impl ContextPredicate {
    /// The meaning of the predicate.
    pub open spec fn model(self) -> PredicateView
        decreases self,
    {
        match self {
            ContextPredicate::Identifier(name) => PredicateView::Identifier(name@),
            ContextPredicate::Equal(name, value) => PredicateView::Equal(name@, value@),
            ContextPredicate::NotEqual(name, value) => PredicateView::NotEqual(name@, value@),
            ContextPredicate::Not(p) => PredicateView::Not(Box::new(p.model())),
            ContextPredicate::And(p, q) => PredicateView::And(
                Box::new(p.model()),
                Box::new(q.model()),
            ),
            ContextPredicate::Or(p, q) => PredicateView::Or(
                Box::new(p.model()),
                Box::new(q.model()),
            ),
        }
    }

    /// Whether the predicate holds in a context.
    pub fn eval(&self, cx: &Context) -> (r: bool)
        ensures
            r == self.model().holds(cx@),
        decreases self,
    {
        match self {
            ContextPredicate::Identifier(name) => cx.set.contains(name.as_str()),
            ContextPredicate::Equal(name, value) => match cx.map.get(name.as_str()) {
                Some(found) => same_text(found.as_str(), value.as_str()),
                None => false,
            },
            ContextPredicate::NotEqual(name, value) => match cx.map.get(name.as_str()) {
                Some(found) => !same_text(found.as_str(), value.as_str()),
                None => true,
            },
            ContextPredicate::Not(p) => !p.eval(cx),
            ContextPredicate::And(p, q) => p.eval(cx) && q.eval(cx),
            ContextPredicate::Or(p, q) => p.eval(cx) || q.eval(cx),
        }
    }

    /// Whether the predicate asks for the identifier `id` anywhere.
    pub fn contains_identifier(&self, id: &str) -> (r: bool)
        ensures
            r == self.model().mentions(id@),
        decreases self,
    {
        match self {
            ContextPredicate::Identifier(name) => same_text(name.as_str(), id),
            ContextPredicate::Not(p) => p.contains_identifier(id),
            ContextPredicate::And(p, q) => p.contains_identifier(id) || q.contains_identifier(id),
            ContextPredicate::Or(p, q) => p.contains_identifier(id) || q.contains_identifier(id),
            ContextPredicate::Equal(_, _) => false,
            ContextPredicate::NotEqual(_, _) => false,
        }
    }
}

/// A name is compared with the value that the context has under it: `==` holds exactly where that
/// value is there, and `!=` exactly where `==` does not hold, as where there is no value at all.
pub proof fn comparisons_are_opposites(name: Seq<char>, value: Seq<char>, cx: ContextView)
    ensures
        PredicateView::NotEqual(name, value).holds(cx) == !PredicateView::Equal(name, value).holds(
            cx,
        ),
        PredicateView::Equal(name, value).holds(
            ContextView { map: cx.map.insert(name, value), ..cx },
        ),
        !PredicateView::Equal(name, value).holds(ContextView { map: cx.map.remove(name), ..cx }),
        PredicateView::Equal(name, value).holds(cx) ==> cx.map.contains_pair(name, value),
        forall|other: Seq<char>|
            other != value ==> !(#[trigger] PredicateView::Equal(name, value).holds(
                ContextView { map: cx.map.insert(name, other), ..cx },
            )),
{
}

/// An identifier holds once the context has it, and not without it.
pub proof fn identifiers_are_looked_up(name: Seq<char>, cx: ContextView)
    ensures
        PredicateView::Identifier(name).holds(ContextView { set: cx.set.insert(name), ..cx }),
        !PredicateView::Identifier(name).holds(ContextView { set: cx.set.remove(name), ..cx }),
        PredicateView::Identifier(name).holds(cx) ==> cx.set.contains(name),
{
}

/// A negation holds where its operand does not, a conjunction where both operands hold, and a
/// disjunction where one of them does.
pub proof fn operands_decide(p: PredicateView, q: PredicateView, cx: ContextView)
    ensures
        PredicateView::Not(Box::new(p)).holds(cx) != p.holds(cx),
        p.holds(cx) && q.holds(cx) <==> PredicateView::And(Box::new(p), Box::new(q)).holds(cx),
        p.holds(cx) || q.holds(cx) <==> PredicateView::Or(Box::new(p), Box::new(q)).holds(cx),
{
}

/// A predicate asks for the identifiers whose presence can make a difference to it, and for those of
/// its operands.
pub proof fn identifiers_are_mentioned(p: PredicateView, q: PredicateView, id: Seq<char>)
    ensures
        PredicateView::Identifier(id).mentions(id),
        p.mentions(id) ==> {
            &&& PredicateView::Not(Box::new(p)).mentions(id)
            &&& PredicateView::And(Box::new(p), Box::new(q)).mentions(id)
            &&& PredicateView::And(Box::new(q), Box::new(p)).mentions(id)
            &&& PredicateView::Or(Box::new(p), Box::new(q)).mentions(id)
            &&& PredicateView::Or(Box::new(q), Box::new(p)).mentions(id)
        },
        PredicateView::Not(Box::new(p)).mentions(id) ==> p.mentions(id),
        PredicateView::And(Box::new(p), Box::new(q)).mentions(id) ==> p.mentions(id) || q.mentions(id),
        PredicateView::Or(Box::new(p), Box::new(q)).mentions(id) ==> p.mentions(id) || q.mentions(id),
        forall|name: Seq<char>|
            #[trigger] PredicateView::Identifier(name).mentions(id) ==> name == id,
        forall|name: Seq<char>, value: Seq<char>|
            !(#[trigger] PredicateView::Equal(name, value).mentions(id)),
        forall|name: Seq<char>, value: Seq<char>|
            !(#[trigger] PredicateView::NotEqual(name, value).mentions(id)),
{
}

/// An identifier that a predicate does not ask for makes no difference to it.
pub proof fn unmentioned_identifier_is_irrelevant(p: PredicateView, cx: ContextView, id: Seq<char>)
    requires
        !p.mentions(id),
    ensures
        p.holds(ContextView { set: cx.set.insert(id), map: cx.map }) == p.holds(cx),
    decreases p,
{
    match p {
        PredicateView::Identifier(_) => {},
        PredicateView::Equal(_, _) => {},
        PredicateView::NotEqual(_, _) => {},
        PredicateView::Not(q) => unmentioned_identifier_is_irrelevant(*q, cx, id),
        PredicateView::And(q, r) => {
            unmentioned_identifier_is_irrelevant(*q, cx, id);
            unmentioned_identifier_is_irrelevant(*r, cx, id);
        },
        PredicateView::Or(q, r) => {
            unmentioned_identifier_is_irrelevant(*q, cx, id);
            unmentioned_identifier_is_irrelevant(*r, cx, id);
        },
    }
}

/// A word of the predicate language.
pub enum Token {
    Identifier(String),
    Not,
    And,
    Or,
    Equal,
    NotEqual,
    Open,
    Close,
}

/// The meaning of a token.
pub enum TokenView {
    Identifier(Seq<char>),
    Not,
    And,
    Or,
    Equal,
    NotEqual,
    Open,
    Close,
}

impl View for Token {
    type V = TokenView;

    open spec fn view(&self) -> TokenView {
        match self {
            Token::Identifier(name) => TokenView::Identifier(name@),
            Token::Not => TokenView::Not,
            Token::And => TokenView::And,
            Token::Or => TokenView::Or,
            Token::Equal => TokenView::Equal,
            Token::NotEqual => TokenView::NotEqual,
            Token::Open => TokenView::Open,
            Token::Close => TokenView::Close,
        }
    }
}

/// The characters that identifiers are made of.
pub open spec fn is_name_char(c: char) -> bool {
    ('a' <= c <= 'z') || ('A' <= c <= 'Z') || ('0' <= c <= '9') || c == '_' || c == '-'
}

/// How many characters, from the first on, belong to an identifier.
pub open spec fn name_len(s: Seq<char>) -> nat
    decreases s.len(),
{
    if s.len() == 0 || !is_name_char(s[0]) {
        0
    } else {
        1 + name_len(s.skip(1))
    }
}

/// The fixed token that a text begins with, and its length.
pub open spec fn sign(s: Seq<char>) -> Option<(TokenView, nat)> {
    if s.len() >= 2 && s[0] == '&' && s[1] == '&' {
        Some((TokenView::And, 2))
    } else if s.len() >= 2 && s[0] == '|' && s[1] == '|' {
        Some((TokenView::Or, 2))
    } else if s.len() >= 2 && s[0] == '=' && s[1] == '=' {
        Some((TokenView::Equal, 2))
    } else if s.len() >= 2 && s[0] == '!' && s[1] == '=' {
        Some((TokenView::NotEqual, 2))
    } else if s.len() >= 1 && s[0] == '!' {
        Some((TokenView::Not, 1))
    } else if s.len() >= 1 && s[0] == '(' {
        Some((TokenView::Open, 1))
    } else if s.len() >= 1 && s[0] == ')' {
        Some((TokenView::Close, 1))
    } else {
        None
    }
}

/// `first` in front of the tokens, where there are any.
pub open spec fn prepend(first: Seq<TokenView>, rest: Option<Seq<TokenView>>) -> Option<
    Seq<TokenView>,
> {
    match rest {
        Some(tokens) => Some(first + tokens),
        None => None,
    }
}

/// `name_len` measures the longest beginning that is made of identifier characters.
pub proof fn name_is_longest(s: Seq<char>)
    ensures
        name_len(s) <= s.len(),
        s.len() > 0 && is_name_char(s[0]) ==> name_len(s) > 0,
        forall|i: int| 0 <= i < name_len(s) ==> is_name_char(#[trigger] s[i]),
        name_len(s) < s.len() ==> !is_name_char(s[name_len(s) as int]),
    decreases s.len(),
{
    if s.len() > 0 && is_name_char(s[0]) {
        name_is_longest(s.skip(1));
        assert forall|i: int| 0 <= i < name_len(s) implies is_name_char(#[trigger] s[i]) by {
            if i > 0 {
                assert(s.skip(1)[i - 1] == s[i]);
            }
        }
    }
}

proof fn lemma_name_len_is(s: Seq<char>, n: int)
    requires
        0 <= n <= s.len(),
        forall|i: int| 0 <= i < n ==> is_name_char(#[trigger] s[i]),
        n < s.len() ==> !is_name_char(s[n]),
    ensures
        name_len(s) == n,
    decreases n,
{
    if n > 0 {
        assert(is_name_char(s[0]));
        assert forall|i: int| 0 <= i < n - 1 implies is_name_char(#[trigger] s.skip(1)[i]) by {
            assert(is_name_char(s[i + 1]));
        }
        lemma_name_len_is(s.skip(1), n - 1);
    }
}

/// The tokens of a text, white space between them left out.
pub open spec fn lexed(s: Seq<char>) -> Option<Seq<TokenView>>
    decreases s.len(),
{
    if s.len() == 0 {
        Some(Seq::empty())
    } else if crate::text::is_space(s[0]) {
        lexed(s.skip(1))
    } else if is_name_char(s[0]) {
        let n = name_len(s) as int;
        proof {
            name_is_longest(s);
        }
        prepend(seq![TokenView::Identifier(s.take(n))], lexed(s.skip(n)))
    } else {
        match sign(s) {
            Some((token, n)) => prepend(seq![token], lexed(s.skip(n as int))),
            None => None,
        }
    }
}

/// A parse: the predicate that was read and the index of the first token after it.
pub type Parse = Option<(PredicateView, int)>;

/// Reads an operand: an identifier, a comparison, a negation or a predicate in parentheses.
pub open spec fn operand(t: Seq<TokenView>, i: int) -> Parse
    decreases t.len() - i, 1int,
{
    if i < 0 || i >= t.len() {
        None
    } else {
        match t[i] {
            TokenView::Not => match operand(t, i + 1) {
                Some((p, j)) => Some((PredicateView::Not(Box::new(p)), j)),
                None => None,
            },
            TokenView::Open => match disjunction(t, i + 1) {
                Some((p, j)) => if i < j < t.len() && t[j] == TokenView::Close {
                    Some((p, j + 1))
                } else {
                    None
                },
                None => None,
            },
            TokenView::Identifier(name) => if i + 1 < t.len() && (t[i + 1] == TokenView::Equal || t[i
                + 1] == TokenView::NotEqual) {
                if i + 2 < t.len() && t[i + 2] is Identifier {
                    let value = t[i + 2]->Identifier_0;
                    if t[i + 1] == TokenView::Equal {
                        Some((PredicateView::Equal(name, value), i + 3))
                    } else {
                        Some((PredicateView::NotEqual(name, value), i + 3))
                    }
                } else {
                    None
                }
            } else {
                Some((PredicateView::Identifier(name), i + 1))
            },
            _ => None,
        }
    }
}

/// Reads operands joined by `&&`, grouped from the left.
pub open spec fn conjunction(t: Seq<TokenView>, i: int) -> Parse
    decreases t.len() - i, 2int,
{
    match operand(t, i) {
        Some((p, j)) => if i < j <= t.len() {
            conjunction_tail(t, j, p)
        } else {
            None
        },
        None => None,
    }
}

/// Goes on reading a conjunction of which `p` has been read.
pub open spec fn conjunction_tail(t: Seq<TokenView>, i: int, p: PredicateView) -> Parse
    decreases t.len() - i, 3int,
{
    if 0 <= i < t.len() && t[i] == TokenView::And {
        match operand(t, i + 1) {
            Some((q, j)) => if i < j <= t.len() {
                conjunction_tail(t, j, PredicateView::And(Box::new(p), Box::new(q)))
            } else {
                None
            },
            None => None,
        }
    } else {
        Some((p, i))
    }
}

/// Reads conjunctions joined by `||`, grouped from the left.
pub open spec fn disjunction(t: Seq<TokenView>, i: int) -> Parse
    decreases t.len() - i, 4int,
{
    match conjunction(t, i) {
        Some((p, j)) => if i < j <= t.len() {
            disjunction_tail(t, j, p)
        } else {
            None
        },
        None => None,
    }
}

/// Goes on reading a disjunction of which `p` has been read.
pub open spec fn disjunction_tail(t: Seq<TokenView>, i: int, p: PredicateView) -> Parse
    decreases t.len() - i, 5int,
{
    if 0 <= i < t.len() && t[i] == TokenView::Or {
        match conjunction(t, i + 1) {
            Some((q, j)) => if i < j <= t.len() {
                disjunction_tail(t, j, PredicateView::Or(Box::new(p), Box::new(q)))
            } else {
                None
            },
            None => None,
        }
    } else {
        Some((p, i))
    }
}

/// The predicate that a text denotes: `!` binds before `&&`, and `&&` before `||`.
pub open spec fn predicate_of(source: Seq<char>) -> Option<PredicateView> {
    match lexed(source) {
        Some(t) => match disjunction(t, 0) {
            Some((p, j)) => if j == t.len() {
                Some(p)
            } else {
                None
            },
            None => None,
        },
        None => None,
    }
}

fn name_char(c: char) -> (r: bool)
    ensures
        r == is_name_char(c),
{
    ('a' <= c && c <= 'z') || ('A' <= c && c <= 'Z') || ('0' <= c && c <= '9') || c == '_' || c == '-'
}

fn read_sign(chars: &Vec<char>, i: usize) -> (r: Option<(Token, usize)>)
    requires
        i < chars.len(),
    ensures
        r is Some == sign(chars@.skip(i as int)) is Some,
        r matches Some((token, n)) ==> sign(chars@.skip(i as int)) == Some((token@, n as nat)) && i + n
            <= chars.len() && n > 0,
{
    let ghost s = chars@.skip(i as int);
    let c: char = chars[i];
    assert(s[0] == c);
    if i + 1 < chars.len() {
        let d: char = chars[i + 1];
        assert(s[1] == d);
        if c == '&' && d == '&' {
            return Some((Token::And, 2));
        }
        if c == '|' && d == '|' {
            return Some((Token::Or, 2));
        }
        if c == '=' && d == '=' {
            return Some((Token::Equal, 2));
        }
        if c == '!' && d == '=' {
            return Some((Token::NotEqual, 2));
        }
    }
    if c == '!' {
        Some((Token::Not, 1))
    } else if c == '(' {
        Some((Token::Open, 1))
    } else if c == ')' {
        Some((Token::Close, 1))
    } else {
        None
    }
}

/// What the tokens mean.
pub open spec fn meanings(tokens: Seq<Token>) -> Seq<TokenView> {
    tokens.map_values(|t: Token| t@)
}

fn lex(chars: &Vec<char>) -> (r: Option<Vec<Token>>)
    ensures
        r is Some == lexed(chars@) is Some,
        r matches Some(tokens) ==> lexed(chars@) == Some(meanings(tokens@)),
{
    let mut tokens: Vec<Token> = Vec::new();
    let mut i: usize = 0;
    proof {
        assert(chars@.skip(0) =~= chars@);
        assert(meanings(tokens@) =~= Seq::empty());
        match lexed(chars@) {
            Some(rest) => assert(Seq::<TokenView>::empty() + rest =~= rest),
            None => {},
        }
    }
    while i < chars.len()
        invariant
            i <= chars.len(),
            lexed(chars@) == prepend(meanings(tokens@), lexed(chars@.skip(i as int))),
        decreases chars.len() - i,
    {
        let ghost s = chars@.skip(i as int);
        let ghost before = meanings(tokens@);
        let c: char = chars[i];
        assert(s[0] == c);
        if crate::text::space(c) {
            assert(s.skip(1) =~= chars@.skip(i + 1));
            i += 1;
        } else if name_char(c) {
            let start: usize = i;
            while i < chars.len() && name_char(chars[i])
                invariant
                    start <= i <= chars.len(),
                    forall|k: int| start <= k < i ==> is_name_char(#[trigger] chars@[k]),
                decreases chars.len() - i,
            {
                i += 1;
            }
            let name: String = text_of(chars, start, i);
            tokens.push(Token::Identifier(name));
            proof {
                let n = i - start;
                lemma_name_len_is(s, n);
                assert(n > 0) by {
                    name_is_longest(s);
                }
                assert(s.take(n) =~= name@);
                assert(s.skip(n) =~= chars@.skip(i as int));
                let word = seq![TokenView::Identifier(name@)];
                assert(meanings(tokens@) =~= before + word);
                match lexed(s.skip(n)) {
                    Some(rest) => assert(before + (word + rest) =~= (before + word) + rest),
                    None => {},
                }
            }
        } else {
            match read_sign(chars, i) {
                Some((token, n)) => {
                    let ghost word = seq![token@];
                    tokens.push(token);
                    proof {
                        assert(s.skip(n as int) =~= chars@.skip(i + n));
                        assert(meanings(tokens@) =~= before + word);
                        match lexed(s.skip(n as int)) {
                            Some(rest) => assert(before + (word + rest) =~= (before + word) + rest),
                            None => {},
                        }
                    }
                    i += n;
                },
                None => {
                    return None;
                },
            }
        }
    }
    proof {
        assert(chars@.skip(i as int) =~= Seq::empty());
        assert(meanings(tokens@) + Seq::empty() =~= meanings(tokens@));
    }
    Some(tokens)
}

spec fn agrees(r: Option<(ContextPredicate, usize)>, parse: Parse, i: int, len: int) -> bool {
    &&& r is Some == parse is Some
    &&& r matches Some((p, j)) ==> parse == Some((p.model(), j as int)) && i < j <= len
}

fn read_operand(tokens: &Vec<Token>, i: usize) -> (r: Option<(ContextPredicate, usize)>)
    ensures
        agrees(r, operand(meanings(tokens@), i as int), i as int, tokens@.len() as int),
    decreases tokens.len() - i, 1int,
{
    let ghost t = meanings(tokens@);
    if i >= tokens.len() {
        return None;
    }
    assert(t[i as int] == tokens@[i as int]@);
    match &tokens[i] {
        Token::Not => match read_operand(tokens, i + 1) {
            Some((p, j)) => Some((ContextPredicate::Not(Box::new(p)), j)),
            None => None,
        },
        Token::Open => match read_disjunction(tokens, i + 1) {
            Some((p, j)) => {
                if j < tokens.len() {
                    assert(t[j as int] == tokens@[j as int]@);
                    match &tokens[j] {
                        Token::Close => Some((p, j + 1)),
                        _ => None,
                    }
                } else {
                    None
                }
            },
            None => None,
        },
        Token::Identifier(name) => {
            if i + 1 < tokens.len() {
                assert(t[i + 1] == tokens@[i + 1]@);
                let equal: bool = match &tokens[i + 1] {
                    Token::Equal => true,
                    _ => false,
                };
                let unequal: bool = match &tokens[i + 1] {
                    Token::NotEqual => true,
                    _ => false,
                };
                if equal || unequal {
                    if i + 2 < tokens.len() {
                        assert(t[i + 2] == tokens@[i + 2]@);
                        match &tokens[i + 2] {
                            Token::Identifier(value) => {
                                if equal {
                                    return Some(
                                        (ContextPredicate::Equal(name.clone(), value.clone()), i + 3),
                                    );
                                } else {
                                    return Some(
                                        (
                                            ContextPredicate::NotEqual(name.clone(), value.clone()),
                                            i + 3,
                                        ),
                                    );
                                }
                            },
                            _ => {
                                return None;
                            },
                        }
                    }
                    return None;
                }
            }
            Some((ContextPredicate::Identifier(name.clone()), i + 1))
        },
        _ => None,
    }
}

fn read_conjunction(tokens: &Vec<Token>, i: usize) -> (r: Option<(ContextPredicate, usize)>)
    ensures
        agrees(r, conjunction(meanings(tokens@), i as int), i as int, tokens@.len() as int),
    decreases tokens.len() - i, 2int,
{
    let ghost t = meanings(tokens@);
    let (mut p, mut j) = match read_operand(tokens, i) {
        Some(first) => first,
        None => {
            return None;
        },
    };
    while j < tokens.len()
        invariant
            t == meanings(tokens@),
            i < j <= tokens.len(),
            conjunction(t, i as int) == conjunction_tail(t, j as int, p.model()),
        ensures
            i < j <= tokens.len(),
            conjunction(t, i as int) == Some((p.model(), j as int)),
        decreases tokens.len() - j,
    {
        assert(t[j as int] == tokens@[j as int]@);
        match &tokens[j] {
            Token::And => {},
            _ => {
                break;
            },
        }
        match read_operand(tokens, j + 1) {
            Some((q, k)) => {
                p = ContextPredicate::And(Box::new(p), Box::new(q));
                j = k;
            },
            None => {
                return None;
            },
        }
    }
    Some((p, j))
}

fn read_disjunction(tokens: &Vec<Token>, i: usize) -> (r: Option<(ContextPredicate, usize)>)
    ensures
        agrees(r, disjunction(meanings(tokens@), i as int), i as int, tokens@.len() as int),
    decreases tokens.len() - i, 4int,
{
    let ghost t = meanings(tokens@);
    let (mut p, mut j) = match read_conjunction(tokens, i) {
        Some(first) => first,
        None => {
            return None;
        },
    };
    while j < tokens.len()
        invariant
            t == meanings(tokens@),
            i < j <= tokens.len(),
            disjunction(t, i as int) == disjunction_tail(t, j as int, p.model()),
        ensures
            i < j <= tokens.len(),
            disjunction(t, i as int) == Some((p.model(), j as int)),
        decreases tokens.len() - j,
    {
        assert(t[j as int] == tokens@[j as int]@);
        match &tokens[j] {
            Token::Or => {},
            _ => {
                break;
            },
        }
        match read_conjunction(tokens, j + 1) {
            Some((q, k)) => {
                p = ContextPredicate::Or(Box::new(p), Box::new(q));
                j = k;
            },
            None => {
                return None;
            },
        }
    }
    Some((p, j))
}

/// A text that denotes no predicate.
#[derive(Debug, PartialEq, Eq)]
pub struct InvalidPredicate;

impl InvalidPredicate {
    /// The sentence shown to the user.
    pub fn message(&self) -> (r: String)
        ensures
            r@ == "error parsing context predicate"@,
    {
        String::from_str("error parsing context predicate")
    }
}

impl ContextPredicate {
    /// Reads a predicate such as `a && (b == c || !d)`.
    pub fn parse(source: &str) -> (r: Result<ContextPredicate, InvalidPredicate>)
        ensures
            r is Ok == predicate_of(source@) is Some,
            r matches Ok(p) ==> predicate_of(source@) == Some(p.model()),
    {
        let chars: Vec<char> = chars_of(source);
        match lex(&chars) {
            Some(tokens) => match read_disjunction(&tokens, 0) {
                Some((p, j)) => if j == tokens.len() {
                    Ok(p)
                } else {
                    Err(InvalidPredicate)
                },
                None => Err(InvalidPredicate),
            },
            None => Err(InvalidPredicate),
        }
    }
}

/// Whether a text can stand as an identifier.
pub open spec fn is_name(s: Seq<char>) -> bool {
    s.len() > 0 && forall|i: int| 0 <= i < s.len() ==> is_name_char(#[trigger] s[i])
}

impl PredicateView {
    /// Whether every name and value in the predicate can be written as an identifier.
    pub open spec fn well_named(self) -> bool
        decreases self,
    {
        match self {
            PredicateView::Identifier(a) => is_name(a),
            PredicateView::Equal(a, b) => is_name(a) && is_name(b),
            PredicateView::NotEqual(a, b) => is_name(a) && is_name(b),
            PredicateView::Not(p) => p.well_named(),
            PredicateView::And(p, q) => p.well_named() && q.well_named(),
            PredicateView::Or(p, q) => p.well_named() && q.well_named(),
        }
    }

    /// The predicate written out, with parentheses around every operand of a connective.
    pub open spec fn written(self) -> Seq<char>
        decreases self,
    {
        match self {
            PredicateView::Identifier(a) => a,
            PredicateView::Equal(a, b) => a + (seq!['=', '='] + b),
            PredicateView::NotEqual(a, b) => a + (seq!['!', '='] + b),
            PredicateView::Not(p) => seq!['!'] + (seq!['('] + (p.written() + seq![')'])),
            PredicateView::And(p, q) => seq!['('] + (p.written() + (seq![')'] + (seq!['&', '&'] + (
            seq!['('] + (q.written() + seq![')']))))),
            PredicateView::Or(p, q) => seq!['('] + (p.written() + (seq![')'] + (seq!['|', '|'] + (
            seq!['('] + (q.written() + seq![')']))))),
        }
    }

    /// The tokens of the written predicate.
    pub open spec fn tokens(self) -> Seq<TokenView>
        decreases self,
    {
        match self {
            PredicateView::Identifier(a) => seq![TokenView::Identifier(a)],
            PredicateView::Equal(a, b) => seq![
                TokenView::Identifier(a),
                TokenView::Equal,
                TokenView::Identifier(b),
            ],
            PredicateView::NotEqual(a, b) => seq![
                TokenView::Identifier(a),
                TokenView::NotEqual,
                TokenView::Identifier(b),
            ],
            PredicateView::Not(p) => seq![TokenView::Not, TokenView::Open] + p.tokens() + seq![
                TokenView::Close,
            ],
            PredicateView::And(p, q) => seq![TokenView::Open] + p.tokens() + seq![
                TokenView::Close,
                TokenView::And,
                TokenView::Open,
            ] + q.tokens() + seq![TokenView::Close],
            PredicateView::Or(p, q) => seq![TokenView::Open] + p.tokens() + seq![
                TokenView::Close,
                TokenView::Or,
                TokenView::Open,
            ] + q.tokens() + seq![TokenView::Close],
        }
    }
}

proof fn lemma_lex_name(a: Seq<char>, rest: Seq<char>)
    requires
        is_name(a),
        rest.len() == 0 || !is_name_char(rest[0]),
    ensures
        lexed(a + rest) == prepend(seq![TokenView::Identifier(a)], lexed(rest)),
{
    let s = a + rest;
    let n = a.len() as int;
    assert(is_name_char(s[0])) by {
        assert(is_name_char(a[0]));
    }
    assert forall|i: int| 0 <= i < n implies is_name_char(#[trigger] s[i]) by {
        assert(is_name_char(a[i]));
    }
    lemma_name_len_is(s, n);
    assert(s.take(n) =~= a);
    assert(s.skip(n) =~= rest);
}

proof fn lemma_lex_sign(mark: Seq<char>, token: TokenView, rest: Seq<char>)
    requires
        mark.len() > 0,
        !crate::text::is_space(mark[0]),
        !is_name_char(mark[0]),
        sign(mark + rest) == Some((token, mark.len())),
    ensures
        lexed(mark + rest) == prepend(seq![token], lexed(rest)),
{
    assert((mark + rest).skip(mark.len() as int) =~= rest);
}

proof fn lemma_prepend_twice(a: Seq<TokenView>, b: Seq<TokenView>, rest: Option<Seq<TokenView>>)
    ensures
        prepend(a, prepend(b, rest)) == prepend(a + b, rest),
{
    match rest {
        Some(r) => assert(a + (b + r) =~= (a + b) + r),
        None => {},
    }
}

proof fn lemma_lex_group(p: PredicateView, rest: Seq<char>)
    requires
        p.well_named(),
        lexed(p.written() + (seq![')'] + rest)) == prepend(
            p.tokens(),
            lexed(seq![')'] + rest),
        ),
    ensures
        lexed(seq!['('] + (p.written() + (seq![')'] + rest))) == prepend(
            seq![TokenView::Open] + p.tokens() + seq![TokenView::Close],
            lexed(rest),
        ),
{
    lemma_lex_sign(seq![')'], TokenView::Close, rest);
    lemma_lex_sign(seq!['('], TokenView::Open, p.written() + (seq![')'] + rest));
    lemma_prepend_twice(p.tokens(), seq![TokenView::Close], lexed(rest));
    lemma_prepend_twice(
        seq![TokenView::Open],
        p.tokens() + seq![TokenView::Close],
        lexed(rest),
    );
    assert(seq![TokenView::Open] + (p.tokens() + seq![TokenView::Close]) =~= seq![TokenView::Open]
        + p.tokens() + seq![TokenView::Close]);
}

spec fn joined_tokens(q: PredicateView, r: PredicateView, joint: TokenView) -> Seq<TokenView> {
    (seq![TokenView::Open] + q.tokens() + seq![TokenView::Close]) + (seq![joint] + (
    seq![TokenView::Open] + r.tokens() + seq![TokenView::Close]))
}

proof fn lemma_lex_joined(
    q: PredicateView,
    r: PredicateView,
    mark: Seq<char>,
    joint: TokenView,
    rest: Seq<char>,
)
    requires
        q.well_named(),
        r.well_named(),
        mark.len() > 0,
        !crate::text::is_space(mark[0]),
        !is_name_char(mark[0]),
        forall|x: Seq<char>| #[trigger] sign(mark + x) == Some((joint, mark.len())),
        lexed(r.written() + (seq![')'] + rest)) == prepend(
            r.tokens(),
            lexed(seq![')'] + rest),
        ),
        ({
            let tail = mark + (seq!['('] + (r.written() + (seq![')'] + rest)));
            lexed(q.written() + (seq![')'] + tail)) == prepend(
                q.tokens(),
                lexed(seq![')'] + tail),
            )
        }),
    ensures
        ({
            let tail = mark + (seq!['('] + (r.written() + (seq![')'] + rest)));
            lexed(seq!['('] + (q.written() + (seq![')'] + tail))) == prepend(
                joined_tokens(q, r, joint),
                lexed(rest),
            )
        }),
{
    let right = seq!['('] + (r.written() + (seq![')'] + rest));
    lemma_lex_group(r, rest);
    lemma_lex_sign(mark, joint, right);
    lemma_lex_group(q, mark + right);
    let lt = seq![TokenView::Open] + q.tokens() + seq![TokenView::Close];
    let rt = seq![TokenView::Open] + r.tokens() + seq![TokenView::Close];
    lemma_prepend_twice(seq![joint], rt, lexed(rest));
    lemma_prepend_twice(lt, seq![joint] + rt, lexed(rest));
}

proof fn lemma_lex_comparison(
    a: Seq<char>,
    b: Seq<char>,
    mark: Seq<char>,
    joint: TokenView,
    rest: Seq<char>,
)
    requires
        is_name(a),
        is_name(b),
        rest.len() == 0 || !is_name_char(rest[0]),
        mark.len() > 0,
        !crate::text::is_space(mark[0]),
        !is_name_char(mark[0]),
        sign(mark + (b + rest)) == Some((joint, mark.len())),
    ensures
        lexed((a + (mark + b)) + rest) == prepend(
            seq![TokenView::Identifier(a), joint, TokenView::Identifier(b)],
            lexed(rest),
        ),
{
    lemma_lex_name(b, rest);
    lemma_lex_sign(mark, joint, b + rest);
    lemma_lex_name(a, mark + (b + rest));
    assert((a + (mark + b)) + rest =~= a + (mark + (b + rest)));
    let ident = seq![TokenView::Identifier(b)];
    lemma_prepend_twice(seq![joint], ident, lexed(rest));
    lemma_prepend_twice(seq![TokenView::Identifier(a)], seq![joint] + ident, lexed(rest));
    assert(seq![TokenView::Identifier(a), joint, TokenView::Identifier(b)]
        =~= seq![TokenView::Identifier(a)] + (seq![joint] + ident));
}

proof fn lemma_regroup(w: Seq<char>, mark: Seq<char>, v: Seq<char>, rest: Seq<char>)
    ensures
        (seq!['('] + (w + (seq![')'] + (mark + (seq!['('] + (v + seq![')'])))))) + rest == seq!['(']
            + (w + (seq![')'] + (mark + (seq!['('] + (v + (seq![')'] + rest)))))),
{
    assert((seq!['('] + (w + (seq![')'] + (mark + (seq!['('] + (v + seq![')'])))))) + rest
        =~= seq!['('] + (w + (seq![')'] + (mark + (seq!['('] + (v + (seq![')'] + rest)))))));
}

proof fn lemma_lex_not(q: PredicateView, rest: Seq<char>)
    requires
        q.well_named(),
        lexed(q.written() + (seq![')'] + rest)) == prepend(
            q.tokens(),
            lexed(seq![')'] + rest),
        ),
    ensures
        lexed((seq!['!'] + (seq!['('] + (q.written() + seq![')']))) + rest) == prepend(
            seq![TokenView::Not, TokenView::Open] + q.tokens() + seq![TokenView::Close],
            lexed(rest),
        ),
{
    lemma_lex_group(q, rest);
    let group = seq!['('] + (q.written() + (seq![')'] + rest));
    lemma_lex_sign(seq!['!'], TokenView::Not, group);
    assert((seq!['!'] + (seq!['('] + (q.written() + seq![')']))) + rest =~= seq!['!'] + group);
    let tokens = seq![TokenView::Open] + q.tokens() + seq![TokenView::Close];
    lemma_prepend_twice(seq![TokenView::Not], tokens, lexed(rest));
    assert(seq![TokenView::Not, TokenView::Open] + q.tokens() + seq![TokenView::Close]
        =~= seq![TokenView::Not] + tokens);
}

proof fn lemma_lex_written(p: PredicateView, rest: Seq<char>)
    requires
        p.well_named(),
        rest.len() == 0 || !is_name_char(rest[0]),
    ensures
        lexed(p.written() + rest) == prepend(p.tokens(), lexed(rest)),
    decreases p,
{
    match p {
        PredicateView::Identifier(a) => lemma_lex_name(a, rest),
        PredicateView::Equal(a, b) => lemma_lex_comparison(
            a,
            b,
            seq!['=', '='],
            TokenView::Equal,
            rest,
        ),
        PredicateView::NotEqual(a, b) => lemma_lex_comparison(
            a,
            b,
            seq!['!', '='],
            TokenView::NotEqual,
            rest,
        ),
        PredicateView::Not(q) => {
            lemma_lex_written(*q, seq![')'] + rest);
            lemma_lex_not(*q, rest);
        },
        PredicateView::And(q, r) => {
            let mark = seq!['&', '&'];
            let tail = mark + (seq!['('] + (r.written() + (seq![')'] + rest)));
            lemma_lex_written(*r, seq![')'] + rest);
            lemma_lex_written(*q, seq![')'] + tail);
            lemma_lex_joined(*q, *r, mark, TokenView::And, rest);
            lemma_regroup(q.written(), mark, r.written(), rest);
            lemma_joined_tokens(*q, *r, TokenView::And);
        },
        PredicateView::Or(q, r) => {
            let mark = seq!['|', '|'];
            let tail = mark + (seq!['('] + (r.written() + (seq![')'] + rest)));
            lemma_lex_written(*r, seq![')'] + rest);
            lemma_lex_written(*q, seq![')'] + tail);
            lemma_lex_joined(*q, *r, mark, TokenView::Or, rest);
            lemma_regroup(q.written(), mark, r.written(), rest);
            lemma_joined_tokens(*q, *r, TokenView::Or);
        },
    }
}

proof fn lemma_joined_tokens(q: PredicateView, r: PredicateView, joint: TokenView)
    ensures
        joined_tokens(q, r, joint) == seq![TokenView::Open] + q.tokens() + seq![
            TokenView::Close,
            joint,
            TokenView::Open,
        ] + r.tokens() + seq![TokenView::Close],
{
    assert(joined_tokens(q, r, joint) =~= seq![TokenView::Open] + q.tokens() + seq![
        TokenView::Close,
        joint,
        TokenView::Open,
    ] + r.tokens() + seq![TokenView::Close]);
}

spec fn tokens_at(t: Seq<TokenView>, i: int, p: PredicateView) -> bool {
    let n = p.tokens().len();
    &&& 0 <= i
    &&& i + n <= t.len()
    &&& forall|k: int| 0 <= k < n ==> t[i + k] == #[trigger] p.tokens()[k]
}

spec fn ends_at(t: Seq<TokenView>, e: int) -> bool {
    e == t.len() || (0 <= e < t.len() && t[e] == TokenView::Close)
}

proof fn lemma_parse_group(t: Seq<TokenView>, i: int, p: PredicateView, j: int)
    requires
        0 <= i < j < t.len(),
        t[i] == TokenView::Open,
        disjunction(t, i + 1) == Some((p, j)),
        t[j] == TokenView::Close,
    ensures
        operand(t, i) == Some((p, j + 1)),
{
}

proof fn lemma_parse_alone(t: Seq<TokenView>, i: int, p: PredicateView, e: int)
    requires
        operand(t, i) == Some((p, e)),
        0 <= i < e,
        ends_at(t, e),
    ensures
        disjunction(t, i) == Some((p, e)),
{
    assert(conjunction_tail(t, e, p) == Some((p, e)));
    assert(disjunction_tail(t, e, p) == Some((p, e)));
}

proof fn lemma_parse_and(
    t: Seq<TokenView>,
    i: int,
    q: PredicateView,
    m: int,
    r: PredicateView,
    e: int,
)
    requires
        operand(t, i) == Some((q, m)),
        0 <= i < m < e,
        m < t.len(),
        t[m] == TokenView::And,
        operand(t, m + 1) == Some((r, e)),
        ends_at(t, e),
    ensures
        disjunction(t, i) == Some((PredicateView::And(Box::new(q), Box::new(r)), e)),
{
    let p = PredicateView::And(Box::new(q), Box::new(r));
    assert(conjunction_tail(t, e, p) == Some((p, e)));
    assert(conjunction_tail(t, m, q) == Some((p, e)));
    assert(conjunction(t, i) == Some((p, e)));
    assert(disjunction_tail(t, e, p) == Some((p, e)));
}

proof fn lemma_parse_or(
    t: Seq<TokenView>,
    i: int,
    q: PredicateView,
    m: int,
    r: PredicateView,
    e: int,
)
    requires
        operand(t, i) == Some((q, m)),
        0 <= i < m < m + 1 < e,
        m < t.len(),
        t[m] == TokenView::Or,
        operand(t, m + 1) == Some((r, e)),
        ends_at(t, e),
    ensures
        disjunction(t, i) == Some((PredicateView::Or(Box::new(q), Box::new(r)), e)),
{
    let p = PredicateView::Or(Box::new(q), Box::new(r));
    assert(conjunction_tail(t, m, q) == Some((q, m)));
    assert(conjunction(t, i) == Some((q, m)));
    assert(conjunction_tail(t, e, r) == Some((r, e)));
    assert(conjunction(t, m + 1) == Some((r, e)));
    assert(disjunction_tail(t, e, p) == Some((p, e)));
    assert(disjunction_tail(t, m, q) == Some((p, e)));
}

proof fn lemma_parse_tokens(t: Seq<TokenView>, i: int, p: PredicateView)
    requires
        tokens_at(t, i, p),
        ends_at(t, i + p.tokens().len()),
    ensures
        p.tokens().len() > 0,
        disjunction(t, i) == Some((p, i + p.tokens().len())),
    decreases p,
{
    let e = i + p.tokens().len();
    match p {
        PredicateView::Identifier(a) => {
            assert(t[i + 0] == p.tokens()[0]);
            lemma_parse_alone(t, i, p, e);
        },
        PredicateView::Equal(a, b) => {
            assert(t[i + 0] == p.tokens()[0]);
            assert(t[i + 1] == p.tokens()[1]);
            assert(t[i + 2] == p.tokens()[2]);
            lemma_parse_alone(t, i, p, e);
        },
        PredicateView::NotEqual(a, b) => {
            assert(t[i + 0] == p.tokens()[0]);
            assert(t[i + 1] == p.tokens()[1]);
            assert(t[i + 2] == p.tokens()[2]);
            lemma_parse_alone(t, i, p, e);
        },
        PredicateView::Not(q) => {
            let m = q.tokens().len() as int;
            lemma_not_tokens(t, i, *q);
            lemma_parse_tokens(t, i + 2, *q);
            lemma_parse_group(t, i + 1, *q, i + 2 + m);
            lemma_parse_alone(t, i, p, e);
        },
        PredicateView::And(q, r) => {
            let m = q.tokens().len() as int;
            let k = r.tokens().len() as int;
            lemma_parse_operands(t, i, p, *q, *r, TokenView::And);
            lemma_parse_tokens(t, i + 1, *q);
            lemma_parse_tokens(t, i + 4 + m, *r);
            lemma_parse_group(t, i, *q, i + 1 + m);
            lemma_parse_group(t, i + 3 + m, *r, i + 4 + m + k);
            lemma_parse_and(t, i, *q, i + 2 + m, *r, e);
        },
        PredicateView::Or(q, r) => {
            let m = q.tokens().len() as int;
            let k = r.tokens().len() as int;
            lemma_parse_operands(t, i, p, *q, *r, TokenView::Or);
            lemma_parse_tokens(t, i + 1, *q);
            lemma_parse_tokens(t, i + 4 + m, *r);
            lemma_parse_group(t, i, *q, i + 1 + m);
            lemma_parse_group(t, i + 3 + m, *r, i + 4 + m + k);
            lemma_parse_or(t, i, *q, i + 2 + m, *r, e);
        },
    }
}

proof fn lemma_not_tokens(t: Seq<TokenView>, i: int, q: PredicateView)
    requires
        tokens_at(t, i, PredicateView::Not(Box::new(q))),
    ensures
        t[i] == TokenView::Not,
        t[i + 1] == TokenView::Open,
        tokens_at(t, i + 2, q),
        t[i + 2 + q.tokens().len()] == TokenView::Close,
        PredicateView::Not(Box::new(q)).tokens().len() == q.tokens().len() + 3,
{
    let whole = PredicateView::Not(Box::new(q)).tokens();
    let m = q.tokens().len() as int;
    assert(t[i + 0] == whole[0]);
    assert(t[i + 1] == whole[1]);
    assert(t[i + (m + 2)] == whole[m + 2]);
    assert forall|k: int| 0 <= k < m implies t[i + 2 + k] == #[trigger] q.tokens()[k] by {
        assert(t[i + (k + 2)] == whole[k + 2]);
    }
}

proof fn lemma_parse_operands(
    t: Seq<TokenView>,
    i: int,
    p: PredicateView,
    q: PredicateView,
    r: PredicateView,
    joint: TokenView,
)
    requires
        tokens_at(t, i, p),
        p.tokens() == seq![TokenView::Open] + q.tokens() + seq![
            TokenView::Close,
            joint,
            TokenView::Open,
        ] + r.tokens() + seq![TokenView::Close],
    ensures
        t[i] == TokenView::Open,
        tokens_at(t, i + 1, q),
        t[i + 1 + q.tokens().len()] == TokenView::Close,
        t[i + 2 + q.tokens().len()] == joint,
        t[i + 3 + q.tokens().len()] == TokenView::Open,
        tokens_at(t, i + 4 + q.tokens().len(), r),
        t[i + 4 + q.tokens().len() + r.tokens().len()] == TokenView::Close,
        p.tokens().len() == q.tokens().len() + r.tokens().len() + 5,
{
    let m = q.tokens().len() as int;
    let k = r.tokens().len() as int;
    assert(t[i + 0] == p.tokens()[0]);
    assert(t[i + (m + 1)] == p.tokens()[m + 1]);
    assert(t[i + (m + 2)] == p.tokens()[m + 2]);
    assert(t[i + (m + 3)] == p.tokens()[m + 3]);
    assert(t[i + (m + k + 4)] == p.tokens()[m + k + 4]);
    assert forall|x: int| 0 <= x < m implies t[i + 1 + x] == #[trigger] q.tokens()[x] by {
        assert(t[i + (x + 1)] == p.tokens()[x + 1]);
    }
    assert forall|x: int| 0 <= x < k implies t[i + 4 + m + x] == #[trigger] r.tokens()[x] by {
        assert(t[i + (x + m + 4)] == p.tokens()[x + m + 4]);
    }
}

/// Reading a written predicate gives the predicate back.
pub proof fn written_predicate_reads_back(p: PredicateView)
    requires
        p.well_named(),
    ensures
        predicate_of(p.written()) == Some(p),
{
    lemma_lex_written(p, Seq::empty());
    assert(p.written() + Seq::empty() =~= p.written());
    assert(p.tokens() + Seq::empty() =~= p.tokens());
    let t = p.tokens();
    assert(tokens_at(t, 0, p));
    lemma_parse_tokens(t, 0, p);
}

/// White space in front makes no difference to the words of a predicate.
pub proof fn space_is_passed_over(c: char, s: Seq<char>)
    requires
        crate::text::is_space(c),
    ensures
        lexed(seq![c] + s) == lexed(s),
{
    assert((seq![c] + s).skip(1) =~= s);
}

/// A name is one word, as long as characters of names go on.
pub proof fn name_is_one_word(name: Seq<char>, s: Seq<char>)
    requires
        is_name(name),
        s.len() > 0 ==> !is_name_char(s[0]),
    ensures
        lexed(name + s) == match lexed(s) {
            Some(tokens) => Some(seq![TokenView::Identifier(name)] + tokens),
            None => None,
        },
{
    let whole = name + s;
    assert(is_name_char(name[0]));
    crate::text::space_is_what_cannot_be_seen(whole[0]);
    assert forall|i: int| 0 <= i < name.len() implies is_name_char(#[trigger] whole[i]) by {
        assert(whole[i] == name[i]);
    }
    if s.len() > 0 {
        assert(whole[name.len() as int] == s[0]);
    }
    lemma_name_len_is(whole, name.len() as int);
    assert(whole.take(name.len() as int) =~= name);
    assert(whole.skip(name.len() as int) =~= s);
}

/// The signs of the language are words of their own: two ampersands, two bars, two equality signs, an
/// exclamation mark with and without an equality sign, and parentheses.
pub proof fn signs_are_words(s: Seq<char>)
    ensures
        lexed(seq!['&', '&'] + s) == prepend(seq![TokenView::And], lexed(s)),
        lexed(seq!['|', '|'] + s) == prepend(seq![TokenView::Or], lexed(s)),
        lexed(seq!['=', '='] + s) == prepend(seq![TokenView::Equal], lexed(s)),
        lexed(seq!['!', '='] + s) == prepend(seq![TokenView::NotEqual], lexed(s)),
        lexed(seq!['('] + s) == prepend(seq![TokenView::Open], lexed(s)),
        lexed(seq![')'] + s) == prepend(seq![TokenView::Close], lexed(s)),
        s.len() == 0 || s[0] != '=' ==> lexed(seq!['!'] + s) == prepend(
            seq![TokenView::Not],
            lexed(s),
        ),
{
    assert((seq!['&', '&'] + s).skip(2) =~= s);
    assert((seq!['|', '|'] + s).skip(2) =~= s);
    assert((seq!['=', '='] + s).skip(2) =~= s);
    assert((seq!['!', '='] + s).skip(2) =~= s);
    assert((seq!['('] + s).skip(1) =~= s);
    assert((seq![')'] + s).skip(1) =~= s);
    assert((seq!['!'] + s).skip(1) =~= s);
}

/// An exclamation mark negates the operand behind it and nothing further; parentheses group; a name is
/// compared with the name behind the sign of a comparison, and stands for itself without one.
pub proof fn operands_are_read(t: Seq<TokenView>, i: int, p: PredicateView, j: int)
    requires
        0 <= i < t.len(),
    ensures
        t[i] is Not && operand(t, i + 1) == Some((p, j)) ==> operand(t, i) == Some(
            (PredicateView::Not(Box::new(p)), j),
        ),
        t[i] is Open && disjunction(t, i + 1) == Some((p, j)) && i < j < t.len() && t[j] is Close
            ==> operand(t, i) == Some((p, j + 1)),
        t[i] is Open && disjunction(t, i + 1) == Some((p, j)) && !(i < j < t.len() && t[j] is Close)
            ==> operand(t, i) is None,
        t[i] matches TokenView::Identifier(name) ==> {
            &&& i + 2 < t.len() && t[i + 1] is Equal && t[i + 2] is Identifier ==> operand(t, i) == Some(
                (PredicateView::Equal(name, t[i + 2]->Identifier_0), i + 3),
            )
            &&& i + 2 < t.len() && t[i + 1] is NotEqual && t[i + 2] is Identifier ==> operand(t, i)
                == Some((PredicateView::NotEqual(name, t[i + 2]->Identifier_0), i + 3))
            &&& i + 1 == t.len() || !(t[i + 1] is Equal || t[i + 1] is NotEqual) ==> operand(t, i)
                == Some((PredicateView::Identifier(name), i + 1))
        },
        t[i] is And || t[i] is Or || t[i] is Equal || t[i] is NotEqual || t[i] is Close ==> operand(t, i)
            is None,
{
}

/// A conjunction joins operands, and a disjunction joins conjunctions: two bars never come between the
/// operands of two ampersands. What ends at a word that does not join is what was read so far.
pub proof fn conjunctions_bind_first(
    t: Seq<TokenView>,
    i: int,
    p: PredicateView,
    j: int,
    q: PredicateView,
    k: int,
)
    requires
        0 <= i < j <= t.len(),
    ensures
        operand(t, i) == Some((p, j)) && (j == t.len() || !(t[j] is And)) ==> conjunction(t, i) == Some(
            (p, j),
        ),
        operand(t, i) == Some((p, j)) && j < k <= t.len() && t[j] is And && operand(t, j + 1) == Some(
            (q, k),
        ) && (k == t.len() || !(t[k] is And)) ==> conjunction(t, i) == Some(
            (PredicateView::And(Box::new(p), Box::new(q)), k),
        ),
        conjunction(t, i) == Some((p, j)) && (j == t.len() || !(t[j] is Or)) ==> disjunction(t, i)
            == Some((p, j)),
        conjunction(t, i) == Some((p, j)) && j < k <= t.len() && t[j] is Or && conjunction(t, j + 1)
            == Some((q, k)) && (k == t.len() || !(t[k] is Or)) ==> disjunction(t, i) == Some(
            (PredicateView::Or(Box::new(p), Box::new(q)), k),
        ),
        operand(t, i) is None ==> conjunction(t, i) is None && disjunction(t, i) is None,
{
    if operand(t, i) == Some((p, j)) {
        assert(conjunction(t, i) == conjunction_tail(t, j, p));
        if j < k <= t.len() && t[j] is And && operand(t, j + 1) == Some((q, k)) {
            let both = PredicateView::And(Box::new(p), Box::new(q));
            assert(conjunction_tail(t, j, p) == conjunction_tail(t, k, both));
        }
    }
    if conjunction(t, i) == Some((p, j)) {
        assert(disjunction(t, i) == disjunction_tail(t, j, p));
        if j < k <= t.len() && t[j] is Or && conjunction(t, j + 1) == Some((q, k)) {
            let one = PredicateView::Or(Box::new(p), Box::new(q));
            assert(disjunction_tail(t, j, p) == disjunction_tail(t, k, one));
        }
    }
}

/// Among equals the left comes first: what has been joined so far is the left operand of what follows.
pub proof fn connectives_group_from_the_left(
    t: Seq<TokenView>,
    i: int,
    p: PredicateView,
    q: PredicateView,
    j: int,
)
    requires
        0 <= i < j <= t.len(),
    ensures
        i < t.len() && t[i] is And && operand(t, i + 1) == Some((q, j)) ==> conjunction_tail(t, i, p)
            == conjunction_tail(t, j, PredicateView::And(Box::new(p), Box::new(q))),
        i < t.len() && t[i] is Or && conjunction(t, i + 1) == Some((q, j)) ==> disjunction_tail(t, i, p)
            == disjunction_tail(t, j, PredicateView::Or(Box::new(p), Box::new(q))),
        !(t[i] is And) ==> conjunction_tail(t, i, p) == Some((p, i)),
        !(t[i] is Or) ==> disjunction_tail(t, i, p) == Some((p, i)),
{
}

/// A predicate is read to its end: what is left over behind it makes it unreadable.
pub proof fn nothing_is_left_over(s: Seq<char>)
    ensures
        predicate_of(s) is Some ==> (lexed(s) matches Some(t) && (disjunction(t, 0) matches Some(
            (p, j),
        ) && j == t.len() && predicate_of(s) == Some(p))),
        lexed(s) is None ==> predicate_of(s) is None,
{
}

/// A context says what it said, and what the other one says; where both have a value under a name, the
/// value of the other counts.
pub proof fn extension_says_both(a: ContextView, b: ContextView, name: Seq<char>)
    ensures
        a.extended(b).set.contains(name) <==> a.set.contains(name) || b.set.contains(name),
        a.extended(b).map.dom().contains(name) <==> a.map.dom().contains(name)
            || b.map.dom().contains(name),
        b.map.dom().contains(name) ==> a.extended(b).map[name] == b.map[name],
        a.map.dom().contains(name) && !b.map.dom().contains(name) ==> a.extended(b).map[name]
            == a.map[name],
{
}

} // verus!
