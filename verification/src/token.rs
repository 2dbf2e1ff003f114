//! The lexer: source text to tokens.

use crate::chars::{char_is_alphabetic, char_is_numeric, char_is_whitespace, is_number_start, is_word_char};
use crate::types::{Token, TokenError, TokenKind};
use vstd::prelude::*;

verus! {

/// The end of the longest run of characters of `class` that starts at `from`.
pub open spec fn run_end(s: Seq<char>, from: int, class: spec_fn(char) -> bool) -> int
    decreases s.len() - from,
{
    if 0 <= from < s.len() && class(s[from]) {
        run_end(s, from + 1, class)
    } else {
        from
    }
}

/// The kind of a word: one of the keywords, or an identifier.
pub open spec fn word_kind(w: Seq<char>) -> TokenKind {
    if w == "let"@ {
        TokenKind::Let
    } else if w == "set"@ {
        TokenKind::Assign
    } else if w == "if"@ {
        TokenKind::If
    } else if w == "else"@ {
        TokenKind::Else
    } else if w == "loop"@ {
        TokenKind::Loop
    } else if w == "break"@ {
        TokenKind::Break
    } else if w == "continue"@ {
        TokenKind::Continue
    } else if w == "none"@ {
        TokenKind::Nothing
    } else {
        TokenKind::Ident
    }
}

/// The token that starts at `p`: its kind and where it ends. At the end of
/// the text this is the end marker, which takes no character.
pub open spec fn token_at(s: Seq<char>, p: int) -> (TokenKind, int) {
    if !(0 <= p < s.len()) {
        (TokenKind::Eof, p)
    } else {
        let c = s[p];
        if c == '(' {
            (TokenKind::LParen, p + 1)
        } else if c == ')' {
            (TokenKind::RParen, p + 1)
        } else if c == '{' {
            (TokenKind::LBrace, p + 1)
        } else if c == '}' {
            (TokenKind::RBrace, p + 1)
        } else if char_is_whitespace(c) {
            (TokenKind::Whitespace, run_end(s, p + 1, |x: char| char_is_whitespace(x)))
        } else if char_is_alphabetic(c) {
            let e = run_end(s, p + 1, |x: char| is_word_char(x));
            (word_kind(s.subrange(p, e)), e)
        } else if is_number_start(c) {
            let e = run_end(s, p + 1, |x: char| char_is_numeric(x));
            if e < s.len() && s[e] == '.' {
                (TokenKind::Flt, run_end(s, e + 1, |x: char| char_is_numeric(x)))
            } else {
                (TokenKind::Int, e)
            }
        } else {
            (TokenKind::Error(TokenError::UnknownChar), p + 1)
        }
    }
}

/// The first token at or after `p` that is not whitespace, with its start
/// and end; nothing once the text is used up.
pub open spec fn next_visible(s: Seq<char>, p: int) -> Option<(TokenKind, int, int)>
    decreases s.len() - p,
{
    if !(0 <= p < s.len()) {
        None
    } else {
        let (k, e) = token_at(s, p);
        if !(p < e <= s.len()) {
            None
        } else if k == TokenKind::Whitespace {
            next_visible(s, e)
        } else {
            Some((k, p, e))
        }
    }
}

/// The tokens of `s` from `p` on, whitespace left out, each with its text.
pub open spec fn tokens_from(s: Seq<char>, p: int) -> Seq<(TokenKind, Seq<char>)>
    decreases s.len() - p,
{
    match next_visible(s, p) {
        Some((k, a, e)) => if p <= a < e <= s.len() {
            seq![(k, s.subrange(a, e))] + tokens_from(s, e)
        } else {
            Seq::empty()
        },
        None => Seq::empty(),
    }
}

/// The tokens of a whole source text.
pub open spec fn tokens_of(s: Seq<char>) -> Seq<(TokenKind, Seq<char>)> {
    tokens_from(s, 0)
}

/// What each token of a sequence is.
pub open spec fn token_views(ts: Seq<Token>) -> Seq<(TokenKind, Seq<char>)> {
    Seq::new(ts.len(), |i: int| ts[i]@)
}

/// A run ends where `run_end` says, and nowhere else.
pub proof fn lemma_run_end(s: Seq<char>, from: int, to: int, class: spec_fn(char) -> bool)
    requires
        0 <= from <= to <= s.len(),
        forall|i: int| from <= i < to ==> class(#[trigger] s[i]),
        to == s.len() || !class(s[to]),
    ensures
        run_end(s, from, class) == to,
    decreases to - from,
{
    if from < to {
        lemma_run_end(s, from + 1, to, class);
    }
}

/// A run ends inside the text, at or after its start.
pub proof fn lemma_run_end_bounds(s: Seq<char>, from: int, class: spec_fn(char) -> bool)
    requires
        0 <= from <= s.len(),
    ensures
        from <= run_end(s, from, class) <= s.len(),
    decreases s.len() - from,
{
    if from < s.len() && class(s[from]) {
        lemma_run_end_bounds(s, from + 1, class);
    }
}

/// Inside the text every token takes at least one character and ends inside
/// the text.
pub proof fn lemma_token_at_bounds(s: Seq<char>, p: int)
    requires
        0 <= p < s.len(),
    ensures
        p < token_at(s, p).1 <= s.len(),
{
    lemma_run_end_bounds(s, p + 1, |x: char| char_is_whitespace(x));
    lemma_run_end_bounds(s, p + 1, |x: char| is_word_char(x));
    lemma_run_end_bounds(s, p + 1, |x: char| char_is_numeric(x));
    let e = run_end(s, p + 1, |x: char| char_is_numeric(x));
    if e < s.len() {
        lemma_run_end_bounds(s, e + 1, |x: char| char_is_numeric(x));
    }
}

/// Whitespace is never among the tokens of a text, and neither is the end
/// marker.
pub proof fn lemma_tokens_are_visible(s: Seq<char>, p: int)
    ensures
        forall|i: int|
            0 <= i < tokens_from(s, p).len() ==> (#[trigger] tokens_from(s, p)[i]).0
                != TokenKind::Whitespace && tokens_from(s, p)[i].0 != TokenKind::Eof,
    decreases s.len() - p,
{
    match next_visible(s, p) {
        Some((k, a, e)) => {
            lemma_next_visible(s, p);
            if p <= a < e <= s.len() {
                lemma_tokens_are_visible(s, e);
            }
        },
        None => {},
    }
}

/// The token that `next_visible` finds is a token of the text that is
/// neither whitespace nor the end marker, and takes at least one character.
pub proof fn lemma_next_visible(s: Seq<char>, p: int)
    requires
        next_visible(s, p).is_some(),
    ensures
        ({
            let (k, a, e) = next_visible(s, p).unwrap();
            &&& p <= a < e <= s.len()
            &&& token_at(s, a) == (k, e)
            &&& k != TokenKind::Whitespace
            &&& k != TokenKind::Eof
        }),
    decreases s.len() - p,
{
    let (k, e) = token_at(s, p);
    lemma_token_at_bounds(s, p);
    if k == TokenKind::Whitespace {
        lemma_next_visible(s, e);
    }
}

/// Every character of a run is of the run's class.
pub proof fn lemma_run_holds(s: Seq<char>, from: int, class: spec_fn(char) -> bool)
    requires
        0 <= from,
    ensures
        forall|j: int| from <= j < run_end(s, from, class) ==> class(#[trigger] s[j]),
    decreases s.len() - from,
{
    if from < s.len() && class(s[from]) {
        lemma_run_holds(s, from + 1, class);
    }
}

/// What the lexer takes from Unicode to keep whitespace out of its tokens:
/// no letter and no number is whitespace, and neither are the brackets, the
/// underscore, the minus sign and the dot.
pub open spec fn classes_apart() -> bool {
    &&& forall|c: char|
        char_is_alphabetic(c) || char_is_numeric(c) ==> !#[trigger] char_is_whitespace(c)
    &&& !char_is_whitespace('(')
    &&& !char_is_whitespace(')')
    &&& !char_is_whitespace('{')
    &&& !char_is_whitespace('}')
    &&& !char_is_whitespace('_')
    &&& !char_is_whitespace('-')
    &&& !char_is_whitespace('.')
}

/// A token that is not whitespace holds no whitespace, given that the
/// classes of characters are apart.
pub proof fn lemma_token_holds_no_whitespace(s: Seq<char>, p: int)
    requires
        0 <= p < s.len(),
        token_at(s, p).0 != TokenKind::Whitespace,
    ensures
        classes_apart() ==> forall|j: int|
            p <= j < token_at(s, p).1 ==> !char_is_whitespace(#[trigger] s[j]),
{
    let word = |x: char| is_word_char(x);
    let digit = |x: char| char_is_numeric(x);
    lemma_run_holds(s, p + 1, word);
    lemma_run_holds(s, p + 1, digit);
    lemma_run_end_bounds(s, p + 1, digit);
    let e = run_end(s, p + 1, digit);
    if e < s.len() {
        lemma_run_holds(s, e + 1, digit);
    }
    if classes_apart() {
        assert forall|j: int| p <= j < token_at(s, p).1 implies !char_is_whitespace(
            #[trigger] s[j],
        ) by {
            if j > p {
                if char_is_alphabetic(s[p]) {
                    assert(word(s[j]));
                } else if j < e {
                    assert(digit(s[j]));
                } else if j > e {
                    assert(digit(s[j]));
                }
            }
        }
    }
}

/// No token of a text holds whitespace, given that the classes of
/// characters are apart: whitespace only ever stands between tokens.
pub proof fn lemma_tokens_hold_no_whitespace(s: Seq<char>, p: int)
    ensures
        classes_apart() ==> forall|i: int, j: int|
            0 <= i < tokens_from(s, p).len() && 0 <= j < tokens_from(s, p)[i].1.len()
                ==> !char_is_whitespace(#[trigger] tokens_from(s, p)[i].1[j]),
    decreases s.len() - p,
{
    match next_visible(s, p) {
        Some((k, a, e)) => {
            lemma_next_visible(s, p);
            lemma_token_holds_no_whitespace(s, a);
            lemma_tokens_hold_no_whitespace(s, e);
            if classes_apart() {
                let rest = tokens_from(s, e);
                let all = tokens_from(s, p);
                assert forall|i: int, j: int|
                    0 <= i < all.len() && 0 <= j < all[i].1.len() implies !char_is_whitespace(
                    #[trigger] all[i].1[j],
                ) by {
                    if i == 0 {
                        assert(all[0].1[j] == s[a + j]);
                    } else {
                        assert(all[i] == rest[i - 1]);
                    }
                }
            }
        },
        None => {},
    }
}

/// Whether two strings hold the same characters.
pub fn same_text(a: &str, b: &str) -> (r: bool)
    ensures
        r == (a@ == b@),
{
    let n = a.unicode_len();
    if n != b.unicode_len() {
        return false;
    }
    let mut i: usize = 0;
    while i < n
        invariant
            i <= n,
            n == a@.len(),
            n == b@.len(),
            forall|j: int| 0 <= j < i ==> a@[j] == b@[j],
        decreases n - i,
    {
        if a.get_char(i) != b.get_char(i) {
            return false;
        }
        i += 1;
    }
    assert(a@ =~= b@);
    true
}

/// Looks a word up among the keywords.
pub fn classify_word(w: &str) -> (r: TokenKind)
    ensures
        r == word_kind(w@),
{
    if same_text(w, "let") {
        TokenKind::Let
    } else if same_text(w, "set") {
        TokenKind::Assign
    } else if same_text(w, "if") {
        TokenKind::If
    } else if same_text(w, "else") {
        TokenKind::Else
    } else if same_text(w, "loop") {
        TokenKind::Loop
    } else if same_text(w, "break") {
        TokenKind::Break
    } else if same_text(w, "continue") {
        TokenKind::Continue
    } else if same_text(w, "none") {
        TokenKind::Nothing
    } else {
        TokenKind::Ident
    }
}

/// A lexer over one source text. It runs once, front to back.
#[derive(Debug, Clone)]
pub struct Tokenize<'a> {
    src: &'a str,
    len: usize,
    start: usize,
    pos: usize,
}

impl<'a> Tokenize<'a> {
    /// The source text.
    pub closed spec fn text(&self) -> Seq<char> {
        self.src@
    }

    /// Where the token being read starts, counted in characters.
    pub closed spec fn mark(&self) -> int {
        self.start as int
    }

    /// The next character to read, counted in characters.
    pub closed spec fn cursor(&self) -> int {
        self.pos as int
    }

    /// The lexer is inside its text, possibly in the middle of a token.
    pub closed spec fn inv(&self) -> bool {
        self.len == self.src@.len() && self.start <= self.pos <= self.len
    }

    /// The lexer is inside its text and between two tokens.
    pub open spec fn wf(&self) -> bool {
        self.inv() && self.mark() == self.cursor()
    }

    pub fn new(src: &'a str) -> (r: Self)
        ensures
            r.wf(),
            r.text() == src@,
            r.cursor() == 0,
    {
        Self { src, len: src.unicode_len(), start: 0, pos: 0 }
    }

    fn peek_one(&self) -> (r: Option<char>)
        requires
            self.inv(),
        ensures
            r == if self.cursor() < self.text().len() {
                Some(self.text()[self.cursor()])
            } else {
                None
            },
    {
        if self.pos < self.len {
            Some(self.src.get_char(self.pos))
        } else {
            None
        }
    }

    /// Whether the whole text has been read.
    pub fn at_end(&self) -> (r: bool)
        requires
            self.inv(),
        ensures
            r == (self.cursor() == self.text().len()),
    {
        self.pos >= self.len
    }

    fn token_pos(&self) -> (r: usize)
        ensures
            r == self.mark(),
    {
        self.start
    }

    fn token_len(&self) -> (r: usize)
        requires
            self.inv(),
        ensures
            r == self.cursor() - self.mark(),
    {
        self.pos - self.start
    }

    fn token_reset(&mut self)
        requires
            old(self).inv(),
        ensures
            final(self).wf(),
            final(self).text() == old(self).text(),
            final(self).cursor() == old(self).cursor(),
    {
        self.start = self.pos;
    }

    fn token_src(&self) -> (r: &'a str)
        requires
            self.inv(),
        ensures
            r@ == self.text().subrange(self.mark(), self.cursor()),
    {
        let start = self.token_pos();
        let end = start + self.token_len();
        self.src.substring_char(start, end)
    }

    fn token_emit(&self, kind: TokenKind, src: &'a str) -> (r: Token<'a>)
        ensures
            r@ == (kind, src@),
    {
        Token::new(kind, src)
    }

    fn bump(&mut self) -> (r: Option<char>)
        requires
            old(self).inv(),
        ensures
            final(self).inv(),
            final(self).text() == old(self).text(),
            final(self).mark() == old(self).mark(),
            old(self).cursor() < old(self).text().len() ==> r == Some(
                old(self).text()[old(self).cursor()],
            ) && final(self).cursor() == old(self).cursor() + 1,
            old(self).cursor() >= old(self).text().len() ==> r.is_none() && final(self).cursor()
                == old(self).cursor(),
    {
        let c = self.peek_one();
        if c.is_some() {
            self.pos += 1;
        }
        c
    }

    fn bump_while(&mut self, predicate: impl Fn(char) -> bool)
        requires
            old(self).inv(),
            forall|c: char| call_requires(predicate, (c,)),
        ensures
            final(self).inv(),
            final(self).text() == old(self).text(),
            final(self).mark() == old(self).mark(),
            old(self).cursor() <= final(self).cursor() <= final(self).text().len(),
            forall|i: int|
                old(self).cursor() <= i < final(self).cursor() ==> call_ensures(
                    predicate,
                    (#[trigger] final(self).text()[i],),
                    true,
                ),
            final(self).cursor() == final(self).text().len() || call_ensures(
                predicate,
                (final(self).text()[final(self).cursor()],),
                false,
            ),
    {
        loop
            invariant
                self.inv(),
                self.text() == old(self).text(),
                self.mark() == old(self).mark(),
                old(self).cursor() <= self.cursor() <= self.text().len(),
                forall|c: char| call_requires(predicate, (c,)),
                forall|i: int|
                    old(self).cursor() <= i < self.cursor() ==> call_ensures(
                        predicate,
                        (#[trigger] self.text()[i],),
                        true,
                    ),
            ensures
                self.cursor() == self.text().len() || call_ensures(
                    predicate,
                    (self.text()[self.cursor()],),
                    false,
                ),
            decreases self.text().len() - self.cursor(),
        {
            match self.peek_one() {
                Some(c) => {
                    if !predicate(c) {
                        break ;
                    }
                    self.bump();
                },
                None => {
                    break ;
                },
            }
        }
    }

    /// Reads one token, whitespace included, and moves past it. At the end
    /// of the text it hands out the end marker and stays.
    pub fn advance(&mut self) -> (t: Token<'a>)
        requires
            old(self).wf(),
        ensures
            final(self).wf(),
            final(self).text() == old(self).text(),
            (t@.0, final(self).cursor()) == token_at(old(self).text(), old(self).cursor()),
            t@.1 == old(self).text().subrange(old(self).cursor(), final(self).cursor()),
    {
        let ghost s = self.text();
        let ghost p = self.cursor();
        let c = match self.bump() {
            Some(c) => c,
            None => {
                proof {
                    reveal_strlit("");
                    assert(""@ =~= s.subrange(p, p));
                }
                return Token::new(TokenKind::Eof, "");
            },
        };
        let k = if c == '(' {
            TokenKind::LParen
        } else if c == ')' {
            TokenKind::RParen
        } else if c == '{' {
            TokenKind::LBrace
        } else if c == '}' {
            TokenKind::RBrace
        } else if c.is_whitespace() {
            let space = |x: char| -> (r: bool) ensures r == char_is_whitespace(x) { x.is_whitespace() };
            self.bump_while(space);
            proof {
                lemma_run_end(s, p + 1, self.cursor(), |x: char| char_is_whitespace(x));
            }
            TokenKind::Whitespace
        } else if c.is_alphabetic() {
            let word = |x: char| -> (r: bool) ensures r == is_word_char(x) { x.is_alphabetic() || x.is_numeric() || x == '_' };
            self.bump_while(word);
            proof {
                lemma_run_end(s, p + 1, self.cursor(), |x: char| is_word_char(x));
            }
            classify_word(self.token_src())
        } else if c.is_numeric() || c == '-' {
            let digit = |x: char| -> (r: bool) ensures r == char_is_numeric(x) { x.is_numeric() };
            self.bump_while(digit);
            proof {
                lemma_run_end(s, p + 1, self.cursor(), |x: char| char_is_numeric(x));
            }
            let ghost e = self.cursor();
            match self.peek_one() {
                Some('.') => {
                    self.bump();
                    let digit = |x: char| -> (r: bool) ensures r == char_is_numeric(x) { x.is_numeric() };
                    self.bump_while(digit);
                    proof {
                        lemma_run_end(s, e + 1, self.cursor(), |x: char| char_is_numeric(x));
                    }
                    TokenKind::Flt
                },
                _ => TokenKind::Int,
            }
        } else {
            TokenKind::Error(TokenError::UnknownChar)
        };
        let o = self.token_emit(k, self.token_src());
        self.token_reset();
        o
    }

    /// The next token that is not whitespace, or nothing once the text is
    /// used up.
    pub fn next(&mut self) -> (r: Option<Token<'a>>)
        requires
            old(self).wf(),
        ensures
            final(self).wf(),
            final(self).text() == old(self).text(),
            match next_visible(old(self).text(), old(self).cursor()) {
                Some((k, a, e)) => r.is_some() && r.unwrap()@ == (
                    k,
                    old(self).text().subrange(a, e),
                ) && final(self).cursor() == e && old(self).cursor() <= a < e
                    <= old(self).text().len(),
                None => r.is_none() && final(self).cursor() == old(self).text().len(),
            },
            r.is_some() ==> r.unwrap()@.0 != TokenKind::Whitespace && r.unwrap()@.0
                != TokenKind::Eof && r.unwrap()@.1.len() > 0,
    {
        while !self.at_end()
            invariant
                self.wf(),
                self.text() == old(self).text(),
                old(self).cursor() <= self.cursor(),
                next_visible(self.text(), self.cursor()) == next_visible(
                    old(self).text(),
                    old(self).cursor(),
                ),
            decreases self.text().len() - self.cursor(),
        {
            proof {
                lemma_token_at_bounds(self.text(), self.cursor());
            }
            let token = self.advance();
            match token.kind() {
                TokenKind::Whitespace => {},
                _ => {
                    return Some(token);
                },
            }
        }
        None
    }

    /// All the tokens that are left, whitespace left out.
    pub fn collect(self) -> (r: Vec<Token<'a>>)
        requires
            self.wf(),
        ensures
            token_views(r@) == tokens_from(self.text(), self.cursor()),
    {
        let mut it = self;
        let mut out: Vec<Token<'a>> = Vec::new();
        loop
            invariant
                it.wf(),
                it.text() == self.text(),
                token_views(out@) + tokens_from(it.text(), it.cursor()) == tokens_from(
                    self.text(),
                    self.cursor(),
                ),
            decreases it.text().len() - it.cursor(),
        {
            let ghost before = token_views(out@);
            match it.next() {
                Some(t) => {
                    out.push(t);
                    assert(token_views(out@) =~= before + seq![t@]);
                    assert((before + seq![t@]) + tokens_from(it.text(), it.cursor()) =~= before
                        + (seq![t@] + tokens_from(it.text(), it.cursor())));
                },
                None => {
                    assert(token_views(out@) + Seq::empty() =~= token_views(out@));
                    return out;
                },
            }
        }
    }
}

} // verus!
