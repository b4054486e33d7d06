//! The first lexer of the language: a character scanner with a smaller set of
//! keywords, which ends its tokens with `EOF`.
//!
//! Each word is read up to the first character that cannot continue it, and
//! that character is skipped with it; whitespace after a token is skipped.
use vstd::prelude::*;
use crate::text::{chars_of, string_from_chars};

verus! {

/// A token of the first lexer. A number carries its characters as written.
#[derive(Debug)]
pub enum Token {
    Identifier(String),
    Number(String),
    String(String),
    Throw,
    At,
    Named,
    Rock,
    Present,
    Smash,
    Into,
    Chip,
    Off,
    Mate,
    With,
    Error,
    EOF,
}

/// Whether a character is numeric in Unicode (`char::is_numeric`).
pub uninterp spec fn char_is_numeric(c: char) -> bool;

/// Whether a character is alphabetic or numeric in Unicode (`char::is_alphanumeric`).
pub uninterp spec fn char_is_alphanumeric(c: char) -> bool;

/// Whether a character has the Unicode `White_Space` property, as `char::is_whitespace`
/// documents it: U+0009 to U+000D, U+0020, U+0085, U+00A0, U+1680, U+2000 to U+200A,
/// U+2028, U+2029, U+202F, U+205F and U+3000.
pub open spec fn char_is_whitespace(c: char) -> bool {
    let u = c as u32;
    ||| 0x9 <= u <= 0xD
    ||| u == 0x20
    ||| u == 0x85
    ||| u == 0xA0
    ||| u == 0x1680
    ||| 0x2000 <= u <= 0x200A
    ||| u == 0x2028
    ||| u == 0x2029
    ||| u == 0x202F
    ||| u == 0x205F
    ||| u == 0x3000
}

/// Calls `char::is_numeric`; the result is named `char_is_numeric` of the character.
#[verifier::external_body]
fn is_numeric(c: char) -> (r: bool)
    ensures
        r == char_is_numeric(c),
{
    c.is_numeric()
}

/// Calls `char::is_alphanumeric`; the result is named `char_is_alphanumeric` of the character.
#[verifier::external_body]
fn is_alphanumeric(c: char) -> (r: bool)
    ensures
        r == char_is_alphanumeric(c),
{
    c.is_alphanumeric()
}

/// Whether a character is whitespace in Unicode.
fn is_whitespace(c: char) -> (r: bool)
    ensures
        r == char_is_whitespace(c),
{
    let u = c as u32;
    (0x9 <= u && u <= 0xD) || u == 0x20 || u == 0x85 || u == 0xA0 || u == 0x1680 || (0x2000 <= u && u <= 0x200A)
        || u == 0x2028 || u == 0x2029 || u == 0x202F || u == 0x205F || u == 0x3000
}

/// Reads characters from a text.
pub struct Lexer {
    input: Vec<char>,
    pos: usize,
}

/// What the first lexer reads at a position.
pub enum Lexeme {
    Ident(Seq<char>),
    Num(Seq<char>),
    Str(Seq<char>),
    Word(Token),
    Bad,
    End,
}

pub open spec fn is_number_char(c: char) -> bool {
    char_is_numeric(c) || c == '.'
}

pub open spec fn is_word_char(c: char) -> bool {
    char_is_alphanumeric(c) || c == '_'
}

pub open spec fn is_ascii_digit(c: char) -> bool {
    '0' <= c <= '9'
}

/// The text is a decimal number as `f64::from_str` reads one: ASCII digits
/// with at most one `.`, and at least one digit.
pub open spec fn is_float_literal(t: Seq<char>) -> bool {
    &&& forall|i: int| 0 <= i < t.len() ==> is_ascii_digit(#[trigger] t[i]) || t[i] == '.'
    &&& forall|i: int, j: int| 0 <= i < j < t.len() && t[i] == '.' ==> t[j] != '.'
    &&& exists|i: int| 0 <= i < t.len() && is_ascii_digit(#[trigger] t[i])
}

pub open spec fn number_end(s: Seq<char>, i: int) -> int
    decreases s.len() - i,
{
    if 0 <= i < s.len() && is_number_char(s[i]) {
        number_end(s, i + 1)
    } else {
        i
    }
}

pub open spec fn word_end(s: Seq<char>, i: int) -> int
    decreases s.len() - i,
{
    if 0 <= i < s.len() && is_word_char(s[i]) {
        word_end(s, i + 1)
    } else {
        i
    }
}

pub open spec fn space_end(s: Seq<char>, i: int) -> int
    decreases s.len() - i,
{
    if 0 <= i < s.len() && char_is_whitespace(s[i]) {
        space_end(s, i + 1)
    } else {
        i
    }
}

pub open spec fn quote_end(s: Seq<char>, i: int) -> int
    decreases s.len() - i,
{
    if 0 <= i < s.len() && s[i] != '"' {
        quote_end(s, i + 1)
    } else {
        i
    }
}

/// The keyword a word spells, if it spells one.
pub open spec fn keyword(w: Seq<char>) -> Option<Token> {
    if w == seq!['t', 'h', 'r', 'o', 'w'] {
        Some(Token::Throw)
    } else if w == seq!['r', 'o', 'c', 'k'] || w == seq!['r', 'o', 'c', 'k', 's'] {
        Some(Token::Rock)
    } else if w == seq!['a', 't'] {
        Some(Token::At)
    } else if w == seq!['n', 'a', 'm', 'e', 'd'] {
        Some(Token::Named)
    } else if w == seq!['p', 'r', 'e', 's', 'e', 'n', 't'] {
        Some(Token::Present)
    } else if w == seq!['s', 'm', 'a', 's', 'h'] {
        Some(Token::Smash)
    } else if w == seq!['i', 'n', 't', 'o'] {
        Some(Token::Into)
    } else if w == seq!['c', 'h', 'i', 'p'] {
        Some(Token::Chip)
    } else if w == seq!['o', 'f', 'f'] {
        Some(Token::Off)
    } else if w == seq!['m', 'a', 't', 'e'] {
        Some(Token::Mate)
    } else if w == seq!['w', 'i', 't', 'h'] {
        Some(Token::With)
    } else {
        None
    }
}

/// The token read at `i`, and the position after the character that ended it.
pub open spec fn read(s: Seq<char>, i: int) -> (Lexeme, int) {
    let c = s[i];
    if c == '"' {
        let j = quote_end(s, i + 1);
        (Lexeme::Str(s.subrange(i + 1, j)), j + 1)
    } else if is_number_char(c) {
        let j = number_end(s, i);
        let t = s.subrange(i, j);
        (if is_float_literal(t) { Lexeme::Num(t) } else { Lexeme::Bad }, j + 1)
    } else {
        read_word(s, i)
    }
}

/// The word read at `i` (empty where no word character stands there), and the
/// position after the character that ended it.
pub open spec fn read_word(s: Seq<char>, i: int) -> (Lexeme, int) {
    let j = word_end(s, i);
    let w = s.subrange(i, j);
    (
        match keyword(w) {
            Some(k) => Lexeme::Word(k),
            None => Lexeme::Ident(w),
        },
        j + 1,
    )
}

/// The tokens from position `i` to the end, then `EOF`.
pub open spec fn lex(s: Seq<char>, i: int) -> Seq<Lexeme>
    decreases s.len() + 1 - i,
{
    if i < 0 || i >= s.len() {
        seq![Lexeme::End]
    } else {
        let (t, n) = read(s, i);
        let m = space_end(s, n);
        if i < m <= s.len() + 1 {
            seq![t] + lex(s, m)
        } else {
            seq![t]
        }
    }
}

/// `t` is the token that `x` describes.
pub open spec fn token_is(t: Token, x: Lexeme) -> bool {
    match x {
        Lexeme::Ident(w) => t matches Token::Identifier(v) && v@ == w,
        Lexeme::Num(w) => t matches Token::Number(v) && v@ == w,
        Lexeme::Str(w) => t matches Token::String(v) && v@ == w,
        Lexeme::Word(k) => t == k,
        Lexeme::Bad => t is Error,
        Lexeme::End => t is EOF,
    }
}

/// The tokens of the first lexer from `i` on end with exactly one `EOF`, and each
/// token before it takes at least one character.
pub proof fn law_early_lex_ends_once(s: Seq<char>, i: int)
    requires
        0 <= i <= s.len() + 1,
    ensures
        lex(s, i).len() >= 1,
        lex(s, i).last() is End,
        forall|k: int| 0 <= k < lex(s, i).len() - 1 ==> !(#[trigger] lex(s, i)[k] is End),
        forall|k: int| 0 <= k < lex(s, i).len() ==> (#[trigger] lex(s, i)[k] matches Lexeme::Word(w) ==> !(w is EOF)),
        lex(s, i).len() <= (if i < s.len() { s.len() - i } else { 0 }) + 1,
    decreases s.len() + 1 - i,
{
    if 0 <= i < s.len() {
        lemma_ends(s, i);
        lemma_ends(s, i + 1);
        let (t, n) = read(s, i);
        assert(i < n <= s.len() + 1);
        assert(!(t is End));
        assert(t matches Lexeme::Word(w) ==> !(w is EOF));
        if n <= s.len() {
            lemma_ends(s, n);
        }
        let m = space_end(s, n);
        assert(n <= m <= s.len() + 1);
        law_early_lex_ends_once(s, m);
        let rest = lex(s, m);
        assert(lex(s, i) == seq![t] + rest);
        assert forall|k: int| 0 <= k < lex(s, i).len() - 1 implies !(#[trigger] lex(s, i)[k] is End) by {
            if k > 0 {
                assert(lex(s, i)[k] == rest[k - 1]);
            }
        }
        assert forall|k: int| 0 <= k < lex(s, i).len() implies (#[trigger] lex(s, i)[k] matches Lexeme::Word(w) ==> !(
            w is EOF)) by {
            if k > 0 {
                assert(lex(s, i)[k] == rest[k - 1]);
            }
        }
    }
}

proof fn lemma_ends(s: Seq<char>, i: int)
    requires
        0 <= i <= s.len(),
    ensures
        i <= number_end(s, i) <= s.len(),
        i <= word_end(s, i) <= s.len(),
        i <= space_end(s, i) <= s.len(),
        i <= quote_end(s, i) <= s.len(),
        forall|k: int| i <= k < number_end(s, i) ==> is_number_char(#[trigger] s[k]),
    decreases s.len() - i,
{
    if i < s.len() {
        lemma_ends(s, i + 1);
    }
}

fn same_word(w: &Vec<char>, lit: &Vec<char>) -> (r: bool)
    ensures
        r == (w@ == lit@),
{
    if w.len() != lit.len() {
        return false;
    }
    let mut i: usize = 0;
    while i < w.len()
        invariant
            w.len() == lit.len(),
            i <= w.len(),
            forall|k: int| 0 <= k < i ==> w@[k] == lit@[k],
        decreases w.len() - i,
    {
        if w[i] != lit[i] {
            return false;
        }
        i += 1;
    }
    assert(w@ =~= lit@);
    true
}

fn keyword_of(w: &Vec<char>) -> (r: Option<Token>)
    ensures
        r == keyword(w@),
{
    if same_word(w, &vec!['t', 'h', 'r', 'o', 'w']) {
        Some(Token::Throw)
    } else if same_word(w, &vec!['r', 'o', 'c', 'k']) || same_word(w, &vec!['r', 'o', 'c', 'k', 's']) {
        Some(Token::Rock)
    } else if same_word(w, &vec!['a', 't']) {
        Some(Token::At)
    } else if same_word(w, &vec!['n', 'a', 'm', 'e', 'd']) {
        Some(Token::Named)
    } else if same_word(w, &vec!['p', 'r', 'e', 's', 'e', 'n', 't']) {
        Some(Token::Present)
    } else if same_word(w, &vec!['s', 'm', 'a', 's', 'h']) {
        Some(Token::Smash)
    } else if same_word(w, &vec!['i', 'n', 't', 'o']) {
        Some(Token::Into)
    } else if same_word(w, &vec!['c', 'h', 'i', 'p']) {
        Some(Token::Chip)
    } else if same_word(w, &vec!['o', 'f', 'f']) {
        Some(Token::Off)
    } else if same_word(w, &vec!['m', 'a', 't', 'e']) {
        Some(Token::Mate)
    } else if same_word(w, &vec!['w', 'i', 't', 'h']) {
        Some(Token::With)
    } else {
        None
    }
}

/// Whether the characters are a decimal number that `f64::from_str` reads.
fn float_literal(t: &Vec<char>) -> (r: bool)
    ensures
        r == is_float_literal(t@),
{
    let mut dots: usize = 0;
    let mut digits = false;
    let mut i: usize = 0;
    while i < t.len()
        invariant
            i <= t@.len(),
            dots <= 1,
            forall|k: int| 0 <= k < i ==> is_ascii_digit(#[trigger] t@[k]) || t@[k] == '.',
            dots == 0 ==> forall|k: int| 0 <= k < i ==> t@[k] != '.',
            dots == 1 ==> exists|k: int| 0 <= k < i && t@[k] == '.',
            forall|a: int, b: int| 0 <= a < b < i && t@[a] == '.' ==> t@[b] != '.',
            digits <==> exists|k: int| 0 <= k < i && is_ascii_digit(#[trigger] t@[k]),
        decreases t@.len() - i,
    {
        let c = t[i];
        if c == '.' {
            if dots == 1 {
                return false;
            }
            dots = 1;
        } else if '0' <= c && c <= '9' {
            digits = true;
        } else {
            return false;
        }
        i += 1;
    }
    digits
}

impl Lexer {
    /// The characters that the lexer reads.
    pub closed spec fn input(&self) -> Seq<char> {
        self.input@
    }

    /// The position of the next character to read.
    pub closed spec fn position(&self) -> int {
        self.pos as int
    }

    /// A lexer at the first character of `text`.
    pub fn new(text: &str) -> (r: Lexer)
        ensures
            r.input() == text@,
            r.position() == 0,
    {
        Lexer { input: chars_of(text), pos: 0 }
    }

    /// All tokens from the current position on, ending with `EOF`.
    pub fn tokenize(&mut self) -> (r: Vec<Token>)
        requires
            old(self).input().len() < usize::MAX,
            old(self).position() <= old(self).input().len() + 1,
        ensures
            final(self).input() == old(self).input(),
            final(self).input().len() <= final(self).position() <= final(self).input().len() + 1,
            r@.len() >= 1,
            r@.last() is EOF,
            forall|k: int| 0 <= k < r@.len() - 1 ==> !(#[trigger] r@[k] is EOF),
            r@.len() <= (if old(self).position() < old(self).input().len() {
                old(self).input().len() - old(self).position()
            } else {
                0
            }) + 1,
            ({
                let l = lex(old(self).input(), old(self).position());
                &&& r@.len() == l.len()
                &&& forall|k: int| 0 <= k < l.len() ==> token_is(#[trigger] r@[k], l[k])
            }),
    {
        let ghost s = self.input@;
        let ghost p0 = self.pos as int;
        let mut tokens: Vec<Token> = Vec::new();
        let ghost mut done: Seq<Lexeme> = Seq::empty();
        loop
            invariant
                self.input@ == s,
                s.len() < usize::MAX,
                self.pos <= s.len() + 1,
                lex(s, p0) == done + lex(s, self.pos as int),
                tokens@.len() == done.len(),
                forall|k: int| 0 <= k < done.len() ==> token_is(#[trigger] tokens@[k], done[k]),
            ensures
                self.input@ == s,
                self.pos >= s.len(),
                lex(s, p0) == done + lex(s, self.pos as int),
                tokens@.len() == done.len(),
                forall|k: int| 0 <= k < done.len() ==> token_is(#[trigger] tokens@[k], done[k]),
            decreases s.len() + 1 - self.pos,
        {
            let c = match self.current() {
                Some(c) => c,
                None => {
                    break ;
                },
            };
            let ghost i = self.pos as int;
            let t = if c == '"' {
                self.read_string()
            } else if is_numeric(c) || c == '.' {
                self.read_number()
            } else {
                self.read_identifier()
            };
            let ghost n = self.pos as int;
            proof {
                lemma_ends(s, i + 1);
                lemma_ends(s, i);
                if n <= s.len() {
                    lemma_ends(s, n);
                }
            }
            self.skip_whitespace();
            proof {
                assert(lex(s, i) == seq![read(s, i).0] + lex(s, self.pos as int));
                assert(done + lex(s, i) =~= done.push(read(s, i).0) + lex(s, self.pos as int));
                done = done.push(read(s, i).0);
            }
            tokens.push(t);
        }
        proof {
            assert(lex(s, self.pos as int) == seq![Lexeme::End]);
        }
        tokens.push(Token::EOF);
        proof {
            done = done.push(Lexeme::End);
            assert(lex(s, p0) =~= done);
            law_early_lex_ends_once(s, p0);
            assert forall|k: int| 0 <= k < tokens@.len() - 1 implies !(#[trigger] tokens@[k] is EOF) by {
                assert(token_is(tokens@[k], done[k]));
                assert(!(done[k] is End));
                assert(done[k] matches Lexeme::Word(w) ==> !(w is EOF));
            }
        }
        tokens
    }

    /// A string literal, at its opening `"`.
    fn read_string(&mut self) -> (r: Token)
        requires
            old(self).pos < old(self).input@.len(),
            old(self).input@[old(self).pos as int] == '"',
            old(self).input@.len() < usize::MAX,
        ensures
            final(self).input@ == old(self).input@,
            final(self).pos == read(old(self).input@, old(self).pos as int).1,
            token_is(r, read(old(self).input@, old(self).pos as int).0),
    {
        self.advance();
        let start = self.pos;
        proof {
            lemma_ends(self.input@, start as int);
        }
        while self.pos < self.input.len() && self.input[self.pos] != '"'
            invariant
                start <= self.pos <= self.input@.len(),
                self.input@ == old(self).input@,
                start == old(self).pos + 1,
                quote_end(self.input@, start as int) == quote_end(self.input@, self.pos as int),
                self.input@.len() < usize::MAX,
            decreases self.input@.len() - self.pos,
        {
            self.pos += 1;
        }
        let string = string_from_chars(&self.input, start, self.pos);
        self.advance();
        Token::String(string)
    }

    /// A number, at its first character.
    fn read_number(&mut self) -> (r: Token)
        requires
            old(self).pos < old(self).input@.len(),
            is_number_char(old(self).input@[old(self).pos as int]),
            old(self).input@[old(self).pos as int] != '"',
            old(self).input@.len() < usize::MAX,
        ensures
            final(self).input@ == old(self).input@,
            final(self).pos == read(old(self).input@, old(self).pos as int).1,
            token_is(r, read(old(self).input@, old(self).pos as int).0),
    {
        let start = self.pos;
        while self.pos < self.input.len() && (is_numeric(self.input[self.pos]) || self.input[self.pos] == '.')
            invariant
                start <= self.pos <= self.input@.len(),
                self.input@ == old(self).input@,
                start == old(self).pos,
                number_end(self.input@, start as int) == number_end(self.input@, self.pos as int),
                self.input@.len() < usize::MAX,
            decreases self.input@.len() - self.pos,
        {
            self.pos += 1;
        }
        let end = self.pos;
        proof {
            lemma_ends(self.input@, start as int);
        }
        let mut text: Vec<char> = Vec::new();
        let mut k = start;
        while k < end
            invariant
                self.input@ == old(self).input@,
                self.pos == end,
                start == old(self).pos,
                end == number_end(self.input@, start as int),
                start <= k <= end <= self.input@.len(),
                self.input@.len() < usize::MAX,
                text@ == self.input@.subrange(start as int, k as int),
            decreases end - k,
        {
            text.push(self.input[k]);
            assert(self.input@.subrange(start as int, k + 1) =~= self.input@.subrange(start as int, k as int).push(
                self.input@[k as int],
            ));
            k += 1;
        }
        self.advance();
        if float_literal(&text) {
            Token::Number(string_from_chars(&self.input, start, end))
        } else {
            Token::Error
        }
    }

    /// An identifier or a keyword, from the current position.
    fn read_identifier(&mut self) -> (r: Token)
        requires
            old(self).pos <= old(self).input@.len(),
            old(self).input@.len() < usize::MAX,
        ensures
            final(self).input@ == old(self).input@,
            final(self).pos == read_word(old(self).input@, old(self).pos as int).1,
            token_is(r, read_word(old(self).input@, old(self).pos as int).0),
    {
        let start = self.pos;
        while self.pos < self.input.len() && (is_alphanumeric(self.input[self.pos]) || self.input[self.pos] == '_')
            invariant
                start <= self.pos <= self.input@.len(),
                self.input@ == old(self).input@,
                start == old(self).pos,
                word_end(self.input@, start as int) == word_end(self.input@, self.pos as int),
                self.input@.len() < usize::MAX,
            decreases self.input@.len() - self.pos,
        {
            self.pos += 1;
        }
        let end = self.pos;
        proof {
            lemma_ends(self.input@, start as int);
        }
        let mut word: Vec<char> = Vec::new();
        let mut k = start;
        while k < end
            invariant
                self.input@ == old(self).input@,
                self.pos == end,
                start == old(self).pos,
                end == word_end(self.input@, start as int),
                start <= k <= end <= self.input@.len(),
                self.input@.len() < usize::MAX,
                word@ == self.input@.subrange(start as int, k as int),
            decreases end - k,
        {
            word.push(self.input[k]);
            assert(self.input@.subrange(start as int, k + 1) =~= self.input@.subrange(start as int, k as int).push(
                self.input@[k as int],
            ));
            k += 1;
        }
        self.advance();
        match keyword_of(&word) {
            Some(t) => t,
            None => Token::Identifier(string_from_chars(&self.input, start, end)),
        }
    }

    /// Moves past the whitespace at the current position.
    pub fn skip_whitespace(&mut self)
        requires
            old(self).position() <= old(self).input().len() + 1,
        ensures
            final(self).input() == old(self).input(),
            final(self).position() == space_end(old(self).input(), old(self).position()),
    {
        while self.pos < self.input.len() && is_whitespace(self.input[self.pos])
            invariant
                self.input@ == old(self).input@,
                old(self).pos <= self.pos,
                self.pos <= self.input@.len() + 1,
                space_end(self.input@, old(self).pos as int) == space_end(self.input@, self.pos as int),
            decreases self.input@.len() + 1 - self.pos,
        {
            self.pos += 1;
        }
    }

    /// The character at the current position, if there is one.
    pub fn current(&self) -> (r: Option<char>)
        ensures
            r == (if 0 <= self.position() < self.input().len() {
                Some(self.input()[self.position()])
            } else {
                None
            }),
    {
        if self.pos < self.input.len() {
            Some(self.input[self.pos])
        } else {
            None
        }
    }

    /// Moves to the next character.
    pub fn advance(&mut self)
        requires
            old(self).position() < usize::MAX,
        ensures
            final(self).input() == old(self).input(),
            final(self).position() == old(self).position() + 1,
    {
        self.pos += 1;
    }
}

/// The first lexer's keywords: each word below reads as its token (`rock` and
/// `rocks` both as `Rock`), and no other word reads as a keyword.
pub proof fn law_early_keywords(w: Seq<char>)
    ensures
        keyword(w) == Some(Token::Throw) <==> w == seq!['t', 'h', 'r', 'o', 'w'],
        keyword(w) == Some(Token::Rock) <==> (w == seq!['r', 'o', 'c', 'k'] || w == seq!['r', 'o', 'c', 'k', 's']),
        keyword(w) == Some(Token::At) <==> w == seq!['a', 't'],
        keyword(w) == Some(Token::Named) <==> w == seq!['n', 'a', 'm', 'e', 'd'],
        keyword(w) == Some(Token::Present) <==> w == seq!['p', 'r', 'e', 's', 'e', 'n', 't'],
        keyword(w) == Some(Token::Smash) <==> w == seq!['s', 'm', 'a', 's', 'h'],
        keyword(w) == Some(Token::Into) <==> w == seq!['i', 'n', 't', 'o'],
        keyword(w) == Some(Token::Chip) <==> w == seq!['c', 'h', 'i', 'p'],
        keyword(w) == Some(Token::Off) <==> w == seq!['o', 'f', 'f'],
        keyword(w) == Some(Token::Mate) <==> w == seq!['m', 'a', 't', 'e'],
        keyword(w) == Some(Token::With) <==> w == seq!['w', 'i', 't', 'h'],
        keyword(w) is None <==> !(w == seq!['t', 'h', 'r', 'o', 'w'] || w == seq!['r', 'o', 'c', 'k'] || w == seq!['r', 'o', 'c', 'k', 's'] || w == seq!['a', 't'] || w == seq!['n', 'a', 'm', 'e', 'd'] || w == seq!['p', 'r', 'e', 's', 'e', 'n', 't'] || w == seq!['s', 'm', 'a', 's', 'h'] || w == seq!['i', 'n', 't', 'o'] || w == seq!['c', 'h', 'i', 'p'] || w == seq!['o', 'f', 'f'] || w == seq!['m', 'a', 't', 'e'] || w == seq!['w', 'i', 't', 'h']),
{
}

} // verus!
