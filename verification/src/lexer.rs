//! The lexer: turns source text into tokens with byte spans.
//!
//! The token grammar, by longest match at each position, with keywords
//! preferred over identifiers of the same length:
//!   - runs of ` `, `\t`, `\n` and form feed are skipped;
//!   - `"` .. `"` is a string literal (its text is what stands between the quotes);
//!   - `[0-9]+\.?[0-9]*` is a number literal;
//!   - `[a-zA-Z_][a-zA-Z0-9_]*` is an identifier, or a keyword where the word is one
//!     (`smashed`, `chipped` and `mated` are the operators between two values);
//!   - `(` and `)` are parentheses;
//!   - anything else is an error of one character, and a `"` without a closing
//!     `"` is an error that runs to the end of the input.
use std::ops::Range;
use vstd::prelude::*;
use crate::error::LexError;
use crate::interpreter::{HostReply, HostRequest, host_is, host_ready};
use crate::interpreter::model::{HostFn, HostReplyView, HostRequestView};
use crate::text::{byte_offset, char_len_utf8, chars_of, lemma_byte_offset_bound, lemma_byte_offset_mono, lemma_byte_offset_step, lemma_byte_offset_strict, lemma_utf8_len_encode, string_from_chars, utf8_len};

verus! {

/// A token of the language.
///
/// A number literal carries the `{:?}` text of the `f64` that its digits read
/// as (`12` carries `12.0`), which the host gives (see `number_shown`).
#[derive(Debug)]
pub enum Token {
    String(String),
    Number(String),
    Identifier(String),
    Throw,
    Rock,
    At,
    Named,
    Present,
    Smash,
    Smashed,
    Into,
    Chip,
    Chipped,
    Off,
    Mate,
    Mated,
    With,
    Split,
    From,
    True,
    False,
    Carve,
    Instruction,
    Retrieve,
    Enough,
    Follow,
    And,
    Engrave,
    Weigh,
    Against,
    Inspect,
    Refine,
    Roll,
    While,
    Destroy,
    LParen,
    RParen,
}

impl Clone for Token {
    fn clone(&self) -> (r: Self)
        ensures
            r == *self,
    {
        match self {
            Token::String(s) => Token::String(s.clone()),
            Token::Number(s) => Token::Number(s.clone()),
            Token::Identifier(s) => Token::Identifier(s.clone()),
            Token::Throw => Token::Throw,
            Token::Rock => Token::Rock,
            Token::At => Token::At,
            Token::Named => Token::Named,
            Token::Present => Token::Present,
            Token::Smash => Token::Smash,
            Token::Smashed => Token::Smashed,
            Token::Chipped => Token::Chipped,
            Token::Mated => Token::Mated,
            Token::Into => Token::Into,
            Token::Chip => Token::Chip,
            Token::Off => Token::Off,
            Token::Mate => Token::Mate,
            Token::With => Token::With,
            Token::Split => Token::Split,
            Token::From => Token::From,
            Token::True => Token::True,
            Token::False => Token::False,
            Token::Carve => Token::Carve,
            Token::Instruction => Token::Instruction,
            Token::Retrieve => Token::Retrieve,
            Token::Enough => Token::Enough,
            Token::Follow => Token::Follow,
            Token::And => Token::And,
            Token::Engrave => Token::Engrave,
            Token::Weigh => Token::Weigh,
            Token::Against => Token::Against,
            Token::Inspect => Token::Inspect,
            Token::Refine => Token::Refine,
            Token::Roll => Token::Roll,
            Token::While => Token::While,
            Token::Destroy => Token::Destroy,
            Token::LParen => Token::LParen,
            Token::RParen => Token::RParen,
        }
    }
}

/// A token and the bytes of the source that it was read from.
#[derive(Debug)]
pub struct SpannedToken {
    pub token: Token,
    pub span: Range<usize>,
}

impl Clone for SpannedToken {
    fn clone(&self) -> (r: Self)
        ensures
            r == *self,
    {
        SpannedToken { token: self.token.clone(), span: Range { start: self.span.start, end: self.span.end } }
    }
}

/// What the grammar reads at one position.
pub enum Scanned {
    /// A keyword or a parenthesis: a token without text.
    Keyword(Token),
    Ident(Seq<char>),
    Num(Seq<char>),
    Str(Seq<char>),
    /// No token starts here.
    Bad,
}

pub open spec fn is_blank(c: char) -> bool {
    c == ' ' || c == '\t' || c == '\n' || c == '\x0C'
}

pub open spec fn is_digit(c: char) -> bool {
    '0' <= c <= '9'
}

pub open spec fn is_word_start(c: char) -> bool {
    ('a' <= c <= 'z') || ('A' <= c <= 'Z') || c == '_'
}

pub open spec fn is_word_char(c: char) -> bool {
    is_word_start(c) || is_digit(c)
}

/// End of the run of blanks that starts at `i`.
pub open spec fn blank_end(s: Seq<char>, i: int) -> int
    decreases s.len() - i,
{
    if 0 <= i < s.len() && is_blank(s[i]) {
        blank_end(s, i + 1)
    } else {
        i
    }
}

/// End of the run of digits that starts at `i`.
pub open spec fn digits_end(s: Seq<char>, i: int) -> int
    decreases s.len() - i,
{
    if 0 <= i < s.len() && is_digit(s[i]) {
        digits_end(s, i + 1)
    } else {
        i
    }
}

/// End of the run of word characters that starts at `i`.
pub open spec fn word_end(s: Seq<char>, i: int) -> int
    decreases s.len() - i,
{
    if 0 <= i < s.len() && is_word_char(s[i]) {
        word_end(s, i + 1)
    } else {
        i
    }
}

/// Position of the first `"` at or after `i`, if any.
pub open spec fn quote_at_or_after(s: Seq<char>, i: int) -> Option<int>
    decreases s.len() - i,
{
    if i < 0 || i >= s.len() {
        None
    } else if s[i] == '"' {
        Some(i)
    } else {
        quote_at_or_after(s, i + 1)
    }
}

/// The keyword that a word spells, if it spells one.
pub open spec fn keyword(w: Seq<char>) -> Option<Token> {
    if w == seq!['t', 'h', 'r', 'o', 'w'] {
        Some(Token::Throw)
    } else if w == seq!['r', 'o', 'c', 'k'] {
        Some(Token::Rock)
    } else if w == seq!['r', 'o', 'c', 'k', 's'] {
        Some(Token::Rock)
    } else if w == seq!['a', 't'] {
        Some(Token::At)
    } else if w == seq!['n', 'a', 'm', 'e', 'd'] {
        Some(Token::Named)
    } else if w == seq!['p', 'r', 'e', 's', 'e', 'n', 't'] {
        Some(Token::Present)
    } else if w == seq!['s', 'm', 'a', 's', 'h'] {
        Some(Token::Smash)
    } else if w == seq!['s', 'm', 'a', 's', 'h', 'e', 'd'] {
        Some(Token::Smashed)
    } else if w == seq!['i', 'n', 't', 'o'] {
        Some(Token::Into)
    } else if w == seq!['c', 'h', 'i', 'p'] {
        Some(Token::Chip)
    } else if w == seq!['c', 'h', 'i', 'p', 'p', 'e', 'd'] {
        Some(Token::Chipped)
    } else if w == seq!['o', 'f', 'f'] {
        Some(Token::Off)
    } else if w == seq!['m', 'a', 't', 'e'] {
        Some(Token::Mate)
    } else if w == seq!['m', 'a', 't', 'e', 'd'] {
        Some(Token::Mated)
    } else if w == seq!['w', 'i', 't', 'h'] {
        Some(Token::With)
    } else if w == seq!['s', 'p', 'l', 'i', 't'] {
        Some(Token::Split)
    } else if w == seq!['f', 'r', 'o', 'm'] {
        Some(Token::From)
    } else if w == seq!['b', 'i', 'g'] {
        Some(Token::True)
    } else if w == seq!['s', 'm', 'a', 'l', 'l'] {
        Some(Token::False)
    } else if w == seq!['c', 'a', 'r', 'v', 'e'] {
        Some(Token::Carve)
    } else if w == seq!['i', 'n', 's', 't', 'r', 'u', 'c', 't', 'i', 'o', 'n'] {
        Some(Token::Instruction)
    } else if w == seq!['r', 'e', 't', 'r', 'i', 'e', 'v', 'e'] {
        Some(Token::Retrieve)
    } else if w == seq!['e', 'n', 'o', 'u', 'g', 'h'] {
        Some(Token::Enough)
    } else if w == seq!['f', 'o', 'l', 'l', 'o', 'w'] {
        Some(Token::Follow)
    } else if w == seq!['a', 'n', 'd'] {
        Some(Token::And)
    } else if w == seq!['e', 'n', 'g', 'r', 'a', 'v', 'e'] {
        Some(Token::Engrave)
    } else if w == seq!['w', 'e', 'i', 'g', 'h'] {
        Some(Token::Weigh)
    } else if w == seq!['a', 'g', 'a', 'i', 'n', 's', 't'] {
        Some(Token::Against)
    } else if w == seq!['i', 'n', 's', 'p', 'e', 'c', 't'] {
        Some(Token::Inspect)
    } else if w == seq!['r', 'e', 'f', 'i', 'n', 'e'] {
        Some(Token::Refine)
    } else if w == seq!['r', 'o', 'l', 'l'] {
        Some(Token::Roll)
    } else if w == seq!['w', 'h', 'i', 'l', 'e'] {
        Some(Token::While)
    } else if w == seq!['d', 'e', 's', 't', 'r', 'o', 'y'] {
        Some(Token::Destroy)
    } else {
        None
    }
}

/// End of the number literal that starts with a digit at `i`.
pub open spec fn number_end(s: Seq<char>, i: int) -> int {
    let d = digits_end(s, i);
    if d < s.len() && s[d] == '.' {
        digits_end(s, d + 1)
    } else {
        d
    }
}

/// What the grammar reads at a position that holds no blank, and where it ends.
pub open spec fn scan(s: Seq<char>, i: int) -> (Scanned, int) {
    let c = s[i];
    if c == '"' {
        match quote_at_or_after(s, i + 1) {
            Some(j) => (Scanned::Str(s.subrange(i + 1, j)), j + 1),
            None => (Scanned::Bad, s.len() as int),
        }
    } else if is_digit(c) {
        let e = number_end(s, i);
        (Scanned::Num(s.subrange(i, e)), e)
    } else if is_word_start(c) {
        let e = word_end(s, i);
        let w = s.subrange(i, e);
        match keyword(w) {
            Some(k) => (Scanned::Keyword(k), e),
            None => (Scanned::Ident(w), e),
        }
    } else if c == '(' {
        (Scanned::Keyword(Token::LParen), i + 1)
    } else if c == ')' {
        (Scanned::Keyword(Token::RParen), i + 1)
    } else {
        (Scanned::Bad, i + 1)
    }
}

pub proof fn lemma_runs(s: Seq<char>, i: int)
    requires
        0 <= i <= s.len(),
    ensures
        i <= blank_end(s, i) <= s.len(),
        i <= digits_end(s, i) <= s.len(),
        i <= word_end(s, i) <= s.len(),
        forall|k: int| i <= k < blank_end(s, i) ==> is_blank(#[trigger] s[k]),
        forall|k: int| i <= k < digits_end(s, i) ==> is_digit(#[trigger] s[k]),
        forall|k: int| i <= k < word_end(s, i) ==> is_word_char(#[trigger] s[k]),
        match quote_at_or_after(s, i) {
            Some(j) => i <= j < s.len() && s[j] == '"' && forall|k: int| i <= k < j ==> #[trigger] s[k] != '"',
            None => forall|k: int| i <= k < s.len() ==> #[trigger] s[k] != '"',
        },
    decreases s.len() - i,
{
    if i < s.len() {
        lemma_runs(s, i + 1);
    }
}

pub proof fn lemma_scan_progress(s: Seq<char>, i: int)
    requires
        0 <= i < s.len(),
    ensures
        i < scan(s, i).1 <= s.len(),
{
    lemma_runs(s, i);
    lemma_runs(s, i + 1);
    let d = digits_end(s, i);
    if d < s.len() {
        lemma_runs(s, d + 1);
    }
}

/// One item that the lexer reads: what it is, and the character positions it spans.
pub type Lexed = (Scanned, int, int);

/// Everything the grammar reads from position `i` on, blanks left out.
pub open spec fn lex(s: Seq<char>, i: int) -> Seq<Lexed>
    decreases s.len() - i,
{
    if i < 0 || i >= s.len() {
        Seq::empty()
    } else if is_blank(s[i]) {
        if i < blank_end(s, i) <= s.len() {
            lex(s, blank_end(s, i))
        } else {
            Seq::empty()
        }
    } else {
        let (t, e) = scan(s, i);
        if i < e <= s.len() {
            seq![(t, i, e)] + lex(s, e)
        } else {
            Seq::empty()
        }
    }
}

pub open spec fn is_bad(x: Lexed) -> bool {
    x.0 is Bad
}

/// The items of `xs` that are tokens, in order.
pub open spec fn good_items(xs: Seq<Lexed>) -> Seq<Lexed>
    decreases xs.len(),
{
    if xs.len() == 0 {
        Seq::empty()
    } else if is_bad(xs.last()) {
        good_items(xs.drop_last())
    } else {
        good_items(xs.drop_last()).push(xs.last())
    }
}

/// The items of `xs` that are errors, in order.
pub open spec fn bad_items(xs: Seq<Lexed>) -> Seq<Lexed>
    decreases xs.len(),
{
    if xs.len() == 0 {
        Seq::empty()
    } else if is_bad(xs.last()) {
        bad_items(xs.drop_last()).push(xs.last())
    } else {
        bad_items(xs.drop_last())
    }
}

/// The byte range of the characters `i..j` of `s`.
pub open spec fn byte_span(s: Seq<char>, i: int, j: int) -> (nat, nat) {
    (byte_offset(s, i), byte_offset(s, j))
}

/// `t` is the token that the grammar read as `x` from `s`.
pub open spec fn token_matches(s: Seq<char>, t: SpannedToken, x: Lexed) -> bool {
    &&& t.span.start == byte_offset(s, x.1)
    &&& t.span.end == byte_offset(s, x.2)
    &&& match x.0 {
        Scanned::Keyword(k) => t.token == k,
        Scanned::Ident(w) => t.token matches Token::Identifier(v) && v@ == w,
        Scanned::Num(w) => t.token is Number,
        Scanned::Str(w) => t.token matches Token::String(v) && v@ == w,
        Scanned::Bad => false,
    }
}

/// The text that a number token read from the digits `w` carries: what the host
/// gives as the `{:?}` text of the number, or the digits where it gives no text.
pub open spec fn number_shown(w: Seq<char>, h: HostFn) -> Seq<char> {
    match h(HostRequestView::NumberDebug(w)) {
        HostReplyView::Text(x) => x,
        _ => w,
    }
}

/// Each number token of `tokens` carries the text that `number_shown` gives for
/// the digits of the item `items` has at its place.
pub open spec fn numbers_shown(items: Seq<Lexed>, tokens: Seq<SpannedToken>, h: HostFn) -> bool {
    forall|k: int|
        0 <= k < tokens.len() ==> (items[k].0 matches Scanned::Num(w) ==> (#[trigger] tokens[k]).token matches Token::Number(
            v,
        ) && v@ == number_shown(w, h))
}

/// The texts of the number tokens of `r`, lexed from `s`, for the host `h`.
pub open spec fn tokenize_numbers(s: Seq<char>, r: Result<Vec<SpannedToken>, Vec<LexError>>, h: HostFn) -> bool {
    r matches Ok(tokens) ==> numbers_shown(lex(s, 0), tokens@, h)
}

/// `e` is the error that the grammar found as `x` in `s`.
pub open spec fn error_matches(s: Seq<char>, e: LexError, x: Lexed) -> bool {
    &&& e.0.start == byte_offset(s, x.1)
    &&& e.0.end == byte_offset(s, x.2)
}

/// The contract of `tokenize` on the characters `s`.
pub open spec fn tokenize_result(s: Seq<char>, r: Result<Vec<SpannedToken>, Vec<LexError>>) -> bool {
    let items = lex(s, 0);
    match r {
        Ok(tokens) => {
            &&& bad_items(items).len() == 0
            &&& tokens@.len() == items.len()
            &&& forall|k: int| 0 <= k < items.len() ==> token_matches(s, #[trigger] tokens@[k], items[k])
        },
        Err(errors) => {
            let bad = bad_items(items);
            &&& bad.len() > 0
            &&& errors@.len() == bad.len()
            &&& forall|k: int| 0 <= k < bad.len() ==> error_matches(s, #[trigger] errors@[k], bad[k])
        },
    }
}

fn same_chars(w: &Vec<char>, lit: &Vec<char>) -> (r: bool)
    ensures
        r == (w@ == lit@),
{
    if w.len() != lit.len() {
        return false;
    }
    let mut i: usize = 0;
    while i < w.len()
        invariant
            w.len() == lit.len(),
            i <= w.len(),
            forall|k: int| 0 <= k < i ==> w@[k] == lit@[k],
        decreases w.len() - i,
    {
        if w[i] != lit[i] {
            return false;
        }
        i += 1;
    }
    assert(w@ =~= lit@);
    true
}

fn keyword_of(w: &Vec<char>) -> (r: Option<Token>)
    ensures
        r == keyword(w@),
{
    if same_chars(w, &vec!['t', 'h', 'r', 'o', 'w']) {
        return Some(Token::Throw);
    }
    if same_chars(w, &vec!['r', 'o', 'c', 'k']) {
        return Some(Token::Rock);
    }
    if same_chars(w, &vec!['r', 'o', 'c', 'k', 's']) {
        return Some(Token::Rock);
    }
    if same_chars(w, &vec!['a', 't']) {
        return Some(Token::At);
    }
    if same_chars(w, &vec!['n', 'a', 'm', 'e', 'd']) {
        return Some(Token::Named);
    }
    if same_chars(w, &vec!['p', 'r', 'e', 's', 'e', 'n', 't']) {
        return Some(Token::Present);
    }
    if same_chars(w, &vec!['s', 'm', 'a', 's', 'h']) {
        return Some(Token::Smash);
    }
    if same_chars(w, &vec!['s', 'm', 'a', 's', 'h', 'e', 'd']) {
        return Some(Token::Smashed);
    }
    if same_chars(w, &vec!['i', 'n', 't', 'o']) {
        return Some(Token::Into);
    }
    if same_chars(w, &vec!['c', 'h', 'i', 'p']) {
        return Some(Token::Chip);
    }
    if same_chars(w, &vec!['c', 'h', 'i', 'p', 'p', 'e', 'd']) {
        return Some(Token::Chipped);
    }
    if same_chars(w, &vec!['o', 'f', 'f']) {
        return Some(Token::Off);
    }
    if same_chars(w, &vec!['m', 'a', 't', 'e']) {
        return Some(Token::Mate);
    }
    if same_chars(w, &vec!['m', 'a', 't', 'e', 'd']) {
        return Some(Token::Mated);
    }
    if same_chars(w, &vec!['w', 'i', 't', 'h']) {
        return Some(Token::With);
    }
    if same_chars(w, &vec!['s', 'p', 'l', 'i', 't']) {
        return Some(Token::Split);
    }
    if same_chars(w, &vec!['f', 'r', 'o', 'm']) {
        return Some(Token::From);
    }
    if same_chars(w, &vec!['b', 'i', 'g']) {
        return Some(Token::True);
    }
    if same_chars(w, &vec!['s', 'm', 'a', 'l', 'l']) {
        return Some(Token::False);
    }
    if same_chars(w, &vec!['c', 'a', 'r', 'v', 'e']) {
        return Some(Token::Carve);
    }
    if same_chars(w, &vec!['i', 'n', 's', 't', 'r', 'u', 'c', 't', 'i', 'o', 'n']) {
        return Some(Token::Instruction);
    }
    if same_chars(w, &vec!['r', 'e', 't', 'r', 'i', 'e', 'v', 'e']) {
        return Some(Token::Retrieve);
    }
    if same_chars(w, &vec!['e', 'n', 'o', 'u', 'g', 'h']) {
        return Some(Token::Enough);
    }
    if same_chars(w, &vec!['f', 'o', 'l', 'l', 'o', 'w']) {
        return Some(Token::Follow);
    }
    if same_chars(w, &vec!['a', 'n', 'd']) {
        return Some(Token::And);
    }
    if same_chars(w, &vec!['e', 'n', 'g', 'r', 'a', 'v', 'e']) {
        return Some(Token::Engrave);
    }
    if same_chars(w, &vec!['w', 'e', 'i', 'g', 'h']) {
        return Some(Token::Weigh);
    }
    if same_chars(w, &vec!['a', 'g', 'a', 'i', 'n', 's', 't']) {
        return Some(Token::Against);
    }
    if same_chars(w, &vec!['i', 'n', 's', 'p', 'e', 'c', 't']) {
        return Some(Token::Inspect);
    }
    if same_chars(w, &vec!['r', 'e', 'f', 'i', 'n', 'e']) {
        return Some(Token::Refine);
    }
    if same_chars(w, &vec!['r', 'o', 'l', 'l']) {
        return Some(Token::Roll);
    }
    if same_chars(w, &vec!['w', 'h', 'i', 'l', 'e']) {
        return Some(Token::While);
    }
    if same_chars(w, &vec!['d', 'e', 's', 't', 'r', 'o', 'y']) {
        return Some(Token::Destroy);
    }
    None
}

fn is_blank_exec(c: char) -> (b: bool)
    ensures
        b == is_blank(c),
{
    c == ' ' || c == '\t' || c == '\n' || c == '\x0C'
}

fn is_digit_exec(c: char) -> (b: bool)
    ensures
        b == is_digit(c),
{
    '0' <= c && c <= '9'
}

fn is_word_start_exec(c: char) -> (b: bool)
    ensures
        b == is_word_start(c),
{
    ('a' <= c && c <= 'z') || ('A' <= c && c <= 'Z') || c == '_'
}

fn is_word_char_exec(c: char) -> (b: bool)
    ensures
        b == is_word_char(c),
{
    is_word_start_exec(c) || is_digit_exec(c)
}

fn blank_end_exec(s: &Vec<char>, i: usize) -> (e: usize)
    requires
        i <= s.len(),
    ensures
        e == blank_end(s@, i as int),
{
    let mut j = i;
    while j < s.len() && is_blank_exec(s[j])
        invariant
            i <= j <= s.len(),
            blank_end(s@, i as int) == blank_end(s@, j as int),
        decreases s.len() - j,
    {
        j += 1;
    }
    j
}

fn digits_end_exec(s: &Vec<char>, i: usize) -> (e: usize)
    requires
        i <= s.len(),
    ensures
        e == digits_end(s@, i as int),
{
    let mut j = i;
    while j < s.len() && is_digit_exec(s[j])
        invariant
            i <= j <= s.len(),
            digits_end(s@, i as int) == digits_end(s@, j as int),
        decreases s.len() - j,
    {
        j += 1;
    }
    j
}

fn word_end_exec(s: &Vec<char>, i: usize) -> (e: usize)
    requires
        i <= s.len(),
    ensures
        e == word_end(s@, i as int),
{
    let mut j = i;
    while j < s.len() && is_word_char_exec(s[j])
        invariant
            i <= j <= s.len(),
            word_end(s@, i as int) == word_end(s@, j as int),
        decreases s.len() - j,
    {
        j += 1;
    }
    j
}

fn quote_exec(s: &Vec<char>, i: usize) -> (r: Option<usize>)
    requires
        i <= s.len(),
    ensures
        match r {
            Some(j) => quote_at_or_after(s@, i as int) == Some(j as int),
            None => quote_at_or_after(s@, i as int) is None,
        },
{
    let mut j = i;
    while j < s.len()
        invariant
            i <= j <= s.len(),
            quote_at_or_after(s@, i as int) == quote_at_or_after(s@, j as int),
        decreases s.len() - j,
    {
        if s[j] == '"' {
            return Some(j);
        }
        j += 1;
    }
    None
}

/// Reads what the grammar reads at `i`; `None` stands for an error.
fn scan_exec(s: &Vec<char>, i: usize) -> (r: (Option<Token>, usize))
    requires
        i < s.len(),
        !is_blank(s@[i as int]),
    ensures
        r.1 == scan(s@, i as int).1,
        match scan(s@, i as int).0 {
            Scanned::Keyword(k) => r.0 == Some(k),
            Scanned::Ident(w) => r.0 matches Some(Token::Identifier(v)) && v@ == w,
            Scanned::Num(w) => r.0 matches Some(Token::Number(v)) && v@ == w,
            Scanned::Str(w) => r.0 matches Some(Token::String(v)) && v@ == w,
            Scanned::Bad => r.0 is None,
        },
{
    proof {
        lemma_runs(s@, i as int);
        lemma_runs(s@, i + 1);
    }
    let c = s[i];
    if c == '"' {
        match quote_exec(s, i + 1) {
            Some(j) => (Some(Token::String(string_from_chars(s, i + 1, j))), j + 1),
            None => (None, s.len()),
        }
    } else if is_digit_exec(c) {
        let d = digits_end_exec(s, i);
        let e = if d < s.len() && s[d] == '.' {
            proof {
                lemma_runs(s@, d + 1);
            }
            digits_end_exec(s, d + 1)
        } else {
            d
        };
        (Some(Token::Number(string_from_chars(s, i, e))), e)
    } else if is_word_start_exec(c) {
        let e = word_end_exec(s, i);
        let mut w: Vec<char> = Vec::new();
        let mut k = i;
        while k < e
            invariant
                i <= k <= e <= s.len(),
                w@ == s@.subrange(i as int, k as int),
            decreases e - k,
        {
            w.push(s[k]);
            assert(s@.subrange(i as int, k + 1) =~= s@.subrange(i as int, k as int).push(s@[k as int]));
            k += 1;
        }
        match keyword_of(&w) {
            Some(t) => (Some(t), e),
            None => (Some(Token::Identifier(string_from_chars(s, i, e))), e),
        }
    } else if c == '(' {
        (Some(Token::LParen), i + 1)
    } else if c == ')' {
        (Some(Token::RParen), i + 1)
    } else {
        (None, i + 1)
    }
}

/// The byte offset of character position `j`, knowing that of `i`.
fn advance_bytes(s: &Vec<char>, i: usize, j: usize, byte: usize, total: usize) -> (b: usize)
    requires
        i <= j <= s.len(),
        byte == byte_offset(s@, i as int),
        total == utf8_len(s@),
    ensures
        b == byte_offset(s@, j as int),
{
    let mut k = i;
    let mut b = byte;
    while k < j
        invariant
            i <= k <= j <= s.len(),
            b == byte_offset(s@, k as int),
            total == utf8_len(s@),
        decreases j - k,
    {
        proof {
            lemma_byte_offset_step(s@, k as int);
            lemma_byte_offset_bound(s@, k + 1);
        }
        b = b + char_len_utf8(s[k]);
        k += 1;
    }
    b
}

proof fn lemma_good_push(xs: Seq<Lexed>, x: Lexed)
    ensures
        good_items(xs.push(x)) == if is_bad(x) { good_items(xs) } else { good_items(xs).push(x) },
        bad_items(xs.push(x)) == if is_bad(x) { bad_items(xs).push(x) } else { bad_items(xs) },
{
    assert(xs.push(x).drop_last() =~= xs);
}

/// The tokens of `source`, or, where some characters start no token, every such error.
///
/// `debug` asks for no change here: callers that want to see the tokens print them.
/// The host gives the text of each number token.
pub fn tokenize<H: Fn(HostRequest) -> HostReply>(source: &str, debug: bool, host: &H) -> (r: Result<
    Vec<SpannedToken>,
    Vec<LexError>,
>)
    requires
        host_ready(*host),
    ensures
        tokenize_result(source@, r),
        forall|h: HostFn| #[trigger] host_is(*host, h) ==> tokenize_numbers(source@, r, h),
{
    let s = chars_of(source);
    let total = source.as_bytes().len();
    proof {
        lemma_utf8_len_encode(s@);
    }
    let n = s.len();
    let mut i: usize = 0;
    let mut byte: usize = 0;
    let mut tokens: Vec<SpannedToken> = Vec::new();
    let mut errors: Vec<LexError> = Vec::new();
    let ghost mut done: Seq<Lexed> = Seq::empty();
    proof {
        assert(s@.take(0) =~= Seq::<char>::empty());
    }
    while i < n
        invariant
            n == s.len(),
            s@ == source@,
            total == utf8_len(s@),
            i <= n,
            byte == byte_offset(s@, i as int),
            lex(s@, 0) == done + lex(s@, i as int),
            tokens@.len() == good_items(done).len(),
            forall|k: int| 0 <= k < tokens@.len() ==> token_matches(s@, #[trigger] tokens@[k], good_items(done)[k]),
            errors@.len() == bad_items(done).len(),
            forall|k: int| 0 <= k < errors@.len() ==> error_matches(s@, #[trigger] errors@[k], bad_items(done)[k]),
            host_ready(*host),
            forall|h: HostFn| #[trigger] host_is(*host, h) ==> numbers_shown(good_items(done), tokens@, h),
        decreases n - i,
    {
        if is_blank_exec(s[i]) {
            let e = blank_end_exec(&s, i);
            proof {
                lemma_runs(s@, i as int);
                lemma_runs(s@, i + 1);
                assert(blank_end(s@, i as int) == blank_end(s@, i + 1));
            }
            byte = advance_bytes(&s, i, e, byte, total);
            i = e;
        } else {
            let (t, e) = scan_exec(&s, i);
            proof {
                lemma_scan_progress(s@, i as int);
            }
            let end_byte = advance_bytes(&s, i, e, byte, total);
            let ghost x: Lexed = (scan(s@, i as int).0, i as int, e as int);
            proof {
                lemma_good_push(done, x);
                assert(lex(s@, i as int) == seq![x] + lex(s@, e as int));
                assert(done + lex(s@, i as int) =~= done.push(x) + lex(s@, e as int));
            }
            match t {
                Some(tok) => {
                    let token = match tok {
                        Token::Number(digits) => {
                            let q = HostRequest::NumberDebug(digits.clone());
                            let ghost qv = q@;
                            match host(q) {
                                HostReply::Text(x) => Token::Number(x),
                                _ => Token::Number(digits),
                            }
                        },
                        other => other,
                    };
                    tokens.push(SpannedToken { token, span: Range { start: byte, end: end_byte } });
                },
                None => {
                    errors.push(LexError(Range { start: byte, end: end_byte }));
                },
            }
            proof {
                done = done.push(x);
            }
            byte = end_byte;
            i = e;
        }
    }
    proof {
        assert(lex(s@, n as int) == Seq::<Lexed>::empty());
        assert(done + Seq::<Lexed>::empty() =~= done);
        lemma_good_bad_split(done);
    }
    if errors.len() == 0 {
        Ok(tokens)
    } else {
        Err(errors)
    }
}

/// Where no item is an error, the tokens are all the items.
proof fn lemma_good_bad_split(xs: Seq<Lexed>)
    ensures
        bad_items(xs).len() == 0 ==> good_items(xs) == xs,
    decreases xs.len(),
{
    if xs.len() > 0 {
        lemma_good_bad_split(xs.drop_last());
        if bad_items(xs).len() == 0 {
            assert(!is_bad(xs.last()));
            assert(xs.drop_last().push(xs.last()) =~= xs);
        }
    }
}

/// The items of `lex(s, i)` lie within `s` from `i` on, each spans at least one
/// character, and they come in order without overlapping.
pub proof fn lemma_lex_ordered(s: Seq<char>, i: int)
    requires
        0 <= i,
    ensures
        forall|k: int| 0 <= k < lex(s, i).len() ==> i <= (#[trigger] lex(s, i)[k]).1 < lex(s, i)[k].2 <= s.len(),
        forall|j: int, k: int| 0 <= j < k < lex(s, i).len() ==> (#[trigger] lex(s, i)[j]).2 <= (#[trigger] lex(s, i)[k]).1,
    decreases s.len() - i,
{
    if i < s.len() {
        if is_blank(s[i]) {
            if i < blank_end(s, i) <= s.len() {
                lemma_lex_ordered(s, blank_end(s, i));
                assert(lex(s, i) == lex(s, blank_end(s, i)));
            }
        } else {
            let (t, e) = scan(s, i);
            if i < e <= s.len() {
                lemma_lex_ordered(s, e);
                let rest = lex(s, e);
                let all = lex(s, i);
                assert(all == seq![(t, i, e)] + rest);
                assert forall|k: int| 0 <= k < all.len() implies i <= (#[trigger] all[k]).1 < all[k].2 <= s.len() by {
                    if k > 0 {
                        assert(all[k] == rest[k - 1]);
                    }
                }
                assert forall|j: int, k: int| 0 <= j < k < all.len() implies (#[trigger] all[j]).2 <= (#[trigger] all[k]).1 by {
                    if j > 0 {
                        assert(all[j] == rest[j - 1]);
                        assert(all[k] == rest[k - 1]);
                    } else {
                        assert(all[k] == rest[k - 1]);
                    }
                }
                assert(lex(s, i) == all);
            }
        }
    }
}

/// The tokens of a source come in the order of the source: each spans at least
/// one byte of it, and each ends where or before the next one begins.
pub proof fn law_tokens_in_order(s: Seq<char>, r: Result<Vec<SpannedToken>, Vec<LexError>>)
    requires
        tokenize_result(s, r),
    ensures
        r matches Ok(tokens) ==> {
            &&& forall|k: int| 0 <= k < tokens@.len() ==> (#[trigger] tokens@[k]).span.start < tokens@[k].span.end <= utf8_len(s)
            &&& forall|j: int, k: int| 0 <= j < k < tokens@.len() ==> (#[trigger] tokens@[j]).span.end <= (#[trigger] tokens@[k]).span.start
        },
{
    if let Ok(tokens) = r {
        let items = lex(s, 0);
        lemma_lex_ordered(s, 0);
        assert forall|k: int| 0 <= k < tokens@.len() implies (#[trigger] tokens@[k]).span.start < tokens@[k].span.end <= utf8_len(s) by {
            assert(token_matches(s, tokens@[k], items[k]));
            lemma_byte_offset_strict(s, items[k].1, items[k].2);
            lemma_byte_offset_bound(s, items[k].2);
        }
        assert forall|j: int, k: int| 0 <= j < k < tokens@.len() implies (#[trigger] tokens@[j]).span.end <= (#[trigger] tokens@[k]).span.start by {
            assert(token_matches(s, tokens@[j], items[j]));
            assert(token_matches(s, tokens@[k], items[k]));
            assert(items[j].2 <= items[k].1);
            lemma_byte_offset_mono(s, items[j].2, items[k].1);
        }
    }
}

/// Every character from `i` on that is not blank lies within an item of `lex(s, i)`.
pub proof fn lemma_lex_covers(s: Seq<char>, i: int)
    requires
        0 <= i,
    ensures
        forall|k: int|
            i <= k < s.len() && !is_blank(s[k]) ==> exists|m: int|
                0 <= m < lex(s, i).len() && (#[trigger] lex(s, i)[m]).1 <= k < lex(s, i)[m].2,
    decreases s.len() - i,
{
    if i < s.len() {
        lemma_runs(s, i);
        if is_blank(s[i]) {
            lemma_runs(s, i + 1);
            let b = blank_end(s, i);
            assert(b == blank_end(s, i + 1));
            lemma_lex_covers(s, b);
            assert(lex(s, i) == lex(s, b));
        } else {
            let (t, e) = scan(s, i);
            lemma_scan_progress(s, i);
            lemma_lex_covers(s, e);
            let rest = lex(s, e);
            let all = lex(s, i);
            assert(all == seq![(t, i, e)] + rest);
            assert forall|k: int| i <= k < s.len() && !is_blank(s[k]) implies exists|m: int|
                0 <= m < all.len() && (#[trigger] all[m]).1 <= k < all[m].2 by {
                if k < e {
                    assert(all[0].1 <= k < all[0].2);
                } else {
                    let m = choose|m: int| 0 <= m < rest.len() && (#[trigger] rest[m]).1 <= k < rest[m].2;
                    assert(all[m + 1] == rest[m]);
                }
            }
        }
    }
}

/// Only blanks lie outside the tokens: every character that is not blank lies
/// within the span of some token.
pub proof fn law_only_blanks_between_tokens(s: Seq<char>, r: Result<Vec<SpannedToken>, Vec<LexError>>)
    requires
        tokenize_result(s, r),
    ensures
        r matches Ok(tokens) ==> forall|k: int|
            0 <= k < s.len() && !is_blank(s[k]) ==> exists|j: int|
                0 <= j < tokens@.len() && (#[trigger] tokens@[j]).span.start <= byte_offset(s, k) < tokens@[j].span.end,
{
    if let Ok(tokens) = r {
        let items = lex(s, 0);
        lemma_lex_covers(s, 0);
        assert forall|k: int| 0 <= k < s.len() && !is_blank(s[k]) implies exists|j: int|
            0 <= j < tokens@.len() && (#[trigger] tokens@[j]).span.start <= byte_offset(s, k) < tokens@[j].span.end by {
            let m = choose|m: int| 0 <= m < items.len() && (#[trigger] items[m]).1 <= k < items[m].2;
            assert(token_matches(s, tokens@[m], items[m]));
            lemma_lex_ordered(s, 0);
            lemma_byte_offset_mono(s, items[m].1, k);
            lemma_byte_offset_strict(s, k, items[m].2);
        }
    }
}

/// Items that each span at least one character and come in order without overlapping.
pub open spec fn in_order(xs: Seq<Lexed>) -> bool {
    &&& forall|k: int| 0 <= k < xs.len() ==> (#[trigger] xs[k]).1 < xs[k].2
    &&& forall|j: int, k: int| 0 <= j < k < xs.len() ==> (#[trigger] xs[j]).2 <= (#[trigger] xs[k]).1
}

/// The errors among items in order are items of them, in order too.
proof fn lemma_bad_items_in_order(xs: Seq<Lexed>)
    requires
        in_order(xs),
    ensures
        in_order(bad_items(xs)),
        forall|m: int| 0 <= m < bad_items(xs).len() ==> exists|k: int| 0 <= k < xs.len() && #[trigger] bad_items(xs)[m] == xs[k],
    decreases xs.len(),
{
    if xs.len() > 0 {
        let d = xs.drop_last();
        assert forall|j: int, k: int| 0 <= j < k < d.len() implies (#[trigger] d[j]).2 <= (#[trigger] d[k]).1 by {
            assert(d[j] == xs[j] && d[k] == xs[k]);
        }
        assert forall|k: int| 0 <= k < d.len() implies (#[trigger] d[k]).1 < d[k].2 by {
            assert(d[k] == xs[k]);
        }
        lemma_bad_items_in_order(d);
        let bd = bad_items(d);
        assert forall|m: int| 0 <= m < bd.len() implies exists|k: int| 0 <= k < xs.len() && #[trigger] bd[m] == xs[k] by {
            let k = choose|k: int| 0 <= k < d.len() && #[trigger] bd[m] == d[k];
            assert(d[k] == xs[k]);
        }
        if is_bad(xs.last()) {
            let b = bad_items(xs);
            assert(b == bd.push(xs.last()));
            assert forall|m: int| 0 <= m < bd.len() implies (#[trigger] bd[m]).2 <= xs.last().1 by {
                let k = choose|k: int| 0 <= k < d.len() && #[trigger] bd[m] == d[k];
                assert(d[k] == xs[k]);
                assert(xs[k].2 <= xs[xs.len() - 1].1);
            }
            assert forall|j: int, k: int| 0 <= j < k < b.len() implies (#[trigger] b[j]).2 <= (#[trigger] b[k]).1 by {
                assert(b[j] == bd[j]);
                if k < bd.len() {
                    assert(b[k] == bd[k]);
                }
            }
            assert forall|m: int| 0 <= m < b.len() implies exists|k: int| 0 <= k < xs.len() && #[trigger] b[m] == xs[k] by {
                if m < bd.len() {
                    assert(b[m] == bd[m]);
                    let k = choose|k: int| 0 <= k < xs.len() && #[trigger] bd[m] == xs[k];
                    assert(b[m] == xs[k]);
                } else {
                    assert(b[m] == xs[xs.len() - 1]);
                }
            }
            assert forall|k: int| 0 <= k < b.len() implies (#[trigger] b[k]).1 < b[k].2 by {
                if k < bd.len() {
                    assert(b[k] == bd[k]);
                } else {
                    assert(b[k] == xs[xs.len() - 1]);
                }
            }
        }
    }
}

/// The errors of a source that does not lex come one for each slice that starts
/// no token, in the order of the source: each spans at least one byte of it, and
/// each ends where or before the next one begins.
pub proof fn law_lex_errors_in_order(s: Seq<char>, r: Result<Vec<SpannedToken>, Vec<LexError>>)
    requires
        tokenize_result(s, r),
    ensures
        r matches Err(errors) ==> {
            &&& errors@.len() == bad_items(lex(s, 0)).len()
            &&& forall|k: int| 0 <= k < errors@.len() ==> (#[trigger] errors@[k]).0.start < errors@[k].0.end <= utf8_len(s)
            &&& forall|j: int, k: int| 0 <= j < k < errors@.len() ==> (#[trigger] errors@[j]).0.end <= (#[trigger] errors@[k]).0.start
        },
{
    if let Err(errors) = r {
        let items = lex(s, 0);
        lemma_lex_ordered(s, 0);
        lemma_bad_items_in_order(items);
        let bad = bad_items(items);
        assert forall|k: int| 0 <= k < errors@.len() implies (#[trigger] errors@[k]).0.start < errors@[k].0.end <= utf8_len(s) by {
            assert(error_matches(s, errors@[k], bad[k]));
            let i = choose|i: int| 0 <= i < items.len() && #[trigger] bad[k] == items[i];
            assert(items[i].2 <= s.len());
            lemma_byte_offset_strict(s, bad[k].1, bad[k].2);
            lemma_byte_offset_bound(s, bad[k].2);
        }
        assert forall|j: int, k: int| 0 <= j < k < errors@.len() implies (#[trigger] errors@[j]).0.end <= (#[trigger] errors@[k]).0.start by {
            assert(error_matches(s, errors@[j], bad[j]));
            assert(error_matches(s, errors@[k], bad[k]));
            assert(bad[j].2 <= bad[k].1);
            let i = choose|i: int| 0 <= i < items.len() && #[trigger] bad[k] == items[i];
            assert(items[i].1 < items[i].2 <= s.len());
            lemma_byte_offset_mono(s, bad[j].2, bad[k].1);
        }
    }
}

/// An ASCII letter or `_`: what an identifier starts with.
pub open spec fn ascii_letter_or_underscore(c: char) -> bool {
    ('a' <= c && c <= 'z') || ('A' <= c && c <= 'Z') || c == '_'
}

/// An ASCII letter, digit or `_`: what an identifier goes on with.
pub open spec fn ascii_word_char(c: char) -> bool {
    ascii_letter_or_underscore(c) || ('0' <= c && c <= '9')
}

proof fn lemma_word_end_stops(s: Seq<char>, i: int)
    requires
        0 <= i <= s.len(),
    ensures
        word_end(s, i) == s.len() || !is_word_char(s[word_end(s, i)]),
    decreases s.len() - i,
{
    if i < s.len() && is_word_char(s[i]) {
        lemma_word_end_stops(s, i + 1);
    }
}

/// Each item of `lex(s, i)` is what the grammar reads at its start, a character
/// that is not blank.
proof fn lemma_lex_items_scanned(s: Seq<char>, i: int)
    requires
        0 <= i,
    ensures
        forall|k: int|
            0 <= k < lex(s, i).len() ==> {
                let x = #[trigger] lex(s, i)[k];
                &&& 0 <= x.1 < s.len()
                &&& !is_blank(s[x.1])
                &&& (x.0, x.2) == scan(s, x.1)
            },
    decreases s.len() - i,
{
    if i < s.len() {
        if is_blank(s[i]) {
            if i < blank_end(s, i) <= s.len() {
                lemma_lex_items_scanned(s, blank_end(s, i));
                assert(lex(s, i) == lex(s, blank_end(s, i)));
            }
        } else {
            let (t, e) = scan(s, i);
            if i < e <= s.len() {
                lemma_lex_items_scanned(s, e);
                let rest = lex(s, e);
                let all = lex(s, i);
                assert(all == seq![(t, i, e)] + rest);
                assert forall|k: int| 0 <= k < all.len() implies {
                    let x = #[trigger] all[k];
                    &&& 0 <= x.1 < s.len()
                    &&& !is_blank(s[x.1])
                    &&& (x.0, x.2) == scan(s, x.1)
                } by {
                    if k > 0 {
                        assert(all[k] == rest[k - 1]);
                    }
                }
                assert(lex(s, i) == all);
            }
        }
    }
}

/// An identifier token is a whole word: the longest run of ASCII letters,
/// digits and `_` that starts at a letter or `_`, so digits right after a word
/// belong to it.
pub proof fn law_identifiers_are_whole_words(s: Seq<char>, r: Result<Vec<SpannedToken>, Vec<LexError>>)
    requires
        tokenize_result(s, r),
    ensures
        r matches Ok(tokens) ==> forall|k: int|
            0 <= k < tokens@.len() && (#[trigger] tokens@[k]).token is Identifier ==> exists|a: int, e: int|
                {
                    &&& 0 <= a < e <= s.len()
                    &&& tokens@[k].token->Identifier_0@ == s.subrange(a, e)
                    &&& tokens@[k].span.start == byte_offset(s, a)
                    &&& tokens@[k].span.end == byte_offset(s, e)
                    &&& ascii_letter_or_underscore(s[a])
                    &&& forall|j: int| a <= j < e ==> ascii_word_char(#[trigger] s[j])
                    &&& (e == s.len() || !ascii_word_char(s[e]))
                },
{
    if let Ok(tokens) = r {
        let items = lex(s, 0);
        lemma_lex_items_scanned(s, 0);
        assert forall|k: int| 0 <= k < tokens@.len() && (#[trigger] tokens@[k]).token is Identifier implies exists|a: int, e: int|
            {
                &&& 0 <= a < e <= s.len()
                &&& tokens@[k].token->Identifier_0@ == s.subrange(a, e)
                &&& tokens@[k].span.start == byte_offset(s, a)
                &&& tokens@[k].span.end == byte_offset(s, e)
                &&& ascii_letter_or_underscore(s[a])
                &&& forall|j: int| a <= j < e ==> ascii_word_char(#[trigger] s[j])
                &&& (e == s.len() || !ascii_word_char(s[e]))
            } by {
            let x = items[k];
            assert(token_matches(s, tokens@[k], x));
            let a = x.1;
            let e = x.2;
            lemma_runs(s, a);
            lemma_word_end_stops(s, a);
            assert(x.0 is Ident);
            assert(e == word_end(s, a));
            assert forall|j: int| a <= j < e implies ascii_word_char(#[trigger] s[j]) by {
                assert(is_word_char(s[j]));
            }
        }
    }
}

/// Both `rock` and `rocks` read as the keyword `Rock`, and no other word does.
pub proof fn law_rock_words(w: Seq<char>)
    ensures
        keyword(w) == Some(Token::Rock) <==> (w == seq!['r', 'o', 'c', 'k'] || w == seq!['r', 'o', 'c', 'k', 's']),
{
}

proof fn lemma_digits_end_stops(s: Seq<char>, i: int)
    requires
        0 <= i <= s.len(),
    ensures
        digits_end(s, i) == s.len() || !is_digit(s[digits_end(s, i)]),
    decreases s.len() - i,
{
    if i < s.len() && is_digit(s[i]) {
        lemma_digits_end_stops(s, i + 1);
    }
}

/// An ASCII decimal digit.
pub open spec fn ascii_digit(c: char) -> bool {
    '0' <= c && c <= '9'
}

/// A string token is what stands between a `"` and the next `"`.
pub proof fn law_strings_between_quotes(s: Seq<char>, r: Result<Vec<SpannedToken>, Vec<LexError>>)
    requires
        tokenize_result(s, r),
    ensures
        r matches Ok(tokens) ==> forall|k: int|
            0 <= k < tokens@.len() && (#[trigger] tokens@[k]).token is String ==> exists|a: int, e: int|
                {
                    &&& 0 <= a < e < s.len()
                    &&& s[a] == '"' && s[e] == '"'
                    &&& forall|j: int| a < j < e ==> #[trigger] s[j] != '"'
                    &&& tokens@[k].token->String_0@ == s.subrange(a + 1, e)
                    &&& tokens@[k].span.start == byte_offset(s, a)
                    &&& tokens@[k].span.end == byte_offset(s, e + 1)
                },
{
    if let Ok(tokens) = r {
        let items = lex(s, 0);
        lemma_lex_items_scanned(s, 0);
        assert forall|k: int| 0 <= k < tokens@.len() && (#[trigger] tokens@[k]).token is String implies exists|a: int, e: int|
            {
                &&& 0 <= a < e < s.len()
                &&& s[a] == '"' && s[e] == '"'
                &&& forall|j: int| a < j < e ==> #[trigger] s[j] != '"'
                &&& tokens@[k].token->String_0@ == s.subrange(a + 1, e)
                &&& tokens@[k].span.start == byte_offset(s, a)
                &&& tokens@[k].span.end == byte_offset(s, e + 1)
            } by {
            let x = items[k];
            assert(token_matches(s, tokens@[k], x));
            let a = x.1;
            lemma_runs(s, a + 1);
            assert(x.0 is Str);
            let e = x.2 - 1;
            assert(quote_at_or_after(s, a + 1) == Some(e));
        }
    }
}

/// A number token is a whole number literal: the longest run of ASCII digits
/// that starts the token, then, where a `.` follows, that `.` and the run of
/// digits after it.
pub proof fn law_numbers_are_whole(s: Seq<char>, r: Result<Vec<SpannedToken>, Vec<LexError>>)
    requires
        tokenize_result(s, r),
    ensures
        r matches Ok(tokens) ==> forall|k: int|
            0 <= k < tokens@.len() && (#[trigger] tokens@[k]).token is Number ==> exists|a: int, e: int|
                {
                    &&& 0 <= a < e <= s.len()
                    &&& tokens@[k].span.start == byte_offset(s, a)
                    &&& tokens@[k].span.end == byte_offset(s, e)
                    &&& ascii_digit(s[a])
                    &&& forall|j: int| a <= j < e ==> ascii_digit(#[trigger] s[j]) || s[j] == '.'
                    &&& forall|j1: int, j2: int| a <= j1 < j2 < e && #[trigger] s[j1] == '.' ==> #[trigger] s[j2] != '.'
                    &&& (e == s.len() || !ascii_digit(s[e]))
                    &&& (forall|j: int| a <= j < e ==> #[trigger] s[j] != '.') ==> (e == s.len() || s[e] != '.')
                },
{
    if let Ok(tokens) = r {
        let items = lex(s, 0);
        lemma_lex_items_scanned(s, 0);
        assert forall|k: int| 0 <= k < tokens@.len() && (#[trigger] tokens@[k]).token is Number implies exists|a: int, e: int|
            {
                &&& 0 <= a < e <= s.len()
                &&& tokens@[k].span.start == byte_offset(s, a)
                &&& tokens@[k].span.end == byte_offset(s, e)
                &&& ascii_digit(s[a])
                &&& forall|j: int| a <= j < e ==> ascii_digit(#[trigger] s[j]) || s[j] == '.'
                &&& forall|j1: int, j2: int| a <= j1 < j2 < e && #[trigger] s[j1] == '.' ==> #[trigger] s[j2] != '.'
                &&& (e == s.len() || !ascii_digit(s[e]))
                &&& (forall|j: int| a <= j < e ==> #[trigger] s[j] != '.') ==> (e == s.len() || s[e] != '.')
            } by {
            let x = items[k];
            assert(token_matches(s, tokens@[k], x));
            let a = x.1;
            let e = x.2;
            assert(x.0 is Num);
            lemma_runs(s, a);
            lemma_digits_end_stops(s, a);
            let d = digits_end(s, a);
            if d < s.len() && s[d] == '.' {
                lemma_runs(s, d + 1);
                lemma_digits_end_stops(s, d + 1);
                assert(e == digits_end(s, d + 1));
                assert forall|j: int| a <= j < e implies ascii_digit(#[trigger] s[j]) || s[j] == '.' by {
                    if j < d {
                        assert(is_digit(s[j]));
                    } else if j > d {
                        assert(is_digit(s[j]));
                    }
                }
                assert forall|j1: int, j2: int| a <= j1 < j2 < e && #[trigger] s[j1] == '.' implies #[trigger] s[j2] != '.' by {
                    if j1 < d {
                        assert(is_digit(s[j1]));
                    } else {
                        assert(j2 > d);
                        assert(is_digit(s[j2]));
                    }
                }
                assert(s[d] == '.');
            } else {
                assert(e == d);
                assert forall|j: int| a <= j < e implies ascii_digit(#[trigger] s[j]) || s[j] == '.' by {
                    assert(is_digit(s[j]));
                }
                assert forall|j1: int, j2: int| a <= j1 < j2 < e && #[trigger] s[j1] == '.' implies #[trigger] s[j2] != '.' by {
                    assert(is_digit(s[j1]));
                }
            }
        }
    }
}

} // verus!
