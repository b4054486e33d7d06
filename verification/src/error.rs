//! The errors of each stage, and what they tell about themselves.
use std::ops::Range;
use vstd::prelude::*;
use crate::text::{byte_offset, char_len_utf8, chars_of, lemma_byte_offset_bound, lemma_byte_offset_step, lemma_byte_offset_strict, lemma_utf8_len_encode, string_of, utf8_len};

verus! {

/// Characters that start no token, by their byte range in the source.
#[derive(Debug)]
pub struct LexError(pub Range<usize>);

impl From<Range<usize>> for LexError {
    fn from(value: Range<usize>) -> (r: Self) {
        LexError(value)
    }
}

impl vstd::std_specs::convert::FromSpecImpl<Range<usize>> for LexError {
    open spec fn obeys_from_spec() -> bool {
        true
    }

    open spec fn from_spec(v: Range<usize>) -> Self {
        LexError(v)
    }
}

/// A piece of the token stream that does not fit the grammar.
#[derive(Debug)]
pub struct ParseError {
    pub desc: String,
    pub span: Range<usize>,
}

/// A program that went wrong while it ran.
#[derive(Debug)]
pub struct RuntimeError {
    pub desc: String,
    pub span: Range<usize>,
}

/// What an error tells about itself: where it is, and what it is.
pub trait Diagnostic {
    /// The byte span that the error points at.
    spec fn span_view(&self) -> Range<usize>;

    /// The message of the error.
    spec fn desc_view(&self) -> Seq<char>;

    fn span(&self) -> (r: Range<usize>)
        ensures
            r == self.span_view(),
    ;

    fn desc(&self) -> (r: String)
        ensures
            r@ == self.desc_view(),
    ;
}

impl Diagnostic for LexError {
    open spec fn span_view(&self) -> Range<usize> {
        self.0
    }

    open spec fn desc_view(&self) -> Seq<char> {
        "unexpected character(s)"@
    }

    fn span(&self) -> (r: Range<usize>) {
        Range { start: self.0.start, end: self.0.end }
    }

    fn desc(&self) -> (r: String) {
        string_of("unexpected character(s)")
    }
}

impl Diagnostic for ParseError {
    open spec fn span_view(&self) -> Range<usize> {
        self.span
    }

    open spec fn desc_view(&self) -> Seq<char> {
        self.desc@
    }

    fn span(&self) -> (r: Range<usize>) {
        Range { start: self.span.start, end: self.span.end }
    }

    fn desc(&self) -> (r: String) {
        self.desc.clone()
    }
}

impl Diagnostic for RuntimeError {
    open spec fn span_view(&self) -> Range<usize> {
        self.span
    }

    open spec fn desc_view(&self) -> Seq<char> {
        self.desc@
    }

    fn span(&self) -> (r: Range<usize>) {
        Range { start: self.span.start, end: self.span.end }
    }

    fn desc(&self) -> (r: String) {
        self.desc.clone()
    }
}

/// `byte` is the offset of a character boundary of `source`.
pub open spec fn is_char_boundary(source: Seq<char>, byte: int) -> bool {
    exists|k: int| 0 <= k <= source.len() && byte_offset(source, k) == byte
}

/// The number of characters that come before the byte offset `byte`.
pub fn byte_to_char(source: &str, byte: usize) -> (r: usize)
    requires
        is_char_boundary(source@, byte as int),
    ensures
        r <= source@.len(),
        byte_offset(source@, r as int) == byte,
{
    let s = chars_of(source);
    let total = source.as_bytes().len();
    proof {
        lemma_utf8_len_encode(s@);
        assert(s@.take(0) =~= Seq::<char>::empty());
    }
    let ghost target = choose|k: int| 0 <= k <= s@.len() && byte_offset(s@, k) == byte;
    let mut k: usize = 0;
    let mut b: usize = 0;
    while b < byte
        invariant
            s@ == source@,
            total == utf8_len(s@),
            0 <= target <= s@.len(),
            s@.len() == s.len(),
            byte_offset(s@, target) == byte,
            k <= target,
            b == byte_offset(s@, k as int),
        decreases target - k,
    {
        proof {
            if k == target {
                assert(false);
            }
            lemma_byte_offset_step(s@, k as int);
            lemma_byte_offset_bound(s@, k + 1);
        }
        b = b + char_len_utf8(s[k]);
        k = k + 1;
    }
    proof {
        if k < target {
            lemma_byte_offset_strict(s@, k as int, target);
        }
    }
    k
}

} // verus!
