//! The lexer: from source bytes to tokens with their spans.
//!
//! What the lexer yields is stated by spec functions on the source bytes:
//! `trivia` measures the white space and comments before a token, `scan`
//! tells the shape and length of the token that begins at an offset, `read`
//! adds the handles of the names, and `stream` lists all the tokens that are
//! still to come.

use vstd::prelude::*;
use crate::front::Span;
use crate::front::token::{BinOp, Delim, DOUBLE_QUOTE, SINGLE_QUOTE, Token};
use vstd::slice::slice_subrange;
use crate::symbol::{
    bytes_eq, distinct, has_keywords, interned, lemma_interned, Interner, Keyword, KEYWORDS,
    Symbol,
};

verus! {

pub const TAB: u8 = 9;

pub const NEWLINE: u8 = 10;

pub const RETURN: u8 = 13;

pub const SPACE: u8 = 32;

pub const DOLLAR: u8 = 36;

pub const STAR: u8 = 42;

pub const DOT: u8 = 46;

pub const SLASH: u8 = 47;

pub const UNDERSCORE: u8 = 95;

/// A class of bytes.
#[derive(Clone, Copy, Debug, PartialEq, Eq, Structural)]
pub enum Class {
    /// Blank, tab, line feed, carriage return.
    Space,
    /// `0` to `9`.
    Digit,
    /// A digit, `a` to `f` or `A` to `F`.
    Hex,
    /// A letter, a digit or `_`.
    Word,
    /// Any byte but a line feed.
    Line,
    /// Any byte but the given one.
    Not(u8),
}

pub open spec fn is_digit(b: u8) -> bool {
    48 <= b <= 57
}

pub open spec fn is_letter(b: u8) -> bool {
    65 <= b <= 90 || 97 <= b <= 122
}

/// Whether an identifier can begin with the byte.
pub open spec fn is_word_start(b: u8) -> bool {
    is_letter(b) || b == UNDERSCORE
}

pub open spec fn in_class(c: Class, b: u8) -> bool {
    match c {
        Class::Space => b == SPACE || b == TAB || b == NEWLINE || b == RETURN,
        Class::Digit => is_digit(b),
        Class::Hex => is_digit(b) || 65 <= b <= 70 || 97 <= b <= 102,
        Class::Word => is_word_start(b) || is_digit(b),
        Class::Line => b != NEWLINE,
        Class::Not(x) => b != x,
    }
}

/// The lower-case form of a byte.
pub open spec fn lower(b: u8) -> u8 {
    if 65 <= b <= 90 {
        (b + 32) as u8
    } else {
        b
    }
}

/// The lower-case form of a byte string.
pub open spec fn lowered(text: Seq<u8>) -> Seq<u8> {
    Seq::new(text.len(), |i: int| lower(text[i]))
}

/// How many bytes of class `c` stand in a row from offset `i` on.
pub open spec fn run(s: Seq<u8>, i: int, c: Class) -> nat
    decreases s.len() - i,
{
    if 0 <= i < s.len() && in_class(c, s[i]) {
        1 + run(s, i + 1, c)
    } else {
        0
    }
}

/// The length of what is left of a block comment at offset `i`, the closing
/// `*/` included; all that is left of the source where none closes it.
pub open spec fn comment_rest(s: Seq<u8>, i: int) -> nat
    decreases s.len() - i,
{
    if i < 0 || i >= s.len() {
        0
    } else if s[i] == STAR && i + 1 < s.len() && s[i + 1] == SLASH {
        2
    } else {
        1 + comment_rest(s, i + 1)
    }
}

/// The length of the white space and comments that begin at offset `i`.
pub open spec fn trivia(s: Seq<u8>, i: int) -> nat
    decreases
            (if 0 <= i < s.len() {
                s.len() - i
            } else {
                0
            }),
{
    if i < 0 || i >= s.len() {
        0
    } else if in_class(Class::Space, s[i]) {
        1 + trivia(s, i + 1)
    } else if s[i] == SLASH && i + 1 < s.len() && s[i + 1] == SLASH {
        let n = 2 + run(s, i + 2, Class::Line);
        n + trivia(s, i + n)
    } else if s[i] == SLASH && i + 1 < s.len() && s[i + 1] == STAR {
        let n = 2 + comment_rest(s, i + 2);
        n + trivia(s, i + n)
    } else {
        0
    }
}

/// The keyword, from the one with ordinal `from` on, whose spelling is `text`.
pub open spec fn keyword_from(text: Seq<u8>, from: nat) -> Option<Keyword>
    decreases KEYWORDS - from,
{
    if from >= KEYWORDS {
        None
    } else if Keyword::spec_from_ordinal(from).spec_text() == text {
        Some(Keyword::spec_from_ordinal(from))
    } else {
        keyword_from(text, from + 1)
    }
}

/// The keyword that a word stands for, whatever the case of its letters.
pub open spec fn keyword_of(word: Seq<u8>) -> Option<Keyword> {
    keyword_from(lowered(word), 0)
}

/// The operator or punctuation mark made of two bytes.
pub open spec fn double(a: u8, b: u8) -> Option<Token> {
    if b == 61 {
        if a == 58 {
            Some(Token::ColonEq)
        } else if a == 61 {
            Some(Token::EqEq)
        } else if a == 33 {
            Some(Token::Ne)
        } else if a == 60 {
            Some(Token::Le)
        } else if a == 62 {
            Some(Token::Ge)
        } else if a == 43 {
            Some(Token::BinOpEq(BinOp::Plus))
        } else if a == 45 {
            Some(Token::BinOpEq(BinOp::Minus))
        } else if a == 42 {
            Some(Token::BinOpEq(BinOp::Star))
        } else if a == 47 {
            Some(Token::BinOpEq(BinOp::Slash))
        } else if a == 38 {
            Some(Token::BinOpEq(BinOp::Ampersand))
        } else if a == 124 {
            Some(Token::BinOpEq(BinOp::Pipe))
        } else if a == 94 {
            Some(Token::BinOpEq(BinOp::Caret))
        } else {
            None
        }
    } else if a == 60 && b == 62 {
        Some(Token::LtGt)
    } else if a == 60 && b == 60 {
        Some(Token::Shl)
    } else if a == 62 && b == 62 {
        Some(Token::Shr)
    } else if a == 38 && b == 38 {
        Some(Token::And)
    } else if a == 124 && b == 124 {
        Some(Token::Or)
    } else if a == 94 && b == 94 {
        Some(Token::Xor)
    } else {
        None
    }
}

/// The operator or punctuation mark made of one byte; `Unknown` for a byte
/// that is none.
pub open spec fn single(a: u8) -> Token {
    if a == 46 {
        Token::Dot
    } else if a == 44 {
        Token::Comma
    } else if a == 59 {
        Token::Semicolon
    } else if a == 58 {
        Token::Colon
    } else if a == 61 {
        Token::Eq
    } else if a == 60 {
        Token::Lt
    } else if a == 62 {
        Token::Gt
    } else if a == 33 {
        Token::Bang
    } else if a == 126 {
        Token::Tilde
    } else if a == 43 {
        Token::BinOp(BinOp::Plus)
    } else if a == 45 {
        Token::BinOp(BinOp::Minus)
    } else if a == 42 {
        Token::BinOp(BinOp::Star)
    } else if a == 47 {
        Token::BinOp(BinOp::Slash)
    } else if a == 38 {
        Token::BinOp(BinOp::Ampersand)
    } else if a == 124 {
        Token::BinOp(BinOp::Pipe)
    } else if a == 94 {
        Token::BinOp(BinOp::Caret)
    } else if a == 123 {
        Token::OpenDelim(Delim::Brace)
    } else if a == 40 {
        Token::OpenDelim(Delim::Paren)
    } else if a == 91 {
        Token::OpenDelim(Delim::Bracket)
    } else if a == 125 {
        Token::CloseDelim(Delim::Brace)
    } else if a == 41 {
        Token::CloseDelim(Delim::Paren)
    } else if a == 93 {
        Token::CloseDelim(Delim::Bracket)
    } else {
        Token::Unknown(a)
    }
}

/// What a token is before its name has a handle.
pub enum Shape {
    /// An identifier.
    Word,
    /// A numeric literal.
    Number,
    /// A string literal with both its quotes.
    Quoted,
    /// A token that carries no handle.
    Plain(Token),
}

/// The shape and the length of the token that begins at offset `i`, where no
/// white space or comment begins.
pub open spec fn scan(s: Seq<u8>, i: int) -> (Shape, nat) {
    if i < 0 || i >= s.len() {
        (Shape::Plain(Token::Eof), 0)
    } else {
        let b = s[i];
        if is_word_start(b) {
            let n = run(s, i, Class::Word);
            match keyword_of(s.subrange(i, i + n)) {
                Some(k) => (Shape::Plain(Token::Keyword(k)), n),
                None => (Shape::Word, n),
            }
        } else if is_digit(b) {
            let n = run(s, i, Class::Digit);
            if i + n + 1 < s.len() && s[i + n] == DOT && is_digit(s[i + n + 1]) {
                (Shape::Number, n + 1 + run(s, i + n + 1, Class::Digit))
            } else {
                (Shape::Number, n)
            }
        } else if b == DOLLAR {
            (Shape::Number, 1 + run(s, i + 1, Class::Hex))
        } else if b == DOUBLE_QUOTE || b == SINGLE_QUOTE {
            let n = run(s, i + 1, Class::Not(b));
            if i + 1 + n < s.len() {
                (Shape::Quoted, n + 2)
            } else {
                (Shape::Plain(Token::Unterminated), 1 + run(s, i + 1, Class::Line))
            }
        } else if i + 1 < s.len() && double(b, s[i + 1]).is_some() {
            (Shape::Plain(double(b, s[i + 1]).unwrap()), 2)
        } else {
            (Shape::Plain(single(b)), 1)
        }
    }
}

/// One step of the lexer.
pub struct Read {
    /// The token.
    pub token: Token,
    /// Where it stands, in absolute offsets.
    pub span: Span,
    /// The source bytes that it is made of.
    pub text: Seq<u8>,
    /// The offset in the source at which the next token is looked for.
    pub next: int,
    /// The table of names after the step.
    pub names: Seq<Seq<u8>>,
}

/// A token with its span and the source bytes that it is made of.
pub struct Lexeme {
    pub token: Token,
    pub span: Span,
    pub text: Seq<u8>,
}

/// What the lexer yields at offset `position` of the source `s`, whose first
/// byte has the absolute offset `offset`, with the table `names`.
pub open spec fn read(s: Seq<u8>, offset: int, position: int, names: Seq<Seq<u8>>) -> Read {
    let start = position + trivia(s, position);
    let (shape, n) = scan(s, start);
    let text = s.subrange(start, start + n);
    let span = Span { low: (offset + start) as usize, high: (offset + start + n) as usize };
    match shape {
        Shape::Word => Read {
            token: Token::Ident(Symbol { index: interned(names, text).1 as usize }),
            span,
            text,
            next: start + n,
            names: interned(names, text).0,
        },
        Shape::Number => Read {
            token: Token::Real(Symbol { index: interned(names, text).1 as usize }),
            span,
            text,
            next: start + n,
            names: interned(names, text).0,
        },
        Shape::Quoted => {
            let contents = s.subrange(start + 1, start + n - 1);
            Read {
                token: Token::String(Symbol { index: interned(names, contents).1 as usize }),
                span,
                text,
                next: start + n,
                names: interned(names, contents).0,
            }
        },
        Shape::Plain(token) => Read { token, span, text, next: start + n, names },
    }
}

/// The tokens that the lexer yields from offset `position` on, up to and
/// with the first `Eof`.
pub open spec fn stream(s: Seq<u8>, offset: int, position: int, names: Seq<Seq<u8>>) -> Seq<
    Lexeme,
>
    decreases
            (if 0 <= position < s.len() {
                s.len() - position
            } else {
                0
            }),
{
    let r = read(s, offset, position, names);
    let first = Lexeme { token: r.token, span: r.span, text: r.text };
    if r.token == Token::Eof || r.next <= position || position < 0 || position >= s.len() {
        seq![first]
    } else {
        seq![first] + stream(s, offset, r.next, r.names)
    }
}


/// Where the lexer stands and what names its table holds after `k` steps
/// from offset `position` with the table `names`.
pub open spec fn state_after(
    s: Seq<u8>,
    offset: int,
    position: int,
    names: Seq<Seq<u8>>,
    k: nat,
) -> (int, Seq<Seq<u8>>)
    decreases k,
{
    if k == 0 {
        (position, names)
    } else {
        let before = state_after(s, offset, position, names, (k - 1) as nat);
        let r = read(s, offset, before.0, before.1);
        (r.next, r.names)
    }
}

/// After any number of steps the lexer stands within the source, and its
/// table of names holds no name twice and begins with the table that it
/// began with.
pub proof fn lemma_state_after(
    s: Seq<u8>,
    offset: int,
    position: int,
    names: Seq<Seq<u8>>,
    k: nat,
)
    requires
        0 <= position <= s.len(),
        0 <= offset,
        offset + s.len() <= usize::MAX,
        distinct(names),
    ensures
        0 <= state_after(s, offset, position, names, k).0 <= s.len(),
        distinct(state_after(s, offset, position, names, k).1),
        crate::symbol::extends(state_after(s, offset, position, names, k).1, names),
    decreases k,
{
    if k > 0 {
        lemma_state_after(s, offset, position, names, (k - 1) as nat);
        let before = state_after(s, offset, position, names, (k - 1) as nat);
        lemma_read(s, offset, before.0, before.1);
    }
}

/// A run ends within the source.
pub proof fn lemma_run_bound(s: Seq<u8>, i: int, c: Class)
    requires
        0 <= i <= s.len(),
    ensures
        i + run(s, i, c) <= s.len(),
        i + run(s, i, c) < s.len() ==> !in_class(c, s[i + run(s, i, c)]),
        forall|j: int| i <= j < i + run(s, i, c) ==> in_class(c, #[trigger] s[j]),
    decreases s.len() - i,
{
    if i < s.len() && in_class(c, s[i]) {
        lemma_run_bound(s, i + 1, c);
    }
}

/// A block comment ends within the source.
pub proof fn lemma_comment_bound(s: Seq<u8>, i: int)
    requires
        0 <= i <= s.len(),
    ensures
        i + comment_rest(s, i) <= s.len(),
    decreases s.len() - i,
{
    if i < s.len() && !(s[i] == STAR && i + 1 < s.len() && s[i + 1] == SLASH) {
        lemma_comment_bound(s, i + 1);
    }
}

/// White space and comments end within the source, and what follows them
/// begins none.
pub proof fn lemma_trivia_bound(s: Seq<u8>, i: int)
    requires
        0 <= i <= s.len(),
    ensures
        i + trivia(s, i) <= s.len(),
        trivia(s, i + trivia(s, i)) == 0,
    decreases s.len() - i,
{
    if i < s.len() {
        if in_class(Class::Space, s[i]) {
            lemma_trivia_bound(s, i + 1);
        } else if s[i] == SLASH && i + 1 < s.len() && s[i + 1] == SLASH {
            lemma_run_bound(s, i + 2, Class::Line);
            lemma_trivia_bound(s, i + 2 + run(s, i + 2, Class::Line));
        } else if s[i] == SLASH && i + 1 < s.len() && s[i + 1] == STAR {
            lemma_comment_bound(s, i + 2);
            lemma_trivia_bound(s, i + 2 + comment_rest(s, i + 2));
        }
    }
}

/// A token ends within the source, and only `Eof` is empty.
pub proof fn lemma_scan_bound(s: Seq<u8>, i: int)
    requires
        0 <= i <= s.len(),
    ensures
        i + scan(s, i).1 <= s.len(),
        i < s.len() ==> scan(s, i).1 >= 1 && scan(s, i).0 != Shape::Plain(Token::Eof),
        i == s.len() ==> scan(s, i) == (Shape::Plain(Token::Eof), 0nat),
        scan(s, i).0 is Quoted ==> scan(s, i).1 >= 2,
{
    if i < s.len() {
        let b = s[i];
        lemma_run_bound(s, i, Class::Word);
        lemma_run_bound(s, i, Class::Digit);
        lemma_run_bound(s, i + 1, Class::Hex);
        lemma_run_bound(s, i + 1, Class::Not(b));
        lemma_run_bound(s, i + 1, Class::Line);
        if is_digit(b) {
            let n = run(s, i, Class::Digit);
            if i + n + 1 < s.len() {
                lemma_run_bound(s, i + n + 1, Class::Digit);
            }
        }
    }
}

/// What one step of the lexer yields: it ends within the source, moves on
/// unless it yields `Eof`, keeps the names that the table held, and the
/// table holds the handle that the token carries.
pub proof fn lemma_read(s: Seq<u8>, offset: int, position: int, names: Seq<Seq<u8>>)
    requires
        0 <= position <= s.len(),
        0 <= offset,
        offset + s.len() <= usize::MAX,
        distinct(names),
    ensures
        ({
            let r = read(s, offset, position, names);
            &&& position <= r.next <= s.len()
            &&& r.token != Token::Eof ==> position < r.next
            &&& r.token == Token::Eof ==> r.next == s.len() && r.names == names && r.span == (Span {
                low: (offset + s.len()) as usize,
                high: (offset + s.len()) as usize,
            })
            &&& offset + position <= r.span.low <= r.span.high == offset + r.next
            &&& r.token != Token::Eof ==> r.span.low < r.span.high
            &&& distinct(r.names)
            &&& has_keywords(names) ==> has_keywords(r.names)
            &&& names.len() <= r.names.len() <= names.len() + 1
            &&& forall|i: int| 0 <= i < names.len() ==> r.names[i] == names[i]
            &&& r.names.len() <= usize::MAX ==> r.token.known(r.names)
            &&& r.names.len() <= usize::MAX ==> (r.token matches Token::Real(symbol)
                ==> r.names[symbol.index as int] == r.text)
        }),
{
    lemma_trivia_bound(s, position);
    let start = position + trivia(s, position);
    lemma_scan_bound(s, start);
    let (shape, n) = scan(s, start);
    let text = s.subrange(start, start + n);
    match shape {
        Shape::Quoted => {
            lemma_interned(names, s.subrange(start + 1, start + n - 1));
        },
        _ => {
            lemma_interned(names, text);
        },
    }
}

/// The tokens to come are the next one and, unless it is `Eof`, those that
/// come after it.
pub proof fn lemma_stream(s: Seq<u8>, offset: int, position: int, names: Seq<Seq<u8>>)
    requires
        0 <= position <= s.len(),
        0 <= offset,
        offset + s.len() <= usize::MAX,
        distinct(names),
    ensures
        ({
            let r = read(s, offset, position, names);
            let first = Lexeme { token: r.token, span: r.span, text: r.text };
            stream(s, offset, position, names) == if r.token == Token::Eof {
                seq![first]
            } else {
                seq![first] + stream(s, offset, r.next, r.names)
            }
        }),
{
    lemma_read(s, offset, position, names);
    lemma_trivia_bound(s, position);
    lemma_scan_bound(s, position + trivia(s, position));
}

/// What holds of the tokens of a source text: the last one, and no other,
/// is `Eof`, which is empty; every other token is not; and the spans follow
/// one another.
pub open spec fn ordered(ts: Seq<Lexeme>) -> bool {
    &&& ts.len() >= 1
    &&& ts.last().token == Token::Eof
    &&& ts.last().text == Seq::<u8>::empty()
    &&& ts.last().span.low == ts.last().span.high
    &&& forall|i: int|
        0 <= i < ts.len() - 1 ==> (#[trigger] ts[i]).token != Token::Eof && ts[i].span.low
            < ts[i].span.high
    &&& forall|i: int, j: int|
        0 <= i < j < ts.len() ==> (#[trigger] ts[i]).span.high <= (#[trigger] ts[j]).span.low
}

/// The tokens to come are in order, and none begins before the position.
pub proof fn lemma_stream_ordered(s: Seq<u8>, offset: int, position: int, names: Seq<Seq<u8>>)
    requires
        0 <= position <= s.len(),
        0 <= offset,
        offset + s.len() <= usize::MAX,
        distinct(names),
    ensures
        ordered(stream(s, offset, position, names)),
        forall|i: int|
            0 <= i < stream(s, offset, position, names).len() ==> offset + position <= (
            #[trigger] stream(s, offset, position, names)[i]).span.low,
        stream(s, offset, position, names).last().span.low == offset + s.len(),
    decreases s.len() - position,
{
    let r = read(s, offset, position, names);
    let first = Lexeme { token: r.token, span: r.span, text: r.text };
    lemma_read(s, offset, position, names);
    lemma_stream(s, offset, position, names);
    lemma_trivia_bound(s, position);
    lemma_scan_bound(s, position + trivia(s, position));
    if r.token != Token::Eof {
        lemma_stream_ordered(s, offset, r.next, r.names);
        let rest = stream(s, offset, r.next, r.names);
        let all = stream(s, offset, position, names);
        assert(all == seq![first] + rest);
        assert forall|i: int, j: int| 0 <= i < j < all.len() implies (#[trigger] all[i]).span.high
            <= (#[trigger] all[j]).span.low by {
            assert(all[j] == rest[j - 1]);
            if i > 0 {
                assert(all[i] == rest[i - 1]);
            }
        }
        assert forall|i: int| 0 <= i < all.len() - 1 implies (#[trigger] all[i]).token
            != Token::Eof && all[i].span.low < all[i].span.high by {
            if i > 0 {
                assert(all[i] == rest[i - 1]);
            }
        }
        assert(all.last() == rest.last());
        assert forall|i: int| 0 <= i < all.len() implies offset + position <= (
        #[trigger] all[i]).span.low by {
            if i > 0 {
                assert(all[i] == rest[i - 1]);
            }
        }
    } else {
        assert(r.text =~= Seq::<u8>::empty());
    }
}

/// Once the lexer has yielded `Eof`, the tokens to come are what they were:
/// that `Eof`.
pub proof fn lemma_stream_end(s: Seq<u8>, offset: int, position: int, names: Seq<Seq<u8>>)
    requires
        0 <= position <= s.len(),
        0 <= offset,
        offset + s.len() <= usize::MAX,
        distinct(names),
        read(s, offset, position, names).token == Token::Eof,
    ensures
        stream(s, offset, s.len() as int, names) == stream(s, offset, position, names),
{
    lemma_read(s, offset, position, names);
    lemma_stream(s, offset, position, names);
    lemma_trivia_bound(s, position);
    lemma_scan_bound(s, position + trivia(s, position));
    lemma_read(s, offset, s.len() as int, names);
    lemma_stream(s, offset, s.len() as int, names);
    lemma_scan_bound(s, s.len() as int);
    let a = read(s, offset, position, names);
    let b = read(s, offset, s.len() as int, names);
    assert(trivia(s, s.len() as int) == 0);
    assert(position + trivia(s, position) == s.len());
    assert(a.text =~= b.text);
}

pub fn class_has(c: Class, b: u8) -> (r: bool)
    ensures
        r == in_class(c, b),
{
    match c {
        Class::Space => b == SPACE || b == TAB || b == NEWLINE || b == RETURN,
        Class::Digit => 48 <= b && b <= 57,
        Class::Hex => (48 <= b && b <= 57) || (65 <= b && b <= 70) || (97 <= b && b <= 102),
        Class::Word => (65 <= b && b <= 90) || (97 <= b && b <= 122) || b == UNDERSCORE || (48 <= b
            && b <= 57),
        Class::Line => b != NEWLINE,
        Class::Not(x) => b != x,
    }
}

/// The length of the run of bytes of class `c` at offset `i`.
pub fn scan_run(s: &[u8], i: usize, c: Class) -> (n: usize)
    requires
        i <= s@.len(),
    ensures
        n == run(s@, i as int, c),
        i + n <= s@.len(),
{
    let mut j: usize = i;
    while j < s.len() && class_has(c, s[j])
        invariant
            i <= j <= s@.len(),
            run(s@, i as int, c) == (j - i) + run(s@, j as int, c),
        decreases s@.len() - j,
    {
        j = j + 1;
    }
    j - i
}

/// The length of what is left of a block comment at offset `i`.
pub fn scan_comment(s: &[u8], i: usize) -> (n: usize)
    requires
        i <= s@.len(),
    ensures
        n == comment_rest(s@, i as int),
        i + n <= s@.len(),
{
    let mut j: usize = i;
    while j < s.len()
        invariant
            i <= j <= s@.len(),
            comment_rest(s@, i as int) == (j - i) + comment_rest(s@, j as int),
        decreases s@.len() - j,
    {
        if s[j] == STAR && j + 1 < s.len() && s[j + 1] == SLASH {
            return j - i + 2;
        }
        j = j + 1;
    }
    j - i
}

/// The length of the white space and comments at offset `i`.
pub fn skip_trivia(s: &[u8], i: usize) -> (n: usize)
    requires
        i <= s@.len(),
    ensures
        n == trivia(s@, i as int),
        i + n <= s@.len(),
{
    let mut j: usize = i;
    while j < s.len()
        invariant
            i <= j <= s@.len(),
            trivia(s@, i as int) == (j - i) + trivia(s@, j as int),
        decreases s@.len() - j,
    {
        let b = s[j];
        if class_has(Class::Space, b) {
            j = j + 1;
        } else if b == SLASH && j + 1 < s.len() && s[j + 1] == SLASH {
            let n = scan_run(s, j + 2, Class::Line);
            j = j + 2 + n;
        } else if b == SLASH && j + 1 < s.len() && s[j + 1] == STAR {
            let n = scan_comment(s, j + 2);
            j = j + 2 + n;
        } else {
            return j - i;
        }
    }
    j - i
}

/// The keyword that a word stands for, whatever the case of its letters.
pub fn find_keyword(word: &[u8]) -> (r: Option<Keyword>)
    ensures
        r == keyword_of(word@),
{
    let mut low: Vec<u8> = Vec::new();
    let mut i: usize = 0;
    while i < word.len()
        invariant
            i <= word@.len(),
            low@.len() == i,
            forall|j: int| 0 <= j < i ==> low@[j] == lower(word@[j]),
        decreases word@.len() - i,
    {
        let b = word[i];
        low.push(if 65 <= b && b <= 90 { b + 32 } else { b });
        i = i + 1;
    }
    assert(low@ =~= lowered(word@));
    let mut k: usize = 0;
    while k < KEYWORDS
        invariant
            k <= KEYWORDS,
            low@ == lowered(word@),
            keyword_of(word@) == keyword_from(low@, k as nat),
        decreases KEYWORDS - k,
    {
        let keyword = Keyword::from_ordinal(k);
        if bytes_eq(keyword.text(), low.as_slice()) {
            return Some(keyword);
        }
        k = k + 1;
    }
    None
}

pub fn double_token(a: u8, b: u8) -> (r: Option<Token>)
    ensures
        r == double(a, b),
{
    if b == 61 {
        if a == 58 {
            Some(Token::ColonEq)
        } else if a == 61 {
            Some(Token::EqEq)
        } else if a == 33 {
            Some(Token::Ne)
        } else if a == 60 {
            Some(Token::Le)
        } else if a == 62 {
            Some(Token::Ge)
        } else if a == 43 {
            Some(Token::BinOpEq(BinOp::Plus))
        } else if a == 45 {
            Some(Token::BinOpEq(BinOp::Minus))
        } else if a == 42 {
            Some(Token::BinOpEq(BinOp::Star))
        } else if a == 47 {
            Some(Token::BinOpEq(BinOp::Slash))
        } else if a == 38 {
            Some(Token::BinOpEq(BinOp::Ampersand))
        } else if a == 124 {
            Some(Token::BinOpEq(BinOp::Pipe))
        } else if a == 94 {
            Some(Token::BinOpEq(BinOp::Caret))
        } else {
            None
        }
    } else if a == 60 && b == 62 {
        Some(Token::LtGt)
    } else if a == 60 && b == 60 {
        Some(Token::Shl)
    } else if a == 62 && b == 62 {
        Some(Token::Shr)
    } else if a == 38 && b == 38 {
        Some(Token::And)
    } else if a == 124 && b == 124 {
        Some(Token::Or)
    } else if a == 94 && b == 94 {
        Some(Token::Xor)
    } else {
        None
    }
}

pub fn single_token(a: u8) -> (r: Token)
    ensures
        r == single(a),
{
    if a == 46 {
        Token::Dot
    } else if a == 44 {
        Token::Comma
    } else if a == 59 {
        Token::Semicolon
    } else if a == 58 {
        Token::Colon
    } else if a == 61 {
        Token::Eq
    } else if a == 60 {
        Token::Lt
    } else if a == 62 {
        Token::Gt
    } else if a == 33 {
        Token::Bang
    } else if a == 126 {
        Token::Tilde
    } else if a == 43 {
        Token::BinOp(BinOp::Plus)
    } else if a == 45 {
        Token::BinOp(BinOp::Minus)
    } else if a == 42 {
        Token::BinOp(BinOp::Star)
    } else if a == 47 {
        Token::BinOp(BinOp::Slash)
    } else if a == 38 {
        Token::BinOp(BinOp::Ampersand)
    } else if a == 124 {
        Token::BinOp(BinOp::Pipe)
    } else if a == 94 {
        Token::BinOp(BinOp::Caret)
    } else if a == 123 {
        Token::OpenDelim(Delim::Brace)
    } else if a == 40 {
        Token::OpenDelim(Delim::Paren)
    } else if a == 91 {
        Token::OpenDelim(Delim::Bracket)
    } else if a == 125 {
        Token::CloseDelim(Delim::Brace)
    } else if a == 41 {
        Token::CloseDelim(Delim::Paren)
    } else if a == 93 {
        Token::CloseDelim(Delim::Bracket)
    } else {
        Token::Unknown(a)
    }
}

/// The lexer of one source text. It holds the interner while it reads, and
/// gives it back with `into_interner`.
pub struct Lexer<'s> {
    source: &'s [u8],
    offset: usize,
    position: usize,
    interner: Interner,
}

impl<'s> Lexer<'s> {
    /// The source bytes.
    pub closed spec fn source(&self) -> Seq<u8> {
        self.source@
    }

    /// The absolute offset of the first source byte.
    pub closed spec fn offset(&self) -> int {
        self.offset as int
    }

    /// The offset in the source at which the next token is looked for.
    pub closed spec fn position(&self) -> int {
        self.position as int
    }

    /// The names that the interner holds.
    pub closed spec fn names(&self) -> Seq<Seq<u8>> {
        self.interner@
    }

    /// The position is within the source, every absolute offset fits the
    /// machine word, and the interner is well formed.
    pub closed spec fn wf(&self) -> bool {
        &&& self.position <= self.source@.len()
        &&& self.offset + self.source@.len() <= usize::MAX
        &&& self.interner.wf()
    }

    /// The tokens that are still to come, up to and with the first `Eof`.
    pub open spec fn upcoming(&self) -> Seq<Lexeme> {
        stream(self.source(), self.offset(), self.position(), self.names())
    }

    /// What the next call of `read_token` yields.
    pub open spec fn next(&self) -> Read {
        read(self.source(), self.offset(), self.position(), self.names())
    }

    /// A lexer at the start of `source`, whose first byte has the absolute
    /// offset `offset`.
    pub fn new(source: &'s [u8], offset: usize, interner: Interner) -> (r: Lexer<'s>)
        requires
            offset + source@.len() <= usize::MAX,
            interner.wf(),
        ensures
            r.wf(),
            r.source() == source@,
            r.offset() == offset,
            r.position() == 0,
            r.names() == interner@,
    {
        Lexer { source, offset, position: 0, interner }
    }

    /// Gives the interner back.
    pub fn into_interner(self) -> (r: Interner)
        requires
            self.wf(),
        ensures
            r.wf(),
            r@ == self.names(),
    {
        self.interner
    }

    /// The interner, to look names up.
    pub fn interner(&self) -> (r: &Interner)
        requires
            self.wf(),
        ensures
            r.wf(),
            r@ == self.names(),
    {
        &self.interner
    }

    /// What holds of a well-formed lexer and of its next step.
    pub proof fn lemma_next(&self)
        requires
            self.wf(),
        ensures
            distinct(self.names()),
            has_keywords(self.names()),
            self.names().len() <= usize::MAX,
            0 <= self.position() <= self.source().len(),
            0 <= self.offset(),
            self.offset() + self.source().len() <= usize::MAX,
    {
    }

    /// Skips white space and comments and reads one token. At the end of the
    /// source this is `Eof`, again and again.
    pub fn read_token(&mut self) -> (r: (Token, Span))
        requires
            old(self).wf(),
        ensures
            final(self).wf(),
            final(self).source() == old(self).source(),
            final(self).offset() == old(self).offset(),
            r.0 == old(self).next().token,
            r.1 == old(self).next().span,
            final(self).position() == old(self).next().next,
            final(self).names() == old(self).next().names,
    {
        let s = self.source;
        let ghost names = self.interner@;
        proof {
            lemma_read(s@, self.offset as int, self.position as int, names);
            lemma_trivia_bound(s@, self.position as int);
            lemma_scan_bound(s@, self.position + trivia(s@, self.position as int));
        }
        let start = self.position + skip_trivia(s, self.position);
        if start >= s.len() {
            self.position = start;
            return (Token::Eof, Span { low: self.offset + start, high: self.offset + start });
        }
        let b = s[start];
        let mut n: usize = 1;
        let token = if (65 <= b && b <= 90) || (97 <= b && b <= 122) || b == UNDERSCORE {
            n = scan_run(s, start, Class::Word);
            let word = slice_subrange(s, start, start + n);
            match find_keyword(word) {
                Some(k) => Token::Keyword(k),
                None => Token::Ident(self.interner.intern(word)),
            }
        } else if 48 <= b && b <= 57 {
            n = scan_run(s, start, Class::Digit);
            if start + n < s.len() && s.len() - (start + n) > 1 && s[start + n] == DOT && class_has(
                Class::Digit,
                s[start + n + 1],
            ) {
                n = n + 1 + scan_run(s, start + n + 1, Class::Digit);
            }
            Token::Real(self.interner.intern(slice_subrange(s, start, start + n)))
        } else if b == DOLLAR {
            n = 1 + scan_run(s, start + 1, Class::Hex);
            Token::Real(self.interner.intern(slice_subrange(s, start, start + n)))
        } else if b == DOUBLE_QUOTE || b == SINGLE_QUOTE {
            let m = scan_run(s, start + 1, Class::Not(b));
            if start + 1 + m < s.len() {
                n = m + 2;
                Token::String(self.interner.intern(slice_subrange(s, start + 1, start + 1 + m)))
            } else {
                n = 1 + scan_run(s, start + 1, Class::Line);
                Token::Unterminated
            }
        } else {
            let pair = if start + 1 < s.len() {
                double_token(b, s[start + 1])
            } else {
                None
            };
            match pair {
                Some(t) => {
                    n = 2;
                    t
                },
                None => single_token(b),
            }
        };
        self.position = start + n;
        (token, Span { low: self.offset + start, high: self.offset + start + n })
    }
}

} // verus!
