//! Lexing the text of a token gives the token back.
//!
//! The text of a token is what `Token::spec_text` gives: the name of an
//! identifier, the text of a numeric literal, the contents of a string
//! literal in quotes, the spelling of a keyword or of a punctuation mark.
//! Read again, alone or before a blank, with the same table of names, it
//! yields the same token with the same handle, and the table stays as it
//! is.

use vstd::prelude::*;
use vstd::string::*;
use crate::front::lexer::{
    comment_rest, in_class, is_digit, is_word_start, keyword_from, keyword_of, lemma_comment_bound,
    lemma_read, lemma_run_bound, lemma_scan_bound, lemma_stream, lemma_trivia_bound, lowered, read,
    run, scan, stream, trivia, Class, DOLLAR, Lexeme, Shape, SLASH, SPACE, STAR,
};
use crate::front::grammar::is_decimal;
use crate::front::token::{quote_for, quoted, BinOp, Delim, DOUBLE_QUOTE, SINGLE_QUOTE, Token};
use crate::symbol::{
    distinct, extends, interned, lemma_keyword_spelling, lemma_keywords_differ, lemma_lookup,
    Keyword, KEYWORDS,
};

verus! {

/// Whether a text is what the lexer takes for a word: a letter or `_`,
/// then letters, digits and `_`.
pub open spec fn is_word(text: Seq<u8>) -> bool {
    &&& text.len() >= 1
    &&& is_word_start(text[0])
    &&& forall|i: int| 0 <= i < text.len() ==> in_class(Class::Word, #[trigger] text[i])
}

/// Whether a text is what the lexer takes for a numeric literal: digits, or
/// digits, a point and digits, or `$` and hexadecimal digits.
pub open spec fn is_number(text: Seq<u8>) -> bool {
    is_decimal(text) || (text.len() >= 1 && text[0] == DOLLAR && run(text, 1, Class::Hex)
        == text.len() - 1)
}

/// Whether a token is one that the lexer yields of a well-formed source
/// text, with the names of the table: the handle is in the table, and the
/// name is a word that is no keyword, a numeric literal, or the contents
/// of a string literal, which hold at most one kind of quote.
pub open spec fn lexed(token: Token, names: Seq<Seq<u8>>) -> bool {
    match token {
        Token::Ident(s) => s.index < names.len() && is_word(names[s.index as int]) && keyword_of(
            names[s.index as int],
        ).is_none(),
        Token::Real(s) => s.index < names.len() && is_number(names[s.index as int]),
        Token::String(s) => s.index < names.len() && !(names[s.index as int].contains(
            DOUBLE_QUOTE,
        ) && names[s.index as int].contains(SINGLE_QUOTE)),
        Token::Unterminated => false,
        Token::Unknown(_) => false,
        Token::Eof => false,
        _ => true,
    }
}

/// What comes behind a token that is read again: nothing, or a blank and
/// more.
pub open spec fn parted(rest: Seq<u8>) -> bool {
    rest.len() == 0 || rest[0] == SPACE
}

/// A run is as long as the bytes of its class in a row.
pub proof fn lemma_run_is(s: Seq<u8>, i: int, c: Class, k: nat)
    requires
        0 <= i,
        i + k <= s.len(),
        forall|j: int| i <= j < i + k ==> in_class(c, #[trigger] s[j]),
        i + k == s.len() || !in_class(c, s[i + k]),
    ensures
        run(s, i, c) == k,
    decreases k,
{
    if k > 0 {
        lemma_run_is(s, i + 1, c, (k - 1) as nat);
    }
}

/// A name that a table without duplicates holds is interned as it is.
pub proof fn lemma_interned_again(names: Seq<Seq<u8>>, i: int)
    requires
        distinct(names),
        0 <= i < names.len(),
    ensures
        interned(names, names[i]) == (names, i as nat),
{
    lemma_lookup(names, names[i], 0);
}

/// The spelling of a keyword is the spelling of no keyword before it.
pub proof fn lemma_keyword_found(k: Keyword, from: nat)
    requires
        from <= k.spec_ordinal(),
    ensures
        keyword_from(k.spec_text(), from) == Some(k),
    decreases KEYWORDS - from,
{
    if from < k.spec_ordinal() {
        lemma_keywords_differ(Keyword::spec_from_ordinal(from), k);
        lemma_keyword_found(k, from + 1);
    }
}

/// A keyword's spelling is a word, in lower case, that stands for it.
pub proof fn lemma_keyword_word(k: Keyword)
    ensures
        is_word(k.spec_text()),
        keyword_of(k.spec_text()) == Some(k),
{
    lemma_keyword_spelling(k);
    let text = k.spec_text();
    assert(lowered(text) =~= text);
    lemma_keyword_found(k, 0);
}

/// A word before a blank is read as one token.
pub proof fn lemma_relex_word(word: Seq<u8>, rest: Seq<u8>)
    requires
        is_word(word),
        parted(rest),
    ensures
        trivia(word + rest, 0) == 0,
        scan(word + rest, 0) == (match keyword_of(word) {
            Some(k) => (Shape::Plain(Token::Keyword(k)), word.len()),
            None => (Shape::Word, word.len()),
        }),
{
    let s = word + rest;
    assert(s[0] == word[0]);
    assert forall|j: int| 0 <= j < word.len() implies in_class(Class::Word, #[trigger] s[j]) by {
        assert(s[j] == word[j]);
    }
    if rest.len() > 0 {
        assert(s[word.len() as int] == rest[0]);
    }
    lemma_run_is(s, 0, Class::Word, word.len());
    assert(s.subrange(0, word.len() as int) =~= word);
}

/// A run in a text is as long with more behind the text, if it ends
/// within the text or what comes behind is not of its class.
pub proof fn lemma_run_append(text: Seq<u8>, rest: Seq<u8>, i: int, c: Class)
    requires
        0 <= i <= text.len(),
        i + run(text, i, c) < text.len() || rest.len() == 0 || !in_class(c, rest[0]),
    ensures
        run(text + rest, i, c) == run(text, i, c),
{
    let s = text + rest;
    let k = run(text, i, c);
    lemma_run_bound(text, i, c);
    assert forall|j: int| i <= j < i + k implies in_class(c, #[trigger] s[j]) by {
        assert(s[j] == text[j]);
    }
    if i + k < text.len() {
        assert(s[i + k] == text[i + k]);
    } else if rest.len() > 0 {
        assert(s[i + k] == rest[0]);
    }
    lemma_run_is(s, i, c, k);
}

/// A numeric literal before a blank is read as one token.
pub proof fn lemma_relex_number(text: Seq<u8>, rest: Seq<u8>)
    requires
        is_number(text),
        parted(rest),
    ensures
        trivia(text + rest, 0) == 0,
        scan(text + rest, 0) == (Shape::Number, text.len()),
{
    let s = text + rest;
    lemma_run_bound(text, 0, Class::Digit);
    if is_decimal(text) {
        let n: int = run(text, 0, Class::Digit) as int;
        assert(is_digit(text[0]));
        assert(s[0] == text[0]);
        lemma_run_append(text, rest, 0, Class::Digit);
        if n < text.len() {
            lemma_run_bound(text, n + 1, Class::Digit);
            assert(s[n] == text[n]);
            assert(s[n + 1] == text[n + 1]);
            assert(is_digit(text[n + 1]));
            lemma_run_append(text, rest, n + 1, Class::Digit);
        } else if rest.len() > 0 {
            assert(s[n] == rest[0]);
        }
    } else {
        assert(s[0] == text[0]);
        lemma_run_append(text, rest, 1, Class::Hex);
    }
}

/// A string literal in the quote that suits its contents is read as one
/// token before a blank.
pub proof fn lemma_relex_quoted(contents: Seq<u8>, rest: Seq<u8>)
    requires
        !(contents.contains(DOUBLE_QUOTE) && contents.contains(SINGLE_QUOTE)),
        parted(rest),
    ensures
        trivia(quoted(contents) + rest, 0) == 0,
        scan(quoted(contents) + rest, 0) == (Shape::Quoted, quoted(contents).len()),
        (quoted(contents) + rest).subrange(1, quoted(contents).len() - 1) == contents,
{
    let q = quote_for(contents);
    let text = quoted(contents);
    let s = text + rest;
    assert(text.len() == contents.len() + 2);
    assert(s[0] == q);
    assert forall|j: int| 1 <= j < 1 + contents.len() implies in_class(
        Class::Not(q),
        #[trigger] s[j],
    ) by {
        assert(s[j] == contents[j - 1]);
        if contents[j - 1] == q {
            assert(contents.contains(q));
        }
    }
    assert(s[text.len() - 1] == q);
    lemma_run_is(s, 1, Class::Not(q), contents.len());
    assert(s.subrange(1, text.len() - 1) =~= contents);
}

/// Whether a token is a punctuation mark or an operator: a token whose
/// text is its spelling and which is no keyword.
pub open spec fn is_mark(token: Token) -> bool {
    match token {
        Token::Ident(_) => false,
        Token::Keyword(_) => false,
        Token::Real(_) => false,
        Token::String(_) => false,
        Token::Unterminated => false,
        Token::Unknown(_) => false,
        Token::Eof => false,
        _ => true,
    }
}

/// The spelling of a mark is read as the mark, alone or before a blank.
pub proof fn lemma_relex_mark(token: Token, rest: Seq<u8>)
    requires
        is_mark(token),
        parted(rest),
    ensures
        trivia(token.spelling().spec_bytes() + rest, 0) == 0,
        scan(token.spelling().spec_bytes() + rest, 0) == (
            Shape::Plain(token),
            token.spelling().spec_bytes().len(),
        ),
{
    let spelling = token.spelling();
    match token {
        Token::Dot => {
            reveal_strlit(".");
        },
        Token::Comma => {
            reveal_strlit(",");
        },
        Token::Semicolon => {
            reveal_strlit(";");
        },
        Token::Colon => {
            reveal_strlit(":");
        },
        Token::ColonEq => {
            reveal_strlit(":=");
        },
        Token::Eq => {
            reveal_strlit("=");
        },
        Token::EqEq => {
            reveal_strlit("==");
        },
        Token::Ne => {
            reveal_strlit("!=");
        },
        Token::LtGt => {
            reveal_strlit("<>");
        },
        Token::Lt => {
            reveal_strlit("<");
        },
        Token::Le => {
            reveal_strlit("<=");
        },
        Token::Gt => {
            reveal_strlit(">");
        },
        Token::Ge => {
            reveal_strlit(">=");
        },
        Token::Shl => {
            reveal_strlit("<<");
        },
        Token::Shr => {
            reveal_strlit(">>");
        },
        Token::And => {
            reveal_strlit("&&");
        },
        Token::Or => {
            reveal_strlit("||");
        },
        Token::Xor => {
            reveal_strlit("^^");
        },
        Token::Bang => {
            reveal_strlit("!");
        },
        Token::Tilde => {
            reveal_strlit("~");
        },
        Token::BinOp(op) => match op {
            BinOp::Plus => {
                reveal_strlit("+");
            },
            BinOp::Minus => {
                reveal_strlit("-");
            },
            BinOp::Star => {
                reveal_strlit("*");
            },
            BinOp::Slash => {
                reveal_strlit("/");
            },
            BinOp::Ampersand => {
                reveal_strlit("&");
            },
            BinOp::Pipe => {
                reveal_strlit("|");
            },
            BinOp::Caret => {
                reveal_strlit("^");
            },
        },
        Token::BinOpEq(op) => match op {
            BinOp::Plus => {
                reveal_strlit("+=");
            },
            BinOp::Minus => {
                reveal_strlit("-=");
            },
            BinOp::Star => {
                reveal_strlit("*=");
            },
            BinOp::Slash => {
                reveal_strlit("/=");
            },
            BinOp::Ampersand => {
                reveal_strlit("&=");
            },
            BinOp::Pipe => {
                reveal_strlit("|=");
            },
            BinOp::Caret => {
                reveal_strlit("^=");
            },
        },
        Token::OpenDelim(Delim::Brace) => {
            reveal_strlit("{");
        },
        Token::OpenDelim(Delim::Paren) => {
            reveal_strlit("(");
        },
        Token::OpenDelim(Delim::Bracket) => {
            reveal_strlit("[");
        },
        Token::CloseDelim(Delim::Brace) => {
            reveal_strlit("}");
        },
        Token::CloseDelim(Delim::Paren) => {
            reveal_strlit(")");
        },
        Token::CloseDelim(Delim::Bracket) => {
            reveal_strlit("]");
        },
        _ => {},
    }
    assert(is_ascii(spelling));
    is_ascii_spec_bytes(spelling);
    let text = spelling.spec_bytes();
    let s = text + rest;
    assert(1 <= text.len() <= 2);
    assert(s[0] == text[0]);
    if text.len() > 1 {
        assert(s[1] == text[1]);
    } else if rest.len() > 0 {
        assert(s[1] == rest[0]);
    }
}

/// The text of a token that the lexer yields of a well-formed source text,
/// read again alone or before a blank with the same table of names, is
/// that token, and the table stays as it is.
pub proof fn lemma_relex(token: Token, names: Seq<Seq<u8>>, rest: Seq<u8>, offset: int)
    requires
        distinct(names),
        lexed(token, names),
        parted(rest),
    ensures
        read(token.spec_text(names) + rest, offset, 0, names).token == token,
        read(token.spec_text(names) + rest, offset, 0, names).next == token.spec_text(
            names,
        ).len(),
        read(token.spec_text(names) + rest, offset, 0, names).names == names,
{
    let text = token.spec_text(names);
    let s = text + rest;
    match token {
        Token::Ident(symbol) => {
            lemma_relex_word(text, rest);
            lemma_interned_again(names, symbol.index as int);
            assert(s.subrange(0, text.len() as int) =~= text);
        },
        Token::Keyword(k) => {
            lemma_keyword_word(k);
            lemma_relex_word(text, rest);
        },
        Token::Real(symbol) => {
            lemma_relex_number(text, rest);
            lemma_interned_again(names, symbol.index as int);
            assert(s.subrange(0, text.len() as int) =~= text);
        },
        Token::String(symbol) => {
            lemma_relex_quoted(names[symbol.index as int], rest);
            lemma_interned_again(names, symbol.index as int);
        },
        _ => {
            lemma_relex_mark(token, rest);
        },
    }
}

/// A run within a part of a text is the run in the text, cut at the end
/// of the part.
pub proof fn lemma_run_part(s: Seq<u8>, a: int, b: int, i: int, c: Class)
    requires
        0 <= a <= i <= b <= s.len(),
    ensures
        run(s.subrange(a, b), i - a, c) == if i + run(s, i, c) <= b {
            run(s, i, c)
        } else {
            (b - i) as nat
        },
{
    let part = s.subrange(a, b);
    lemma_run_bound(s, i, c);
    let k: nat = if i + run(s, i, c) <= b {
        run(s, i, c)
    } else {
        (b - i) as nat
    };
    assert forall|j: int| i - a <= j < i - a + k implies in_class(c, #[trigger] part[j]) by {
        assert(part[j] == s[j + a]);
    }
    if i - a + k < part.len() {
        assert(part[i - a + k] == s[i + k]);
    }
    lemma_run_is(part, i - a, c, k);
}

/// What the lexer yields of a source text, unless it is the end of the
/// source, an unknown byte or a string literal without its closing quote,
/// is a token whose text can be read again.
pub proof fn lemma_read_lexed(s: Seq<u8>, offset: int, position: int, names: Seq<Seq<u8>>)
    requires
        0 <= position <= s.len(),
        0 <= offset,
        offset + s.len() <= usize::MAX,
        distinct(names),
        read(s, offset, position, names).names.len() <= usize::MAX,
    ensures
        ({
            let token = read(s, offset, position, names).token;
            token != Token::Eof && token != Token::Unterminated && !(token is Unknown) ==> lexed(
                token,
                read(s, offset, position, names).names,
            )
        }),
{
    lemma_read(s, offset, position, names);
    lemma_trivia_bound(s, position);
    let start = position + trivia(s, position);
    lemma_scan_bound(s, start);
    let (shape, n) = scan(s, start);
    let text = s.subrange(start, start + n);
    if start < s.len() {
        let b = s[start];
        match shape {
            Shape::Word => {
                crate::symbol::lemma_interned(names, text);
                lemma_run_bound(s, start, Class::Word);
                assert(text[0] == s[start]);
                assert forall|i: int| 0 <= i < text.len() implies in_class(
                    Class::Word,
                    #[trigger] text[i],
                ) by {
                    assert(text[i] == s[start + i]);
                }
            },
            Shape::Number => {
                crate::symbol::lemma_interned(names, text);
                if b == DOLLAR {
                    lemma_run_part(s, start, start + n, start + 1, Class::Hex);
                    assert(text[0] == s[start]);
                } else {
                    let d = run(s, start, Class::Digit);
                    lemma_run_bound(s, start, Class::Digit);
                    lemma_run_part(s, start, start + n, start, Class::Digit);
                    if n > d {
                        lemma_run_bound(s, start + d + 1, Class::Digit);
                        lemma_run_part(s, start, start + n, start + d + 1, Class::Digit);
                        assert(text[d as int] == s[start + d]);
                    }
                }
            },
            Shape::Quoted => {
                let contents = s.subrange(start + 1, start + n - 1);
                crate::symbol::lemma_interned(names, contents);
                lemma_run_bound(s, start + 1, Class::Not(b));
                if contents.contains(b) {
                    let i = choose|i: int| 0 <= i < contents.len() && contents[i] == b;
                    assert(contents[i] == s[start + 1 + i]);
                    assert(in_class(Class::Not(b), s[start + 1 + i]));
                }
            },
            Shape::Plain(token) => {},
        }
    }
}

/// Lexing followed by formatting is stable under lexing again: the text of
/// a token that the lexer yields, read again alone or before a blank, is
/// the same token with the same handle. This holds of every token but the
/// end of the source, an unknown byte and a string literal without its
/// closing quote.
pub proof fn lemma_round_trip(
    s: Seq<u8>,
    offset: int,
    position: int,
    names: Seq<Seq<u8>>,
    rest: Seq<u8>,
)
    requires
        0 <= position <= s.len(),
        0 <= offset,
        offset + s.len() <= usize::MAX,
        distinct(names),
        read(s, offset, position, names).names.len() <= usize::MAX,
        parted(rest),
        read(s, offset, position, names).token != Token::Eof,
        read(s, offset, position, names).token != Token::Unterminated,
        !(read(s, offset, position, names).token is Unknown),
    ensures
        ({
            let first = read(s, offset, position, names);
            let again = read(first.token.spec_text(first.names) + rest, 0, 0, first.names);
            &&& again.token == first.token
            &&& again.next == first.token.spec_text(first.names).len()
            &&& again.names == first.names
        }),
{
    let first = read(s, offset, position, names);
    lemma_read(s, offset, position, names);
    lemma_read_lexed(s, offset, position, names);
    lemma_relex(first.token, first.names, rest, 0);
}

/// A run does not depend on what stands before it.
pub proof fn lemma_run_skip(s: Seq<u8>, k: int, i: int, c: Class)
    requires
        0 <= k <= i <= s.len(),
    ensures
        run(s.skip(k), i - k, c) == run(s, i, c),
    decreases s.len() - i,
{
    let t = s.skip(k);
    if i < s.len() {
        assert(t[i - k] == s[i]);
        if in_class(c, s[i]) {
            lemma_run_skip(s, k, i + 1, c);
        }
    }
}

/// What is left of a block comment does not depend on what stands before
/// it.
pub proof fn lemma_comment_skip(s: Seq<u8>, k: int, i: int)
    requires
        0 <= k <= i <= s.len(),
    ensures
        comment_rest(s.skip(k), i - k) == comment_rest(s, i),
    decreases s.len() - i,
{
    let t = s.skip(k);
    if i < s.len() {
        assert(t[i - k] == s[i]);
        if i + 1 < s.len() {
            assert(t[i - k + 1] == s[i + 1]);
        }
        if !(s[i] == STAR && i + 1 < s.len() && s[i + 1] == SLASH) {
            lemma_comment_skip(s, k, i + 1);
        }
    }
}

/// White space and comments do not depend on what stands before them.
pub proof fn lemma_trivia_skip(s: Seq<u8>, k: int, i: int)
    requires
        0 <= k <= i <= s.len(),
    ensures
        trivia(s.skip(k), i - k) == trivia(s, i),
    decreases s.len() - i,
{
    let t = s.skip(k);
    if i < s.len() {
        assert(t[i - k] == s[i]);
        if i + 1 < s.len() {
            assert(t[i - k + 1] == s[i + 1]);
        }
        if in_class(Class::Space, s[i]) {
            lemma_trivia_skip(s, k, i + 1);
        } else if s[i] == SLASH && i + 1 < s.len() && s[i + 1] == SLASH {
            lemma_run_skip(s, k, i + 2, Class::Line);
            lemma_run_bound(s, i + 2, Class::Line);
            lemma_trivia_skip(s, k, i + 2 + run(s, i + 2, Class::Line));
        } else if s[i] == SLASH && i + 1 < s.len() && s[i + 1] == STAR {
            lemma_comment_skip(s, k, i + 2);
            lemma_comment_bound(s, i + 2);
            lemma_trivia_skip(s, k, i + 2 + comment_rest(s, i + 2));
        }
    }
}

/// The token at an offset does not depend on what stands before it.
pub proof fn lemma_scan_skip(s: Seq<u8>, k: int, i: int)
    requires
        0 <= k <= i <= s.len(),
    ensures
        scan(s.skip(k), i - k) == scan(s, i),
        s.skip(k).subrange(i - k, i - k + scan(s, i).1) == s.subrange(i, i + scan(s, i).1),
        scan(s, i).0 is Quoted ==> s.skip(k).subrange(i - k + 1, i - k + scan(s, i).1 - 1)
            == s.subrange(i + 1, i + scan(s, i).1 - 1),
{
    let t = s.skip(k);
    lemma_scan_bound(s, i);
    if i < s.len() {
        let b = s[i];
        assert(t[i - k] == b);
        if i + 1 < s.len() {
            assert(t[i - k + 1] == s[i + 1]);
        }
        lemma_run_skip(s, k, i, Class::Word);
        lemma_run_skip(s, k, i, Class::Digit);
        lemma_run_skip(s, k, i + 1, Class::Hex);
        lemma_run_skip(s, k, i + 1, Class::Not(b));
        lemma_run_skip(s, k, i + 1, Class::Line);
        lemma_run_bound(s, i, Class::Word);
        lemma_run_bound(s, i, Class::Digit);
        let w = run(s, i, Class::Word);
        assert(t.subrange(i - k, i - k + w) =~= s.subrange(i, i + w));
        let d = run(s, i, Class::Digit);
        if i + d + 1 < s.len() {
            assert(t[i - k + d] == s[i + d]);
            assert(t[i - k + d + 1] == s[i + d + 1]);
            lemma_run_skip(s, k, i + d + 1, Class::Digit);
        }
    }
    let n = scan(s, i).1;
    assert(t.subrange(i - k, i - k + n) =~= s.subrange(i, i + n));
    if scan(s, i).0 is Quoted {
        assert(t.subrange(i - k + 1, i - k + n - 1) =~= s.subrange(i + 1, i + n - 1));
    }
}

/// What the lexer yields at an offset does not depend on what stands
/// before it, but for the offsets.
pub proof fn lemma_read_skip(s: Seq<u8>, k: int, names: Seq<Seq<u8>>)
    requires
        0 <= k <= s.len(),
    ensures
        read(s, 0, k, names).token == read(s.skip(k), 0, 0, names).token,
        read(s, 0, k, names).names == read(s.skip(k), 0, 0, names).names,
        read(s, 0, k, names).next == k + read(s.skip(k), 0, 0, names).next,
{
    lemma_trivia_skip(s, k, k);
    lemma_trivia_bound(s, k);
    lemma_scan_skip(s, k, k + trivia(s, k));
}

/// The texts of tokens, each with a blank behind it.
pub open spec fn texts(tokens: Seq<Token>, names: Seq<Seq<u8>>) -> Seq<u8>
    decreases tokens.len(),
{
    if tokens.len() == 0 {
        Seq::empty()
    } else {
        tokens[0].spec_text(names) + seq![SPACE] + texts(tokens.skip(1), names)
    }
}

/// The tokens of a list of lexemes.
pub open spec fn tokens_of(lexemes: Seq<Lexeme>) -> Seq<Token> {
    Seq::new(lexemes.len(), |i: int| lexemes[i].token)
}

/// Where the text of a token and a blank stand at an offset of a source
/// text, the lexer yields the token there, leaves the names as they are,
/// and goes on behind the blank.
pub proof fn lemma_relex_step(
    s: Seq<u8>,
    p: int,
    token: Token,
    more: Seq<u8>,
    names: Seq<Seq<u8>>,
)
    requires
        0 <= p <= s.len() <= usize::MAX,
        distinct(names),
        lexed(token, names),
        s.skip(p) == token.spec_text(names) + seq![SPACE] + more,
    ensures
        stream(s, 0, p, names).len() == 1 + stream(
            s,
            0,
            p + token.spec_text(names).len() + 1,
            names,
        ).len(),
        stream(s, 0, p, names)[0].token == token,
        forall|i: int|
            1 <= i < stream(s, 0, p, names).len() ==> #[trigger] stream(s, 0, p, names)[i]
                == stream(s, 0, p + token.spec_text(names).len() + 1, names)[i - 1],
        s.skip(p + token.spec_text(names).len() + 1) == more,
        p + token.spec_text(names).len() + 1 <= s.len(),
{
    let text = token.spec_text(names);
    let rest = seq![SPACE] + more;
    let q = p + text.len();
    assert(s.skip(p) =~= text + rest);
    assert(rest[0] == SPACE);
    lemma_relex(token, names, rest, 0);
    lemma_read_skip(s, p, names);
    let first = read(s, 0, p, names);
    assert(first.token == token && first.next == q && first.names == names);
    assert(s.skip(p).len() == text.len() + 1 + more.len());
    assert(s[q] == SPACE) by {
        assert(s.skip(p)[text.len() as int] == s[q]);
        assert((text + rest)[text.len() as int] == rest[0]);
    }
    assert(read(s, 0, q, names) == read(s, 0, q + 1, names));
    lemma_stream(s, 0, p, names);
    lemma_stream(s, 0, q, names);
    lemma_stream(s, 0, q + 1, names);
    assert(stream(s, 0, q, names) == stream(s, 0, q + 1, names));
    assert(s.skip(q + 1) =~= more) by {
        assert forall|i: int| 0 <= i < more.len() implies s.skip(q + 1)[i] == more[i] by {
            assert(s.skip(q + 1)[i] == s.skip(p)[text.len() + 1 + i]);
            assert((text + rest)[text.len() + 1 + i] == rest[1 + i]);
        }
    }
}

/// A source text that ends in the texts of tokens, each with a blank behind
/// it, is read from where they begin as those tokens and the end.
pub proof fn lemma_relex_from(s: Seq<u8>, p: int, tokens: Seq<Token>, names: Seq<Seq<u8>>)
    requires
        0 <= p <= s.len() <= usize::MAX,
        distinct(names),
        s.skip(p) == texts(tokens, names),
        forall|i: int| 0 <= i < tokens.len() ==> lexed(#[trigger] tokens[i], names),
    ensures
        tokens_of(stream(s, 0, p, names)) == tokens.push(Token::Eof),
    decreases tokens.len(),
{
    let all = stream(s, 0, p, names);
    if tokens.len() == 0 {
        lemma_stream(s, 0, p, names);
        lemma_read(s, 0, p, names);
        lemma_read_skip(s, p, names);
        assert(s.skip(p).len() == 0);
        lemma_scan_bound(s.skip(p), 0);
        assert(tokens_of(all) =~= tokens.push(Token::Eof));
    } else {
        let token = tokens[0];
        let tail = tokens.skip(1);
        let next = p + token.spec_text(names).len() + 1;
        lemma_relex_step(s, p, token, texts(tail, names), names);
        assert forall|i: int| 0 <= i < tail.len() implies lexed(#[trigger] tail[i], names) by {
            assert(tail[i] == tokens[i + 1]);
        }
        lemma_relex_from(s, next, tail, names);
        let behind = stream(s, 0, next, names);
        assert(tokens_of(behind).len() == behind.len());
        assert(behind.len() == tail.len() + 1);
        assert forall|i: int| 0 <= i < all.len() implies tokens_of(all)[i] == tokens.push(
            Token::Eof,
        )[i] by {
            if i > 0 {
                assert(all[i] == behind[i - 1]);
                assert(tokens_of(behind)[i - 1] == behind[i - 1].token);
                assert(tokens_of(behind)[i - 1] == tail.push(Token::Eof)[i - 1]);
                if i - 1 < tail.len() {
                    assert(tail[i - 1] == tokens[i]);
                }
            }
        }
        assert(tokens_of(all) =~= tokens.push(Token::Eof));
    }
}

/// Lexing the texts of tokens, each with a blank behind it, gives the
/// tokens back: the text of tokens that the lexer yields of a well-formed
/// source text, read with the table of names that holds their names, is
/// those tokens and the end of the source.
pub proof fn lemma_texts_round_trip(tokens: Seq<Token>, names: Seq<Seq<u8>>)
    requires
        distinct(names),
        texts(tokens, names).len() <= usize::MAX,
        forall|i: int| 0 <= i < tokens.len() ==> lexed(#[trigger] tokens[i], names),
    ensures
        tokens_of(stream(texts(tokens, names), 0, 0, names)) == tokens.push(Token::Eof),
{
    let s = texts(tokens, names);
    assert(s.skip(0) =~= s);
    lemma_relex_from(s, 0, tokens, names);
}

/// The names that the table holds once the lexer has read a source text
/// from offset `position` on to its end.
pub open spec fn names_at_end(
    s: Seq<u8>,
    offset: int,
    position: int,
    names: Seq<Seq<u8>>,
) -> Seq<Seq<u8>>
    decreases
            (if 0 <= position < s.len() {
                s.len() - position
            } else {
                0
            }),
{
    let r = read(s, offset, position, names);
    if r.token == Token::Eof || r.next <= position || position < 0 || position >= s.len() {
        r.names
    } else {
        names_at_end(s, offset, r.next, r.names)
    }
}

/// A token that can be read again with a table of names can be read again
/// with any table that begins with it.
pub proof fn lemma_lexed_extends(token: Token, earlier: Seq<Seq<u8>>, later: Seq<Seq<u8>>)
    requires
        lexed(token, earlier),
        extends(later, earlier),
    ensures
        lexed(token, later),
        token.spec_text(later) == token.spec_text(earlier),
{
}

/// The tokens that the lexer yields of a source text can be read again
/// with the names that the table holds at the end, but for the end of the
/// source, unknown bytes and string literals without their closing quote.
pub proof fn lemma_stream_lexed(s: Seq<u8>, offset: int, position: int, names: Seq<Seq<u8>>)
    requires
        0 <= position <= s.len(),
        0 <= offset,
        offset + s.len() <= usize::MAX,
        distinct(names),
        names_at_end(s, offset, position, names).len() <= usize::MAX,
    ensures
        distinct(names_at_end(s, offset, position, names)),
        extends(names_at_end(s, offset, position, names), names),
        stream(s, offset, position, names).len() >= 1,
        stream(s, offset, position, names).last().token == Token::Eof,
        forall|i: int|
            0 <= i < stream(s, offset, position, names).len() - 1 ==> {
                let token = (#[trigger] stream(s, offset, position, names)[i]).token;
                token == Token::Unterminated || token is Unknown || lexed(
                    token,
                    names_at_end(s, offset, position, names),
                )
            },
    decreases s.len() - position,
{
    let r = read(s, offset, position, names);
    lemma_read(s, offset, position, names);
    lemma_stream(s, offset, position, names);
    lemma_trivia_bound(s, position);
    lemma_scan_bound(s, position + trivia(s, position));
    if r.token != Token::Eof {
        let end = names_at_end(s, offset, r.next, r.names);
        assert(names_at_end(s, offset, position, names) == end);
        lemma_stream_lexed(s, offset, r.next, r.names);
        lemma_read_lexed(s, offset, position, names);
        let all = stream(s, offset, position, names);
        let behind = stream(s, offset, r.next, r.names);
        assert(all.last() == behind.last());
        assert forall|i: int| 0 <= i < all.len() - 1 implies {
            let token = (#[trigger] all[i]).token;
            token == Token::Unterminated || token is Unknown || lexed(token, end)
        } by {
            if i == 0 {
                if !(r.token == Token::Unterminated || r.token is Unknown) {
                    lemma_lexed_extends(r.token, r.names, end);
                }
            } else {
                assert(all[i] == behind[i - 1]);
            }
        }
    }
}

/// Lexing followed by formatting is stable under lexing again. The tokens
/// of a source text in which every byte begins a token and every string
/// literal is closed, written out each with a blank behind it and read
/// with the names that the table then holds, are the same tokens, with
/// the same handles.
pub proof fn lemma_lex_format_lex(s: Seq<u8>, offset: int, names: Seq<Seq<u8>>)
    requires
        0 <= offset,
        offset + s.len() <= usize::MAX,
        distinct(names),
        names_at_end(s, offset, 0, names).len() <= usize::MAX,
        forall|i: int|
            0 <= i < stream(s, offset, 0, names).len() ==> (#[trigger] stream(
                s,
                offset,
                0,
                names,
            )[i]).token != Token::Unterminated && !(stream(s, offset, 0, names)[i].token
                is Unknown),
        texts(
            tokens_of(stream(s, offset, 0, names)).drop_last(),
            names_at_end(s, offset, 0, names),
        ).len() <= usize::MAX,
    ensures
        tokens_of(
            stream(
                texts(
                    tokens_of(stream(s, offset, 0, names)).drop_last(),
                    names_at_end(s, offset, 0, names),
                ),
                0,
                0,
                names_at_end(s, offset, 0, names),
            ),
        ) == tokens_of(stream(s, offset, 0, names)),
{
    let first = stream(s, offset, 0, names);
    let end = names_at_end(s, offset, 0, names);
    lemma_stream_lexed(s, offset, 0, names);
    let tokens = tokens_of(first).drop_last();
    assert forall|i: int| 0 <= i < tokens.len() implies lexed(#[trigger] tokens[i], end) by {
        assert(tokens[i] == first[i].token);
    }
    lemma_texts_round_trip(tokens, end);
    assert(tokens.push(Token::Eof) =~= tokens_of(first));
}

} // verus!
