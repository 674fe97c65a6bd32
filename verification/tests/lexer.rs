use gml::front::lexer::Lexer;
use gml::front::token::{BinOp, Delim, Token};
use gml::front::Span;
use gml::symbol::{Interner, Keyword};

fn tokens(source: &[u8], offset: usize) -> (Vec<(Token, Span)>, Interner) {
    let mut reader = Lexer::new(source, offset, Interner::new());
    let mut all = Vec::new();
    loop {
        let (token, span) = reader.read_token();
        all.push((token, span));
        if token == Token::Eof {
            break;
        }
    }
    (all, reader.into_interner())
}

fn kinds(source: &[u8]) -> Vec<Token> {
    tokens(source, 0).0.into_iter().map(|(token, _)| token).collect()
}

#[test]
fn lexes_names_numbers_and_comments() {
    let (all, interner) = tokens(b"x = 3.5 // c\n y", 0);
    let x = interner.get(b"x").unwrap();
    let y = interner.get(b"y").unwrap();
    let number = interner.get(b"3.5").unwrap();
    assert_eq!(all, vec![
        (Token::Ident(x), Span { low: 0, high: 1 }),
        (Token::Eq, Span { low: 2, high: 3 }),
        (Token::Real(number), Span { low: 4, high: 7 }),
        (Token::Ident(y), Span { low: 14, high: 15 }),
        (Token::Eof, Span { low: 15, high: 15 }),
    ]);
}

#[test]
fn spans_start_at_the_given_offset() {
    let (all, _) = tokens(b"a.b", 100);
    let spans: Vec<Span> = all.iter().map(|&(_, span)| span).collect();
    assert_eq!(spans, vec![
        Span { low: 100, high: 101 },
        Span { low: 101, high: 102 },
        Span { low: 102, high: 103 },
        Span { low: 103, high: 103 },
    ]);
}

#[test]
fn yields_eof_again_and_again() {
    let mut reader = Lexer::new(b"  /* nothing */ ", 0, Interner::new());
    let end = Span { low: 16, high: 16 };
    assert_eq!(reader.read_token(), (Token::Eof, end));
    assert_eq!(reader.read_token(), (Token::Eof, end));
    assert_eq!(reader.read_token(), (Token::Eof, end));
}

#[test]
fn block_comments_do_not_nest() {
    assert_eq!(kinds(b"/* a /* b */ */"), vec![
        Token::BinOp(BinOp::Star),
        Token::BinOp(BinOp::Slash),
        Token::Eof,
    ]);
    assert_eq!(kinds(b"/* never closed"), vec![Token::Eof]);
}

#[test]
fn keywords_are_told_whatever_their_case() {
    assert_eq!(kinds(b"if IF If begin END Div mod"), vec![
        Token::Keyword(Keyword::If),
        Token::Keyword(Keyword::If),
        Token::Keyword(Keyword::If),
        Token::Keyword(Keyword::Begin),
        Token::Keyword(Keyword::End),
        Token::Keyword(Keyword::Div),
        Token::Keyword(Keyword::Mod),
        Token::Eof,
    ]);
    let (all, interner) = tokens(b"iffy _if", 0);
    assert_eq!(all[0].0, Token::Ident(interner.get(b"iffy").unwrap()));
    assert_eq!(all[1].0, Token::Ident(interner.get(b"_if").unwrap()));
}

#[test]
fn operators_take_the_longest_match() {
    assert_eq!(kinds(b"<<= <= < <> := : == = != ! && & || | ^^ ^ >> >= > ~"), vec![
        Token::Shl,
        Token::Eq,
        Token::Le,
        Token::Lt,
        Token::LtGt,
        Token::ColonEq,
        Token::Colon,
        Token::EqEq,
        Token::Eq,
        Token::Ne,
        Token::Bang,
        Token::And,
        Token::BinOp(BinOp::Ampersand),
        Token::Or,
        Token::BinOp(BinOp::Pipe),
        Token::Xor,
        Token::BinOp(BinOp::Caret),
        Token::Shr,
        Token::Ge,
        Token::Gt,
        Token::Tilde,
        Token::Eof,
    ]);
    assert_eq!(kinds(b"+= -= *= /= &= |= ^= + - * /"), vec![
        Token::BinOpEq(BinOp::Plus),
        Token::BinOpEq(BinOp::Minus),
        Token::BinOpEq(BinOp::Star),
        Token::BinOpEq(BinOp::Slash),
        Token::BinOpEq(BinOp::Ampersand),
        Token::BinOpEq(BinOp::Pipe),
        Token::BinOpEq(BinOp::Caret),
        Token::BinOp(BinOp::Plus),
        Token::BinOp(BinOp::Minus),
        Token::BinOp(BinOp::Star),
        Token::BinOp(BinOp::Slash),
        Token::Eof,
    ]);
    assert_eq!(kinds(b"{}()[].,;"), vec![
        Token::OpenDelim(Delim::Brace),
        Token::CloseDelim(Delim::Brace),
        Token::OpenDelim(Delim::Paren),
        Token::CloseDelim(Delim::Paren),
        Token::OpenDelim(Delim::Bracket),
        Token::CloseDelim(Delim::Bracket),
        Token::Dot,
        Token::Comma,
        Token::Semicolon,
        Token::Eof,
    ]);
}

#[test]
fn numbers_are_digits_a_fraction_or_hexadecimal() {
    let (all, interner) = tokens(b"12 3.25 4. .5 $1aF $", 0);
    let text = |i: usize| match all[i].0 {
        Token::Real(symbol) => interner.name(symbol).to_vec(),
        other => panic!("no number: {:?}", other),
    };
    assert_eq!(text(0), b"12");
    assert_eq!(text(1), b"3.25");
    assert_eq!(text(2), b"4");
    assert_eq!(all[3].0, Token::Dot);
    assert_eq!(all[4].0, Token::Dot);
    assert_eq!(text(5), b"5");
    assert_eq!(text(6), b"$1aF");
    assert_eq!(text(7), b"$");
    assert_eq!(all[8].0, Token::Eof);
}

#[test]
fn strings_hold_their_contents_without_escapes() {
    let (all, interner) = tokens(b"\"a'b\" 'c\"d\\' \"\"", 0);
    let contents = |i: usize| match all[i].0 {
        Token::String(symbol) => interner.name(symbol).to_vec(),
        other => panic!("no string: {:?}", other),
    };
    assert_eq!(contents(0), b"a'b");
    assert_eq!(all[0].1, Span { low: 0, high: 5 });
    assert_eq!(contents(1), b"c\"d\\");
    assert_eq!(contents(2), b"");
    assert_eq!(all[3].0, Token::Eof);
}

#[test]
fn an_unterminated_string_runs_to_the_end_of_the_line() {
    let (all, interner) = tokens(b"x = \"abc\ny", 0);
    assert_eq!(all[2], (Token::Unterminated, Span { low: 4, high: 8 }));
    assert_eq!(all[3].0, Token::Ident(interner.get(b"y").unwrap()));
    assert_eq!(all[3].1, Span { low: 9, high: 10 });
}

#[test]
fn a_byte_that_begins_no_token_is_unknown() {
    assert_eq!(kinds(b"a @ b")[1], Token::Unknown(b'@'));
    assert_eq!(kinds(b"#")[0], Token::Unknown(b'#'));
}

#[test]
fn token_texts_are_their_spellings() {
    let mut interner = Interner::new();
    let name = interner.intern(b"speed");
    let plain = interner.intern(b"it's");
    let quoted = interner.intern(b"say \"hi\"");
    assert_eq!(Token::Ident(name).text(&interner), b"speed");
    assert_eq!(Token::Real(name).text(&interner), b"speed");
    assert_eq!(Token::String(plain).text(&interner), b"\"it's\"");
    assert_eq!(Token::String(quoted).text(&interner), b"'say \"hi\"'");
    assert_eq!(Token::Keyword(Keyword::GlobalVar).text(&interner), b"globalvar");
    assert_eq!(Token::BinOpEq(BinOp::Caret).text(&interner), b"^=");
    assert_eq!(Token::CloseDelim(Delim::Bracket).text(&interner), b"]");
    assert_eq!(Token::Unknown(b'@').text(&interner), b"@");
    assert_eq!(Token::Eof.text(&interner), b"end of input");
}

/// Lexing, formatting token by token and lexing again gives the same
/// tokens.
#[test]
fn formatted_tokens_lex_to_themselves() {
    let source: &[u8] = b"{ IF (a.b[3, $ff] >= 2.50) then c := 'say \"x\"' else d <> \"it's\" \
        /* note */ while not done do begin n -= 1; end // tail\n return -n div 2 }";
    let (first, interner) = tokens(source, 0);
    let mut text: Vec<u8> = Vec::new();
    for &(token, _) in first.iter() {
        if token != Token::Eof {
            text.extend_from_slice(&token.text(&interner));
            text.push(b' ');
        }
    }
    let names = interner.len();
    let mut reader = Lexer::new(&text, 0, interner);
    for &(token, _) in first.iter() {
        assert_eq!(reader.read_token().0, token);
    }
    assert_eq!(reader.into_interner().len(), names);
}
