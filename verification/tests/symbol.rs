use gml::symbol::{bytes_eq, Interner, Keyword, Symbol, KEYWORDS};

#[test]
fn a_new_interner_holds_the_keywords() {
    let interner = Interner::new();
    assert_eq!(interner.len(), KEYWORDS);
    for i in 0..KEYWORDS {
        let keyword = Keyword::from_ordinal(i);
        assert_eq!(keyword.ordinal(), i);
        assert_eq!(keyword.symbol(), Symbol { index: i });
        assert_eq!(interner.name(keyword.symbol()), keyword.text());
        assert_eq!(interner.get(keyword.text()), Some(keyword.symbol()));
    }
    assert_eq!(Keyword::Var.text(), b"var");
    assert_eq!(Keyword::NoOne.text(), b"noone");
    assert_eq!(Keyword::Not.ordinal(), 33);
}

#[test]
fn interning_gives_one_handle_for_one_name() {
    let mut interner = Interner::new();
    let a = interner.intern(b"a");
    let b = interner.intern(b"b");
    assert_eq!(a, Symbol { index: KEYWORDS });
    assert_eq!(b, Symbol { index: KEYWORDS + 1 });
    assert_eq!(interner.intern(b"a"), a);
    assert_eq!(interner.intern(b"var"), Keyword::Var.symbol());
    assert_eq!(interner.len(), KEYWORDS + 2);
    assert_eq!(interner.name(a), b"a");
    assert_eq!(interner.get(b"b"), Some(b));
    assert_eq!(interner.get(b"c"), None);
    assert_eq!(interner.intern(b""), Symbol { index: KEYWORDS + 2 });
}

#[test]
fn byte_strings_are_equal_when_their_bytes_are() {
    assert!(bytes_eq(b"", b""));
    assert!(bytes_eq(b"abc", b"abc"));
    assert!(!bytes_eq(b"abc", b"abd"));
    assert!(!bytes_eq(b"abc", b"ab"));
}
