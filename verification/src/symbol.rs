//! Interned byte strings.
//!
//! A [`Symbol`] is a numeric handle for a byte string held by an
//! [`Interner`]. The reserved words of the language are seeded when the
//! interner is made, so a keyword's handle is its ordinal.

use vstd::prelude::*;
use vstd::string::*;

verus! {

/// A handle for an interned byte string.
#[derive(Clone, Copy, Debug, PartialEq, Eq, Hash, Structural)]
pub struct Symbol {
    pub index: usize,
}

/// The reserved words.
#[derive(Clone, Copy, Debug, PartialEq, Eq, Hash, Structural)]
pub enum Keyword {
    Var,
    GlobalVar,
    Begin,
    End,
    If,
    Then,
    Else,
    Repeat,
    While,
    With,
    Do,
    Until,
    For,
    Switch,
    Case,
    Default,
    Break,
    Continue,
    Exit,
    Return,
    True,
    False,
    Self_,
    Other,
    All,
    NoOne,
    Global,
    Local,
    Div,
    Mod,
    And,
    Or,
    Xor,
    Not,
}

/// How many reserved words there are.
pub const KEYWORDS: usize = 34;

impl Keyword {
    /// The position of the keyword in the list of reserved words.
    pub open spec fn spec_ordinal(self) -> nat {
        match self {
            Keyword::Var => 0,
            Keyword::GlobalVar => 1,
            Keyword::Begin => 2,
            Keyword::End => 3,
            Keyword::If => 4,
            Keyword::Then => 5,
            Keyword::Else => 6,
            Keyword::Repeat => 7,
            Keyword::While => 8,
            Keyword::With => 9,
            Keyword::Do => 10,
            Keyword::Until => 11,
            Keyword::For => 12,
            Keyword::Switch => 13,
            Keyword::Case => 14,
            Keyword::Default => 15,
            Keyword::Break => 16,
            Keyword::Continue => 17,
            Keyword::Exit => 18,
            Keyword::Return => 19,
            Keyword::True => 20,
            Keyword::False => 21,
            Keyword::Self_ => 22,
            Keyword::Other => 23,
            Keyword::All => 24,
            Keyword::NoOne => 25,
            Keyword::Global => 26,
            Keyword::Local => 27,
            Keyword::Div => 28,
            Keyword::Mod => 29,
            Keyword::And => 30,
            Keyword::Or => 31,
            Keyword::Xor => 32,
            Keyword::Not => 33,
        }
    }

    /// The keyword at a position of the list; past its end, the last one.
    pub open spec fn spec_from_ordinal(i: nat) -> Keyword {
        if i == 0 {
            Keyword::Var
        } else if i == 1 {
            Keyword::GlobalVar
        } else if i == 2 {
            Keyword::Begin
        } else if i == 3 {
            Keyword::End
        } else if i == 4 {
            Keyword::If
        } else if i == 5 {
            Keyword::Then
        } else if i == 6 {
            Keyword::Else
        } else if i == 7 {
            Keyword::Repeat
        } else if i == 8 {
            Keyword::While
        } else if i == 9 {
            Keyword::With
        } else if i == 10 {
            Keyword::Do
        } else if i == 11 {
            Keyword::Until
        } else if i == 12 {
            Keyword::For
        } else if i == 13 {
            Keyword::Switch
        } else if i == 14 {
            Keyword::Case
        } else if i == 15 {
            Keyword::Default
        } else if i == 16 {
            Keyword::Break
        } else if i == 17 {
            Keyword::Continue
        } else if i == 18 {
            Keyword::Exit
        } else if i == 19 {
            Keyword::Return
        } else if i == 20 {
            Keyword::True
        } else if i == 21 {
            Keyword::False
        } else if i == 22 {
            Keyword::Self_
        } else if i == 23 {
            Keyword::Other
        } else if i == 24 {
            Keyword::All
        } else if i == 25 {
            Keyword::NoOne
        } else if i == 26 {
            Keyword::Global
        } else if i == 27 {
            Keyword::Local
        } else if i == 28 {
            Keyword::Div
        } else if i == 29 {
            Keyword::Mod
        } else if i == 30 {
            Keyword::And
        } else if i == 31 {
            Keyword::Or
        } else if i == 32 {
            Keyword::Xor
        } else {
            Keyword::Not
        }
    }

    /// The spelling of the keyword, in lower case.
    pub open spec fn spelling(self) -> &'static str {
        match self {
            Keyword::Var => "var",
            Keyword::GlobalVar => "globalvar",
            Keyword::Begin => "begin",
            Keyword::End => "end",
            Keyword::If => "if",
            Keyword::Then => "then",
            Keyword::Else => "else",
            Keyword::Repeat => "repeat",
            Keyword::While => "while",
            Keyword::With => "with",
            Keyword::Do => "do",
            Keyword::Until => "until",
            Keyword::For => "for",
            Keyword::Switch => "switch",
            Keyword::Case => "case",
            Keyword::Default => "default",
            Keyword::Break => "break",
            Keyword::Continue => "continue",
            Keyword::Exit => "exit",
            Keyword::Return => "return",
            Keyword::True => "true",
            Keyword::False => "false",
            Keyword::Self_ => "self",
            Keyword::Other => "other",
            Keyword::All => "all",
            Keyword::NoOne => "noone",
            Keyword::Global => "global",
            Keyword::Local => "local",
            Keyword::Div => "div",
            Keyword::Mod => "mod",
            Keyword::And => "and",
            Keyword::Or => "or",
            Keyword::Xor => "xor",
            Keyword::Not => "not",
        }
    }

    /// The bytes of the keyword's spelling.
    pub open spec fn spec_text(self) -> Seq<u8> {
        self.spelling().spec_bytes()
    }

    /// The handle that every interner gives the keyword.
    pub open spec fn spec_symbol(self) -> Symbol {
        Symbol { index: self.spec_ordinal() as usize }
    }

    pub fn ordinal(self) -> (r: usize)
        ensures
            r == self.spec_ordinal(),
            r < KEYWORDS,
    {
        match self {
            Keyword::Var => 0,
            Keyword::GlobalVar => 1,
            Keyword::Begin => 2,
            Keyword::End => 3,
            Keyword::If => 4,
            Keyword::Then => 5,
            Keyword::Else => 6,
            Keyword::Repeat => 7,
            Keyword::While => 8,
            Keyword::With => 9,
            Keyword::Do => 10,
            Keyword::Until => 11,
            Keyword::For => 12,
            Keyword::Switch => 13,
            Keyword::Case => 14,
            Keyword::Default => 15,
            Keyword::Break => 16,
            Keyword::Continue => 17,
            Keyword::Exit => 18,
            Keyword::Return => 19,
            Keyword::True => 20,
            Keyword::False => 21,
            Keyword::Self_ => 22,
            Keyword::Other => 23,
            Keyword::All => 24,
            Keyword::NoOne => 25,
            Keyword::Global => 26,
            Keyword::Local => 27,
            Keyword::Div => 28,
            Keyword::Mod => 29,
            Keyword::And => 30,
            Keyword::Or => 31,
            Keyword::Xor => 32,
            Keyword::Not => 33,
        }
    }

    pub fn from_ordinal(i: usize) -> (k: Keyword)
        requires
            i < KEYWORDS,
        ensures
            k == Self::spec_from_ordinal(i as nat),
            k.spec_ordinal() == i,
    {
        if i == 0 {
            Keyword::Var
        } else if i == 1 {
            Keyword::GlobalVar
        } else if i == 2 {
            Keyword::Begin
        } else if i == 3 {
            Keyword::End
        } else if i == 4 {
            Keyword::If
        } else if i == 5 {
            Keyword::Then
        } else if i == 6 {
            Keyword::Else
        } else if i == 7 {
            Keyword::Repeat
        } else if i == 8 {
            Keyword::While
        } else if i == 9 {
            Keyword::With
        } else if i == 10 {
            Keyword::Do
        } else if i == 11 {
            Keyword::Until
        } else if i == 12 {
            Keyword::For
        } else if i == 13 {
            Keyword::Switch
        } else if i == 14 {
            Keyword::Case
        } else if i == 15 {
            Keyword::Default
        } else if i == 16 {
            Keyword::Break
        } else if i == 17 {
            Keyword::Continue
        } else if i == 18 {
            Keyword::Exit
        } else if i == 19 {
            Keyword::Return
        } else if i == 20 {
            Keyword::True
        } else if i == 21 {
            Keyword::False
        } else if i == 22 {
            Keyword::Self_
        } else if i == 23 {
            Keyword::Other
        } else if i == 24 {
            Keyword::All
        } else if i == 25 {
            Keyword::NoOne
        } else if i == 26 {
            Keyword::Global
        } else if i == 27 {
            Keyword::Local
        } else if i == 28 {
            Keyword::Div
        } else if i == 29 {
            Keyword::Mod
        } else if i == 30 {
            Keyword::And
        } else if i == 31 {
            Keyword::Or
        } else if i == 32 {
            Keyword::Xor
        } else {
            Keyword::Not
        }
    }

    /// The spelling of the keyword as bytes.
    pub fn text(self) -> (r: &'static [u8])
        ensures
            r@ == self.spec_text(),
    {
        match self {
            Keyword::Var => "var".as_bytes(),
            Keyword::GlobalVar => "globalvar".as_bytes(),
            Keyword::Begin => "begin".as_bytes(),
            Keyword::End => "end".as_bytes(),
            Keyword::If => "if".as_bytes(),
            Keyword::Then => "then".as_bytes(),
            Keyword::Else => "else".as_bytes(),
            Keyword::Repeat => "repeat".as_bytes(),
            Keyword::While => "while".as_bytes(),
            Keyword::With => "with".as_bytes(),
            Keyword::Do => "do".as_bytes(),
            Keyword::Until => "until".as_bytes(),
            Keyword::For => "for".as_bytes(),
            Keyword::Switch => "switch".as_bytes(),
            Keyword::Case => "case".as_bytes(),
            Keyword::Default => "default".as_bytes(),
            Keyword::Break => "break".as_bytes(),
            Keyword::Continue => "continue".as_bytes(),
            Keyword::Exit => "exit".as_bytes(),
            Keyword::Return => "return".as_bytes(),
            Keyword::True => "true".as_bytes(),
            Keyword::False => "false".as_bytes(),
            Keyword::Self_ => "self".as_bytes(),
            Keyword::Other => "other".as_bytes(),
            Keyword::All => "all".as_bytes(),
            Keyword::NoOne => "noone".as_bytes(),
            Keyword::Global => "global".as_bytes(),
            Keyword::Local => "local".as_bytes(),
            Keyword::Div => "div".as_bytes(),
            Keyword::Mod => "mod".as_bytes(),
            Keyword::And => "and".as_bytes(),
            Keyword::Or => "or".as_bytes(),
            Keyword::Xor => "xor".as_bytes(),
            Keyword::Not => "not".as_bytes(),
        }
    }

    /// The handle that every interner gives the keyword.
    pub fn symbol(self) -> (s: Symbol)
        ensures
            s == self.spec_symbol(),
    {
        Symbol { index: self.ordinal() }
    }
}

/// A number that tells the spellings of any two keywords apart: the length
/// and the first three bytes.
pub open spec fn signature(text: Seq<u8>) -> int {
    let a: int = if text.len() > 0 { text[0] as int } else { 0 };
    let b: int = if text.len() > 1 { text[1] as int } else { 0 };
    let c: int = if text.len() > 2 { text[2] as int } else { 0 };
    ((text.len() * 256 + a) * 256 + b) * 256 + c
}

/// The signature of each keyword's spelling.
pub open spec fn keyword_signature(k: Keyword) -> int {
    match k {
        Keyword::Var => 58089842,
        Keyword::GlobalVar => 157772911,
        Keyword::Begin => 90334567,
        Keyword::End => 56979044,
        Keyword::If => 40461824,
        Keyword::Then => 74737765,
        Keyword::Else => 73755763,
        Keyword::Repeat => 108160368,
        Keyword::While => 91711593,
        Keyword::With => 74934644,
        Keyword::Do => 40136448,
        Keyword::Until => 91582068,
        Keyword::For => 57044850,
        Keyword::Switch => 108230505,
        Keyword::Case => 73621875,
        Keyword::Default => 124020070,
        Keyword::Break => 90337893,
        Keyword::Continue => 140734318,
        Keyword::Exit => 73758825,
        Keyword::Return => 108160372,
        Keyword::True => 74740341,
        Keyword::False => 90595692,
        Keyword::Self_ => 74671468,
        Keyword::Other => 91190376,
        Keyword::All => 56716396,
        Keyword::NoOne => 91123567,
        Keyword::Global => 107441263,
        Keyword::Local => 90992483,
        Keyword::Div => 56912246,
        Keyword::Mod => 57503588,
        Keyword::And => 56716900,
        Keyword::Or => 40858112,
        Keyword::Xor => 58224498,
        Keyword::Not => 57569140,
    }
}

/// The spelling of a keyword is made of lower-case letters, and its signature
/// is the one listed.
pub proof fn lemma_keyword_spelling(k: Keyword)
    ensures
        signature(k.spec_text()) == keyword_signature(k),
        2 <= k.spec_text().len() <= 9,
        forall|i: int| 0 <= i < k.spec_text().len() ==> 97 <= #[trigger] k.spec_text()[i] <= 122,
{
    let s = k.spelling();
    match k {
        Keyword::Var => {
            reveal_strlit("var");
        },
        Keyword::GlobalVar => {
            reveal_strlit("globalvar");
        },
        Keyword::Begin => {
            reveal_strlit("begin");
        },
        Keyword::End => {
            reveal_strlit("end");
        },
        Keyword::If => {
            reveal_strlit("if");
        },
        Keyword::Then => {
            reveal_strlit("then");
        },
        Keyword::Else => {
            reveal_strlit("else");
        },
        Keyword::Repeat => {
            reveal_strlit("repeat");
        },
        Keyword::While => {
            reveal_strlit("while");
        },
        Keyword::With => {
            reveal_strlit("with");
        },
        Keyword::Do => {
            reveal_strlit("do");
        },
        Keyword::Until => {
            reveal_strlit("until");
        },
        Keyword::For => {
            reveal_strlit("for");
        },
        Keyword::Switch => {
            reveal_strlit("switch");
        },
        Keyword::Case => {
            reveal_strlit("case");
        },
        Keyword::Default => {
            reveal_strlit("default");
        },
        Keyword::Break => {
            reveal_strlit("break");
        },
        Keyword::Continue => {
            reveal_strlit("continue");
        },
        Keyword::Exit => {
            reveal_strlit("exit");
        },
        Keyword::Return => {
            reveal_strlit("return");
        },
        Keyword::True => {
            reveal_strlit("true");
        },
        Keyword::False => {
            reveal_strlit("false");
        },
        Keyword::Self_ => {
            reveal_strlit("self");
        },
        Keyword::Other => {
            reveal_strlit("other");
        },
        Keyword::All => {
            reveal_strlit("all");
        },
        Keyword::NoOne => {
            reveal_strlit("noone");
        },
        Keyword::Global => {
            reveal_strlit("global");
        },
        Keyword::Local => {
            reveal_strlit("local");
        },
        Keyword::Div => {
            reveal_strlit("div");
        },
        Keyword::Mod => {
            reveal_strlit("mod");
        },
        Keyword::And => {
            reveal_strlit("and");
        },
        Keyword::Or => {
            reveal_strlit("or");
        },
        Keyword::Xor => {
            reveal_strlit("xor");
        },
        Keyword::Not => {
            reveal_strlit("not");
        },
    }
    assert(is_ascii(s));
    is_ascii_spec_bytes(s);
}

/// No two keywords are spelled alike.
pub proof fn lemma_keywords_differ(a: Keyword, b: Keyword)
    requires
        a != b,
    ensures
        a.spec_text() != b.spec_text(),
{
    lemma_keyword_spelling(a);
    lemma_keyword_spelling(b);
}

/// Whether two byte strings hold the same bytes.
pub fn bytes_eq(a: &[u8], b: &[u8]) -> (r: bool)
    ensures
        r == (a@ == b@),
{
    if a.len() != b.len() {
        return false;
    }
    let mut i: usize = 0;
    while i < a.len()
        invariant
            a@.len() == b@.len(),
            i <= a@.len(),
            forall|j: int| 0 <= j < i ==> a@[j] == b@[j],
        decreases a@.len() - i,
    {
        if a[i] != b[i] {
            return false;
        }
        i = i + 1;
    }
    assert(a@ =~= b@);
    true
}

/// A copy of a byte string.
pub fn bytes_to_vec(a: &[u8]) -> (r: Vec<u8>)
    ensures
        r@ == a@,
{
    let mut r: Vec<u8> = Vec::new();
    let mut i: usize = 0;
    while i < a.len()
        invariant
            i <= a@.len(),
            r@ == a@.subrange(0, i as int),
        decreases a@.len() - i,
    {
        r.push(a[i]);
        assert(r@ =~= a@.subrange(0, i + 1));
        i = i + 1;
    }
    assert(r@ =~= a@);
    r
}

/// The index of the first of `names`, from `from` on, that equals `name`.
pub open spec fn lookup(names: Seq<Seq<u8>>, name: Seq<u8>, from: nat) -> Option<nat>
    decreases names.len() - from,
{
    if from >= names.len() {
        None
    } else if names[from as int] == name {
        Some(from)
    } else {
        lookup(names, name, from + 1)
    }
}

/// What interning `name` makes of a table of names, and the handle's index:
/// the index of `name` where the table holds it, else that of a new last
/// entry.
pub open spec fn interned(names: Seq<Seq<u8>>, name: Seq<u8>) -> (Seq<Seq<u8>>, nat) {
    match lookup(names, name, 0) {
        Some(i) => (names, i),
        None => (names.push(name), names.len()),
    }
}

/// No name occurs twice.
pub open spec fn distinct(names: Seq<Seq<u8>>) -> bool {
    forall|i: int, j: int| 0 <= i < j < names.len() ==> names[i] != names[j]
}

/// The table of names that a new interner holds: the keywords, in order.
pub open spec fn seeded() -> Seq<Seq<u8>> {
    Seq::new(KEYWORDS as nat, |i: int| Keyword::spec_from_ordinal(i as nat).spec_text())
}

/// The table begins with the keywords.
pub open spec fn has_keywords(names: Seq<Seq<u8>>) -> bool {
    &&& names.len() >= KEYWORDS
    &&& forall|i: int| 0 <= i < KEYWORDS ==> #[trigger] names[i] == seeded()[i]
}

/// What `lookup` finds is an entry equal to the name, and the first one; when
/// it finds nothing, no entry from `from` on equals the name.
pub proof fn lemma_lookup(names: Seq<Seq<u8>>, name: Seq<u8>, from: nat)
    ensures
        match lookup(names, name, from) {
            Some(i) => from <= i < names.len() && names[i as int] == name && forall|j: int|
                from <= j < i ==> names[j] != name,
            None => forall|j: int| from <= j < names.len() ==> names[j] != name,
        },
    decreases names.len() - from,
{
    if from < names.len() && names[from as int] != name {
        lemma_lookup(names, name, from + 1);
    }
}

/// Interning keeps a table free of duplicates, keeps every entry where it
/// was, and leaves the name at the index it returns.
pub proof fn lemma_interned(names: Seq<Seq<u8>>, name: Seq<u8>)
    requires
        distinct(names),
    ensures
        distinct(interned(names, name).0),
        names.len() <= interned(names, name).0.len() <= names.len() + 1,
        forall|i: int| 0 <= i < names.len() ==> interned(names, name).0[i] == names[i],
        interned(names, name).1 < interned(names, name).0.len(),
        interned(names, name).0[interned(names, name).1 as int] == name,
        has_keywords(names) ==> has_keywords(interned(names, name).0),
{
    lemma_lookup(names, name, 0);
}

/// Whether a table of names begins with another.
pub open spec fn extends(later: Seq<Seq<u8>>, earlier: Seq<Seq<u8>>) -> bool {
    &&& earlier.len() <= later.len()
    &&& forall|i: int| 0 <= i < earlier.len() ==> later[i] == earlier[i]
}

/// A table of interned names.
pub struct Interner {
    names: Vec<Vec<u8>>,
}

impl View for Interner {
    type V = Seq<Seq<u8>>;

    closed spec fn view(&self) -> Seq<Seq<u8>> {
        Seq::new(self.names@.len(), |i: int| self.names@[i]@)
    }
}

impl Interner {
    /// The table holds no name twice and begins with the keywords.
    pub open spec fn wf(&self) -> bool {
        &&& distinct(self@)
        &&& has_keywords(self@)
        &&& self@.len() <= usize::MAX
    }

    /// Whether the interner has given out the handle.
    pub open spec fn has(&self, symbol: Symbol) -> bool {
        symbol.index < self@.len()
    }

    /// A table that holds the keywords, each at its ordinal.
    pub fn new() -> (r: Interner)
        ensures
            r.wf(),
            r@ == seeded(),
    {
        let mut names: Vec<Vec<u8>> = Vec::new();
        let mut i: usize = 0;
        while i < KEYWORDS
            invariant
                i <= KEYWORDS,
                names@.len() == i,
                forall|j: int| 0 <= j < i ==> (#[trigger] names@[j])@ == seeded()[j],
            decreases KEYWORDS - i,
        {
            let text = bytes_to_vec(Keyword::from_ordinal(i).text());
            names.push(text);
            i = i + 1;
        }
        let r = Interner { names };
        assert(r@ =~= seeded());
        proof {
            assert forall|a: int, b: int| 0 <= a < b < r@.len() implies r@[a] != r@[b] by {
                lemma_keywords_differ(
                    Keyword::spec_from_ordinal(a as nat),
                    Keyword::spec_from_ordinal(b as nat),
                );
            }
        }
        r
    }

    /// How many names the table holds.
    pub fn len(&self) -> (n: usize)
        ensures
            n == self@.len(),
    {
        self.names.len()
    }

    /// The handle of `name`, if the table holds it.
    pub fn get(&self, name: &[u8]) -> (r: Option<Symbol>)
        ensures
            match r {
                Some(s) => lookup(self@, name@, 0) == Some(s.index as nat),
                None => lookup(self@, name@, 0).is_none(),
            },
    {
        let mut i: usize = 0;
        while i < self.names.len()
            invariant
                i <= self.names@.len(),
                self@.len() == self.names@.len(),
                lookup(self@, name@, 0) == lookup(self@, name@, i as nat),
            decreases self.names@.len() - i,
        {
            if bytes_eq(self.names[i].as_slice(), name) {
                return Some(Symbol { index: i });
            }
            i = i + 1;
        }
        None
    }

    /// The handle of `name`, which is added to the table unless it is there.
    pub fn intern(&mut self, name: &[u8]) -> (s: Symbol)
        ensures
            final(self)@ == interned(old(self)@, name@).0,
            s.index == interned(old(self)@, name@).1,
            old(self).wf() ==> final(self).wf() && final(self).has(s),
    {
        proof {
            if self.wf() {
                lemma_interned(self@, name@);
            }
        }
        match self.get(name) {
            Some(s) => s,
            None => {
                let index = self.names.len();
                self.names.push(bytes_to_vec(name));
                assert(self.names@.len() == self.names.len());
                assert(self@ =~= old(self)@.push(name@));
                Symbol { index }
            },
        }
    }

    /// The bytes that a handle stands for.
    pub fn name(&self, symbol: Symbol) -> (r: &[u8])
        requires
            self.has(symbol),
        ensures
            r@ == self@[symbol.index as int],
    {
        self.names[symbol.index].as_slice()
    }
}

} // verus!
