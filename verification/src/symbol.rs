//! Interned names: symbols, the keywords with their reserved symbols, and the table of names.

use vstd::prelude::*;
use vstd::slice::slice_to_vec;
use vstd::string::StringSliceAdditionalSpecFns;

verus! {

/// An interned name: an index into the table of an [`Interner`].
///
/// Two symbols of one table are equal exactly when their texts are equal.
#[derive(Clone, Copy, Debug, PartialEq, Eq, Hash, Structural)]
pub struct Symbol(pub u32);

/// The reserved words of the language, the pseudo-instances among them.
///
/// Every keyword owns the symbol whose index is its position in this list.
#[derive(Clone, Copy, Debug, PartialEq, Eq, Hash, Structural)]
pub enum Keyword {
    True,
    False,
    Self_,
    Other,
    All,
    NoOne,
    Global,
    Local,
    Var,
    GlobalVar,
    Begin,
    End,
    If,
    Then,
    Else,
    Repeat,
    While,
    With,
    Do,
    Until,
    For,
    Switch,
    Case,
    Default,
    Break,
    Continue,
    Exit,
    Return,
    Not,
    Div,
    Mod,
    And,
    Or,
    Xor,
}

/// The number of keywords, and so the number of reserved symbols.
pub const KEYWORDS: u32 = 34;

impl Keyword {
    /// The position of the keyword in the list of keywords.
    pub open spec fn spec_index(self) -> nat {
        match self {
            Keyword::True => 0,
            Keyword::False => 1,
            Keyword::Self_ => 2,
            Keyword::Other => 3,
            Keyword::All => 4,
            Keyword::NoOne => 5,
            Keyword::Global => 6,
            Keyword::Local => 7,
            Keyword::Var => 8,
            Keyword::GlobalVar => 9,
            Keyword::Begin => 10,
            Keyword::End => 11,
            Keyword::If => 12,
            Keyword::Then => 13,
            Keyword::Else => 14,
            Keyword::Repeat => 15,
            Keyword::While => 16,
            Keyword::With => 17,
            Keyword::Do => 18,
            Keyword::Until => 19,
            Keyword::For => 20,
            Keyword::Switch => 21,
            Keyword::Case => 22,
            Keyword::Default => 23,
            Keyword::Break => 24,
            Keyword::Continue => 25,
            Keyword::Exit => 26,
            Keyword::Return => 27,
            Keyword::Not => 28,
            Keyword::Div => 29,
            Keyword::Mod => 30,
            Keyword::And => 31,
            Keyword::Or => 32,
            Keyword::Xor => 33,
        }
    }

    /// The keyword at a position of the list; `True` beyond its end.
    pub open spec fn spec_from_index(index: nat) -> Keyword {
        if index == 1 {
            Keyword::False
        } else if index == 2 {
            Keyword::Self_
        } else if index == 3 {
            Keyword::Other
        } else if index == 4 {
            Keyword::All
        } else if index == 5 {
            Keyword::NoOne
        } else if index == 6 {
            Keyword::Global
        } else if index == 7 {
            Keyword::Local
        } else if index == 8 {
            Keyword::Var
        } else if index == 9 {
            Keyword::GlobalVar
        } else if index == 10 {
            Keyword::Begin
        } else if index == 11 {
            Keyword::End
        } else if index == 12 {
            Keyword::If
        } else if index == 13 {
            Keyword::Then
        } else if index == 14 {
            Keyword::Else
        } else if index == 15 {
            Keyword::Repeat
        } else if index == 16 {
            Keyword::While
        } else if index == 17 {
            Keyword::With
        } else if index == 18 {
            Keyword::Do
        } else if index == 19 {
            Keyword::Until
        } else if index == 20 {
            Keyword::For
        } else if index == 21 {
            Keyword::Switch
        } else if index == 22 {
            Keyword::Case
        } else if index == 23 {
            Keyword::Default
        } else if index == 24 {
            Keyword::Break
        } else if index == 25 {
            Keyword::Continue
        } else if index == 26 {
            Keyword::Exit
        } else if index == 27 {
            Keyword::Return
        } else if index == 28 {
            Keyword::Not
        } else if index == 29 {
            Keyword::Div
        } else if index == 30 {
            Keyword::Mod
        } else if index == 31 {
            Keyword::And
        } else if index == 32 {
            Keyword::Or
        } else if index == 33 {
            Keyword::Xor
        } else {
            Keyword::True
        }
    }

    /// The spelling of the keyword.
    pub open spec fn name(self) -> Seq<char> {
        match self {
            Keyword::True => "true"@,
            Keyword::False => "false"@,
            Keyword::Self_ => "self"@,
            Keyword::Other => "other"@,
            Keyword::All => "all"@,
            Keyword::NoOne => "noone"@,
            Keyword::Global => "global"@,
            Keyword::Local => "local"@,
            Keyword::Var => "var"@,
            Keyword::GlobalVar => "globalvar"@,
            Keyword::Begin => "begin"@,
            Keyword::End => "end"@,
            Keyword::If => "if"@,
            Keyword::Then => "then"@,
            Keyword::Else => "else"@,
            Keyword::Repeat => "repeat"@,
            Keyword::While => "while"@,
            Keyword::With => "with"@,
            Keyword::Do => "do"@,
            Keyword::Until => "until"@,
            Keyword::For => "for"@,
            Keyword::Switch => "switch"@,
            Keyword::Case => "case"@,
            Keyword::Default => "default"@,
            Keyword::Break => "break"@,
            Keyword::Continue => "continue"@,
            Keyword::Exit => "exit"@,
            Keyword::Return => "return"@,
            Keyword::Not => "not"@,
            Keyword::Div => "div"@,
            Keyword::Mod => "mod"@,
            Keyword::And => "and"@,
            Keyword::Or => "or"@,
            Keyword::Xor => "xor"@,
        }
    }

    /// The bytes of the keyword's spelling.
    pub open spec fn text(self) -> Seq<u8> {
        vstd::utf8::encode_utf8(self.name())
    }

    /// The symbol reserved for the keyword.
    pub open spec fn spec_symbol(self) -> Symbol {
        Symbol(self.spec_index() as u32)
    }

    pub fn index(self) -> (index: u32)
        ensures
            index == self.spec_index(),
            index < KEYWORDS,
    {
        match self {
            Keyword::True => 0,
            Keyword::False => 1,
            Keyword::Self_ => 2,
            Keyword::Other => 3,
            Keyword::All => 4,
            Keyword::NoOne => 5,
            Keyword::Global => 6,
            Keyword::Local => 7,
            Keyword::Var => 8,
            Keyword::GlobalVar => 9,
            Keyword::Begin => 10,
            Keyword::End => 11,
            Keyword::If => 12,
            Keyword::Then => 13,
            Keyword::Else => 14,
            Keyword::Repeat => 15,
            Keyword::While => 16,
            Keyword::With => 17,
            Keyword::Do => 18,
            Keyword::Until => 19,
            Keyword::For => 20,
            Keyword::Switch => 21,
            Keyword::Case => 22,
            Keyword::Default => 23,
            Keyword::Break => 24,
            Keyword::Continue => 25,
            Keyword::Exit => 26,
            Keyword::Return => 27,
            Keyword::Not => 28,
            Keyword::Div => 29,
            Keyword::Mod => 30,
            Keyword::And => 31,
            Keyword::Or => 32,
            Keyword::Xor => 33,
        }
    }

    pub fn from_index(index: u32) -> (keyword: Keyword)
        requires
            index < KEYWORDS,
        ensures
            keyword == Keyword::spec_from_index(index as nat),
            keyword.spec_index() == index,
    {
        if index == 0 {
            Keyword::True
        } else if index == 1 {
            Keyword::False
        } else if index == 2 {
            Keyword::Self_
        } else if index == 3 {
            Keyword::Other
        } else if index == 4 {
            Keyword::All
        } else if index == 5 {
            Keyword::NoOne
        } else if index == 6 {
            Keyword::Global
        } else if index == 7 {
            Keyword::Local
        } else if index == 8 {
            Keyword::Var
        } else if index == 9 {
            Keyword::GlobalVar
        } else if index == 10 {
            Keyword::Begin
        } else if index == 11 {
            Keyword::End
        } else if index == 12 {
            Keyword::If
        } else if index == 13 {
            Keyword::Then
        } else if index == 14 {
            Keyword::Else
        } else if index == 15 {
            Keyword::Repeat
        } else if index == 16 {
            Keyword::While
        } else if index == 17 {
            Keyword::With
        } else if index == 18 {
            Keyword::Do
        } else if index == 19 {
            Keyword::Until
        } else if index == 20 {
            Keyword::For
        } else if index == 21 {
            Keyword::Switch
        } else if index == 22 {
            Keyword::Case
        } else if index == 23 {
            Keyword::Default
        } else if index == 24 {
            Keyword::Break
        } else if index == 25 {
            Keyword::Continue
        } else if index == 26 {
            Keyword::Exit
        } else if index == 27 {
            Keyword::Return
        } else if index == 28 {
            Keyword::Not
        } else if index == 29 {
            Keyword::Div
        } else if index == 30 {
            Keyword::Mod
        } else if index == 31 {
            Keyword::And
        } else if index == 32 {
            Keyword::Or
        } else {
            Keyword::Xor
        }
    }

    pub fn as_str(self) -> (name: &'static str)
        ensures
            name@ == self.name(),
            name.spec_bytes() == self.text(),
    {
        match self {
            Keyword::True => "true",
            Keyword::False => "false",
            Keyword::Self_ => "self",
            Keyword::Other => "other",
            Keyword::All => "all",
            Keyword::NoOne => "noone",
            Keyword::Global => "global",
            Keyword::Local => "local",
            Keyword::Var => "var",
            Keyword::GlobalVar => "globalvar",
            Keyword::Begin => "begin",
            Keyword::End => "end",
            Keyword::If => "if",
            Keyword::Then => "then",
            Keyword::Else => "else",
            Keyword::Repeat => "repeat",
            Keyword::While => "while",
            Keyword::With => "with",
            Keyword::Do => "do",
            Keyword::Until => "until",
            Keyword::For => "for",
            Keyword::Switch => "switch",
            Keyword::Case => "case",
            Keyword::Default => "default",
            Keyword::Break => "break",
            Keyword::Continue => "continue",
            Keyword::Exit => "exit",
            Keyword::Return => "return",
            Keyword::Not => "not",
            Keyword::Div => "div",
            Keyword::Mod => "mod",
            Keyword::And => "and",
            Keyword::Or => "or",
            Keyword::Xor => "xor",
        }
    }

    pub fn symbol(self) -> (symbol: Symbol)
        ensures
            symbol == self.spec_symbol(),
    {
        Symbol(self.index())
    }
}

/// Every position below the number of keywords is that of the keyword found there.
pub proof fn lemma_keyword_index(index: nat)
    requires
        index < KEYWORDS,
    ensures
        Keyword::spec_from_index(index).spec_index() == index,
{
}

/// The length of a text with its first and third bytes, which tell the keywords apart.
pub open spec fn mark(text: Seq<u8>) -> (nat, u8, u8) {
    (text.len(), if text.len() > 0 { text[0] } else { 0 }, if text.len() > 2 { text[2] } else { 0 })
}

impl Keyword {
    /// The mark of the keyword's spelling.
    pub open spec fn spec_mark(self) -> (nat, u8, u8) {
        match self {
            Keyword::True => (4, 116, 117),
            Keyword::False => (5, 102, 108),
            Keyword::Self_ => (4, 115, 108),
            Keyword::Other => (5, 111, 104),
            Keyword::All => (3, 97, 108),
            Keyword::NoOne => (5, 110, 111),
            Keyword::Global => (6, 103, 111),
            Keyword::Local => (5, 108, 99),
            Keyword::Var => (3, 118, 114),
            Keyword::GlobalVar => (9, 103, 111),
            Keyword::Begin => (5, 98, 103),
            Keyword::End => (3, 101, 100),
            Keyword::If => (2, 105, 0),
            Keyword::Then => (4, 116, 101),
            Keyword::Else => (4, 101, 115),
            Keyword::Repeat => (6, 114, 112),
            Keyword::While => (5, 119, 105),
            Keyword::With => (4, 119, 116),
            Keyword::Do => (2, 100, 0),
            Keyword::Until => (5, 117, 116),
            Keyword::For => (3, 102, 114),
            Keyword::Switch => (6, 115, 105),
            Keyword::Case => (4, 99, 115),
            Keyword::Default => (7, 100, 102),
            Keyword::Break => (5, 98, 101),
            Keyword::Continue => (8, 99, 110),
            Keyword::Exit => (4, 101, 105),
            Keyword::Return => (6, 114, 116),
            Keyword::Not => (3, 110, 116),
            Keyword::Div => (3, 100, 118),
            Keyword::Mod => (3, 109, 100),
            Keyword::And => (3, 97, 100),
            Keyword::Or => (2, 111, 0),
            Keyword::Xor => (3, 120, 114),
        }
    }
}

/// The spelling of a keyword has the mark listed for it.
pub proof fn lemma_keyword_mark(keyword: Keyword)
    ensures
        mark(keyword.text()) == keyword.spec_mark(),
        keyword.text().len() > 0,
{
    reveal_strlit("true");
    reveal_strlit("false");
    reveal_strlit("self");
    reveal_strlit("other");
    reveal_strlit("all");
    reveal_strlit("noone");
    reveal_strlit("global");
    reveal_strlit("local");
    reveal_strlit("var");
    reveal_strlit("globalvar");
    reveal_strlit("begin");
    reveal_strlit("end");
    reveal_strlit("if");
    reveal_strlit("then");
    reveal_strlit("else");
    reveal_strlit("repeat");
    reveal_strlit("while");
    reveal_strlit("with");
    reveal_strlit("do");
    reveal_strlit("until");
    reveal_strlit("for");
    reveal_strlit("switch");
    reveal_strlit("case");
    reveal_strlit("default");
    reveal_strlit("break");
    reveal_strlit("continue");
    reveal_strlit("exit");
    reveal_strlit("return");
    reveal_strlit("not");
    reveal_strlit("div");
    reveal_strlit("mod");
    reveal_strlit("and");
    reveal_strlit("or");
    reveal_strlit("xor");
    vstd::utf8::is_ascii_chars_encode_utf8(keyword.name());
}

/// Different keywords are spelled differently.
pub proof fn lemma_keyword_texts_differ(a: Keyword, b: Keyword)
    requires
        a != b,
    ensures
        a.text() != b.text(),
{
    lemma_keyword_mark(a);
    lemma_keyword_mark(b);
}

/// Whether two byte strings hold the same bytes.
pub fn bytes_eq(a: &[u8], b: &[u8]) -> (same: bool)
    ensures
        same == (a@ == b@),
{
    if a.len() != b.len() {
        return false;
    }
    let mut i: usize = 0;
    while i < a.len()
        invariant
            a@.len() == b@.len(),
            i <= a@.len(),
            forall|j: int| 0 <= j < i ==> a@[j] == b@[j],
        decreases a@.len() - i,
    {
        if a[i] != b[i] {
            return false;
        }
        i += 1;
    }
    assert(a@ =~= b@);
    true
}

/// The first keyword at or after position `start` that is spelled `text`.
pub open spec fn keyword_from(text: Seq<u8>, start: nat) -> Option<Keyword>
    decreases KEYWORDS - start,
{
    if start >= KEYWORDS {
        None
    } else if Keyword::spec_from_index(start).text() == text {
        Some(Keyword::spec_from_index(start))
    } else {
        keyword_from(text, start + 1)
    }
}

/// The keyword that is spelled `text`, if there is one.
pub open spec fn keyword_of(text: Seq<u8>) -> Option<Keyword> {
    keyword_from(text, 0)
}

/// What `keyword_from` finds is spelled `text`; it finds nothing only where no keyword from
/// `start` on is.
pub proof fn lemma_keyword_from(text: Seq<u8>, start: nat)
    ensures
        keyword_from(text, start) matches Some(k) ==> k.text() == text && start <= k.spec_index(),
        keyword_from(text, start) is None ==> forall|k: Keyword|
            start <= #[trigger] k.spec_index() ==> k.text() != text,
    decreases KEYWORDS - start,
{
    if start < KEYWORDS {
        lemma_keyword_index(start);
        lemma_keyword_from(text, start + 1);
        if keyword_from(text, start) is None {
            assert forall|k: Keyword| start <= #[trigger] k.spec_index() implies k.text()
                != text by {
                if k.spec_index() == start {
                    assert(k == Keyword::spec_from_index(start));
                }
            }
        }
    }
}

/// Looking a keyword's own spelling up gives the keyword back.
pub proof fn lemma_keyword_of_text(keyword: Keyword)
    ensures
        keyword_of(keyword.text()) == Some(keyword),
{
    lemma_keyword_from(keyword.text(), 0);
    match keyword_of(keyword.text()) {
        Some(k) => {
            if k != keyword {
                lemma_keyword_texts_differ(k, keyword);
            }
        },
        None => {
            assert(0 <= keyword.spec_index());
        },
    }
}

impl Keyword {
    /// The keyword that is spelled `text`, if there is one.
    pub fn lookup(text: &[u8]) -> (found: Option<Keyword>)
        ensures
            found == keyword_of(text@),
    {
        let mut i: u32 = 0;
        while i < KEYWORDS
            invariant
                i <= KEYWORDS,
                keyword_of(text@) == keyword_from(text@, i as nat),
            decreases KEYWORDS - i,
        {
            let keyword = Keyword::from_index(i);
            if bytes_eq(keyword.as_str().as_bytes(), text) {
                return Some(keyword);
            }
            i += 1;
        }
        None
    }
}

/// The table that holds the keywords alone, each at its reserved index.
pub open spec fn keyword_table() -> Seq<Seq<u8>> {
    Seq::new(KEYWORDS as nat, |i: int| Keyword::spec_from_index(i as nat).text())
}

/// A table of names is well formed when the keywords stand at their reserved indices, no name
/// occurs twice, and every index fits a symbol.
pub open spec fn table_wf(names: Seq<Seq<u8>>) -> bool {
    &&& KEYWORDS <= names.len() <= u32::MAX
    &&& forall|i: int|
        0 <= i < KEYWORDS ==> #[trigger] names[i] == Keyword::spec_from_index(i as nat).text()
    &&& forall|i: int, j: int| 0 <= i < j < names.len() ==> names[i] != names[j]
}

/// The symbol that `text` has in the table, or will have once it is added at the end.
pub open spec fn symbol_of(names: Seq<Seq<u8>>, text: Seq<u8>) -> Symbol {
    if names.contains(text) {
        Symbol(names.index_of(text) as u32)
    } else {
        Symbol(names.len() as u32)
    }
}

/// The table once `text` has been interned in it.
pub open spec fn with_name(names: Seq<Seq<u8>>, text: Seq<u8>) -> Seq<Seq<u8>> {
    if names.contains(text) {
        names
    } else {
        names.push(text)
    }
}

/// Whether interning `text` into the table stays within the range of symbols.
pub open spec fn has_room(names: Seq<Seq<u8>>, text: Seq<u8>) -> bool {
    names.contains(text) || names.len() < u32::MAX
}

/// In a well-formed table a keyword's spelling has the keyword's reserved symbol.
pub proof fn lemma_keyword_symbol(names: Seq<Seq<u8>>, keyword: Keyword)
    requires
        table_wf(names),
    ensures
        names.contains(keyword.text()),
        symbol_of(names, keyword.text()) == keyword.spec_symbol(),
        names[keyword.spec_index() as int] == keyword.text(),
{
    let i = keyword.spec_index() as int;
    assert(names[i] == Keyword::spec_from_index(i as nat).text());
    assert(names.contains(keyword.text()));
}

/// Interning keeps a well-formed table well formed, keeps every older symbol's text, and gives
/// the symbol under which the text is then found.
pub proof fn lemma_with_name(names: Seq<Seq<u8>>, text: Seq<u8>)
    requires
        table_wf(names),
        has_room(names, text),
    ensures
        table_wf(with_name(names, text)),
        names.len() <= with_name(names, text).len() <= names.len() + 1,
        forall|i: int| 0 <= i < names.len() ==> with_name(names, text)[i] == names[i],
        symbol_of(names, text).0 < with_name(names, text).len(),
        with_name(names, text)[symbol_of(names, text).0 as int] == text,
{
    if !names.contains(text) {
        let after = names.push(text);
        assert forall|i: int, j: int| 0 <= i < j < after.len() implies after[i] != after[j] by {
            if j == names.len() {
                assert(names[i] == after[i]);
            }
        }
    }
}

/// Two symbols of a well-formed table are the same exactly when their texts are.
pub proof fn lemma_symbol_equality(names: Seq<Seq<u8>>, a: Symbol, b: Symbol)
    requires
        table_wf(names),
        a.0 < names.len(),
        b.0 < names.len(),
    ensures
        a == b <==> names[a.0 as int] == names[b.0 as int],
        symbol_of(names, names[a.0 as int]) == a,
{
    let i = a.0 as int;
    let j = b.0 as int;
    if i < j {
        assert(names[i] != names[j]);
    } else if j < i {
        assert(names[j] != names[i]);
    }
    assert(names.contains(names[i]));
    let found = names.index_of(names[i]);
    if found < i {
        assert(names[found] != names[i]);
    } else if i < found {
        assert(names[i] != names[found]);
    }
}

/// Interning a name again changes nothing and gives the same symbol.
pub proof fn lemma_intern_again(names: Seq<Seq<u8>>, text: Seq<u8>)
    requires
        table_wf(names),
        has_room(names, text),
    ensures
        with_name(with_name(names, text), text) == with_name(names, text),
        symbol_of(with_name(names, text), text) == symbol_of(names, text),
{
    lemma_with_name(names, text);
    let after = with_name(names, text);
    let symbol = symbol_of(names, text);
    assert(after[symbol.0 as int] == text);
    assert(after.contains(text));
    lemma_symbol_equality(after, symbol, symbol);
}

/// The table of interned names.
///
/// Names are byte strings. A name keeps its symbol for as long as the table lives, and the
/// table only grows.
pub struct Interner {
    names: Vec<Vec<u8>>,
}

impl View for Interner {
    type V = Seq<Seq<u8>>;

    closed spec fn view(&self) -> Seq<Seq<u8>> {
        Seq::new(self.names@.len(), |i: int| self.names@[i]@)
    }
}

impl Interner {
    /// Whether the table is well formed.
    pub open spec fn wf(&self) -> bool {
        table_wf(self@)
    }

    /// A table that holds the keywords, each at its reserved index.
    pub fn new() -> (table: Interner)
        ensures
            table@ == keyword_table(),
            table.wf(),
    {
        let mut names: Vec<Vec<u8>> = Vec::new();
        let mut i: u32 = 0;
        while i < KEYWORDS
            invariant
                i <= KEYWORDS,
                names@.len() == i,
                forall|j: int|
                    0 <= j < i ==> (#[trigger] names@[j])@ == Keyword::spec_from_index(
                        j as nat,
                    ).text(),
            decreases KEYWORDS - i,
        {
            names.push(slice_to_vec(Keyword::from_index(i).as_str().as_bytes()));
            i += 1;
        }
        let table = Interner { names };
        proof {
            assert(table@ =~= keyword_table());
            assert forall|i: int, j: int| 0 <= i < j < table@.len() implies table@[i]
                != table@[j] by {
                lemma_keyword_index(i as nat);
                lemma_keyword_index(j as nat);
                lemma_keyword_texts_differ(
                    Keyword::spec_from_index(i as nat),
                    Keyword::spec_from_index(j as nat),
                );
            }
        }
        table
    }

    /// The number of names in the table.
    pub fn len(&self) -> (len: usize)
        ensures
            len == self@.len(),
    {
        self.names.len()
    }

    /// The symbol of `text`, if the table holds it.
    pub fn lookup_bytes(&self, text: &[u8]) -> (found: Option<Symbol>)
        requires
            self.wf(),
        ensures
            found is Some <==> self@.contains(text@),
            found is Some ==> found == Some(symbol_of(self@, text@)),
    {
        let mut i: usize = 0;
        while i < self.names.len()
            invariant
                self.wf(),
                i <= self.names@.len(),
                forall|j: int| 0 <= j < i ==> self@[j] != text@,
            decreases self.names@.len() - i,
        {
            if bytes_eq(self.names[i].as_slice(), text) {
                proof {
                    assert(self@[i as int] == text@);
                    let k = self@.index_of(text@);
                    assert(k == i) by {
                        if k < i {
                            assert(self@[k] != self@[i as int]);
                        } else if i < k {
                            assert(self@[i as int] != self@[k]);
                        }
                    }
                }
                return Some(Symbol(i as u32));
            }
            i += 1;
        }
        None
    }

    /// The symbol of `name`, if the table holds it.
    pub fn lookup(&self, name: &str) -> (found: Option<Symbol>)
        requires
            self.wf(),
        ensures
            found is Some <==> self@.contains(name.spec_bytes()),
            found is Some ==> found == Some(symbol_of(self@, name.spec_bytes())),
    {
        self.lookup_bytes(name.as_bytes())
    }

    /// Interns `text`: gives the symbol that it has, after adding it at the end of the table
    /// if it was not there.
    pub fn intern_bytes(&mut self, text: &[u8]) -> (symbol: Symbol)
        requires
            old(self).wf(),
            has_room(old(self)@, text@),
        ensures
            symbol == symbol_of(old(self)@, text@),
            final(self)@ == with_name(old(self)@, text@),
            final(self).wf(),
    {
        proof {
            lemma_with_name(self@, text@);
        }
        match self.lookup_bytes(text) {
            Some(symbol) => symbol,
            None => {
                let symbol = Symbol(self.names.len() as u32);
                self.names.push(slice_to_vec(text));
                assert(self@ =~= old(self)@.push(text@));
                symbol
            },
        }
    }

    /// Interns `name`, as `intern_bytes` does its bytes.
    pub fn intern(&mut self, name: &str) -> (symbol: Symbol)
        requires
            old(self).wf(),
            has_room(old(self)@, name.spec_bytes()),
        ensures
            symbol == symbol_of(old(self)@, name.spec_bytes()),
            final(self)@ == with_name(old(self)@, name.spec_bytes()),
            final(self).wf(),
    {
        self.intern_bytes(name.as_bytes())
    }

    /// The text of a symbol of this table.
    pub fn as_bytes(&self, symbol: Symbol) -> (text: &[u8])
        requires
            symbol.0 < self@.len(),
        ensures
            text@ == self@[symbol.0 as int],
    {
        self.names[symbol.0 as usize].as_slice()
    }
}

} // verus!
