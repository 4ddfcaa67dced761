use gml::symbol::{bytes_eq, Interner, Keyword, Symbol, KEYWORDS};

#[test]
fn keywords_stand_at_their_reserved_indices() {
    let names = Interner::new();
    assert_eq!(names.len(), KEYWORDS as usize);
    for index in 0..KEYWORDS {
        let keyword = Keyword::from_index(index);
        assert_eq!(keyword.index(), index);
        assert_eq!(keyword.symbol(), Symbol(index));
        assert_eq!(names.as_bytes(keyword.symbol()), keyword.as_str().as_bytes());
    }
}

#[test]
fn pseudo_instances_are_keywords() {
    assert_eq!(Keyword::lookup(b"self"), Some(Keyword::Self_));
    assert_eq!(Keyword::lookup(b"other"), Some(Keyword::Other));
    assert_eq!(Keyword::lookup(b"all"), Some(Keyword::All));
    assert_eq!(Keyword::lookup(b"noone"), Some(Keyword::NoOne));
    assert_eq!(Keyword::lookup(b"global"), Some(Keyword::Global));
    assert_eq!(Keyword::lookup(b"local"), Some(Keyword::Local));
    assert_eq!(Keyword::lookup(b"Self"), None);
    assert_eq!(Keyword::lookup(b""), None);
}

#[test]
fn every_keyword_is_found_by_its_spelling() {
    for index in 0..KEYWORDS {
        let keyword = Keyword::from_index(index);
        assert_eq!(Keyword::lookup(keyword.as_str().as_bytes()), Some(keyword));
    }
}

#[test]
fn interning_a_keyword_gives_its_reserved_symbol() {
    let mut names = Interner::new();
    assert_eq!(names.intern("while"), Keyword::While.symbol());
    assert_eq!(names.len(), KEYWORDS as usize);
}

#[test]
fn interning_twice_gives_one_symbol() {
    let mut names = Interner::new();
    let first = names.intern("speed");
    let other = names.intern("hp");
    let again = names.intern("speed");
    assert_eq!(first, again);
    assert_ne!(first, other);
    assert_eq!(first, Symbol(KEYWORDS));
    assert_eq!(other, Symbol(KEYWORDS + 1));
    assert_eq!(names.len(), KEYWORDS as usize + 2);
    assert_eq!(names.as_bytes(first), b"speed");
    assert_eq!(names.as_bytes(other), b"hp");
}

#[test]
fn lookup_finds_without_adding() {
    let mut names = Interner::new();
    assert_eq!(names.lookup("x"), None);
    let x = names.intern_bytes(b"x");
    assert_eq!(names.lookup("x"), Some(x));
    assert_eq!(names.lookup_bytes(b"y"), None);
    assert_eq!(names.len(), KEYWORDS as usize + 1);
}

#[test]
fn the_empty_name_is_a_name() {
    let mut names = Interner::new();
    let empty = names.intern("");
    assert_eq!(names.as_bytes(empty), b"");
    assert_eq!(names.intern(""), empty);
}

#[test]
fn bytes_are_compared_whole() {
    assert!(bytes_eq(b"abc", b"abc"));
    assert!(!bytes_eq(b"abc", b"abd"));
    assert!(!bytes_eq(b"abc", b"ab"));
    assert!(bytes_eq(b"", b""));
}
