use gml::front::ast::{Expr, Stmt, Value};
use gml::front::{Message, Span};
use gml::symbol::{Interner, Symbol};
use gml::{build, compile, Item, Prototype};

type Native = fn(u32) -> u32;
type Getter = fn() -> u32;
type Setter = fn(u32);

fn double(value: u32) -> u32 {
    value * 2
}

fn get() -> u32 {
    7
}

fn set(_: u32) {}

#[test]
fn compile_reads_a_script() {
    let mut names = Interner::new();
    let script = compile(&mut names, "x = 1").unwrap();
    assert_eq!(script.span, Span { low: 0, high: 5 });
    assert!(script.errors.is_empty());
    let x = names.lookup("x").unwrap();
    match script.program {
        Stmt::Block(stmts) => {
            assert_eq!(stmts.len(), 1);
            match &stmts[0].0 {
                Stmt::Assign(None, left, _) => assert_eq!(left.0, Expr::Value(Value::Ident(x))),
                other => panic!("{:?}", other),
            }
        }
        other => panic!("{:?}", other),
    }
}

#[test]
fn compile_keeps_the_diagnostics_with_the_script() {
    let mut names = Interner::new();
    let script = compile(&mut names, "x = ").unwrap();
    assert_eq!(script.errors.len(), 1);
    assert_eq!(script.errors[0].message, Message::ExpectedExpression);
}

#[test]
fn build_sorts_the_items_into_their_tables() {
    let mut names = Interner::new();
    let main = names.intern("main");
    let twice = names.intern("twice");
    let health = names.intern("health");
    let score = names.intern("score");
    let hidden = names.intern("hidden");
    let items: Vec<(Symbol, Item<Native, Getter, Setter>)> = vec![
        (main, Item::Script("return twice(health)")),
        (twice, Item::Native(double as Native, 1, false)),
        (health, Item::Member(Some(get as Getter), Some(set as Setter))),
        (score, Item::Member(Some(get as Getter), None)),
        (hidden, Item::Member(None, None)),
    ];
    let resources = build(&items, &mut names).ok().unwrap();

    assert_eq!(resources.prototypes.len(), 5);
    assert_eq!(resources.prototypes[&main.0], Prototype::Script);
    assert_eq!(resources.prototypes[&twice.0], Prototype::Native { arity: 1, variadic: false });
    assert_eq!(resources.prototypes[&health.0], Prototype::Member);
    assert_eq!(resources.prototypes[&hidden.0], Prototype::Member);

    assert_eq!(resources.scripts.len(), 1);
    assert!(resources.scripts[&main.0].errors.is_empty());
    assert!(matches!(resources.scripts[&main.0].program, Stmt::Block(_)));

    assert_eq!(resources.api.len(), 1);
    assert_eq!((resources.api[&twice.0])(21), 42);

    assert_eq!(resources.get.len(), 2);
    assert!(resources.get.contains_key(&health.0));
    assert!(resources.get.contains_key(&score.0));
    assert_eq!(resources.set.len(), 1);
    assert!(resources.set.contains_key(&health.0));
}

#[test]
fn a_later_item_replaces_an_earlier_one_of_its_name() {
    let mut names = Interner::new();
    let main = names.intern("main");
    let items: Vec<(Symbol, Item<Native, Getter, Setter>)> = vec![
        (main, Item::Script("a = 1")),
        (main, Item::Script("a = 1 b = 2")),
    ];
    let resources = build(&items, &mut names).ok().unwrap();
    assert_eq!(resources.scripts.len(), 1);
    assert_eq!(resources.scripts[&main.0].span, Span { low: 0, high: 11 });
}

#[test]
fn scripts_share_the_table_of_names() {
    let mut names = Interner::new();
    let first = names.intern("first");
    let second = names.intern("second");
    let items: Vec<(Symbol, Item<Native, Getter, Setter>)> = vec![
        (first, Item::Script("shared = 1")),
        (second, Item::Script("shared = 2")),
    ];
    let before = names.len();
    let resources = build(&items, &mut names).ok().unwrap();
    assert_eq!(names.len(), before + 3);
    let shared = names.lookup("shared").unwrap();
    for name in [first, second] {
        match &resources.scripts[&name.0].program {
            Stmt::Block(stmts) => match &stmts[0].0 {
                Stmt::Assign(None, left, _) => {
                    assert_eq!(left.0, Expr::Value(Value::Ident(shared)))
                }
                other => panic!("{:?}", other),
            },
            other => panic!("{:?}", other),
        }
    }
}

#[test]
fn no_items_make_no_resources() {
    let mut names = Interner::new();
    let items: Vec<(Symbol, Item<Native, Getter, Setter>)> = vec![];
    let resources = build(&items, &mut names).ok().unwrap();
    assert!(resources.prototypes.is_empty());
    assert!(resources.scripts.is_empty());
    assert!(resources.api.is_empty());
    assert!(resources.get.is_empty());
    assert!(resources.set.is_empty());
}
