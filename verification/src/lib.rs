//! The front end and the data model of a runtime for GML, a dynamically typed scripting
//! language for games: symbols, the lexer and the parser with their trees, the instructions
//! and blocks of the SSA form, the values of the virtual machine with the heap of its arrays,
//! and the build of a project from its items.
//!
//! Every function carries a contract, and Verus proves that the function keeps it.

pub mod ascii;
pub mod back;
pub mod binary64;
pub mod front;
pub mod symbol;
pub mod vm;

use crate::front::ast::{Stmt, StmtView};
use crate::front::parser::{has_room, initial};
use crate::front::{Diagnostic, ErrorHandler, Lexer, Parser, Span};
use crate::symbol::{Interner, Symbol};
use std::collections::HashMap;
use vstd::prelude::*;
use vstd::string::StringSliceAdditionalSpecFns;

verus! {

/// The definition of an item, as a host hands it to `build`.
///
/// `F` is the type of a native function, `G` that of a getter and `S` that of a setter. The
/// library stores them and hands them back; it does not call them.
pub enum Item<F, G, S> {
    /// A script, with its source text.
    Script(&'static str),
    /// A native function, the number of its arguments, and whether it takes more.
    Native(F, usize, bool),
    /// A member, with its getter and its setter, where it has them.
    Member(Option<G>, Option<S>),
}

/// What scripts need to know of an item to refer to it.
#[derive(Clone, Copy, Debug, PartialEq, Eq, Structural)]
pub enum Prototype {
    Script,
    Native { arity: usize, variadic: bool },
    Member,
}

/// A script that has been read: the tree of its program, the span of the program, and what
/// was found wrong with it.
#[derive(Debug, PartialEq)]
pub struct Script {
    pub program: Stmt,
    pub span: Span,
    pub errors: Vec<Diagnostic>,
}

/// A script that has been read, as plain values.
pub struct ScriptView {
    pub program: StmtView,
    pub span: Span,
    pub errors: Seq<Diagnostic>,
}

impl View for Script {
    type V = ScriptView;

    open spec fn view(&self) -> ScriptView {
        ScriptView { program: self.program@, span: self.span, errors: self.errors@ }
    }
}

/// What `build` makes of the items, each table keyed by the index of the item's symbol.
pub struct Resources<F, G, S> {
    pub prototypes: HashMap<u32, Prototype>,
    pub scripts: HashMap<u32, Script>,
    pub api: HashMap<u32, F>,
    pub get: HashMap<u32, G>,
    pub set: HashMap<u32, S>,
}

/// The tables of `Resources` as maps, with the scripts as plain values.
pub struct ResourcesView<F, G, S> {
    pub prototypes: Map<u32, Prototype>,
    pub scripts: Map<u32, ScriptView>,
    pub api: Map<u32, F>,
    pub get: Map<u32, G>,
    pub set: Map<u32, S>,
}

impl<F, G, S> View for Resources<F, G, S> {
    type V = ResourcesView<F, G, S>;

    open spec fn view(&self) -> ResourcesView<F, G, S> {
        ResourcesView {
            prototypes: self.prototypes@,
            scripts: self.scripts@.map_values(|script: Script| script@),
            api: self.api@,
            get: self.get@,
            set: self.set@,
        }
    }
}

/// The script that the source is read as, and the table of names after that.
pub open spec fn compiled(names: Seq<Seq<u8>>, source: Seq<u8>) -> (ScriptView, Seq<Seq<u8>>) {
    let program = initial(source, 0, names, Seq::empty()).advance().parse_program();
    (
        ScriptView { program: program.0, span: program.1, errors: program.2.errors },
        program.2.names,
    )
}

/// What scripts need to know of the item.
pub open spec fn prototype_of<F, G, S>(item: Item<F, G, S>) -> Prototype {
    match item {
        Item::Script(_) => Prototype::Script,
        Item::Native(_, arity, variadic) => Prototype::Native { arity, variadic },
        Item::Member(_, _) => Prototype::Member,
    }
}

/// The resources with one more item, and the table of names after that. `None` where the item
/// is a script for which the table has no room.
pub open spec fn with_item<F, G, S>(
    built: (ResourcesView<F, G, S>, Seq<Seq<u8>>),
    name: Symbol,
    item: Item<F, G, S>,
) -> Option<(ResourcesView<F, G, S>, Seq<Seq<u8>>)> {
    let (resources, names) = built;
    let prototypes = resources.prototypes.insert(name.0, prototype_of(item));
    match item {
        Item::Script(source) => if has_room(names, source.spec_bytes().len()) {
            let script = compiled(names, source.spec_bytes());
            Some(
                (
                    ResourcesView {
                        prototypes,
                        scripts: resources.scripts.insert(name.0, script.0),
                        ..resources
                    },
                    script.1,
                ),
            )
        } else {
            None
        },
        Item::Native(function, _, _) => Some(
            (
                ResourcesView {
                    prototypes,
                    api: resources.api.insert(name.0, function),
                    ..resources
                },
                names,
            ),
        ),
        Item::Member(get, set) => Some(
            (
                ResourcesView {
                    prototypes,
                    get: match get {
                        Some(get) => resources.get.insert(name.0, get),
                        None => resources.get,
                    },
                    set: match set {
                        Some(set) => resources.set.insert(name.0, set),
                        None => resources.set,
                    },
                    ..resources
                },
                names,
            ),
        ),
    }
}

/// No resources.
pub open spec fn nothing<F, G, S>() -> ResourcesView<F, G, S> {
    ResourcesView {
        prototypes: Map::empty(),
        scripts: Map::empty(),
        api: Map::empty(),
        get: Map::empty(),
        set: Map::empty(),
    }
}

/// The resources that the items make, taken in their order, and the table of names after
/// that. An item replaces an earlier one of the same name in the tables that it enters.
/// `None` where the table has no room for one of the scripts.
pub open spec fn built<F, G, S>(items: Seq<(Symbol, Item<F, G, S>)>, names: Seq<Seq<u8>>) -> Option<
    (ResourcesView<F, G, S>, Seq<Seq<u8>>),
>
    decreases items.len(),
{
    if items.len() == 0 {
        Some((nothing(), names))
    } else {
        match built(items.drop_last(), names) {
            Some(before) => with_item(before, items.last().0, items.last().1),
            None => None,
        }
    }
}

/// Reads a script. `None` where the table of names has no room for what the source may add
/// to it; the table is then as it was.
pub fn compile(names: &mut Interner, source: &str) -> (script: Option<Script>)
    requires
        old(names).wf(),
    ensures
        final(names).wf(),
        script is Some <==> has_room(old(names)@, source.spec_bytes().len()),
        script matches Some(read) ==> (read@, final(names)@) == compiled(
            old(names)@,
            source.spec_bytes(),
        ),
        script is None ==> final(names)@ == old(names)@,
{
    let reader = Lexer::new(source);
    if !Parser::has_room(names, source.len()) {
        return None;
    }
    let mut table = Interner::new();
    core::mem::swap(names, &mut table);
    let mut parser = Parser::new(reader, table, ErrorHandler::new());
    let (program, span) = parser.parse_program();
    let (table, errors) = parser.finish();
    *names = table;
    Some(Script { program, span, errors: errors.into_vec() })
}

/// Builds a project: reads every script, and sorts natives, getters and setters into their
/// tables. `Err` with the name of the first script for which the table of names has no room.
pub fn build<F: Copy, G: Copy, S: Copy>(
    items: &[(Symbol, Item<F, G, S>)],
    names: &mut Interner,
) -> (resources: Result<Resources<F, G, S>, Symbol>)
    requires
        old(names).wf(),
    ensures
        final(names).wf(),
        resources is Ok <==> built(items@, old(names)@) is Some,
        resources matches Ok(made) ==> Some((made@, final(names)@)) == built(items@, old(names)@),
{
    broadcast use vstd::std_specs::hash::group_hash_axioms;

    let mut resources = Resources {
        prototypes: HashMap::new(),
        scripts: HashMap::new(),
        api: HashMap::new(),
        get: HashMap::new(),
        set: HashMap::new(),
    };
    let ghost start = names@;
    assert(items@.subrange(0, 0) =~= Seq::empty());
    assert(resources@.scripts =~= Map::empty());
    let mut i: usize = 0;
    while i < items.len()
        invariant
            i <= items@.len(),
            names.wf(),
            start == old(names)@,
            built(items@.subrange(0, i as int), start) == Some((resources@, names@)),
        decreases items@.len() - i,
    {
        let ghost before = resources@;
        proof {
            assert(items@.subrange(0, i + 1).drop_last() =~= items@.subrange(0, i as int));
            if i + 1 < items@.len() {
                lemma_built_prefix(items@, start, i + 1);
            } else {
                assert(items@.subrange(0, i + 1) =~= items@);
            }
        }
        let name = items[i].0;
        match &items[i].1 {
            Item::Script(source) => {
                resources.prototypes.insert(name.0, Prototype::Script);
                match compile(names, source) {
                    Some(script) => {
                        resources.scripts.insert(name.0, script);
                        assert(resources@.scripts =~= before.scripts.insert(name.0, script@));
                    },
                    None => {
                        assert(built(items@.subrange(0, i + 1), start) is None);
                        return Err(name);
                    },
                }
            },
            Item::Native(function, arity, variadic) => {
                resources.prototypes.insert(
                    name.0,
                    Prototype::Native { arity: *arity, variadic: *variadic },
                );
                resources.api.insert(name.0, *function);
            },
            Item::Member(get, set) => {
                resources.prototypes.insert(name.0, Prototype::Member);
                if let Some(get) = get {
                    resources.get.insert(name.0, *get);
                }
                if let Some(set) = set {
                    resources.set.insert(name.0, *set);
                }
            },
        }
        i += 1;
    }
    assert(items@.subrange(0, i as int) =~= items@);
    Ok(resources)
}

/// Every item has its prototype: in what is built, the name of every item has a prototype,
/// which is that of the last item of the name. A script is in the table of scripts, a native
/// in that of natives, and a member with a getter or a setter in those of getters or setters.
pub proof fn lemma_built_tables<F, G, S>(
    items: Seq<(Symbol, Item<F, G, S>)>,
    names: Seq<Seq<u8>>,
    index: int,
)
    requires
        0 <= index < items.len(),
        built(items, names) is Some,
        forall|later: int| index < later < items.len() ==> items[later].0 != items[index].0,
    ensures
        ({
            let (made, _) = built(items, names).unwrap();
            let (Symbol(name), _) = items[index];
            &&& made.prototypes.contains_key(name)
            &&& made.prototypes[name] == prototype_of(items[index].1)
            &&& items[index].1 is Script ==> made.scripts.contains_key(name)
            &&& items[index].1 matches Item::Native(function, _, _) ==> made.api.contains_key(name)
                && made.api[name] == function
            &&& items[index].1 matches Item::Member(Some(get), _) ==> made.get.contains_key(name)
                && made.get[name] == get
            &&& items[index].1 matches Item::Member(_, Some(set)) ==> made.set.contains_key(name)
                && made.set[name] == set
        }),
    decreases items.len(),
{
    if index < items.len() - 1 {
        let before = items.drop_last();
        assert(items.last().0 != items[index].0);
        assert(before[index] == items[index]);
        lemma_built_tables(before, names, index);
    }
}

/// Items that cannot be built cannot be built with more items after them.
pub proof fn lemma_built_prefix<F, G, S>(
    items: Seq<(Symbol, Item<F, G, S>)>,
    names: Seq<Seq<u8>>,
    len: int,
)
    requires
        0 <= len <= items.len(),
    ensures
        built(items.subrange(0, len), names) is None ==> built(items, names) is None,
    decreases items.len(),
{
    if len < items.len() {
        lemma_built_prefix(items.drop_last(), names, len);
        assert(items.drop_last().subrange(0, len) =~= items.subrange(0, len));
    } else {
        assert(items.subrange(0, len) =~= items);
    }
}

} // verus!
