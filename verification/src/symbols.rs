//! Symbol graphs as the Swift compiler emits them.

use vstd::prelude::*;

use crate::order::{
    compare_paths, compare_text, lemma_path_order_chains, lemma_path_order_flips,
    lemma_text_order_chains, lemma_text_order_flips, path_order, sort, stable_sort, text_order,
    views, Order, Ranked,
};
use crate::text::{same_text, strings};

verus! {

/// The symbols of a module, and how they relate to one another.
#[derive(Debug)]
pub struct SymbolGraph {
    pub symbols: Vec<Symbol>,
    pub relationships: Vec<Relationship>,
}

/// A declared symbol.
#[derive(Debug)]
pub struct Symbol {
    pub identifier: Identifier,
    pub kind: Kind,
    pub path_components: Vec<String>,
    pub access_level: String,
    pub declaration_fragments: Vec<Fragment>,
    pub swift_extension: Option<SwiftExtension>,
}

/// The unique name (USR) of a symbol.
#[derive(Debug)]
pub struct Identifier {
    pub precise: String,
}

/// The kind of a symbol, such as `swift.struct`.
#[derive(Debug)]
pub struct Kind {
    pub identifier: String,
}

/// A piece of a declaration.
#[derive(Debug)]
pub struct Fragment {
    pub spelling: String,
    pub kind: String,
}

/// The extension in which a symbol is declared.
#[derive(Debug)]
pub struct SwiftExtension {
    pub extended_module: Option<String>,
    pub constraints: Vec<Constraint>,
}

/// A constraint on the generic parameters of an extension.
#[derive(Debug)]
pub struct Constraint {
    pub kind: String,
    pub lhs: String,
    pub rhs: String,
}

/// How one symbol, the source, relates to another, the target.
#[derive(Debug)]
pub struct Relationship {
    pub source: String,
    pub target: String,
    pub kind: String,
}

/// What a `Fragment` stands for.
pub struct FragmentText {
    pub spelling: Seq<char>,
    pub kind: Seq<char>,
}

/// What a `Constraint` stands for.
pub struct ConstraintText {
    pub kind: Seq<char>,
    pub lhs: Seq<char>,
    pub rhs: Seq<char>,
}

/// What a `Relationship` stands for.
pub struct Relation {
    pub source: Seq<char>,
    pub target: Seq<char>,
    pub kind: Seq<char>,
}

/// What a `Symbol` stands for. Outside an extension there are no constraints.
#[verifier::ext_equal]
pub struct SymbolEntry {
    pub usr: Seq<char>,
    pub kind: Seq<char>,
    pub path: Seq<Seq<char>>,
    pub access_level: Seq<char>,
    pub fragments: Seq<FragmentText>,
    pub constraints: Seq<ConstraintText>,
}

/// What a `SymbolGraph` stands for.
#[verifier::ext_equal]
pub struct GraphData {
    pub symbols: Seq<SymbolEntry>,
    pub relationships: Seq<Relation>,
}

impl View for Fragment {
    type V = FragmentText;

    open spec fn view(&self) -> FragmentText {
        FragmentText { spelling: self.spelling@, kind: self.kind@ }
    }
}

impl View for Constraint {
    type V = ConstraintText;

    open spec fn view(&self) -> ConstraintText {
        ConstraintText { kind: self.kind@, lhs: self.lhs@, rhs: self.rhs@ }
    }
}

impl View for Relationship {
    type V = Relation;

    open spec fn view(&self) -> Relation {
        Relation { source: self.source@, target: self.target@, kind: self.kind@ }
    }
}

impl View for Symbol {
    type V = SymbolEntry;

    open spec fn view(&self) -> SymbolEntry {
        SymbolEntry {
            usr: self.identifier.precise@,
            kind: self.kind.identifier@,
            path: strings(self.path_components@),
            access_level: self.access_level@,
            fragments: views(self.declaration_fragments@),
            constraints: match self.swift_extension {
                Some(e) => views(e.constraints@),
                None => seq![],
            },
        }
    }
}

impl View for SymbolGraph {
    type V = GraphData;

    open spec fn view(&self) -> GraphData {
        GraphData { symbols: views(self.symbols@), relationships: views(self.relationships@) }
    }
}

/// The place of a kind of symbol among the kinds.
pub open spec fn rank_of(kind: Seq<char>) -> u8 {
    if kind == "swift.protocol"@ {
        0
    } else if kind == "swift.class"@ {
        1
    } else if kind == "swift.actor"@ {
        2
    } else if kind == "swift.struct"@ {
        3
    } else if kind == "swift.enum"@ {
        4
    } else if kind == "swift.typealias"@ {
        5
    } else if kind == "swift.associatedtype"@ {
        6
    } else if kind == "swift.enum.case"@ {
        7
    } else if kind == "swift.init"@ {
        8
    } else if kind == "swift.property"@ || kind == "swift.var"@ {
        9
    } else if kind == "swift.type.property"@ {
        10
    } else if kind == "swift.subscript"@ {
        11
    } else if kind == "swift.method"@ {
        12
    } else if kind == "swift.type.method"@ {
        13
    } else if kind == "swift.func"@ || kind == "swift.func.op"@ {
        14
    } else {
        100
    }
}

/// The place of a kind of symbol among the kinds.
pub fn kind_rank(k: &str) -> (r: u8)
    ensures
        r == rank_of(k@),
{
    if same_text(k, "swift.protocol") {
        0
    } else if same_text(k, "swift.class") {
        1
    } else if same_text(k, "swift.actor") {
        2
    } else if same_text(k, "swift.struct") {
        3
    } else if same_text(k, "swift.enum") {
        4
    } else if same_text(k, "swift.typealias") {
        5
    } else if same_text(k, "swift.associatedtype") {
        6
    } else if same_text(k, "swift.enum.case") {
        7
    } else if same_text(k, "swift.init") {
        8
    } else if same_text(k, "swift.property") || same_text(k, "swift.var") {
        9
    } else if same_text(k, "swift.type.property") {
        10
    } else if same_text(k, "swift.subscript") {
        11
    } else if same_text(k, "swift.method") {
        12
    } else if same_text(k, "swift.type.method") {
        13
    } else if same_text(k, "swift.func") || same_text(k, "swift.func.op") {
        14
    } else {
        100
    }
}

/// The order of two symbols: by kind, then by path, then by unique name.
pub open spec fn symbol_order(a: SymbolEntry, b: SymbolEntry) -> Order {
    if rank_of(a.kind) < rank_of(b.kind) {
        Order::Less
    } else if rank_of(b.kind) < rank_of(a.kind) {
        Order::Greater
    } else if path_order(a.path, b.path) != Order::Equal {
        path_order(a.path, b.path)
    } else {
        text_order(a.usr, b.usr)
    }
}

impl<'a> Ranked for &'a Symbol {
    open spec fn order(a: SymbolEntry, b: SymbolEntry) -> Order {
        symbol_order(a, b)
    }

    proof fn lemma_order_flips(a: SymbolEntry, b: SymbolEntry) {
        lemma_path_order_flips(a.path, b.path);
        lemma_text_order_flips(a.usr, b.usr);
    }

    proof fn lemma_order_chains(a: SymbolEntry, b: SymbolEntry, c: SymbolEntry) {
        lemma_path_order_flips(a.path, b.path);
        lemma_path_order_flips(b.path, c.path);
        if rank_of(a.kind) == rank_of(b.kind) && rank_of(b.kind) == rank_of(c.kind) {
            lemma_path_order_chains(a.path, b.path, c.path);
            if a.path == b.path && b.path == c.path {
                lemma_text_order_chains(a.usr, b.usr, c.usr);
            }
        }
    }

    fn compare(&self, other: &Self) -> (r: Order) {
        let x = kind_rank(self.kind.identifier.as_str());
        let y = kind_rank(other.kind.identifier.as_str());
        if x < y {
            return Order::Less;
        }
        if y < x {
            return Order::Greater;
        }
        let o = compare_paths(&self.path_components, &other.path_components);
        match o {
            Order::Equal => compare_text(
                self.identifier.precise.as_str(),
                other.identifier.precise.as_str(),
            ),
            _ => o,
        }
    }
}

/// Symbols in their order.
pub open spec fn sorted_symbols(s: Seq<SymbolEntry>) -> Seq<SymbolEntry> {
    stable_sort::<&Symbol>(s)
}

/// Sorts symbols by kind, path and unique name.
pub fn sort_symbols(v: &mut Vec<&Symbol>)
    ensures
        views(final(v)@) == sorted_symbols(views(old(v)@)),
{
    sort(v);
}

} // verus!
