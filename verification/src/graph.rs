//! From symbol graphs to trees of declarations.

use vstd::hash_map::StringHashMap;
use vstd::prelude::*;

use crate::declaration::{declaration, render_declaration};
use crate::model::{SymbolNode, SymbolTree};
use crate::order::{law_stable_sort, views};
use crate::symbols::{
    sort_symbols, sorted_symbols, GraphData, Relation, Relationship, Symbol, SymbolEntry,
    SymbolGraph,
};
use crate::text::{contains_text, occurs_in, same_text};
use crate::textmap::{lemma_take_contains, sorted_distinct, TextMap};

verus! {

/// Whether a unique name is that of a symbol which the compiler made up.
pub open spec fn synthesized(usr: Seq<char>) -> bool {
    occurs_in(usr, "::SYNTHESIZED::"@)
}

/// The symbols that were written down by somebody.
pub open spec fn written(s: Seq<SymbolEntry>) -> Seq<SymbolEntry>
    decreases s.len(),
{
    if s.len() == 0 {
        s
    } else if synthesized(s.last().usr) {
        written(s.drop_last())
    } else {
        written(s.drop_last()).push(s.last())
    }
}

/// Whether a relationship makes its source a member of its target.
pub open spec fn is_membership(r: Relation) -> bool {
    r.kind == "memberOf"@ && !synthesized(r.source)
}

/// The symbol that the last of the relationships makes `usr` a member of.
pub open spec fn declared_parent(r: Seq<Relation>, usr: Seq<char>) -> Option<Seq<char>>
    decreases r.len(),
{
    if r.len() == 0 {
        None
    } else if is_membership(r.last()) && r.last().source == usr {
        Some(r.last().target)
    } else {
        declared_parent(r.drop_last(), usr)
    }
}

/// Whether one of the symbols has the unique name `usr`.
pub open spec fn has_usr(s: Seq<SymbolEntry>, usr: Seq<char>) -> bool {
    exists|i: int| 0 <= i < s.len() && (#[trigger] s[i]).usr == usr
}

impl GraphData {
    /// The symbols that go into the tree.
    pub open spec fn written(self) -> Seq<SymbolEntry> {
        written(self.symbols)
    }

    /// The symbol in which `usr` is nested, if that one is in the graph too.
    pub open spec fn scope_of(self, usr: Seq<char>) -> Option<Seq<char>> {
        match declared_parent(self.relationships, usr) {
            Some(parent) if has_usr(self.written(), parent) => Some(parent),
            _ => None,
        }
    }

    /// Those of the symbols that are nested in `scope`.
    pub open spec fn in_scope(
        self,
        s: Seq<SymbolEntry>,
        scope: Option<Seq<char>>,
    ) -> Seq<SymbolEntry>
        decreases s.len(),
    {
        if s.len() == 0 {
            s
        } else if self.scope_of(s.last().usr) == scope {
            self.in_scope(s.drop_last(), scope).push(s.last())
        } else {
            self.in_scope(s.drop_last(), scope)
        }
    }

    /// The symbols that are nested in no other, in their order.
    pub open spec fn roots(self) -> Seq<SymbolEntry> {
        sorted_symbols(self.in_scope(self.written(), None))
    }

    /// The symbols nested in the one named `usr`, in their order.
    pub open spec fn children(self, usr: Seq<char>) -> Seq<SymbolEntry> {
        sorted_symbols(self.in_scope(self.written(), Some(usr)))
    }

    /// Whether a node is the tree of a symbol: its declaration, and below it
    /// the trees of the symbols nested in it, in their order.
    pub open spec fn is_tree(self, node: SymbolTree, s: SymbolEntry) -> bool
        decreases node,
    {
        &&& node.decl == declaration(s)
        &&& node.members.len() == self.children(s.usr).len()
        &&& forall|i: int|
            0 <= i < node.members.len() ==> self.is_tree(
                #[trigger] node.members[i],
                self.children(s.usr)[i],
            )
    }

    /// Whether nodes are the trees of symbols, one by one.
    pub open spec fn are_trees(self, nodes: Seq<SymbolTree>, s: Seq<SymbolEntry>) -> bool {
        &&& nodes.len() == s.len()
        &&& forall|i: int| 0 <= i < nodes.len() ==> self.is_tree(#[trigger] nodes[i], s[i])
    }

    /// A chain of unique names, each nested in the one before it, from one
    /// that is nested in none.
    pub open spec fn is_chain(self, path: Seq<Seq<char>>) -> bool {
        &&& path.len() > 0
        &&& self.scope_of(path[0]) is None
        &&& forall|i: int|
            0 < i < path.len() ==> self.scope_of(#[trigger] path[i]) == Some(path[i - 1])
        &&& forall|i: int| 0 <= i < path.len() ==> has_usr(self.written(), #[trigger] path[i])
    }

    /// What is nested in a scope.
    pub proof fn lemma_in_scope(self, s: Seq<SymbolEntry>, scope: Option<Seq<char>>)
        ensures
            forall|i: int|
                0 <= i < self.in_scope(s, scope).len() ==> self.scope_of(
                    (#[trigger] self.in_scope(s, scope)[i]).usr,
                ) == scope && s.contains(self.in_scope(s, scope)[i]),
            forall|x: SymbolEntry|
                s.contains(x) && self.scope_of(x.usr) == scope ==> #[trigger] self.in_scope(
                    s,
                    scope,
                ).contains(x),
        decreases s.len(),
    {
        let r = self.in_scope(s, scope);
        if s.len() > 0 {
            let p = s.drop_last();
            let q = self.in_scope(p, scope);
            self.lemma_in_scope(p, scope);
            assert forall|i: int| 0 <= i < r.len() implies self.scope_of((#[trigger] r[i]).usr)
                == scope && s.contains(r[i]) by {
                if i < q.len() {
                    assert(r[i] == q[i]);
                    let k = choose|k: int| 0 <= k < p.len() && p[k] == q[i];
                    assert(s[k] == r[i]);
                } else {
                    assert(s[s.len() - 1] == r[i]);
                }
            }
            assert forall|x: SymbolEntry|
                s.contains(x) && self.scope_of(x.usr) == scope implies #[trigger] r.contains(x) by {
                let k = choose|k: int| 0 <= k < s.len() && s[k] == x;
                if k < p.len() {
                    assert(p[k] == x);
                    assert(q.contains(x));
                    let j = choose|j: int| 0 <= j < q.len() && q[j] == x;
                    assert(r[j] == x);
                } else {
                    assert(r[r.len() - 1] == x);
                }
            }
        }
    }

    /// The children of a symbol are the symbols nested in it.
    pub proof fn lemma_children(self, usr: Seq<char>)
        ensures
            forall|i: int|
                0 <= i < self.children(usr).len() ==> self.scope_of(
                    (#[trigger] self.children(usr)[i]).usr,
                ) == Some(usr) && self.written().contains(self.children(usr)[i]),
            forall|x: SymbolEntry|
                self.written().contains(x) && self.scope_of(x.usr) == Some(usr)
                    ==> #[trigger] self.children(usr).contains(x),
    {
        let u = self.in_scope(self.written(), Some(usr));
        self.lemma_in_scope(self.written(), Some(usr));
        law_stable_sort::<&Symbol>(u);
        assert forall|i: int| 0 <= i < self.children(usr).len() implies self.scope_of(
            (#[trigger] self.children(usr)[i]).usr,
        ) == Some(usr) && self.written().contains(self.children(usr)[i]) by {
            assert(self.children(usr).contains(self.children(usr)[i]));
            let k = choose|k: int| 0 <= k < u.len() && u[k] == self.children(usr)[i];
        }
    }

    /// The roots are the symbols nested in none.
    pub proof fn lemma_roots(self)
        ensures
            forall|i: int|
                0 <= i < self.roots().len() ==> self.scope_of((#[trigger] self.roots()[i]).usr)
                    is None && self.written().contains(self.roots()[i]),
            forall|x: SymbolEntry|
                self.written().contains(x) && self.scope_of(x.usr) is None
                    ==> #[trigger] self.roots().contains(x),
    {
        let u = self.in_scope(self.written(), None);
        self.lemma_in_scope(self.written(), None);
        law_stable_sort::<&Symbol>(u);
        assert forall|i: int| 0 <= i < self.roots().len() implies self.scope_of(
            (#[trigger] self.roots()[i]).usr,
        ) is None && self.written().contains(self.roots()[i]) by {
            assert(self.roots().contains(self.roots()[i]));
            let k = choose|k: int| 0 <= k < u.len() && u[k] == self.roots()[i];
        }
    }

    /// No name occurs twice in a chain: both occurrences would be nested in
    /// the same names all the way up.
    pub proof fn lemma_chain_distinct(self, path: Seq<Seq<char>>, i: int, j: int)
        requires
            self.is_chain(path),
            0 <= i < j < path.len(),
        ensures
            path[i] != path[j],
        decreases i,
    {
        if path[i] == path[j] && i > 0 {
            self.lemma_chain_distinct(path, i - 1, j - 1);
        }
    }

    /// A chain is no longer than there are symbols.
    pub proof fn lemma_chain_len(self, path: Seq<Seq<char>>)
        requires
            self.is_chain(path),
        ensures
            path.len() <= self.written().len(),
    {
        let usrs = Seq::new(self.written().len(), |i: int| self.written()[i].usr);
        assert(path.no_duplicates()) by {
            assert forall|i: int, j: int|
                0 <= i < path.len() && 0 <= j < path.len() && i != j implies path[i] != path[j] by {
                if i < j {
                    self.lemma_chain_distinct(path, i, j);
                } else {
                    self.lemma_chain_distinct(path, j, i);
                }
            }
        }
        path.unique_seq_to_set();
        usrs.lemma_cardinality_of_set();
        assert forall|u: Seq<char>| path.to_set().contains(u) implies usrs.to_set().contains(u) by {
            let i = choose|i: int| 0 <= i < path.len() && path[i] == u;
            assert(has_usr(self.written(), path[i]));
            let k = choose|k: int| 0 <= k < self.written().len() && self.written()[k].usr == u;
            assert(usrs[k] == u);
        }
        vstd::set_lib::lemma_len_subset(path.to_set(), usrs.to_set());
    }

    /// A chain goes on to each child of its last name.
    pub proof fn lemma_chain_step(self, path: Seq<Seq<char>>, i: int)
        requires
            self.is_chain(path),
            0 <= i < self.children(path.last()).len(),
        ensures
            self.is_chain(path.push(self.children(path.last())[i].usr)),
    {
        self.lemma_children(path.last());
        let kid = self.children(path.last())[i];
        let k = choose|k: int| 0 <= k < self.written().len() && self.written()[k] == kid;
        assert(has_usr(self.written(), kid.usr));
    }
}

/// Whether a map holds the children of every symbol that has any.
pub open spec fn holds_children(g: GraphData, m: Map<Seq<char>, Vec<&Symbol>>) -> bool {
    &&& forall|u: Seq<char>| #[trigger] m.dom().contains(u) <==> g.children(u).len() > 0
    &&& forall|u: Seq<char>| m.dom().contains(u) ==> views((#[trigger] m[u])@) == g.children(u)
}

/// The symbols that were written down by somebody.
fn written_symbols(symbols: &Vec<Symbol>) -> (r: Vec<&Symbol>)
    ensures
        views(r@) == written(views(symbols@)),
{
    let mut out: Vec<&Symbol> = Vec::new();
    let ghost all = views(symbols@);
    assert(views(out@) =~= written(all.take(0)));
    for i in 0..symbols.len()
        invariant
            all == views(symbols@),
            views(out@) == written(all.take(i as int)),
    {
        let s = &symbols[i];
        let ghost before = out@;
        assert(all.take(i as int + 1).drop_last() =~= all.take(i as int));
        assert(all.take(i as int + 1).last() == s@);
        if !contains_text(s.identifier.precise.as_str(), "::SYNTHESIZED::") {
            out.push(s);
            assert(views(out@) =~= views(before).push(s@));
        }
    }
    assert(all.take(symbols@.len() as int) =~= all);
    out
}

/// For each unique name, what the relationships make it a member of.
fn parents(relationships: &Vec<Relationship>) -> (r: StringHashMap<String>)
    ensures
        forall|u: Seq<char>| #[trigger]
            r@.dom().contains(u) <==> declared_parent(views(relationships@), u) is Some,
        forall|u: Seq<char>|
            r@.dom().contains(u) ==> declared_parent(views(relationships@), u) == Some(
                (#[trigger] r@[u])@,
            ),
{
    let mut out: StringHashMap<String> = StringHashMap::new();
    let ghost all = views(relationships@);
    for i in 0..relationships.len()
        invariant
            all == views(relationships@),
            forall|u: Seq<char>| #[trigger]
                out@.dom().contains(u) <==> declared_parent(all.take(i as int), u) is Some,
            forall|u: Seq<char>|
                out@.dom().contains(u) ==> declared_parent(all.take(i as int), u) == Some(
                    (#[trigger] out@[u])@,
                ),
    {
        let r = &relationships[i];
        assert(all.take(i as int + 1).drop_last() =~= all.take(i as int));
        assert(all.take(i as int + 1).last() == r@);
        if same_text(r.kind.as_str(), "memberOf") && !contains_text(
            r.source.as_str(),
            "::SYNTHESIZED::",
        ) {
            out.insert(r.source.clone(), r.target.clone());
        }
    }
    assert(all.take(relationships@.len() as int) =~= all);
    out
}

/// The unique names of symbols.
fn usr_set(symbols: &Vec<&Symbol>) -> (r: StringHashMap<bool>)
    ensures
        forall|u: Seq<char>| #[trigger] r@.dom().contains(u) <==> has_usr(views(symbols@), u),
{
    let mut out: StringHashMap<bool> = StringHashMap::new();
    let ghost all = views(symbols@);
    for i in 0..symbols.len()
        invariant
            all == views(symbols@),
            forall|u: Seq<char>| #[trigger]
                out@.dom().contains(u) <==> has_usr(all.take(i as int), u),
    {
        let ghost before = out@;
        let s = symbols[i];
        out.insert(s.identifier.precise.clone(), true);
        proof {
            let a = all.take(i as int);
            let b = all.take(i as int + 1);
            assert forall|u: Seq<char>| #[trigger] out@.dom().contains(u) <==> has_usr(b, u) by {
                assert(before.dom().contains(u) <==> has_usr(a, u));
                if has_usr(a, u) {
                    let k = choose|k: int| 0 <= k < a.len() && (#[trigger] a[k]).usr == u;
                    assert(b[k].usr == u);
                }
                if has_usr(b, u) {
                    let k = choose|k: int| 0 <= k < b.len() && (#[trigger] b[k]).usr == u;
                    if k < i {
                        assert(a[k].usr == u);
                    }
                }
                assert(b[i as int] == s@);
            }
        }
    }
    assert(all.take(symbols@.len() as int) =~= all);
    out
}

/// The lists of a map, each of them sorted.
fn sort_lists<'a>(m: &TextMap<Vec<&'a Symbol>>) -> (r: TextMap<Vec<&'a Symbol>>)
    requires
        m.wf(),
    ensures
        r.wf(),
        forall|u: Seq<char>| #[trigger] r@.dom().contains(u) <==> m@.dom().contains(u),
        forall|u: Seq<char>|
            r@.dom().contains(u) ==> views((#[trigger] r@[u])@) == sorted_symbols(views(m@[u]@)),
{
    let mut out: TextMap<Vec<&'a Symbol>> = TextMap::new();
    let ghost ks = m.key_list();
    proof {
        m.lemma_keys();
    }
    let n = m.len();
    for i in 0..n
        invariant
            m.wf(),
            ks == m.key_list(),
            n == ks.len(),
            out.wf(),
            forall|u: Seq<char>| #[trigger]
                out@.dom().contains(u) <==> ks.take(i as int).contains(u),
            forall|u: Seq<char>|
                out@.dom().contains(u) ==> views((#[trigger] out@[u])@) == sorted_symbols(
                    views(m@[u]@),
                ),
    {
        let list = m.value_at(i);
        let mut copy: Vec<&'a Symbol> = Vec::new();
        for j in 0..list.len()
            invariant
                copy@ == list@.take(j as int),
        {
            copy.push(list[j]);
        }
        assert(copy@ =~= list@);
        sort_symbols(&mut copy);
        out.insert(m.key_at(i).clone(), copy);
        proof {
            lemma_take_contains(ks, i as int);
        }
    }
    assert(ks.take(ks.len() as int) =~= ks);
    out
}

/// The roots of a graph, and the children of each symbol.
fn arrange(graph: &SymbolGraph) -> (r: (Vec<&Symbol>, TextMap<Vec<&Symbol>>))
    ensures
        views(r.0@) == graph@.roots(),
        r.1.wf(),
        holds_children(graph@, r.1@),
{
    let symbols = written_symbols(&graph.symbols);
    let parent_of = parents(&graph.relationships);
    let usrs = usr_set(&symbols);
    let mut roots: Vec<&Symbol> = Vec::new();
    let mut children: TextMap<Vec<&Symbol>> = TextMap::new();
    let ghost g = graph@;
    let ghost all = views(symbols@);
    assert(views(roots@) =~= g.in_scope(all.take(0), None));
    for i in 0..symbols.len()
        invariant
            g == graph@,
            all == views(symbols@),
            all == g.written(),
            children.wf(),
            forall|u: Seq<char>| #[trigger]
                parent_of@.dom().contains(u) <==> declared_parent(g.relationships, u) is Some,
            forall|u: Seq<char>|
                parent_of@.dom().contains(u) ==> declared_parent(g.relationships, u) == Some(
                    (#[trigger] parent_of@[u])@,
                ),
            forall|u: Seq<char>| #[trigger] usrs@.dom().contains(u) <==> has_usr(all, u),
            views(roots@) == g.in_scope(all.take(i as int), None),
            forall|u: Seq<char>| #[trigger]
                children@.dom().contains(u) <==> g.in_scope(all.take(i as int), Some(u)).len() > 0,
            forall|u: Seq<char>|
                children@.dom().contains(u) ==> views((#[trigger] children@[u])@) == g.in_scope(
                    all.take(i as int),
                    Some(u),
                ),
    {
        let s = symbols[i];
        let ghost before_roots = roots@;
        let ghost before = children@;
        let ghost now = all.take(i as int + 1);
        proof {
            assert(now.drop_last() =~= all.take(i as int));
            assert(now.last() == s@);
        }
        let scope = match parent_of.get(s.identifier.precise.as_str()) {
            Some(p) => {
                if usrs.contains_key(p.as_str()) {
                    Some(p)
                } else {
                    None
                }
            },
            None => None,
        };
        match scope {
            Some(p) => {
                let ghost p0 = p@;
                assert(g.scope_of(s@.usr) == Some(p0));
                children.append(p.clone(), s);
                proof {
                    assert forall|u: Seq<char>| children@.dom().contains(u) implies views(
                        (#[trigger] children@[u])@,
                    ) == g.in_scope(now, Some(u)) by {
                        if u == p0 {
                            if before.dom().contains(u) {
                                assert(views(children@[u]@) =~= views(before[u]@).push(s@));
                            } else {
                                assert(g.in_scope(all.take(i as int), Some(u)) =~= seq![]);
                                assert(views(children@[u]@) =~= seq![s@]);
                                assert(g.in_scope(now, Some(u)) =~= seq![s@]);
                            }
                        } else {
                            assert(before.dom().contains(u));
                        }
                    }
                }
            },
            None => {
                assert(g.scope_of(s@.usr) is None);
                roots.push(s);
                assert(views(roots@) =~= views(before_roots).push(s@));
            },
        }
    }
    assert(all.take(symbols@.len() as int) =~= all);
    sort_symbols(&mut roots);
    let sorted = sort_lists(&children);
    proof {
        assert forall|u: Seq<char>| #[trigger] sorted@.dom().contains(u) <==> g.children(u).len()
            > 0 by {
            law_stable_sort::<&Symbol>(g.in_scope(all, Some(u)));
            assert(sorted@.dom().contains(u) <==> children@.dom().contains(u));
        }
    }
    (roots, sorted)
}

/// The tree of a symbol. `path` is a chain that ends with the symbol.
fn symbol_to_node(
    sym: &Symbol,
    children_of: &TextMap<Vec<&Symbol>>,
    Ghost(g): Ghost<GraphData>,
    Ghost(path): Ghost<Seq<Seq<char>>>,
) -> (r: SymbolNode)
    requires
        children_of.wf(),
        holds_children(g, children_of@),
        g.is_chain(path),
        path.last() == sym@.usr,
    ensures
        g.is_tree(r@, sym@),
    decreases g.written().len() - path.len(),
{
    let mut members: Vec<SymbolNode> = Vec::new();
    let ghost kids = g.children(sym@.usr);
    match children_of.get(sym.identifier.precise.as_str()) {
        Some(list) => {
            assert(views(list@) == kids);
            for i in 0..list.len()
                invariant
                    children_of.wf(),
                    holds_children(g, children_of@),
                    g.is_chain(path),
                    path.last() == sym@.usr,
                    kids == g.children(sym@.usr),
                    views(list@) == kids,
                    members@.len() == i,
                    forall|j: int|
                        0 <= j < i ==> g.is_tree((#[trigger] members@[j])@, kids[j]),
            {
                let kid = list[i];
                let ghost longer = path.push(kid@.usr);
                proof {
                    assert(kids[i as int] == kid@);
                    g.lemma_chain_step(path, i as int);
                    g.lemma_chain_len(longer);
                }
                members.push(symbol_to_node(kid, children_of, Ghost(g), Ghost(longer)));
            }
            assert(members@.len() == kids.len());
        },
        None => {},
    }
    let r = SymbolNode { decl: render_declaration(sym), members };
    proof {
        r.lemma_view();
    }
    r
}

/// The trees of a list of symbols that are nested in none.
fn roots_to_nodes(
    roots: &Vec<&Symbol>,
    children_of: &TextMap<Vec<&Symbol>>,
    Ghost(g): Ghost<GraphData>,
) -> (r: Vec<SymbolNode>)
    requires
        children_of.wf(),
        holds_children(g, children_of@),
        forall|i: int|
            0 <= i < roots@.len() ==> g.roots().contains((#[trigger] views(roots@)[i])),
    ensures
        g.are_trees(views(r@), views(roots@)),
{
    let mut out: Vec<SymbolNode> = Vec::new();
    for i in 0..roots.len()
        invariant
            children_of.wf(),
            holds_children(g, children_of@),
            forall|i: int|
                0 <= i < roots@.len() ==> g.roots().contains((#[trigger] views(roots@)[i])),
            out@.len() == i,
            forall|j: int|
                0 <= j < i ==> g.is_tree((#[trigger] out@[j])@, views(roots@)[j]),
    {
        let s = roots[i];
        let ghost path = seq![s@.usr];
        proof {
            g.lemma_roots();
            assert(views(roots@)[i as int] == s@);
            let k = choose|k: int| 0 <= k < g.roots().len() && g.roots()[k] == s@;
            assert(g.written().contains(g.roots()[k]));
            let m = choose|m: int| 0 <= m < g.written().len() && g.written()[m] == s@;
            assert(has_usr(g.written(), s@.usr));
            g.lemma_chain_len(path);
        }
        out.push(symbol_to_node(s, children_of, Ghost(g), Ghost(path)));
    }
    out
}

/// The trees of a symbol graph: one for each symbol that is nested in no
/// other.
pub fn graph_to_nodes(graph: &SymbolGraph) -> (r: Vec<SymbolNode>)
    ensures
        graph@.are_trees(views(r@), graph@.roots()),
{
    let (roots, children_of) = arrange(graph);
    roots_to_nodes(&roots, &children_of, Ghost(graph@))
}

/// The types that symbols extend: the first components of their paths.
pub open spec fn extended_types(s: Seq<SymbolEntry>) -> Seq<Seq<char>>
    decreases s.len(),
{
    if s.len() == 0 {
        seq![]
    } else if s.last().path.len() > 0 {
        extended_types(s.drop_last()).push(s.last().path[0])
    } else {
        extended_types(s.drop_last())
    }
}

/// The symbols that extend a type, in their order.
pub open spec fn extending(s: Seq<SymbolEntry>, ty: Seq<char>) -> Seq<SymbolEntry>
    decreases s.len(),
{
    if s.len() == 0 {
        s
    } else if s.last().path.len() > 0 && s.last().path[0] == ty {
        extending(s.drop_last(), ty).push(s.last())
    } else {
        extending(s.drop_last(), ty)
    }
}

/// The symbols without a path, in their order.
pub open spec fn pathless(s: Seq<SymbolEntry>) -> Seq<SymbolEntry>
    decreases s.len(),
{
    if s.len() == 0 {
        s
    } else if s.last().path.len() == 0 {
        pathless(s.drop_last()).push(s.last())
    } else {
        pathless(s.drop_last())
    }
}

impl GraphData {
    /// The types that the roots extend, in order.
    pub open spec fn types(self) -> Seq<Seq<char>> {
        sorted_distinct(extended_types(self.roots()))
    }

    /// Whether nodes are the trees of an extension graph: first one node
    /// `extension <Type>` for each extended type, with the trees of the roots
    /// that extend it, then the trees of the roots without a path.
    pub open spec fn are_extension_trees(self, nodes: Seq<SymbolTree>) -> bool {
        let n = self.types().len() as int;
        &&& nodes.len() == n + pathless(self.roots()).len()
        &&& forall|i: int|
            0 <= i < n ==> (#[trigger] nodes[i]).decl == "extension "@ + self.types()[i]
                && self.are_trees(nodes[i].members, extending(self.roots(), self.types()[i]))
        &&& self.are_trees(nodes.skip(n), pathless(self.roots()))
    }
}

/// What the selections from a list hold is from the list.
pub proof fn lemma_selections(s: Seq<SymbolEntry>, ty: Seq<char>)
    ensures
        forall|i: int|
            0 <= i < extending(s, ty).len() ==> s.contains(#[trigger] extending(s, ty)[i]),
        forall|i: int| 0 <= i < pathless(s).len() ==> s.contains(#[trigger] pathless(s)[i]),
        extending(s, ty).len() > 0 <==> extended_types(s).contains(ty),
    decreases s.len(),
{
    if s.len() > 0 {
        let p = s.drop_last();
        lemma_selections(p, ty);
        assert(s[s.len() - 1] == s.last());
        assert forall|i: int| 0 <= i < extending(s, ty).len() implies s.contains(
            #[trigger] extending(s, ty)[i],
        ) by {
            if i < extending(p, ty).len() {
                let x = extending(p, ty)[i];
                let k = choose|k: int| 0 <= k < p.len() && p[k] == x;
                assert(s[k] == x);
            }
        }
        assert forall|i: int| 0 <= i < pathless(s).len() implies s.contains(
            #[trigger] pathless(s)[i],
        ) by {
            if i < pathless(p).len() {
                let x = pathless(p)[i];
                let k = choose|k: int| 0 <= k < p.len() && p[k] == x;
                assert(s[k] == x);
            }
        }
        let a = extended_types(p);
        let b = extended_types(s);
        if a.contains(ty) {
            let k = choose|k: int| 0 <= k < a.len() && a[k] == ty;
            assert(b[k] == ty);
        }
        if b.contains(ty) && !a.contains(ty) {
            let k = choose|k: int| 0 <= k < b.len() && b[k] == ty;
            if k < a.len() {
                assert(a[k] == ty);
            }
        }
        if s.last().path.len() > 0 {
            assert(b[b.len() - 1] == s.last().path[0]);
        }
    }
}

/// Symbols by the types that they extend, and those without a path.
fn group_by_type<'a>(roots: &Vec<&'a Symbol>) -> (r: (TextMap<Vec<&'a Symbol>>, Vec<&'a Symbol>))
    ensures
        r.0.wf(),
        r.0.key_list() == sorted_distinct(extended_types(views(roots@))),
        forall|ty: Seq<char>|
            r.0@.dom().contains(ty) ==> views((#[trigger] r.0@[ty])@) == extending(
                views(roots@),
                ty,
            ),
        views(r.1@) == pathless(views(roots@)),
{
    let mut grouped: TextMap<Vec<&'a Symbol>> = TextMap::new();
    let mut rest: Vec<&'a Symbol> = Vec::new();
    let ghost all = views(roots@);
    assert(views(rest@) =~= pathless(all.take(0)));
    for i in 0..roots.len()
        invariant
            all == views(roots@),
            grouped.wf(),
            forall|ty: Seq<char>| #[trigger]
                grouped@.dom().contains(ty) <==> extending(all.take(i as int), ty).len() > 0,
            forall|ty: Seq<char>|
                grouped@.dom().contains(ty) ==> views((#[trigger] grouped@[ty])@) == extending(
                    all.take(i as int),
                    ty,
                ),
            views(rest@) == pathless(all.take(i as int)),
    {
        let s = roots[i];
        let ghost before = grouped@;
        let ghost before_rest = rest@;
        let ghost now = all.take(i as int + 1);
        proof {
            assert(now.drop_last() =~= all.take(i as int));
            assert(now.last() == s@);
            assert(s@.path.len() == s.path_components@.len());
        }
        if s.path_components.len() > 0 {
            let ty = s.path_components[0].clone();
            let ghost t0 = ty@;
            grouped.append(ty, s);
            proof {
                assert(s@.path[0] == t0);
                assert forall|ty: Seq<char>| grouped@.dom().contains(ty) implies views(
                    (#[trigger] grouped@[ty])@,
                ) == extending(now, ty) by {
                    if ty == t0 {
                        if before.dom().contains(ty) {
                            assert(views(grouped@[ty]@) =~= views(before[ty]@).push(s@));
                        } else {
                            assert(extending(all.take(i as int), ty) =~= seq![]);
                            assert(views(grouped@[ty]@) =~= seq![s@]);
                            assert(extending(now, ty) =~= seq![s@]);
                        }
                    } else {
                        assert(before.dom().contains(ty));
                    }
                }
            }
        } else {
            rest.push(s);
            assert(views(rest@) =~= views(before_rest).push(s@));
        }
    }
    assert(all.take(roots@.len() as int) =~= all);
    proof {
        assert forall|ty: Seq<char>| #[trigger]
            grouped@.dom().contains(ty) <==> extended_types(all).contains(ty) by {
            lemma_selections(all, ty);
        }
        grouped.lemma_keys_are(extended_types(all));
    }
    (grouped, rest)
}

/// The trees of an extension graph.
///
/// Such a graph holds the symbols that a module adds to the types of another
/// module, but not those types. The symbols that are nested in no other are
/// put under a node `extension <Type>`, by the first component of their paths.
pub fn ext_graph_to_nodes(graph: &SymbolGraph) -> (r: Vec<SymbolNode>)
    ensures
        graph@.are_extension_trees(views(r@)),
{
    let (roots, children_of) = arrange(graph);
    let (grouped, rest) = group_by_type(&roots);
    let ghost g = graph@;
    let ghost types = g.types();
    let mut out: Vec<SymbolNode> = Vec::new();
    let n = grouped.len();
    for i in 0..n
        invariant
            g == graph@,
            types == g.types(),
            n == types.len(),
            grouped.wf(),
            grouped.key_list() == types,
            forall|ty: Seq<char>|
                grouped@.dom().contains(ty) ==> views((#[trigger] grouped@[ty])@) == extending(
                    g.roots(),
                    ty,
                ),
            children_of.wf(),
            holds_children(g, children_of@),
            out@.len() == i,
            forall|j: int|
                0 <= j < i ==> (#[trigger] out@[j])@.decl == "extension "@ + types[j]
                    && g.are_trees(out@[j]@.members, extending(g.roots(), types[j])),
    {
        let list = grouped.value_at(i);
        proof {
            assert(views(list@) == extending(g.roots(), types[i as int]));
            lemma_selections(g.roots(), types[i as int]);
        }
        let mut decl = "extension ".to_string();
        decl.push_str(grouped.key_at(i).as_str());
        let node = SymbolNode { decl, members: roots_to_nodes(list, &children_of, Ghost(g)) };
        proof {
            node.lemma_view();
        }
        out.push(node);
    }
    proof {
        lemma_selections(g.roots(), seq![]);
    }
    let mut tail = roots_to_nodes(&rest, &children_of, Ghost(g));
    let ghost front = out@;
    let ghost back = tail@;
    out.append(&mut tail);
    proof {
        assert(views(out@).skip(n as int) =~= views(back));
        assert forall|i: int| 0 <= i < n implies (#[trigger] views(out@)[i]).decl == "extension "@
            + types[i] && g.are_trees(views(out@)[i].members, extending(g.roots(), types[i])) by {
            assert(out@[i] == front[i]);
        }
    }
    out
}

} // verus!
