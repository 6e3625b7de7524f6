//! What is nested in what, in terms of the symbols and relationships of a
//! graph.

use vstd::prelude::*;

use crate::declaration::declaration;
use crate::graph::{
    declared_parent, extended_types, extending, has_usr, lemma_selections, pathless, written,
};
use crate::model::SymbolTree;
use crate::order::{law_stable_sort, path_order, text_order, Order, Ranked};
use crate::symbols::{rank_of, sorted_symbols, GraphData, Relation, Symbol, SymbolEntry};
use crate::text::occurs_in;
use crate::textmap::law_sorted_distinct;

verus! {

/// Whether a symbol of a graph was written down by somebody: its unique name
/// does not hold the mark of those that the compiler makes up.
pub open spec fn in_source(g: GraphData, s: SymbolEntry) -> bool {
    g.symbols.contains(s) && !occurs_in(s.usr, "::SYNTHESIZED::"@)
}

proof fn lemma_declared(r: Seq<Relation>, usr: Seq<char>)
    requires
        !occurs_in(usr, "::SYNTHESIZED::"@),
    ensures
        match declared_parent(r, usr) {
            Some(t) => exists|k: int|
                0 <= k < r.len() && (#[trigger] r[k]).kind == "memberOf"@ && r[k].source == usr
                    && r[k].target == t && forall|m: int|
                    k < m < r.len() && (#[trigger] r[m]).kind == "memberOf"@ ==> r[m].source != usr,
            None => forall|k: int|
                0 <= k < r.len() && (#[trigger] r[k]).kind == "memberOf"@ ==> r[k].source != usr,
        },
    decreases r.len(),
{
    if r.len() > 0 {
        let p = r.drop_last();
        let last = r.len() - 1;
        lemma_declared(p, usr);
        if r.last().kind == "memberOf"@ && r.last().source == usr {
            assert(r[last].kind == "memberOf"@ && r[last].source == usr);
            assert(declared_parent(r, usr) == Some(r[last].target));
        } else {
            match declared_parent(p, usr) {
                Some(t) => {
                    let k = choose|k: int|
                        0 <= k < p.len() && (#[trigger] p[k]).kind == "memberOf"@ && p[k].source
                            == usr && p[k].target == t && forall|m: int|
                            k < m < p.len() && (#[trigger] p[m]).kind == "memberOf"@ ==> p[m].source
                                != usr;
                    assert(r[k] == p[k]);
                    assert forall|m: int|
                        k < m < r.len() && (#[trigger] r[m]).kind == "memberOf"@ implies r[m].source
                        != usr by {
                        if m < p.len() {
                            assert(p[m] == r[m]);
                        }
                    }
                },
                None => {
                    assert forall|k: int|
                        0 <= k < r.len() && (#[trigger] r[k]).kind == "memberOf"@ implies r[k].source
                        != usr by {
                        if k < p.len() {
                            assert(p[k] == r[k]);
                        }
                    }
                },
            }
        }
    }
}

proof fn lemma_declared_last(r: Seq<Relation>, usr: Seq<char>, k: int)
    requires
        !occurs_in(usr, "::SYNTHESIZED::"@),
        0 <= k < r.len(),
        r[k].kind == "memberOf"@,
        r[k].source == usr,
        forall|m: int|
            k < m < r.len() && (#[trigger] r[m]).kind == "memberOf"@ ==> r[m].source != usr,
    ensures
        declared_parent(r, usr) == Some(r[k].target),
    decreases r.len(),
{
    if k < r.len() - 1 {
        let p = r.drop_last();
        assert(r[r.len() - 1].kind == "memberOf"@ ==> r[r.len() - 1].source != usr);
        assert forall|m: int| k < m < p.len() && (#[trigger] p[m]).kind == "memberOf"@ implies
            p[m].source != usr by {
            assert(p[m] == r[m]);
        }
        lemma_declared_last(p, usr, k);
    }
}

proof fn lemma_in_source(s: Seq<SymbolEntry>, x: SymbolEntry)
    ensures
        written(s).contains(x) <==> s.contains(x) && !occurs_in(x.usr, "::SYNTHESIZED::"@),
    decreases s.len(),
{
    if s.len() > 0 {
        let p = s.drop_last();
        let a = written(p);
        let b = written(s);
        lemma_in_source(p, x);
        if a.contains(x) {
            let i = choose|i: int| 0 <= i < a.len() && a[i] == x;
            assert(b[i] == x);
            let k = choose|k: int| 0 <= k < p.len() && p[k] == x;
            assert(s[k] == x);
        }
        if b.contains(x) && !a.contains(x) {
            let i = choose|i: int| 0 <= i < b.len() && b[i] == x;
            if i < a.len() {
                assert(a[i] == x);
            }
            assert(s[s.len() - 1] == x);
        }
        if s.contains(x) && !occurs_in(x.usr, "::SYNTHESIZED::"@) && !a.contains(x) {
            let k = choose|k: int| 0 <= k < s.len() && s[k] == x;
            if k < p.len() {
                assert(p[k] == x);
            }
            assert(b[a.len() as int] == x);
        }
    }
}

proof fn lemma_scope_some(g: GraphData, usr: Seq<char>, parent: SymbolEntry, k: int)
    requires
        !occurs_in(usr, "::SYNTHESIZED::"@),
        in_source(g, parent),
        0 <= k < g.relationships.len(),
        g.relationships[k].kind == "memberOf"@,
        g.relationships[k].source == usr,
        g.relationships[k].target == parent.usr,
        forall|m: int|
            k < m < g.relationships.len() && (#[trigger] g.relationships[m]).kind == "memberOf"@
                ==> g.relationships[m].source != usr,
    ensures
        g.scope_of(usr) == Some(parent.usr),
{
    lemma_declared_last(g.relationships, usr, k);
    lemma_in_source(g.symbols, parent);
    let w = g.written();
    let i = choose|i: int| 0 <= i < w.len() && w[i] == parent;
    assert(w[i].usr == parent.usr);
    assert(has_usr(w, parent.usr));
}

proof fn lemma_scope_target(g: GraphData, usr: Seq<char>) -> (parent: SymbolEntry)
    requires
        !occurs_in(usr, "::SYNTHESIZED::"@),
        g.scope_of(usr) is Some,
    ensures
        in_source(g, parent),
        g.scope_of(usr) == Some(parent.usr),
        exists|k: int|
            0 <= k < g.relationships.len() && (#[trigger] g.relationships[k]).kind == "memberOf"@
                && g.relationships[k].source == usr && g.relationships[k].target == parent.usr,
{
    lemma_declared(g.relationships, usr);
    let t = g.scope_of(usr)->0;
    let w = g.written();
    assert(has_usr(w, t));
    let i = choose|i: int| 0 <= i < w.len() && (#[trigger] w[i]).usr == t;
    assert(w.contains(w[i]));
    lemma_in_source(g.symbols, w[i]);
    w[i]
}

impl GraphData {
    /// A symbol that is the source of no relationship of the kind `memberOf` is
    /// at the top: one of the trees is its tree.
    pub proof fn law_no_membership_no_nesting(self, nodes: Seq<SymbolTree>, s: SymbolEntry)
        requires
            self.are_trees(nodes, self.roots()),
            in_source(self, s),
            forall|k: int|
                0 <= k < self.relationships.len() && (#[trigger] self.relationships[k]).kind
                    == "memberOf"@ ==> self.relationships[k].source != s.usr,
        ensures
            self.roots().contains(s),
            exists|i: int|
                0 <= i < nodes.len() && #[trigger] self.is_tree(nodes[i], s) && nodes[i].decl
                    == declaration(s),
    {
        lemma_declared(self.relationships, s.usr);
        lemma_in_source(self.symbols, s);
        self.lemma_roots();
        assert(self.scope_of(s.usr) is None);
        assert(self.roots().contains(s));
        let i = choose|i: int| 0 <= i < self.roots().len() && self.roots()[i] == s;
        assert(self.is_tree(nodes[i], s));
    }

    /// A symbol whose relationships of the kind `memberOf` all lead out of the
    /// graph, or to symbols that nobody wrote down, is at the top too.
    pub proof fn law_no_parent_no_nesting(self, nodes: Seq<SymbolTree>, s: SymbolEntry)
        requires
            self.are_trees(nodes, self.roots()),
            in_source(self, s),
            forall|k: int, p: SymbolEntry|
                0 <= k < self.relationships.len() && (#[trigger] self.relationships[k]).kind
                    == "memberOf"@ && self.relationships[k].source == s.usr && #[trigger] in_source(
                    self,
                    p,
                ) ==> self.relationships[k].target != p.usr,
        ensures
            self.roots().contains(s),
            exists|i: int|
                0 <= i < nodes.len() && #[trigger] self.is_tree(nodes[i], s) && nodes[i].decl
                    == declaration(s),
    {
        lemma_in_source(self.symbols, s);
        self.lemma_roots();
        if self.scope_of(s.usr) is Some {
            let p = lemma_scope_target(self, s.usr);
            let k = choose|k: int|
                0 <= k < self.relationships.len() && (#[trigger] self.relationships[k]).kind
                    == "memberOf"@ && self.relationships[k].source == s.usr
                    && self.relationships[k].target == p.usr;
            assert(in_source(self, p));
        }
        assert(self.roots().contains(s));
        let i = choose|i: int| 0 <= i < self.roots().len() && self.roots()[i] == s;
        assert(self.is_tree(nodes[i], s));
    }

    /// What the last relationship of the kind `memberOf` from a symbol leads to
    /// is where the symbol is nested, and nowhere else: the tree of that one has
    /// the tree of the symbol as a member, and the symbol is not at the top.
    pub proof fn law_membership_nests(
        self,
        node: SymbolTree,
        parent: SymbolEntry,
        s: SymbolEntry,
        k: int,
    )
        requires
            self.is_tree(node, parent),
            in_source(self, parent),
            in_source(self, s),
            0 <= k < self.relationships.len(),
            self.relationships[k].kind == "memberOf"@,
            self.relationships[k].source == s.usr,
            self.relationships[k].target == parent.usr,
            forall|m: int|
                k < m < self.relationships.len() && (#[trigger] self.relationships[m]).kind
                    == "memberOf"@ ==> self.relationships[m].source != s.usr,
        ensures
            exists|i: int|
                0 <= i < node.members.len() && #[trigger] self.is_tree(node.members[i], s)
                    && node.members[i].decl == declaration(s),
            !self.roots().contains(s),
    {
        lemma_scope_some(self, s.usr, parent, k);
        lemma_in_source(self.symbols, s);
        self.lemma_children(parent.usr);
        self.lemma_roots();
        let kids = self.children(parent.usr);
        assert(kids.contains(s));
        let i = choose|i: int| 0 <= i < kids.len() && kids[i] == s;
        assert(self.is_tree(node.members[i], s));
        if self.roots().contains(s) {
            let j = choose|j: int| 0 <= j < self.roots().len() && self.roots()[j] == s;
            assert(self.scope_of(self.roots()[j].usr) is None);
        }
    }

    /// Each member of a node is the tree of a symbol that somebody wrote down,
    /// and a relationship of the kind `memberOf` leads from that symbol to the
    /// one of the node.
    pub proof fn law_members_are_members(self, node: SymbolTree, parent: SymbolEntry, i: int)
        requires
            self.is_tree(node, parent),
            0 <= i < node.members.len(),
        ensures
            exists|s: SymbolEntry, k: int|
                #[trigger] in_source(self, s) && self.is_tree(node.members[i], s) && 0 <= k
                    < self.relationships.len() && (#[trigger] self.relationships[k]).kind
                    == "memberOf"@ && self.relationships[k].source == s.usr
                    && self.relationships[k].target == parent.usr,
    {
        self.lemma_children(parent.usr);
        let s = self.children(parent.usr)[i];
        assert(self.is_tree(node.members[i], s));
        lemma_in_source(self.symbols, s);
        let p = lemma_scope_target(self, s.usr);
        let k = choose|k: int|
            0 <= k < self.relationships.len() && (#[trigger] self.relationships[k]).kind
                == "memberOf"@ && self.relationships[k].source == s.usr
                && self.relationships[k].target == p.usr;
        assert(in_source(self, s));
        assert(self.relationships[k].target == parent.usr);
    }

    /// Each tree is that of a symbol that somebody wrote down. If a
    /// relationship of the kind `memberOf` leads from it to another such symbol,
    /// then a later one leads elsewhere.
    pub proof fn law_top_is_not_nested(self, nodes: Seq<SymbolTree>, i: int)
        requires
            self.are_trees(nodes, self.roots()),
            0 <= i < nodes.len(),
        ensures
            exists|s: SymbolEntry|
                #[trigger] in_source(self, s) && self.is_tree(nodes[i], s) && forall|
                    k: int,
                    p: SymbolEntry,
                |
                    0 <= k < self.relationships.len() && (#[trigger] self.relationships[k]).kind
                        == "memberOf"@ && self.relationships[k].source == s.usr
                        && self.relationships[k].target == p.usr && #[trigger] in_source(self, p)
                        ==> exists|m: int|
                        k < m < self.relationships.len() && (#[trigger] self.relationships[m]).kind
                            == "memberOf"@ && self.relationships[m].source == s.usr,
    {
        self.lemma_roots();
        let s = self.roots()[i];
        assert(self.is_tree(nodes[i], s));
        lemma_in_source(self.symbols, s);
        assert(in_source(self, s));
        assert forall|k: int, p: SymbolEntry|
            0 <= k < self.relationships.len() && (#[trigger] self.relationships[k]).kind
                == "memberOf"@ && self.relationships[k].source == s.usr
                && self.relationships[k].target == p.usr && #[trigger] in_source(
                self,
                p,
            ) implies exists|m: int|
            k < m < self.relationships.len() && (#[trigger] self.relationships[m]).kind
                == "memberOf"@ && self.relationships[m].source == s.usr by {
            if forall|m: int|
                k < m < self.relationships.len() && (#[trigger] self.relationships[m]).kind
                    == "memberOf"@ ==> self.relationships[m].source != s.usr {
                lemma_scope_some(self, s.usr, p, k);
            }
        }
    }

    proof fn lemma_list_order(self, list: Seq<SymbolEntry>, i: int, j: int)
        requires
            0 <= i < j < sorted_symbols(list).len(),
        ensures
            comes_first(sorted_symbols(list)[i], sorted_symbols(list)[j]),
    {
        law_stable_sort::<&Symbol>(list);
        let r = sorted_symbols(list);
        assert(<&Symbol as Ranked>::order(r[i], r[j]) != Order::Greater);
    }

    /// Members stand in order, and so do the trees: by the kinds of their
    /// symbols, then by path, then by unique name.
    pub proof fn law_nodes_in_order(self, nodes: Seq<SymbolTree>, i: int, j: int)
        requires
            0 <= i < j < nodes.len(),
            self.are_trees(nodes, self.roots()) || exists|parent: SymbolEntry|
                nodes.len() == self.children(parent.usr).len() && #[trigger] self.are_trees(
                    nodes,
                    self.children(parent.usr),
                ),
        ensures
            exists|x: SymbolEntry, y: SymbolEntry|
                #[trigger] comes_first(x, y) && self.is_tree(nodes[i], x) && self.is_tree(
                    nodes[j],
                    y,
                ),
    {
        if self.are_trees(nodes, self.roots()) {
            self.lemma_list_order(self.in_scope(self.written(), None), i, j);
            assert(comes_first(self.roots()[i], self.roots()[j]));
        } else {
            let parent = choose|parent: SymbolEntry|
                nodes.len() == self.children(parent.usr).len() && #[trigger] self.are_trees(
                    nodes,
                    self.children(parent.usr),
                );
            let kids = self.children(parent.usr);
            self.lemma_list_order(self.in_scope(self.written(), Some(parent.usr)), i, j);
            assert(comes_first(kids[i], kids[j]));
        }
    }
}

/// Whether a symbol does not come after another: its kind does not, and with
/// kinds of the same rank its path does not, and with the same path its unique
/// name does not.
pub open spec fn comes_first(x: SymbolEntry, y: SymbolEntry) -> bool {
    &&& rank_of(x.kind) <= rank_of(y.kind)
    &&& rank_of(x.kind) == rank_of(y.kind) ==> path_order(x.path, y.path) != Order::Greater
    &&& rank_of(x.kind) == rank_of(y.kind) && path_order(x.path, y.path) == Order::Equal
        ==> text_order(x.usr, y.usr) != Order::Greater
}

/// The kinds of symbols in the order in which they are listed. Kinds in one
/// list have the same rank.
pub open spec fn kinds_in_order() -> Seq<Seq<Seq<char>>> {
    seq![
        seq!["swift.protocol"@],
        seq!["swift.class"@],
        seq!["swift.actor"@],
        seq!["swift.struct"@],
        seq!["swift.enum"@],
        seq!["swift.typealias"@],
        seq!["swift.associatedtype"@],
        seq!["swift.enum.case"@],
        seq!["swift.init"@],
        seq!["swift.property"@, "swift.var"@],
        seq!["swift.type.property"@],
        seq!["swift.subscript"@],
        seq!["swift.method"@],
        seq!["swift.type.method"@],
        seq!["swift.func"@, "swift.func.op"@],
    ]
}

proof fn lemma_kind_texts()
    ensures
        forall|i: int, a: int|
            0 <= i < kinds_in_order().len() && 0 <= a < kinds_in_order()[i].len() ==> rank_of(
                #[trigger] kinds_in_order()[i][a],
            ) == i,
{
    reveal_strlit("swift.protocol");
    assert("swift.protocol"@.len() == 14);
    reveal_strlit("swift.class");
    assert("swift.class"@.len() == 11);
    reveal_strlit("swift.actor");
    assert("swift.actor"@.len() == 11);
    reveal_strlit("swift.struct");
    assert("swift.struct"@.len() == 12);
    reveal_strlit("swift.enum");
    assert("swift.enum"@.len() == 10);
    reveal_strlit("swift.typealias");
    assert("swift.typealias"@.len() == 15);
    reveal_strlit("swift.associatedtype");
    assert("swift.associatedtype"@.len() == 20);
    reveal_strlit("swift.enum.case");
    assert("swift.enum.case"@.len() == 15);
    reveal_strlit("swift.init");
    assert("swift.init"@.len() == 10);
    reveal_strlit("swift.property");
    assert("swift.property"@.len() == 14);
    reveal_strlit("swift.var");
    assert("swift.var"@.len() == 9);
    reveal_strlit("swift.type.property");
    assert("swift.type.property"@.len() == 19);
    reveal_strlit("swift.subscript");
    assert("swift.subscript"@.len() == 15);
    reveal_strlit("swift.method");
    assert("swift.method"@.len() == 12);
    reveal_strlit("swift.type.method");
    assert("swift.type.method"@.len() == 17);
    reveal_strlit("swift.func");
    assert("swift.func"@.len() == 10);
    reveal_strlit("swift.func.op");
    assert("swift.func.op"@.len() == 13);
    assert(rank_of("swift.protocol"@) == 0);
    assert(rank_of("swift.class"@) == 1);
    assert("swift.actor"@[6] != "swift.class"@[6]);
    assert(rank_of("swift.actor"@) == 2);
    assert(rank_of("swift.struct"@) == 3);
    assert(rank_of("swift.enum"@) == 4);
    assert(rank_of("swift.typealias"@) == 5);
    assert(rank_of("swift.associatedtype"@) == 6);
    assert("swift.enum.case"@[6] != "swift.typealias"@[6]);
    assert(rank_of("swift.enum.case"@) == 7);
    assert("swift.init"@[6] != "swift.enum"@[6]);
    assert(rank_of("swift.init"@) == 8);
    assert("swift.property"@[9] != "swift.protocol"@[9]);
    assert(rank_of("swift.property"@) == 9);
    assert(rank_of("swift.var"@) == 9);
    assert(rank_of("swift.type.property"@) == 10);
    assert("swift.subscript"@[6] != "swift.typealias"@[6]);
    assert("swift.subscript"@[6] != "swift.enum.case"@[6]);
    assert(rank_of("swift.subscript"@) == 11);
    assert("swift.method"@[6] != "swift.struct"@[6]);
    assert(rank_of("swift.method"@) == 12);
    assert(rank_of("swift.type.method"@) == 13);
    assert("swift.func"@[6] != "swift.enum"@[6]);
    assert("swift.func"@[6] != "swift.init"@[6]);
    assert(rank_of("swift.func"@) == 14);
    assert(rank_of("swift.func.op"@) == 14);
    let ks = kinds_in_order();
    assert forall|i: int, a: int| 0 <= i < ks.len() && 0 <= a < ks[i].len() implies rank_of(
        #[trigger] ks[i][a],
    ) == i by {
        assert(i == 0 || i == 1 || i == 2 || i == 3 || i == 4 || i == 5 || i == 6 || i == 7 || i
            == 8 || i == 9 || i == 10 || i == 11 || i == 12 || i == 13 || i == 14);
        assert(a == 0 || a == 1);
    }
}

/// Symbols are listed by kind, in this order: protocols, classes, actors,
/// structures, enumerations, type aliases, associated types, cases,
/// initializers, properties, type properties, subscripts, methods, type methods
/// and functions; symbols of any other kind come last.
pub proof fn law_kinds_ranked(i: int, a: int, j: int, b: int, other: Seq<char>)
    requires
        0 <= i < kinds_in_order().len(),
        0 <= a < kinds_in_order()[i].len(),
        0 <= j < kinds_in_order().len(),
        0 <= b < kinds_in_order()[j].len(),
        forall|k: int, c: int|
            0 <= k < kinds_in_order().len() && 0 <= c < kinds_in_order()[k].len() ==> other
                != #[trigger] kinds_in_order()[k][c],
    ensures
        rank_of(kinds_in_order()[i][a]) < rank_of(kinds_in_order()[j][b]) <==> i < j,
        rank_of(kinds_in_order()[i][a]) < rank_of(other),
{
    lemma_kind_texts();
    let ks = kinds_in_order();
    assert(other != ks[0][0] && other != ks[1][0] && other != ks[2][0] && other != ks[3][0]);
    assert(other != ks[4][0] && other != ks[5][0] && other != ks[6][0] && other != ks[7][0]);
    assert(other != ks[8][0] && other != ks[9][0] && other != ks[9][1] && other != ks[10][0]);
    assert(other != ks[11][0] && other != ks[12][0] && other != ks[13][0]);
    assert(other != ks[14][0] && other != ks[14][1]);
}

// Extension graphs.

proof fn lemma_type_listed(s: Seq<SymbolEntry>, x: SymbolEntry)
    requires
        s.contains(x),
    ensures
        x.path.len() > 0 ==> extending(s, x.path[0]).contains(x) && extended_types(s).contains(
            x.path[0],
        ),
        x.path.len() == 0 ==> pathless(s).contains(x),
    decreases s.len(),
{
    let p = s.drop_last();
    let i = choose|i: int| 0 <= i < s.len() && s[i] == x;
    if i < p.len() {
        assert(p[i] == x);
        lemma_type_listed(p, x);
        if x.path.len() > 0 {
            let a = extending(p, x.path[0]);
            let k = choose|k: int| 0 <= k < a.len() && a[k] == x;
            assert(extending(s, x.path[0])[k] == x);
            let t = extended_types(p);
            let m = choose|m: int| 0 <= m < t.len() && t[m] == x.path[0];
            assert(extended_types(s)[m] == x.path[0]);
        } else {
            let k = choose|k: int| 0 <= k < pathless(p).len() && pathless(p)[k] == x;
            assert(pathless(s)[k] == x);
        }
    } else if x.path.len() > 0 {
        assert(extending(s, x.path[0])[extending(p, x.path[0]).len() as int] == x);
        assert(extended_types(s)[extended_types(p).len() as int] == x.path[0]);
    } else {
        assert(pathless(s)[pathless(p).len() as int] == x);
    }
}

proof fn lemma_selected_rightly(s: Seq<SymbolEntry>, ty: Seq<char>)
    ensures
        forall|i: int|
            0 <= i < extending(s, ty).len() ==> (#[trigger] extending(s, ty)[i]).path.len() > 0
                && extending(s, ty)[i].path[0] == ty,
        forall|i: int| 0 <= i < pathless(s).len() ==> (#[trigger] pathless(s)[i]).path.len() == 0,
    decreases s.len(),
{
    if s.len() > 0 {
        let p = s.drop_last();
        lemma_selected_rightly(p, ty);
        assert forall|i: int| 0 <= i < extending(s, ty).len() implies (
        #[trigger] extending(s, ty)[i]).path.len() > 0 && extending(s, ty)[i].path[0] == ty by {
            if i < extending(p, ty).len() {
                assert(extending(s, ty)[i] == extending(p, ty)[i]);
            }
        }
        assert forall|i: int| 0 <= i < pathless(s).len() implies (
        #[trigger] pathless(s)[i]).path.len() == 0 by {
            if i < pathless(p).len() {
                assert(pathless(s)[i] == pathless(p)[i]);
            }
        }
    }
}

impl GraphData {
    /// In the trees of an extension graph, a symbol that is the source of no
    /// relationship of the kind `memberOf` is under the node of the type that
    /// its path starts with, or at the top where it has no path.
    pub proof fn law_extension_nests(self, nodes: Seq<SymbolTree>, s: SymbolEntry)
        requires
            self.are_extension_trees(nodes),
            in_source(self, s),
            forall|k: int|
                0 <= k < self.relationships.len() && (#[trigger] self.relationships[k]).kind
                    == "memberOf"@ ==> self.relationships[k].source != s.usr,
        ensures
            s.path.len() > 0 ==> exists|i: int, j: int|
                0 <= i < nodes.len() && 0 <= j < nodes[i].members.len() && nodes[i].decl
                    == "extension "@ + s.path[0] && #[trigger] self.is_tree(
                    nodes[i].members[j],
                    s,
                ),
            s.path.len() == 0 ==> exists|i: int|
                0 <= i < nodes.len() && self.is_tree(#[trigger] nodes[i], s),
    {
        lemma_declared(self.relationships, s.usr);
        lemma_in_source(self.symbols, s);
        self.lemma_roots();
        let roots = self.roots();
        let n = self.types().len() as int;
        assert(roots.contains(s));
        lemma_type_listed(roots, s);
        if s.path.len() > 0 {
            let ty = s.path[0];
            law_sorted_distinct(extended_types(roots));
            assert(self.types().contains(ty));
            let i = choose|i: int| 0 <= i < n && self.types()[i] == ty;
            let list = extending(roots, ty);
            let j = choose|j: int| 0 <= j < list.len() && list[j] == s;
            assert(nodes[i].decl == "extension "@ + ty);
            assert(self.is_tree(nodes[i].members[j], s));
        } else {
            let list = pathless(roots);
            let j = choose|j: int| 0 <= j < list.len() && list[j] == s;
            assert(self.is_tree(nodes.skip(n)[j], s));
            assert(nodes.skip(n)[j] == nodes[n + j]);
        }
    }

    /// Whether a node is the tree of a symbol whose path starts with a type.
    pub open spec fn is_tree_in(self, node: SymbolTree, ty: Seq<char>) -> bool {
        exists|s: SymbolEntry|
            #[trigger] in_source(self, s) && s.path.len() > 0 && s.path[0] == ty && self.is_tree(
                node,
                s,
            )
    }

    /// Whether a node is that of a type, with symbols that extend it.
    pub open spec fn extends_type(self, node: SymbolTree, ty: Seq<char>) -> bool {
        &&& node.decl == "extension "@ + ty
        &&& node.members.len() > 0
        &&& forall|j: int|
            0 <= j < node.members.len() ==> self.is_tree_in(#[trigger] node.members[j], ty)
    }
}

// How many there are.

/// Whether the last relationship of the kind `memberOf` from a symbol leads to
/// another.
pub open spec fn leads_to(r: Seq<Relation>, usr: Seq<char>, parent: Seq<char>) -> bool {
    exists|k: int|
        0 <= k < r.len() && (#[trigger] r[k]).kind == "memberOf"@ && r[k].source == usr
            && r[k].target == parent && forall|m: int|
            k < m < r.len() && (#[trigger] r[m]).kind == "memberOf"@ ==> r[m].source != usr
}

/// Whether a symbol is nested in one that somebody wrote down.
pub open spec fn nested(g: GraphData, usr: Seq<char>) -> bool {
    exists|p: SymbolEntry| #[trigger] in_source(g, p) && leads_to(g.relationships, usr, p.usr)
}

proof fn lemma_nested(g: GraphData, usr: Seq<char>, parent: SymbolEntry)
    requires
        !occurs_in(usr, "::SYNTHESIZED::"@),
    ensures
        g.scope_of(usr) is Some <==> nested(g, usr),
        in_source(g, parent) ==> (g.scope_of(usr) == Some(parent.usr) <==> leads_to(
            g.relationships,
            usr,
            parent.usr,
        )),
{
    let r = g.relationships;
    lemma_declared(r, usr);
    if g.scope_of(usr) is Some {
        let p = lemma_scope_target(g, usr);
        let t = declared_parent(r, usr)->0;
        assert(leads_to(r, usr, t));
        assert(t == p.usr);
        assert(nested(g, usr));
    }
    if nested(g, usr) {
        let p = choose|p: SymbolEntry| #[trigger] in_source(g, p) && leads_to(r, usr, p.usr);
        lemma_leads_to(g, usr, p);
    }
    if in_source(g, parent) && leads_to(r, usr, parent.usr) {
        lemma_leads_to(g, usr, parent);
    }
}

proof fn lemma_leads_to(g: GraphData, usr: Seq<char>, p: SymbolEntry)
    requires
        !occurs_in(usr, "::SYNTHESIZED::"@),
        in_source(g, p),
        leads_to(g.relationships, usr, p.usr),
    ensures
        g.scope_of(usr) == Some(p.usr),
{
    let r = g.relationships;
    let k = choose|k: int|
        0 <= k < r.len() && (#[trigger] r[k]).kind == "memberOf"@ && r[k].source == usr
            && r[k].target == p.usr && forall|m: int|
            k < m < r.len() && (#[trigger] r[m]).kind == "memberOf"@ ==> r[m].source != usr;
    lemma_scope_some(g, usr, p, k);
}

/// The symbols of a list that somebody wrote down and that are nested in none.
pub open spec fn top_symbols(g: GraphData, s: Seq<SymbolEntry>) -> Seq<SymbolEntry> {
    s.filter(|x: SymbolEntry| !occurs_in(x.usr, "::SYNTHESIZED::"@) && !nested(g, x.usr))
}

/// The symbols of a list that somebody wrote down and that are nested in the
/// one named `parent`.
pub open spec fn member_symbols(
    g: GraphData,
    s: Seq<SymbolEntry>,
    parent: Seq<char>,
) -> Seq<SymbolEntry> {
    s.filter(
        |x: SymbolEntry|
            !occurs_in(x.usr, "::SYNTHESIZED::"@) && leads_to(g.relationships, x.usr, parent),
    )
}

proof fn lemma_top_symbols(g: GraphData, s: Seq<SymbolEntry>)
    ensures
        top_symbols(g, s) == g.in_scope(written(s), None),
    decreases s.len(),
{
    reveal(Seq::filter);
    if s.len() > 0 {
        let p = s.drop_last();
        let x = s.last();
        lemma_top_symbols(g, p);
        if !occurs_in(x.usr, "::SYNTHESIZED::"@) {
            lemma_nested(g, x.usr, x);
            assert(written(s).drop_last() =~= written(p));
            assert(written(s).last() == x);
        }
    }
}

proof fn lemma_member_symbols(g: GraphData, s: Seq<SymbolEntry>, parent: SymbolEntry)
    requires
        in_source(g, parent),
    ensures
        member_symbols(g, s, parent.usr) == g.in_scope(written(s), Some(parent.usr)),
    decreases s.len(),
{
    reveal(Seq::filter);
    if s.len() > 0 {
        let p = s.drop_last();
        let x = s.last();
        lemma_member_symbols(g, p, parent);
        if !occurs_in(x.usr, "::SYNTHESIZED::"@) {
            lemma_nested(g, x.usr, parent);
            assert(written(s).drop_last() =~= written(p));
            assert(written(s).last() == x);
        }
    }
}

impl GraphData {
    /// There are as many trees as there are symbols that are nested in none,
    /// and a tree has as many members as there are symbols nested in its symbol;
    /// one that occurs several times in the graph counts several times.
    pub proof fn law_how_many(
        self,
        nodes: Seq<SymbolTree>,
        node: SymbolTree,
        parent: SymbolEntry,
    )
        requires
            self.are_trees(nodes, self.roots()),
            self.is_tree(node, parent),
            in_source(self, parent),
        ensures
            nodes.len() == top_symbols(self, self.symbols).len(),
            node.members.len() == member_symbols(self, self.symbols, parent.usr).len(),
            self.roots().to_multiset() == top_symbols(self, self.symbols).to_multiset(),
            self.children(parent.usr).to_multiset() == member_symbols(
                self,
                self.symbols,
                parent.usr,
            ).to_multiset(),
    {
        lemma_top_symbols(self, self.symbols);
        lemma_member_symbols(self, self.symbols, parent);
        law_stable_sort::<&Symbol>(self.in_scope(self.written(), None));
        law_stable_sort::<&Symbol>(self.in_scope(self.written(), Some(parent.usr)));
    }
}

// How the trees of an extension graph are arranged.

/// Whether the path of a symbol starts with a type.
pub open spec fn path_starts(ty: Seq<char>) -> spec_fn(SymbolEntry) -> bool {
    |s: SymbolEntry| s.path.len() > 0 && s.path[0] == ty
}

/// Whether a symbol has no path.
pub open spec fn no_path() -> spec_fn(SymbolEntry) -> bool {
    |s: SymbolEntry| s.path.len() == 0
}

proof fn lemma_selections_filter(s: Seq<SymbolEntry>, ty: Seq<char>)
    ensures
        extending(s, ty) == s.filter(path_starts(ty)),
        pathless(s) == s.filter(no_path()),
    decreases s.len(),
{
    reveal(Seq::filter);
    if s.len() > 0 {
        lemma_selections_filter(s.drop_last(), ty);
    } else {
        assert(s.filter(path_starts(ty)) =~= s);
        assert(s.filter(no_path()) =~= s);
    }
}

proof fn lemma_filter_multiset(s: Seq<SymbolEntry>, p: spec_fn(SymbolEntry) -> bool)
    ensures
        s.filter(p).to_multiset() == s.to_multiset().filter(p),
    decreases s.len(),
{
    broadcast use vstd::multiset::group_multiset_axioms;

    reveal(Seq::filter);
    s.to_multiset_ensures();
    s.filter(p).to_multiset_ensures();
    if s.len() > 0 {
        let front = s.drop_last();
        let x = s.last();
        lemma_filter_multiset(front, p);
        front.to_multiset_ensures();
        front.filter(p).to_multiset_ensures();
        assert(s =~= front.push(x));
        assert(s.to_multiset() == front.to_multiset().insert(x));
        if p(x) {
            assert(s.filter(p) == front.filter(p).push(x));
        } else {
            assert(s.filter(p) == front.filter(p));
        }
    } else {
        assert(s.filter(p) =~= s);
    }
    assert(s.filter(p).to_multiset() =~= s.to_multiset().filter(p));
}

proof fn lemma_filter_places(
    s: Seq<SymbolEntry>,
    p: spec_fn(SymbolEntry) -> bool,
    i: int,
    j: int,
) -> (r: (int, int))
    requires
        0 <= i < j < s.filter(p).len(),
    ensures
        0 <= r.0 < r.1 < s.len(),
        s[r.0] == s.filter(p)[i],
        s[r.1] == s.filter(p)[j],
    decreases s.len(),
{
    reveal(Seq::filter);
    if s.len() == 0 {
        assert(s.filter(p) =~= s);
    }
    let front = s.drop_last();
    let f = front.filter(p);
    if p(s.last()) {
        assert(s.filter(p) == f.push(s.last()));
    } else {
        assert(s.filter(p) == f);
    }
    if j < f.len() {
        let r = lemma_filter_places(front, p, i, j);
        assert(s[r.0] == front[r.0] && s[r.1] == front[r.1]);
        r
    } else {
        assert(f.contains(f[i]));
        front.lemma_filter_contains_rev(p, f[i]);
        let k = choose|k: int| 0 <= k < front.len() && front[k] == f[i];
        assert(s[k] == front[k]);
        (k, s.len() - 1)
    }
}

impl GraphData {
    /// Whether trees come in two parts: first one node for each of a list of
    /// types, with as many members as symbols that are nested in none have paths
    /// that start with the type, then as many trees as such symbols have no path.
    pub open spec fn grouped_by(self, nodes: Seq<SymbolTree>, types: Seq<Seq<char>>) -> bool {
        let top = top_symbols(self, self.symbols);
        &&& nodes.len() == types.len() + top.filter(no_path()).len()
        &&& forall|a: int, b: int|
            0 <= a < b < types.len() ==> text_order(#[trigger] types[a], #[trigger] types[b])
                == Order::Less
        &&& forall|i: int|
            0 <= i < types.len() ==> self.extends_type(#[trigger] nodes[i], types[i])
                && nodes[i].members.len() == top.filter(path_starts(types[i])).len()
        &&& forall|i: int|
            types.len() <= i < nodes.len() ==> self.is_pathless_tree(#[trigger] nodes[i])
    }

    /// Whether a node is the tree of a symbol without a path.
    pub open spec fn is_pathless_tree(self, node: SymbolTree) -> bool {
        exists|s: SymbolEntry|
            #[trigger] in_source(self, s) && s.path.len() == 0 && self.is_tree(node, s)
    }

    /// In an extension graph the nodes for the types come first, each type once
    /// and in order, and the symbols without a path last; no symbol is left out
    /// or comes up twice.
    pub proof fn law_extension_groups(self, nodes: Seq<SymbolTree>)
        requires
            self.are_extension_trees(nodes),
        ensures
            exists|types: Seq<Seq<char>>| #[trigger] self.grouped_by(nodes, types),
    {
        let roots = self.roots();
        let types = self.types();
        let n = types.len() as int;
        let top = top_symbols(self, self.symbols);
        self.lemma_roots();
        law_sorted_distinct(extended_types(roots));
        lemma_top_symbols(self, self.symbols);
        law_stable_sort::<&Symbol>(self.in_scope(self.written(), None));
        assert(roots.to_multiset() == top.to_multiset());
        self.lemma_selected_count(no_path());
        lemma_selections_filter(roots, seq![]);
        assert forall|i: int| 0 <= i < n implies self.extends_type(#[trigger] nodes[i], types[i])
            && nodes[i].members.len() == top.filter(path_starts(types[i])).len() by {
            let ty = types[i];
            let list = extending(roots, ty);
            lemma_selections_filter(roots, ty);
            self.lemma_selected_count(path_starts(ty));
            assert(types.contains(ty));
            lemma_selections(roots, ty);
            lemma_selected_rightly(roots, ty);
            assert(nodes[i].decl == "extension "@ + ty);
            let members = nodes[i].members;
            assert forall|j: int| 0 <= j < members.len() implies self.is_tree_in(
                #[trigger] members[j],
                ty,
            ) by {
                self.lemma_root_in_source(list[j]);
                assert(self.is_tree(members[j], list[j]));
            }
        }
        assert forall|i: int| n <= i < nodes.len() implies self.is_pathless_tree(
            #[trigger] nodes[i],
        ) by {
            let list = pathless(roots);
            lemma_selections(roots, seq![]);
            lemma_selected_rightly(roots, seq![]);
            self.lemma_root_in_source(list[i - n]);
            assert(self.is_tree(nodes.skip(n)[i - n], list[i - n]));
        }
        assert(self.grouped_by(nodes, types));
    }

    proof fn lemma_root_in_source(self, s: SymbolEntry)
        requires
            self.roots().contains(s),
        ensures
            in_source(self, s),
    {
        let roots = self.roots();
        self.lemma_roots();
        let m = choose|m: int| 0 <= m < roots.len() && roots[m] == s;
        assert(self.written().contains(roots[m]));
        lemma_in_source(self.symbols, s);
    }

    proof fn lemma_selected_count(self, p: spec_fn(SymbolEntry) -> bool)
        ensures
            self.roots().filter(p).len() == top_symbols(self, self.symbols).filter(p).len(),
    {
        let roots = self.roots();
        let top = top_symbols(self, self.symbols);
        lemma_top_symbols(self, self.symbols);
        law_stable_sort::<&Symbol>(self.in_scope(self.written(), None));
        lemma_filter_multiset(roots, p);
        lemma_filter_multiset(top, p);
        roots.filter(p).to_multiset_ensures();
        top.filter(p).to_multiset_ensures();
    }

    /// The members of a node for a type stand in the order of their symbols, and
    /// so do the trees of the symbols without a path.
    pub proof fn law_extension_order(self, nodes: Seq<SymbolTree>, n: int, i: int, j: int)
        requires
            self.are_extension_trees(nodes),
            0 <= n < nodes.len(),
            self.types().len() <= n ==> n < j < nodes.len(),
            n < self.types().len() ==> 0 <= i < j < nodes[n].members.len(),
        ensures
            n < self.types().len() ==> exists|x: SymbolEntry, y: SymbolEntry|
                #[trigger] comes_first(x, y) && self.is_tree(nodes[n].members[i], x)
                    && self.is_tree(nodes[n].members[j], y),
            self.types().len() <= n ==> exists|x: SymbolEntry, y: SymbolEntry|
                #[trigger] comes_first(x, y) && self.is_tree(nodes[n], x) && self.is_tree(
                    nodes[j],
                    y,
                ),
    {
        let roots = self.roots();
        let types = self.types();
        let m = types.len() as int;
        let scope = self.in_scope(self.written(), None);
        if n < m {
            let ty = types[n];
            let list = extending(roots, ty);
            lemma_selections_filter(roots, ty);
            assert(nodes[n].decl == "extension "@ + ty);
            let (k, l) = lemma_filter_places(roots, path_starts(ty), i, j);
            self.lemma_list_order(scope, k, l);
            assert(comes_first(list[i], list[j]));
            assert(self.is_tree(nodes[n].members[i], list[i]));
            assert(self.is_tree(nodes[n].members[j], list[j]));
        } else {
            let list = pathless(roots);
            lemma_selections_filter(roots, seq![]);
            let (k, l) = lemma_filter_places(roots, no_path(), n - m, j - m);
            self.lemma_list_order(scope, k, l);
            assert(comes_first(list[n - m], list[j - m]));
            assert(self.is_tree(nodes.skip(m)[n - m], list[n - m]));
            assert(self.is_tree(nodes.skip(m)[j - m], list[j - m]));
        }
    }
}

} // verus!
