//! Where the symbols of a graph go: that each has its place, and only one.

use vstd::prelude::*;

use crate::declaration::declaration;
use crate::graph::{
    declared_parent, extended_types, extending, has_usr, is_membership, lemma_selections, pathless,
    synthesized, written,
};
use crate::model::SymbolTree;
use crate::order::{law_stable_sort, lemma_path_order_flips, lemma_text_order_flips, Order, Ranked};
use crate::order_laws::law_sort_canonical;
use crate::symbols::{sorted_symbols, GraphData, Relation, Symbol, SymbolEntry};
use crate::textmap::law_sorted_distinct;

verus! {

/// The node at a place in a list of trees: `[i]` is the tree `i`, `[i, j]` its
/// member `j`, and so on.
pub open spec fn node_at(nodes: Seq<SymbolTree>, place: Seq<int>) -> Option<SymbolTree>
    decreases place.len(),
{
    if place.len() == 0 {
        None
    } else {
        let list = if place.len() == 1 {
            Some(nodes)
        } else {
            match node_at(nodes, place.drop_last()) {
                Some(node) => Some(node.members),
                None => None,
            }
        };
        match list {
            Some(l) if 0 <= place.last() < l.len() => Some(l[place.last()]),
            _ => None,
        }
    }
}

impl GraphData {
    /// The symbol at a place: `[i]` is the root `i`, `[i, j]` the symbol `j` of
    /// those nested in it, and so on.
    pub open spec fn symbol_at(self, place: Seq<int>) -> Option<SymbolEntry>
        decreases place.len(),
    {
        if place.len() == 0 {
            None
        } else {
            let list = if place.len() == 1 {
                Some(self.roots())
            } else {
                match self.symbol_at(place.drop_last()) {
                    Some(s) => Some(self.children(s.usr)),
                    None => None,
                }
            };
            match list {
                Some(l) if 0 <= place.last() < l.len() => Some(l[place.last()]),
                _ => None,
            }
        }
    }

    /// Whether no two of the symbols that go into the tree have the same
    /// unique name.
    pub open spec fn names_unique(self) -> bool {
        forall|i: int, j: int|
            0 <= i < j < self.written().len() ==> (#[trigger] self.written()[i]).usr != (
            #[trigger] self.written()[j]).usr
    }

    /// A symbol has one tree.
    pub proof fn law_trees_unique(self, a: SymbolTree, b: SymbolTree, s: SymbolEntry)
        requires
            self.is_tree(a, s),
            self.is_tree(b, s),
        ensures
            a == b,
        decreases a,
    {
        let kids = self.children(s.usr);
        assert forall|i: int| 0 <= i < a.members.len() implies a.members[i] == b.members[i] by {
            assert(self.is_tree(a.members[i], kids[i]));
            assert(self.is_tree(b.members[i], kids[i]));
            self.law_trees_unique(a.members[i], b.members[i], kids[i]);
        }
        assert(a.members =~= b.members);
    }

    /// The trees of a graph have a node where the graph has a symbol, and
    /// nowhere else, and the node is the tree of the symbol.
    pub proof fn law_places(self, nodes: Seq<SymbolTree>, place: Seq<int>)
        requires
            self.are_trees(nodes, self.roots()),
        ensures
            match (node_at(nodes, place), self.symbol_at(place)) {
                (Some(node), Some(s)) => self.is_tree(node, s) && node.decl == declaration(s),
                (None, None) => true,
                _ => false,
            },
        decreases place.len(),
    {
        if place.len() > 1 {
            self.law_places(nodes, place.drop_last());
        }
    }

    /// What has a place in the trees was written down by somebody.
    pub proof fn law_nothing_made_up(self, place: Seq<int>)
        requires
            self.symbol_at(place) is Some,
        ensures
            self.symbols.contains(self.symbol_at(place)->0),
            !synthesized((self.symbol_at(place)->0).usr),
    {
        self.lemma_place_written(place);
        lemma_written(self.symbols);
        let s = self.symbol_at(place)->0;
        let k = choose|k: int| 0 <= k < self.written().len() && self.written()[k] == s;
        assert(self.symbols.contains(self.written()[k]));
    }

    proof fn lemma_place_written(self, place: Seq<int>)
        requires
            self.symbol_at(place) is Some,
        ensures
            self.written().contains(self.symbol_at(place)->0),
            place.len() == 1 ==> self.scope_of((self.symbol_at(place)->0).usr) is None,
            place.len() > 1 ==> self.symbol_at(place.drop_last()) is Some && self.scope_of(
                (self.symbol_at(place)->0).usr,
            ) == Some((self.symbol_at(place.drop_last())->0).usr),
    {
        self.lemma_roots();
        if place.len() > 1 {
            self.lemma_children((self.symbol_at(place.drop_last())->0).usr);
        }
    }

    /// Each symbol that was written down has a place in the trees, if the
    /// symbols in which it is nested lead to one that is nested in none.
    pub proof fn law_every_symbol_placed(self, path: Seq<Seq<char>>, s: SymbolEntry)
        requires
            self.is_chain(path),
            self.written().contains(s),
            path.last() == s.usr,
        ensures
            exists|place: Seq<int>| #[trigger] self.symbol_at(place) == Some(s),
        decreases path.len(),
    {
        if path.len() == 1 {
            self.lemma_roots();
            assert(self.roots().contains(s));
            let i = choose|i: int| 0 <= i < self.roots().len() && self.roots()[i] == s;
            assert(self.symbol_at(seq![i]) == Some(s));
        } else {
            let up = path.drop_last();
            assert(has_usr(self.written(), up.last()));
            assert(self.scope_of(path[path.len() - 1]) == Some(path[path.len() - 2]));
            let k = choose|k: int|
                0 <= k < self.written().len() && (#[trigger] self.written()[k]).usr == up.last();
            let parent = self.written()[k];
            assert forall|i: int| 0 < i < up.len() implies self.scope_of(#[trigger] up[i]) == Some(
                up[i - 1],
            ) by {
                assert(up[i] == path[i] && up[i - 1] == path[i - 1]);
            }
            assert forall|i: int| 0 <= i < up.len() implies has_usr(
                self.written(),
                #[trigger] up[i],
            ) by {
                assert(up[i] == path[i]);
            }
            assert(self.is_chain(up));
            self.law_every_symbol_placed(up, parent);
            let above = choose|place: Seq<int>| #[trigger] self.symbol_at(place) == Some(parent);
            self.lemma_children(parent.usr);
            let kids = self.children(parent.usr);
            assert(kids.contains(s));
            let i = choose|i: int| 0 <= i < kids.len() && kids[i] == s;
            let place = above.push(i);
            assert(place.drop_last() =~= above);
            assert(self.symbol_at(place) == Some(s));
        }
    }

    proof fn lemma_in_scope_distinct(self, s: Seq<SymbolEntry>, scope: Option<Seq<char>>)
        requires
            s.no_duplicates(),
        ensures
            self.in_scope(s, scope).no_duplicates(),
        decreases s.len(),
    {
        if s.len() > 0 {
            let p = s.drop_last();
            self.lemma_in_scope_distinct(p, scope);
            self.lemma_in_scope(p, scope);
            let q = self.in_scope(p, scope);
            let r = self.in_scope(s, scope);
            assert forall|i: int, j: int| 0 <= i < j < r.len() implies r[i] != r[j] by {
                if j == q.len() {
                    assert(p.contains(q[i]));
                    let k = choose|k: int| 0 <= k < p.len() && p[k] == q[i];
                    assert(s[k] != s[s.len() - 1]);
                }
            }
        }
    }

    /// Two symbols nested in one scope have different names.
    proof fn lemma_scope_distinct(self, scope: Option<Seq<char>>, i: int, j: int)
        requires
            self.names_unique(),
            0 <= i < sorted_symbols(self.in_scope(self.written(), scope)).len(),
            0 <= j < sorted_symbols(self.in_scope(self.written(), scope)).len(),
            sorted_symbols(self.in_scope(self.written(), scope))[i].usr == sorted_symbols(
                self.in_scope(self.written(), scope),
            )[j].usr,
        ensures
            i == j,
    {
        let w = self.written();
        let u = self.in_scope(w, scope);
        let r = sorted_symbols(u);
        assert(w.no_duplicates());
        self.lemma_in_scope(w, scope);
        self.lemma_in_scope_distinct(w, scope);
        law_stable_sort::<&Symbol>(u);
        u.lemma_multiset_has_no_duplicates();
        r.lemma_multiset_has_no_duplicates_conv();
        assert(r.contains(r[i]) && r.contains(r[j]));
        assert(u.contains(r[i]) && u.contains(r[j]));
        let a = choose|a: int| 0 <= a < u.len() && u[a] == r[i];
        let b = choose|b: int| 0 <= b < u.len() && u[b] == r[j];
        assert(w.contains(u[a]) && w.contains(u[b]));
        let c = choose|c: int| 0 <= c < w.len() && w[c] == r[i];
        let d = choose|d: int| 0 <= d < w.len() && w[d] == r[j];
        assert(c == d);
        assert(r[i] == r[j]);
    }

    /// No symbol has two places, if no two of them have the same unique name.
    pub proof fn law_one_place(self, a: Seq<int>, b: Seq<int>)
        requires
            self.names_unique(),
            self.symbol_at(a) is Some,
            self.symbol_at(b) is Some,
            (self.symbol_at(a)->0).usr == (self.symbol_at(b)->0).usr,
        ensures
            a == b,
        decreases a.len(),
    {
        self.lemma_place_written(a);
        self.lemma_place_written(b);
        if a.len() > 1 && b.len() > 1 {
            self.law_one_place(a.drop_last(), b.drop_last());
            let parent = self.symbol_at(a.drop_last())->0;
            self.lemma_scope_distinct(Some(parent.usr), a.last(), b.last());
            assert(a =~= a.drop_last().push(a.last()));
            assert(b =~= b.drop_last().push(b.last()));
        } else {
            self.lemma_scope_distinct(None, a.last(), b.last());
            assert(a =~= b);
        }
    }

    /// The trees of an extension graph hold the tree of each root: under the
    /// node of the type that it extends, or after those nodes where it has no
    /// path.
    pub proof fn law_extension_places(self, nodes: Seq<SymbolTree>, s: SymbolEntry)
        requires
            self.are_extension_trees(nodes),
            self.roots().contains(s),
        ensures
            s.path.len() > 0 ==> exists|i: int, j: int|
                0 <= i < self.types().len() && 0 <= j < nodes[i].members.len() && nodes[i].decl
                    == "extension "@ + s.path[0] && #[trigger] self.is_tree(
                    nodes[i].members[j],
                    s,
                ),
            s.path.len() == 0 ==> exists|i: int|
                self.types().len() <= i < nodes.len() && self.is_tree(#[trigger] nodes[i], s),
    {
        let n = self.types().len() as int;
        let roots = self.roots();
        lemma_selected(roots, s);
        if s.path.len() > 0 {
            let ty = s.path[0];
            law_sorted_distinct(extended_types(roots));
            lemma_selections(roots, ty);
            assert(self.types().contains(ty));
            let i = choose|i: int| 0 <= i < n && self.types()[i] == ty;
            let list = extending(roots, ty);
            let j = choose|j: int| 0 <= j < list.len() && list[j] == s;
            assert(nodes[i].decl == "extension "@ + ty);
            assert(self.is_tree(nodes[i].members[j], s));
        } else {
            let list = pathless(roots);
            let j = choose|j: int| 0 <= j < list.len() && list[j] == s;
            assert(self.is_tree(nodes.skip(n)[j], s));
            assert(nodes.skip(n)[j] == nodes[n + j]);
        }
    }
}

proof fn lemma_written(s: Seq<SymbolEntry>)
    ensures
        forall|i: int|
            0 <= i < written(s).len() ==> s.contains(#[trigger] written(s)[i]) && !synthesized(
                written(s)[i].usr,
            ),
    decreases s.len(),
{
    if s.len() > 0 {
        let p = s.drop_last();
        lemma_written(p);
        assert forall|i: int| 0 <= i < written(s).len() implies s.contains(
            #[trigger] written(s)[i],
        ) && !synthesized(written(s)[i].usr) by {
            if i < written(p).len() {
                let x = written(p)[i];
                let k = choose|k: int| 0 <= k < p.len() && p[k] == x;
                assert(s[k] == x);
            } else {
                assert(s[s.len() - 1] == written(s)[i]);
            }
        }
    }
}

/// Each symbol of a list is among those that extend a type or among those
/// without a path.
proof fn lemma_selected(s: Seq<SymbolEntry>, x: SymbolEntry)
    requires
        s.contains(x),
    ensures
        x.path.len() > 0 ==> extending(s, x.path[0]).contains(x),
        x.path.len() == 0 ==> pathless(s).contains(x),
    decreases s.len(),
{
    let p = s.drop_last();
    let i = choose|i: int| 0 <= i < s.len() && s[i] == x;
    if i < p.len() {
        assert(p[i] == x);
        lemma_selected(p, x);
        if x.path.len() > 0 {
            let a = extending(p, x.path[0]);
            let k = choose|k: int| 0 <= k < a.len() && a[k] == x;
            assert(extending(s, x.path[0])[k] == x);
        } else {
            let k = choose|k: int| 0 <= k < pathless(p).len() && pathless(p)[k] == x;
            assert(pathless(s)[k] == x);
        }
    } else if x.path.len() > 0 {
        assert(extending(s, x.path[0])[extending(p, x.path[0]).len() as int] == x);
    } else {
        assert(pathless(s)[pathless(p).len() as int] == x);
    }
}


// That the order of a graph makes no difference.

proof fn lemma_written_count(s: Seq<SymbolEntry>, x: SymbolEntry)
    ensures
        written(s).to_multiset().count(x) == if synthesized(x.usr) {
            0
        } else {
            s.to_multiset().count(x)
        },
    decreases s.len(),
{
    broadcast use vstd::seq_lib::group_to_multiset_ensures;

    if s.len() > 0 {
        lemma_written_count(s.drop_last(), x);
        assert(s =~= s.drop_last().push(s.last()));
    }
}

proof fn lemma_in_scope_count(
    g: GraphData,
    s: Seq<SymbolEntry>,
    scope: Option<Seq<char>>,
    x: SymbolEntry,
)
    ensures
        g.in_scope(s, scope).to_multiset().count(x) == if g.scope_of(x.usr) == scope {
            s.to_multiset().count(x)
        } else {
            0
        },
    decreases s.len(),
{
    broadcast use vstd::seq_lib::group_to_multiset_ensures;

    if s.len() > 0 {
        lemma_in_scope_count(g, s.drop_last(), scope, x);
        assert(s =~= s.drop_last().push(s.last()));
    }
}

/// Whether no symbol is made a member of two different ones.
pub open spec fn one_parent(r: Seq<Relation>) -> bool {
    forall|i: int, j: int|
        0 <= i < r.len() && 0 <= j < r.len() && is_membership(#[trigger] r[i]) && is_membership(
            #[trigger] r[j],
        ) && r[i].source == r[j].source ==> r[i].target == r[j].target
}

/// Whether two graphs hold the same symbols, perhaps in another order, and
/// the same relationships. These may be in another order too, if no symbol is
/// made a member of two different ones.
pub open spec fn same_but_order(a: GraphData, b: GraphData) -> bool {
    &&& a.symbols.to_multiset() == b.symbols.to_multiset()
    &&& a.relationships == b.relationships || (a.relationships.to_multiset()
        == b.relationships.to_multiset() && one_parent(a.relationships))
}

proof fn lemma_declared_parent(r: Seq<Relation>, usr: Seq<char>)
    ensures
        match declared_parent(r, usr) {
            Some(t) => exists|i: int|
                0 <= i < r.len() && is_membership(#[trigger] r[i]) && r[i].source == usr
                    && r[i].target == t,
            None => forall|i: int|
                0 <= i < r.len() && is_membership(#[trigger] r[i]) ==> r[i].source != usr,
        },
    decreases r.len(),
{
    if r.len() > 0 {
        let p = r.drop_last();
        lemma_declared_parent(p, usr);
        if is_membership(r.last()) && r.last().source == usr {
            assert(is_membership(r[r.len() - 1]));
        } else {
            match declared_parent(p, usr) {
                Some(t) => {
                    let i = choose|i: int|
                        0 <= i < p.len() && is_membership(#[trigger] p[i]) && p[i].source == usr
                            && p[i].target == t;
                    assert(is_membership(r[i]));
                },
                None => {
                    assert forall|i: int|
                        0 <= i < r.len() && is_membership(#[trigger] r[i]) implies r[i].source
                        != usr by {
                        if i < p.len() {
                            assert(is_membership(p[i]));
                        }
                    }
                },
            }
        }
    }
}

proof fn lemma_same_parent(a: Seq<Relation>, b: Seq<Relation>, usr: Seq<char>)
    requires
        a.to_multiset() == b.to_multiset(),
        one_parent(a),
    ensures
        declared_parent(a, usr) == declared_parent(b, usr),
{
    a.to_multiset_ensures();
    b.to_multiset_ensures();
    lemma_declared_parent(a, usr);
    lemma_declared_parent(b, usr);
    match (declared_parent(a, usr), declared_parent(b, usr)) {
        (Some(t), _) => {
            let i = choose|i: int|
                0 <= i < a.len() && is_membership(#[trigger] a[i]) && a[i].source == usr
                    && a[i].target == t;
            assert(a.contains(a[i]));
            assert(a.to_multiset().count(a[i]) > 0);
            assert(b.contains(a[i]));
            let j = choose|j: int| 0 <= j < b.len() && b[j] == a[i];
            assert(is_membership(b[j]));
            match declared_parent(b, usr) {
                Some(u) => {
                    let k = choose|k: int|
                        0 <= k < b.len() && is_membership(#[trigger] b[k]) && b[k].source == usr
                            && b[k].target == u;
                    assert(b.contains(b[k]));
                    assert(b.to_multiset().count(b[k]) > 0);
                    assert(a.contains(b[k]));
                    let m = choose|m: int| 0 <= m < a.len() && a[m] == b[k];
                    assert(is_membership(a[m]) && is_membership(a[i]));
                },
                None => {},
            }
        },
        (None, Some(u)) => {
            let k = choose|k: int|
                0 <= k < b.len() && is_membership(#[trigger] b[k]) && b[k].source == usr
                    && b[k].target == u;
            assert(b.contains(b[k]));
            assert(b.to_multiset().count(b[k]) > 0);
            assert(a.contains(b[k]));
            let m = choose|m: int| 0 <= m < a.len() && a[m] == b[k];
            assert(is_membership(a[m]));
        },
        (None, None) => {},
    }
}

proof fn lemma_same_written(a: GraphData, b: GraphData)
    requires
        same_but_order(a, b),
    ensures
        a.written().to_multiset() == b.written().to_multiset(),
        forall|usr: Seq<char>| #[trigger] a.scope_of(usr) == b.scope_of(usr),
{
    assert forall|x: SymbolEntry| a.written().to_multiset().count(x)
        == b.written().to_multiset().count(x) by {
        lemma_written_count(a.symbols, x);
        lemma_written_count(b.symbols, x);
    }
    assert(a.written().to_multiset() =~= b.written().to_multiset());
    assert forall|usr: Seq<char>| #[trigger] a.scope_of(usr) == b.scope_of(usr) by {
        if a.relationships != b.relationships {
            lemma_same_parent(a.relationships, b.relationships, usr);
        }
        match declared_parent(a.relationships, usr) {
            Some(parent) => {
                lemma_same_names(a.written(), b.written(), parent);
                lemma_same_names(b.written(), a.written(), parent);
            },
            None => {},
        }
    }
}

proof fn lemma_same_names(a: Seq<SymbolEntry>, b: Seq<SymbolEntry>, usr: Seq<char>)
    requires
        a.to_multiset() == b.to_multiset(),
    ensures
        has_usr(a, usr) ==> has_usr(b, usr),
{
    if has_usr(a, usr) {
        a.to_multiset_ensures();
        b.to_multiset_ensures();
        let i = choose|i: int| 0 <= i < a.len() && (#[trigger] a[i]).usr == usr;
        assert(a.contains(a[i]));
        assert(a.to_multiset().count(a[i]) > 0);
        assert(b.contains(a[i]));
        let j = choose|j: int| 0 <= j < b.len() && b[j] == a[i];
        assert(b[j].usr == usr);
    }
}

proof fn lemma_same_scope(a: GraphData, b: GraphData, scope: Option<Seq<char>>)
    requires
        same_but_order(a, b),
        a.names_unique(),
    ensures
        sorted_symbols(a.in_scope(a.written(), scope)) == sorted_symbols(
            b.in_scope(b.written(), scope),
        ),
{
    let u = a.in_scope(a.written(), scope);
    let v = b.in_scope(b.written(), scope);
    lemma_same_written(a, b);
    assert forall|x: SymbolEntry| u.to_multiset().count(x) == v.to_multiset().count(x) by {
        lemma_in_scope_count(a, a.written(), scope, x);
        lemma_in_scope_count(b, b.written(), scope, x);
    }
    assert(u.to_multiset() =~= v.to_multiset());
    a.lemma_in_scope(a.written(), scope);
    assert forall|x: SymbolEntry, y: SymbolEntry|
        u.contains(x) && u.contains(y) && #[trigger] <&Symbol as Ranked>::order(x, y)
            == Order::Equal implies x == y by {
        lemma_text_order_flips(x.usr, y.usr);
        lemma_path_order_flips(x.path, y.path);
        let w = a.written();
        let i = choose|i: int| 0 <= i < u.len() && u[i] == x;
        let j = choose|j: int| 0 <= j < u.len() && u[j] == y;
        assert(w.contains(u[i]) && w.contains(u[j]));
        let c = choose|c: int| 0 <= c < w.len() && w[c] == x;
        let d = choose|d: int| 0 <= d < w.len() && w[d] == y;
        assert(w[c].usr == w[d].usr);
        assert(c == d);
    }
    law_sort_canonical::<&Symbol>(u, v);
}

/// The order in which a graph lists its symbols and relationships makes no
/// difference to what is nested in what, and in which order, if no two symbols
/// have the same unique name.
pub proof fn law_symbol_order(a: GraphData, b: GraphData)
    requires
        same_but_order(a, b),
        a.names_unique(),
    ensures
        a.roots() == b.roots(),
        forall|usr: Seq<char>| #[trigger] a.children(usr) == b.children(usr),
{
    lemma_same_scope(a, b, None);
    assert forall|usr: Seq<char>| #[trigger] a.children(usr) == b.children(usr) by {
        lemma_same_scope(a, b, Some(usr));
    }
}

/// Two graphs that differ in nothing but their order have the same trees, if no two symbols have the same unique name.
pub proof fn law_trees_canonical(
    a: GraphData,
    b: GraphData,
    x: Seq<SymbolTree>,
    y: Seq<SymbolTree>,
)
    requires
        same_but_order(a, b),
        a.names_unique(),
        a.are_trees(x, a.roots()),
        b.are_trees(y, b.roots()),
    ensures
        x == y,
{
    law_symbol_order(a, b);
    assert forall|i: int| 0 <= i < x.len() implies x[i] == y[i] by {
        lemma_tree_of_other(a, b, y[i], b.roots()[i]);
        assert(a.is_tree(x[i], a.roots()[i]));
        a.law_trees_unique(x[i], y[i], a.roots()[i]);
    }
    assert(x =~= y);
}

proof fn lemma_tree_of_other(a: GraphData, b: GraphData, t: SymbolTree, s: SymbolEntry)
    requires
        forall|usr: Seq<char>| #[trigger] a.children(usr) == b.children(usr),
        b.is_tree(t, s),
    ensures
        a.is_tree(t, s),
    decreases t,
{
    let kids = a.children(s.usr);
    assert forall|i: int| 0 <= i < t.members.len() implies a.is_tree(
        #[trigger] t.members[i],
        kids[i],
    ) by {
        lemma_tree_of_other(a, b, t.members[i], kids[i]);
    }
}

} // verus!
