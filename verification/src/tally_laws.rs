//! How the counts of a report go with what it holds.

use vstd::prelude::*;

use crate::diff::{
    all_as_status, as_status, decls, diff_extension, diff_extension_list, diff_forest, diff_key,
    diff_keys, diff_module_list, diff_module_named, diff_module_pair, diff_modules, diff_overloads,
    extension_as_status, identities, last_named, last_reading, lemma_last_reading,
    lemma_with_identity, module_as_status, names, paired, with_identity,
};
use crate::identity::identity;
use crate::model::{ExtensionGroup, ExtensionTree, ModuleModel, ModuleTree, SymbolTree};
use crate::order::{lemma_text_order_flips, text_order, Order};
use crate::report::{
    any_breaks, nothing_differs, report_breaks, ExtensionDiffTree, ModuleDiffTree, Status,
    SymbolDiffTree,
};
use crate::tally::{extensions_tally, report_tally, symbols_tally, Tally};
use crate::textmap::{
    law_sorted_distinct, lemma_increasing_unique, sorted_distinct, strictly_increasing,
};

verus! {

impl Tally {
    /// How many nodes are counted in all.
    pub open spec fn total(self) -> nat {
        self.added + self.removed + self.changed
    }

    /// How many nodes break users of the old API.
    pub open spec fn breaking(self) -> nat {
        self.removed + self.changed
    }

    /// The tally the other way round: what was added counts as removed.
    pub open spec fn reversed(self) -> Tally {
        Tally { added: self.removed, removed: self.added, changed: self.changed }
    }
}

proof fn lemma_symbol_breaks(t: SymbolDiffTree)
    ensures
        t.breaks() <==> t.tally().breaking() > 0,
    decreases t, 1nat,
{
    lemma_symbols_break(t.members);
}

proof fn lemma_symbols_break(f: Seq<SymbolDiffTree>)
    ensures
        any_breaks(f) <==> symbols_tally(f).breaking() > 0,
    decreases f, 0nat,
{
    if f.len() > 0 {
        let p = f.drop_last();
        lemma_symbols_break(p);
        assert(decreases_to!(f => f[f.len() - 1]));
        lemma_symbol_breaks(f.last());
        if any_breaks(p) {
            let i = choose|i: int| 0 <= i < p.len() && (#[trigger] p[i]).breaks();
            assert(f[i].breaks());
        }
        if any_breaks(f) {
            let i = choose|i: int| 0 <= i < f.len() && (#[trigger] f[i]).breaks();
            if i < p.len() {
                assert(p[i].breaks());
            }
        }
        if f.last().breaks() {
            assert(f[f.len() - 1].breaks());
        }
    }
}

proof fn lemma_extensions_break(f: Seq<ExtensionDiffTree>)
    ensures
        (exists|i: int| 0 <= i < f.len() && (#[trigger] f[i]).breaks()) <==> extensions_tally(
            f,
        ).breaking() > 0,
    decreases f.len(),
{
    if f.len() > 0 {
        let p = f.drop_last();
        lemma_extensions_break(p);
        lemma_symbols_break(f.last().symbols);
        if exists|i: int| 0 <= i < p.len() && (#[trigger] p[i]).breaks() {
            let i = choose|i: int| 0 <= i < p.len() && (#[trigger] p[i]).breaks();
            assert(f[i].breaks());
        }
        if exists|i: int| 0 <= i < f.len() && (#[trigger] f[i]).breaks() {
            let i = choose|i: int| 0 <= i < f.len() && (#[trigger] f[i]).breaks();
            if i < p.len() {
                assert(p[i].breaks());
            }
        }
        if f.last().breaks() {
            assert(f[f.len() - 1].breaks());
        }
    }
}

/// A report breaks users of the old API if and only if it counts anything as
/// removed or changed.
pub proof fn law_breaking_counted(report: Seq<ModuleDiffTree>)
    ensures
        report_breaks(report) <==> report_tally(report).breaking() > 0,
    decreases report.len(),
{
    if report.len() > 0 {
        let p = report.drop_last();
        let m = report.last();
        law_breaking_counted(p);
        lemma_symbols_break(m.symbols);
        lemma_extensions_break(m.extensions);
        if report_breaks(p) {
            let i = choose|i: int| 0 <= i < p.len() && (#[trigger] p[i]).breaks();
            assert(report[i].breaks());
        }
        if report_breaks(report) {
            let i = choose|i: int| 0 <= i < report.len() && (#[trigger] report[i]).breaks();
            if i < p.len() {
                assert(p[i].breaks());
            }
        }
        if m.breaks() {
            assert(report[report.len() - 1].breaks());
        }
    }
}

proof fn lemma_symbols_tally_add(a: Seq<SymbolDiffTree>, b: Seq<SymbolDiffTree>)
    ensures
        symbols_tally(a + b) == symbols_tally(a).plus(symbols_tally(b)),
    decreases b.len(),
{
    if b.len() == 0 {
        assert(a + b =~= a);
    } else {
        assert((a + b).drop_last() =~= a + b.drop_last());
        lemma_symbols_tally_add(a, b.drop_last());
    }
}

proof fn lemma_extensions_tally_add(a: Seq<ExtensionDiffTree>, b: Seq<ExtensionDiffTree>)
    ensures
        extensions_tally(a + b) == extensions_tally(a).plus(extensions_tally(b)),
    decreases b.len(),
{
    if b.len() == 0 {
        assert(a + b =~= a);
    } else {
        assert((a + b).drop_last() =~= a + b.drop_last());
        lemma_extensions_tally_add(a, b.drop_last());
    }
}

proof fn lemma_report_tally_add(a: Seq<ModuleDiffTree>, b: Seq<ModuleDiffTree>)
    ensures
        report_tally(a + b) == report_tally(a).plus(report_tally(b)),
    decreases b.len(),
{
    if b.len() == 0 {
        assert(a + b =~= a);
    } else {
        assert((a + b).drop_last() =~= a + b.drop_last());
        lemma_report_tally_add(a, b.drop_last());
    }
}

proof fn lemma_one_symbol(t: SymbolDiffTree)
    ensures
        symbols_tally(seq![t]) == t.tally(),
{
    assert(seq![t].drop_last() =~= Seq::<SymbolDiffTree>::empty());
    reveal_with_fuel(symbols_tally, 2);
}

proof fn lemma_one_extension(t: ExtensionDiffTree)
    ensures
        extensions_tally(seq![t]) == t.tally(),
{
    assert(seq![t].drop_last() =~= Seq::<ExtensionDiffTree>::empty());
    reveal_with_fuel(extensions_tally, 2);
}

proof fn lemma_one_module(t: ModuleDiffTree)
    ensures
        report_tally(seq![t]) == t.tally(),
{
    assert(seq![t].drop_last() =~= Seq::<ModuleDiffTree>::empty());
    reveal_with_fuel(report_tally, 2);
}

/// How many declarations there are in a tree.
pub open spec fn tree_size(t: SymbolTree) -> nat
    decreases t,
{
    1 + forest_size(t.members)
}

/// How many declarations there are in a list of trees.
pub open spec fn forest_size(f: Seq<SymbolTree>) -> nat
    decreases f,
{
    if f.len() == 0 {
        0
    } else {
        forest_size(f.drop_last()) + tree_size(f.last())
    }
}

impl Status {
    /// The tally of `n` nodes with a status.
    pub open spec fn times(self, n: nat) -> Tally {
        match self {
            Status::Same => Tally::zero(),
            Status::Added => Tally { added: n, removed: 0, changed: 0 },
            Status::Removed => Tally { added: 0, removed: n, changed: 0 },
            Status::Changed(_) => Tally { added: 0, removed: 0, changed: n },
        }
    }
}

/// A declaration that is reported with one status throughout counts once for
/// itself and once for each declaration nested in it.
pub proof fn law_whole_tree_counted(t: SymbolTree, status: Status)
    ensures
        as_status(t, status).tally() == status.times(tree_size(t)),
    decreases t, 1nat,
{
    lemma_forest_counted(t.members, status);
    assert(as_status(t, status).members =~= all_as_status(t.members, status)) by {
        reveal_with_fuel(as_status, 2);
    }
}

proof fn lemma_forest_counted(f: Seq<SymbolTree>, status: Status)
    ensures
        symbols_tally(all_as_status(f, status)) == status.times(forest_size(f)),
    decreases f, 0nat,
{
    let all = all_as_status(f, status);
    if f.len() > 0 {
        assert(all.drop_last() =~= all_as_status(f.drop_last(), status));
        lemma_forest_counted(f.drop_last(), status);
        assert(decreases_to!(f => f[f.len() - 1]));
        law_whole_tree_counted(f.last(), status);
    }
}

// Counting the other way round.

proof fn lemma_reversed_status(f: Seq<SymbolTree>)
    ensures
        symbols_tally(all_as_status(f, Status::Added)) == symbols_tally(
            all_as_status(f, Status::Removed),
        ).reversed(),
        symbols_tally(all_as_status(f, Status::Removed)) == symbols_tally(
            all_as_status(f, Status::Added),
        ).reversed(),
{
    lemma_forest_counted(f, Status::Added);
    lemma_forest_counted(f, Status::Removed);
}

proof fn lemma_reversed_forest(old: Seq<SymbolTree>, new: Seq<SymbolTree>)
    ensures
        symbols_tally(diff_forest(new, old)) == symbols_tally(diff_forest(old, new)).reversed(),
    decreases old, 3nat, 0nat,
{
    lemma_either_order(identities(old), identities(new));
    lemma_reversed_keys(old, new, sorted_distinct(identities(old) + identities(new)));
}

proof fn lemma_reversed_keys(
    old: Seq<SymbolTree>,
    new: Seq<SymbolTree>,
    keys: Seq<Seq<char>>,
)
    ensures
        symbols_tally(diff_keys(new, old, keys)) == symbols_tally(
            diff_keys(old, new, keys),
        ).reversed(),
    decreases old, 2nat, keys.len(),
{
    if keys.len() > 0 {
        let p = keys.drop_last();
        let k = keys.last();
        lemma_reversed_keys(old, new, p);
        lemma_reversed_key(old, new, k);
        lemma_symbols_tally_add(diff_keys(old, new, p), diff_key(old, new, k));
        lemma_symbols_tally_add(diff_keys(new, old, p), diff_key(new, old, k));
    }
}

proof fn lemma_reversed_key(old: Seq<SymbolTree>, new: Seq<SymbolTree>, key: Seq<char>)
    ensures
        symbols_tally(diff_key(new, old, key)) == symbols_tally(
            diff_key(old, new, key),
        ).reversed(),
    decreases old, 1nat, 0nat,
{
    let os = with_identity(old, key);
    let ns = with_identity(new, key);
    lemma_with_identity(old, key);
    if os.len() == 1 && ns.len() == 1 {
        assert(old.contains(os[0]));
        let i = choose|i: int| 0 <= i < old.len() && old[i] == os[0];
        assert(decreases_to!(old => old[i]));
        assert(decreases_to!(old[i] => old[i].members));
        lemma_reversed_forest(os[0].members, ns[0].members);
        lemma_reversed_pair(os[0], ns[0]);
    } else if os.len() > 0 && ns.len() > 0 {
        lemma_either_order(decls(os), decls(ns));
        lemma_reversed_overloads(old, new, key, sorted_distinct(decls(os) + decls(ns)));
    } else if os.len() > 0 {
        lemma_reversed_status(os);
    } else if ns.len() > 0 {
        lemma_reversed_status(ns);
    } else {
        assert(all_as_status(os, Status::Added) =~= all_as_status(ns, Status::Added));
        lemma_forest_counted(ns, Status::Added);
        lemma_forest_counted(os, Status::Added);
    }
}

proof fn lemma_reversed_pair(o: SymbolTree, n: SymbolTree)
    requires
        symbols_tally(diff_forest(n.members, o.members)) == symbols_tally(
            diff_forest(o.members, n.members),
        ).reversed(),
    ensures
        symbols_tally(paired(n, o, diff_forest(n.members, o.members))) == symbols_tally(
            paired(o, n, diff_forest(o.members, n.members)),
        ).reversed(),
{
    let a = diff_forest(o.members, n.members);
    let b = diff_forest(n.members, o.members);
    lemma_one_symbol(
        SymbolDiffTree { decl: n.decl, status: Status::Changed(o.decl), members: a },
    );
    lemma_one_symbol(
        SymbolDiffTree { decl: o.decl, status: Status::Changed(n.decl), members: b },
    );
    lemma_one_symbol(SymbolDiffTree { decl: n.decl, status: Status::Same, members: a });
    lemma_one_symbol(SymbolDiffTree { decl: o.decl, status: Status::Same, members: b });
}

proof fn lemma_reversed_overloads(
    old: Seq<SymbolTree>,
    new: Seq<SymbolTree>,
    key: Seq<char>,
    texts: Seq<Seq<char>>,
)
    ensures
        symbols_tally(diff_overloads(new, old, key, texts)) == symbols_tally(
            diff_overloads(old, new, key, texts),
        ).reversed(),
    decreases old, 0nat, texts.len(),
{
    if texts.len() > 0 {
        let p = texts.drop_last();
        let d = texts.last();
        let os = with_identity(old, key);
        let ns = with_identity(new, key);
        let ahead = diff_overloads(old, new, key, p);
        let back = diff_overloads(new, old, key, p);
        lemma_reversed_overloads(old, new, key, p);
        match (last_reading(os, d), last_reading(ns, d)) {
            (Some(o), Some(n)) => {
                lemma_with_identity(old, key);
                lemma_last_reading(os, d);
                let j = choose|j: int| 0 <= j < os.len() && os[j] == o;
                assert(old.contains(os[j]));
                let i = choose|i: int| 0 <= i < old.len() && old[i] == o;
                assert(decreases_to!(old => old[i]));
                assert(decreases_to!(old[i] => old[i].members));
                lemma_reversed_forest(o.members, n.members);
                lemma_reversed_pair(o, n);
                lemma_symbols_tally_add(ahead, paired(o, n, diff_forest(o.members, n.members)));
                lemma_symbols_tally_add(back, paired(n, o, diff_forest(n.members, o.members)));
            },
            (Some(o), None) => {
                law_whole_tree_counted(o, Status::Removed);
                law_whole_tree_counted(o, Status::Added);
                lemma_one_symbol(as_status(o, Status::Removed));
                lemma_one_symbol(as_status(o, Status::Added));
                lemma_symbols_tally_add(ahead, seq![as_status(o, Status::Removed)]);
                lemma_symbols_tally_add(back, seq![as_status(o, Status::Added)]);
            },
            (None, Some(n)) => {
                law_whole_tree_counted(n, Status::Removed);
                law_whole_tree_counted(n, Status::Added);
                lemma_one_symbol(as_status(n, Status::Removed));
                lemma_one_symbol(as_status(n, Status::Added));
                lemma_symbols_tally_add(ahead, seq![as_status(n, Status::Added)]);
                lemma_symbols_tally_add(back, seq![as_status(n, Status::Removed)]);
            },
            (None, None) => {
                assert(ahead + Seq::<SymbolDiffTree>::empty() =~= ahead);
                assert(back + Seq::<SymbolDiffTree>::empty() =~= back);
            },
        }
    }
}

/// Two lists make the same increasing list in either order.
proof fn lemma_either_order(a: Seq<Seq<char>>, b: Seq<Seq<char>>)
    ensures
        sorted_distinct(a + b) == sorted_distinct(b + a),
{
    law_sorted_distinct(a + b);
    law_sorted_distinct(b + a);
    assert forall|x: Seq<char>| #[trigger] sorted_distinct(a + b).contains(x)
        <==> sorted_distinct(b + a).contains(x) by {
        lemma_concat_contains(a, b, x);
        lemma_concat_contains(b, a, x);
    }
    lemma_increasing_unique(sorted_distinct(a + b), sorted_distinct(b + a));
}

proof fn lemma_concat_contains(a: Seq<Seq<char>>, b: Seq<Seq<char>>, x: Seq<char>)
    ensures
        (a + b).contains(x) <==> a.contains(x) || b.contains(x),
{
    if a.contains(x) {
        let i = choose|i: int| 0 <= i < a.len() && a[i] == x;
        assert((a + b)[i] == x);
    }
    if b.contains(x) {
        let i = choose|i: int| 0 <= i < b.len() && b[i] == x;
        assert((a + b)[a.len() + i] == x);
    }
    if (a + b).contains(x) {
        let i = choose|i: int| 0 <= i < (a + b).len() && (a + b)[i] == x;
        if i < a.len() {
            assert(a[i] == x);
        } else {
            assert(b[i - a.len()] == x);
        }
    }
}


proof fn lemma_extension_status(e: ExtensionTree, status: Status)
    ensures
        extension_as_status(e, status).tally() == status.times(1 + forest_size(e.symbols)),
{
    lemma_forest_counted(e.symbols, status);
}

proof fn lemma_reversed_extensions(
    old: Seq<ExtensionTree>,
    new: Seq<ExtensionTree>,
    list: Seq<Seq<char>>,
)
    ensures
        extensions_tally(diff_extension_list(new, old, list)) == extensions_tally(
            diff_extension_list(old, new, list),
        ).reversed(),
    decreases list.len(),
{
    if list.len() > 0 {
        let p = list.drop_last();
        let name = list.last();
        lemma_reversed_extensions(old, new, p);
        lemma_reversed_extension(old, new, name);
        lemma_extensions_tally_add(
            diff_extension_list(old, new, p),
            diff_extension(old, new, name),
        );
        lemma_extensions_tally_add(
            diff_extension_list(new, old, p),
            diff_extension(new, old, name),
        );
    }
}

proof fn lemma_reversed_extension(
    old: Seq<ExtensionTree>,
    new: Seq<ExtensionTree>,
    name: Seq<char>,
)
    ensures
        extensions_tally(diff_extension(new, old, name)) == extensions_tally(
            diff_extension(old, new, name),
        ).reversed(),
{
    match (last_named::<ExtensionGroup>(old, name), last_named::<ExtensionGroup>(new, name)) {
        (Some(o), Some(n)) => {
            let a = diff_forest(o.symbols, n.symbols);
            let b = diff_forest(n.symbols, o.symbols);
            lemma_reversed_forest(o.symbols, n.symbols);
            lemma_one_extension(
                ExtensionDiffTree { extended_module: name, status: Status::Same, symbols: a },
            );
            lemma_one_extension(
                ExtensionDiffTree { extended_module: name, status: Status::Same, symbols: b },
            );
        },
        (Some(o), None) => {
            lemma_extension_status(o, Status::Removed);
            lemma_extension_status(o, Status::Added);
            lemma_one_extension(extension_as_status(o, Status::Removed));
            lemma_one_extension(extension_as_status(o, Status::Added));
        },
        (None, Some(n)) => {
            lemma_extension_status(n, Status::Removed);
            lemma_extension_status(n, Status::Added);
            lemma_one_extension(extension_as_status(n, Status::Removed));
            lemma_one_extension(extension_as_status(n, Status::Added));
        },
        (None, None) => {},
    }
}

/// How many extension groups and declarations there are in a list of groups.
pub open spec fn groups_size(f: Seq<ExtensionTree>) -> nat
    decreases f.len(),
{
    if f.len() == 0 {
        0
    } else {
        groups_size(f.drop_last()) + 1 + forest_size(f.last().symbols)
    }
}

/// How many nodes there are in a module: the module, its extension groups and
/// all declarations.
pub open spec fn module_size(m: ModuleTree) -> nat {
    1 + forest_size(m.symbols) + groups_size(m.extensions)
}

proof fn lemma_groups_counted(f: Seq<ExtensionTree>, status: Status)
    ensures
        extensions_tally(Seq::new(f.len(), |i: int| extension_as_status(f[i], status)))
            == status.times(groups_size(f)),
    decreases f.len(),
{
    let all = Seq::new(f.len(), |i: int| extension_as_status(f[i], status));
    if f.len() > 0 {
        let p = f.drop_last();
        assert(all.drop_last() =~= Seq::new(p.len(), |i: int| extension_as_status(p[i], status)));
        lemma_groups_counted(p, status);
        lemma_extension_status(f.last(), status);
    }
}

/// A module that was added or removed counts once for itself and once for
/// each extension group and each declaration in it.
pub proof fn law_whole_module_counted(m: ModuleTree, status: Status)
    requires
        status is Added || status is Removed,
    ensures
        module_as_status(m, status).tally() == status.times(module_size(m)),
{
    lemma_forest_counted(m.symbols, status);
    lemma_groups_counted(m.extensions, status);
}

proof fn lemma_reversed_module(old: Seq<ModuleTree>, new: Seq<ModuleTree>, name: Seq<char>)
    ensures
        report_tally(diff_module_named(new, old, name)) == report_tally(
            diff_module_named(old, new, name),
        ).reversed(),
{
    match (last_named::<ModuleModel>(old, name), last_named::<ModuleModel>(new, name)) {
        (Some(o), Some(n)) => {
            lemma_reversed_forest(o.symbols, n.symbols);
            let on = names::<ExtensionGroup>(o.extensions);
            let nn = names::<ExtensionGroup>(n.extensions);
            lemma_either_order(on, nn);
            lemma_reversed_extensions(o.extensions, n.extensions, sorted_distinct(on + nn));
            lemma_one_module(diff_module_pair(o, n));
            lemma_one_module(diff_module_pair(n, o));
        },
        (Some(o), None) => {
            law_whole_module_counted(o, Status::Removed);
            law_whole_module_counted(o, Status::Added);
            lemma_one_module(module_as_status(o, Status::Removed));
            lemma_one_module(module_as_status(o, Status::Added));
        },
        (None, Some(n)) => {
            law_whole_module_counted(n, Status::Removed);
            law_whole_module_counted(n, Status::Added);
            lemma_one_module(module_as_status(n, Status::Removed));
            lemma_one_module(module_as_status(n, Status::Added));
        },
        (None, None) => {},
    }
}

proof fn lemma_reversed_modules(
    old: Seq<ModuleTree>,
    new: Seq<ModuleTree>,
    list: Seq<Seq<char>>,
)
    ensures
        report_tally(diff_module_list(new, old, list)) == report_tally(
            diff_module_list(old, new, list),
        ).reversed(),
    decreases list.len(),
{
    if list.len() > 0 {
        let p = list.drop_last();
        let name = list.last();
        lemma_reversed_modules(old, new, p);
        lemma_reversed_module(old, new, name);
        lemma_report_tally_add(diff_module_list(old, new, p), diff_module_named(old, new, name));
        lemma_report_tally_add(diff_module_list(new, old, p), diff_module_named(new, old, name));
    }
}

/// With the snapshots the other way round, what was added counts as removed,
/// what was removed as added, and as much is changed.
pub proof fn law_reversed(old: Seq<ModuleTree>, new: Seq<ModuleTree>)
    ensures
        report_tally(diff_modules(new, old)) == report_tally(diff_modules(old, new)).reversed(),
{
    lemma_either_order(names::<ModuleModel>(old), names::<ModuleModel>(new));
    lemma_reversed_modules(
        old,
        new,
        sorted_distinct(names::<ModuleModel>(old) + names::<ModuleModel>(new)),
    );
}

// Nothing is reported for its own sake: each entry stands for a difference.

proof fn lemma_forest_counts(old: Seq<SymbolTree>, new: Seq<SymbolTree>)
    ensures
        diff_forest(old, new).len() > 0 ==> symbols_tally(diff_forest(old, new)).total() > 0,
    decreases old, 3nat, 0nat,
{
    lemma_keys_count(old, new, sorted_distinct(identities(old) + identities(new)));
}

proof fn lemma_keys_count(old: Seq<SymbolTree>, new: Seq<SymbolTree>, keys: Seq<Seq<char>>)
    ensures
        diff_keys(old, new, keys).len() > 0 ==> symbols_tally(
            diff_keys(old, new, keys),
        ).total() > 0,
    decreases old, 2nat, keys.len(),
{
    if keys.len() > 0 {
        lemma_keys_count(old, new, keys.drop_last());
        lemma_key_counts(old, new, keys.last());
        lemma_symbols_tally_add(
            diff_keys(old, new, keys.drop_last()),
            diff_key(old, new, keys.last()),
        );
    }
}

proof fn lemma_status_counts(f: Seq<SymbolTree>, status: Status)
    requires
        f.len() > 0,
        status is Added || status is Removed,
    ensures
        symbols_tally(all_as_status(f, status)).total() > 0,
{
    lemma_forest_counted(f, status);
    assert(tree_size(f.last()) > 0);
}

proof fn lemma_pair_counts(o: SymbolTree, n: SymbolTree)
    requires
        diff_forest(o.members, n.members).len() > 0 ==> symbols_tally(
            diff_forest(o.members, n.members),
        ).total() > 0,
    ensures
        paired(o, n, diff_forest(o.members, n.members)).len() > 0 ==> symbols_tally(
            paired(o, n, diff_forest(o.members, n.members)),
        ).total() > 0,
{
    let a = diff_forest(o.members, n.members);
    lemma_one_symbol(
        SymbolDiffTree { decl: n.decl, status: Status::Changed(o.decl), members: a },
    );
    lemma_one_symbol(SymbolDiffTree { decl: n.decl, status: Status::Same, members: a });
}

proof fn lemma_key_counts(old: Seq<SymbolTree>, new: Seq<SymbolTree>, key: Seq<char>)
    ensures
        diff_key(old, new, key).len() > 0 ==> symbols_tally(diff_key(old, new, key)).total() > 0,
    decreases old, 1nat, 0nat,
{
    let os = with_identity(old, key);
    let ns = with_identity(new, key);
    lemma_with_identity(old, key);
    if os.len() == 1 && ns.len() == 1 {
        assert(old.contains(os[0]));
        let i = choose|i: int| 0 <= i < old.len() && old[i] == os[0];
        assert(decreases_to!(old => old[i]));
        assert(decreases_to!(old[i] => old[i].members));
        lemma_forest_counts(os[0].members, ns[0].members);
        lemma_pair_counts(os[0], ns[0]);
    } else if os.len() > 0 && ns.len() > 0 {
        lemma_overloads_count(old, new, key, sorted_distinct(decls(os) + decls(ns)));
    } else if os.len() > 0 {
        lemma_status_counts(os, Status::Removed);
    } else if ns.len() > 0 {
        lemma_status_counts(ns, Status::Added);
    }
}

proof fn lemma_overloads_count(
    old: Seq<SymbolTree>,
    new: Seq<SymbolTree>,
    key: Seq<char>,
    texts: Seq<Seq<char>>,
)
    ensures
        diff_overloads(old, new, key, texts).len() > 0 ==> symbols_tally(
            diff_overloads(old, new, key, texts),
        ).total() > 0,
    decreases old, 0nat, texts.len(),
{
    if texts.len() > 0 {
        let p = texts.drop_last();
        let d = texts.last();
        let os = with_identity(old, key);
        let ns = with_identity(new, key);
        let head = diff_overloads(old, new, key, p);
        lemma_overloads_count(old, new, key, p);
        match (last_reading(os, d), last_reading(ns, d)) {
            (Some(o), Some(n)) => {
                lemma_with_identity(old, key);
                lemma_last_reading(os, d);
                let j = choose|j: int| 0 <= j < os.len() && os[j] == o;
                assert(old.contains(os[j]));
                let i = choose|i: int| 0 <= i < old.len() && old[i] == o;
                assert(decreases_to!(old => old[i]));
                assert(decreases_to!(old[i] => old[i].members));
                lemma_forest_counts(o.members, n.members);
                lemma_pair_counts(o, n);
                lemma_symbols_tally_add(head, paired(o, n, diff_forest(o.members, n.members)));
            },
            (Some(o), None) => {
                law_whole_tree_counted(o, Status::Removed);
                lemma_one_symbol(as_status(o, Status::Removed));
                lemma_symbols_tally_add(head, seq![as_status(o, Status::Removed)]);
            },
            (None, Some(n)) => {
                law_whole_tree_counted(n, Status::Added);
                lemma_one_symbol(as_status(n, Status::Added));
                lemma_symbols_tally_add(head, seq![as_status(n, Status::Added)]);
            },
            (None, None) => {
                assert(head + Seq::<SymbolDiffTree>::empty() =~= head);
            },
        }
    }
}

proof fn lemma_extensions_count(
    old: Seq<ExtensionTree>,
    new: Seq<ExtensionTree>,
    list: Seq<Seq<char>>,
)
    ensures
        diff_extension_list(old, new, list).len() > 0 ==> extensions_tally(
            diff_extension_list(old, new, list),
        ).total() > 0,
    decreases list.len(),
{
    if list.len() > 0 {
        let p = list.drop_last();
        let name = list.last();
        lemma_extensions_count(old, new, p);
        lemma_extensions_tally_add(
            diff_extension_list(old, new, p),
            diff_extension(old, new, name),
        );
        match (last_named::<ExtensionGroup>(old, name), last_named::<ExtensionGroup>(new, name)) {
            (Some(o), Some(n)) => {
                let symbols = diff_forest(o.symbols, n.symbols);
                lemma_forest_counts(o.symbols, n.symbols);
                lemma_one_extension(
                    ExtensionDiffTree { extended_module: name, status: Status::Same, symbols },
                );
            },
            (Some(o), None) => {
                lemma_extension_status(o, Status::Removed);
                lemma_one_extension(extension_as_status(o, Status::Removed));
            },
            (None, Some(n)) => {
                lemma_extension_status(n, Status::Added);
                lemma_one_extension(extension_as_status(n, Status::Added));
            },
            (None, None) => {},
        }
    }
}

proof fn lemma_modules_count(old: Seq<ModuleTree>, new: Seq<ModuleTree>, list: Seq<Seq<char>>)
    ensures
        diff_module_list(old, new, list).len() > 0 ==> report_tally(
            diff_module_list(old, new, list),
        ).total() > 0,
        nothing_differs(diff_module_list(old, new, list)) ==> diff_module_list(
            old,
            new,
            list,
        ).len() == 0,
    decreases list.len(),
{
    if list.len() > 0 {
        let p = list.drop_last();
        let name = list.last();
        let head = diff_module_list(old, new, p);
        let all = diff_module_list(old, new, list);
        lemma_modules_count(old, new, p);
        lemma_report_tally_add(head, diff_module_named(old, new, name));
        match (last_named::<ModuleModel>(old, name), last_named::<ModuleModel>(new, name)) {
            (Some(o), Some(n)) => {
                let on = names::<ExtensionGroup>(o.extensions);
                let nn = names::<ExtensionGroup>(n.extensions);
                lemma_forest_counts(o.symbols, n.symbols);
                lemma_extensions_count(o.extensions, n.extensions, sorted_distinct(on + nn));
                lemma_one_module(diff_module_pair(o, n));
            },
            (Some(o), None) => {
                law_whole_module_counted(o, Status::Removed);
                lemma_one_module(module_as_status(o, Status::Removed));
            },
            (None, Some(n)) => {
                law_whole_module_counted(n, Status::Added);
                lemma_one_module(module_as_status(n, Status::Added));
            },
            (None, None) => {},
        }
        if nothing_differs(all) {
            assert forall|i: int| 0 <= i < head.len() implies !(
            #[trigger] head[i]).differs() by {
                assert(head[i] == all[i]);
            }
            if all.len() > 0 {
                assert(all[all.len() - 1].differs());
            }
        }
    }
}

/// The report on two packages has nothing to report, is empty, and counts
/// nothing: each of the three means the others.
pub proof fn law_differences_counted(old: Seq<ModuleTree>, new: Seq<ModuleTree>)
    ensures
        nothing_differs(diff_modules(old, new)) <==> diff_modules(old, new).len() == 0,
        nothing_differs(diff_modules(old, new)) <==> report_tally(
            diff_modules(old, new),
        ).total() == 0,
{
    lemma_modules_count(
        old,
        new,
        sorted_distinct(names::<ModuleModel>(old) + names::<ModuleModel>(new)),
    );
}


// Lists without a common identity.

/// How many declarations there are with the given identities.
spec fn keyed_size(f: Seq<SymbolTree>, keys: Seq<Seq<char>>) -> nat
    decreases keys.len(),
{
    if keys.len() == 0 {
        0
    } else {
        keyed_size(f, keys.drop_last()) + forest_size(with_identity(f, keys.last()))
    }
}

proof fn lemma_keyed_push(f: Seq<SymbolTree>, keys: Seq<Seq<char>>)
    requires
        f.len() > 0,
        strictly_increasing(keys),
    ensures
        keyed_size(f, keys) == keyed_size(f.drop_last(), keys) + if keys.contains(
            identity(f.last().decl),
        ) {
            tree_size(f.last())
        } else {
            0
        },
    decreases keys.len(),
{
    if keys.len() > 0 {
        let p = keys.drop_last();
        let k = keys.last();
        let id = identity(f.last().decl);
        lemma_keyed_push(f, p);
        let g = with_identity(f.drop_last(), k);
        assert(g.push(f.last()).drop_last() =~= g);
        if p.contains(id) {
            let i = choose|i: int| 0 <= i < p.len() && p[i] == id;
            assert(keys[i] == id);
            assert(text_order(keys[i], keys[keys.len() - 1]) == Order::Less);
            lemma_text_order_flips(id, id);
            assert(id != k);
        }
        if keys.contains(id) && id != k {
            let i = choose|i: int| 0 <= i < keys.len() && keys[i] == id;
            assert(p[i] == id);
        }
        if id == k {
            assert(keys[keys.len() - 1] == id);
        }
    }
}

proof fn lemma_keyed_whole(f: Seq<SymbolTree>, keys: Seq<Seq<char>>)
    requires
        strictly_increasing(keys),
        forall|i: int| 0 <= i < f.len() ==> keys.contains(identity((#[trigger] f[i]).decl)),
    ensures
        keyed_size(f, keys) == forest_size(f),
    decreases f.len(),
{
    if f.len() > 0 {
        let p = f.drop_last();
        assert forall|i: int| 0 <= i < p.len() implies keys.contains(
            identity((#[trigger] p[i]).decl),
        ) by {
            assert(p[i] == f[i]);
        }
        lemma_keyed_whole(p, keys);
        lemma_keyed_push(f, keys);
        assert(keys.contains(identity(f[f.len() - 1].decl)));
    } else {
        lemma_keyed_none(f, keys);
    }
}

proof fn lemma_keyed_none(f: Seq<SymbolTree>, keys: Seq<Seq<char>>)
    requires
        f.len() == 0,
    ensures
        keyed_size(f, keys) == 0,
    decreases keys.len(),
{
    if keys.len() > 0 {
        lemma_keyed_none(f, keys.drop_last());
    }
}

proof fn lemma_disjoint_keys(old: Seq<SymbolTree>, new: Seq<SymbolTree>, keys: Seq<Seq<char>>)
    requires
        forall|i: int, j: int|
            0 <= i < old.len() && 0 <= j < new.len() ==> identity((#[trigger] old[i]).decl)
                != identity((#[trigger] new[j]).decl),
    ensures
        symbols_tally(diff_keys(old, new, keys)) == (Tally {
            added: keyed_size(new, keys),
            removed: keyed_size(old, keys),
            changed: 0,
        }),
    decreases keys.len(),
{
    if keys.len() > 0 {
        let k = keys.last();
        let os = with_identity(old, k);
        let ns = with_identity(new, k);
        lemma_disjoint_keys(old, new, keys.drop_last());
        lemma_symbols_tally_add(diff_keys(old, new, keys.drop_last()), diff_key(old, new, k));
        lemma_with_identity(old, k);
        lemma_with_identity(new, k);
        if os.len() > 0 && ns.len() > 0 {
            assert(old.contains(os[0]) && new.contains(ns[0]));
            let i = choose|i: int| 0 <= i < old.len() && old[i] == os[0];
            let j = choose|j: int| 0 <= j < new.len() && new[j] == ns[0];
            assert(identity(old[i].decl) != identity(new[j].decl));
        }
        lemma_forest_counted(os, Status::Removed);
        lemma_forest_counted(ns, Status::Added);
    }
}

/// Where no declaration has the identity of one in the other snapshot, all of
/// the old ones count as removed and all of the new ones as added, and none as
/// changed.
pub proof fn law_nothing_in_common(old: Seq<SymbolTree>, new: Seq<SymbolTree>)
    requires
        forall|i: int, j: int|
            0 <= i < old.len() && 0 <= j < new.len() ==> identity((#[trigger] old[i]).decl)
                != identity((#[trigger] new[j]).decl),
    ensures
        symbols_tally(diff_forest(old, new)) == (Tally {
            added: forest_size(new),
            removed: forest_size(old),
            changed: 0,
        }),
{
    let both = identities(old) + identities(new);
    let keys = sorted_distinct(both);
    law_sorted_distinct(both);
    lemma_disjoint_keys(old, new, keys);
    assert forall|i: int| 0 <= i < old.len() implies keys.contains(
        identity((#[trigger] old[i]).decl),
    ) by {
        assert(both[i] == identity(old[i].decl));
        assert(both.contains(both[i]));
    }
    assert forall|i: int| 0 <= i < new.len() implies keys.contains(
        identity((#[trigger] new[i]).decl),
    ) by {
        assert(both[old.len() + i] == identity(new[i].decl));
        assert(both.contains(both[old.len() + i]));
    }
    lemma_keyed_whole(old, keys);
    lemma_keyed_whole(new, keys);
}

} // verus!
