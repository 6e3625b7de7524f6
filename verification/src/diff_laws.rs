//! What holds of every comparison.

use vstd::prelude::*;

use crate::diff::{
    all_as_status, as_status, decls, diff_extension, diff_extension_groups, diff_extension_list,
    diff_forest, diff_key, diff_keys, diff_module_list, diff_module_named, diff_modules,
    diff_overloads, identities, last_named, last_reading, lemma_last_reading, lemma_with_identity,
    module_as_status, names, paired, with_identity,
};
use crate::identity::identity;
use crate::model::{ExtensionGroup, ExtensionTree, ModuleModel, ModuleTree, SymbolTree};
use crate::report::{ExtensionDiffTree, ModuleDiffTree, Status, SymbolDiffTree};
use crate::textmap::{law_sorted_distinct, sorted_distinct};

verus! {

/// Whether a comparison of `old` and `new` takes `o` and `n` for the same
/// declaration. They are, if each is the only one with their identity on its
/// side; otherwise, if they read the same.
pub open spec fn partners(
    old: Seq<SymbolTree>,
    new: Seq<SymbolTree>,
    o: SymbolTree,
    n: SymbolTree,
) -> bool {
    let os = with_identity(old, identity(o.decl));
    let ns = with_identity(new, identity(o.decl));
    if os.len() == 1 && ns.len() == 1 {
        o == os[0] && n == ns[0]
    } else {
        last_reading(os, o.decl) == Some(o) && last_reading(ns, o.decl) == Some(n)
    }
}

/// Whether a comparison of `old` and `new` finds no partner for `o`, out of
/// `old`, in `new`: nothing there has its identity, or several declarations
/// share it and none in `new` reads the same. Of those in `old` that read the
/// same, the last then stands for all.
pub open spec fn gone(old: Seq<SymbolTree>, new: Seq<SymbolTree>, o: SymbolTree) -> bool {
    let os = with_identity(old, identity(o.decl));
    let ns = with_identity(new, identity(o.decl));
    if ns.len() == 0 {
        old.contains(o)
    } else {
        &&& !(os.len() == 1 && ns.len() == 1)
        &&& last_reading(os, o.decl) == Some(o)
        &&& last_reading(ns, o.decl) is None
    }
}

/// Whether an entry has a place in the report on `old` and `new`.
pub open spec fn belongs(
    old: Seq<SymbolTree>,
    new: Seq<SymbolTree>,
    entry: SymbolDiffTree,
) -> bool {
    match entry.status {
        Status::Added => exists|n: SymbolTree|
            #[trigger] gone(new, old, n) && entry == as_status(n, Status::Added),
        Status::Removed => exists|o: SymbolTree|
            #[trigger] gone(old, new, o) && entry == as_status(o, Status::Removed),
        _ => exists|o: SymbolTree, n: SymbolTree|
            #[trigger] partners(old, new, o, n) && paired(
                o,
                n,
                diff_forest(o.members, n.members),
            ) == seq![entry],
    }
}

proof fn lemma_group_contains(f: Seq<SymbolTree>, key: Seq<char>, t: SymbolTree)
    ensures
        with_identity(f, key).contains(t) <==> f.contains(t) && identity(t.decl) == key,
    decreases f.len(),
{
    let g = with_identity(f, key);
    lemma_with_identity(f, key);
    if f.len() > 0 {
        let p = f.drop_last();
        let q = with_identity(p, key);
        lemma_group_contains(p, key, t);
        if f.contains(t) && identity(t.decl) == key {
            let i = choose|i: int| 0 <= i < f.len() && f[i] == t;
            if i < p.len() {
                assert(p[i] == t);
                let j = choose|j: int| 0 <= j < q.len() && q[j] == t;
                assert(g[j] == t);
            } else {
                assert(g[q.len() as int] == t);
            }
        }
    }
}

proof fn lemma_paired_entry(
    old: Seq<SymbolTree>,
    new: Seq<SymbolTree>,
    o: SymbolTree,
    n: SymbolTree,
    entry: SymbolDiffTree,
)
    requires
        partners(old, new, o, n),
        paired(o, n, diff_forest(o.members, n.members)).contains(entry),
    ensures
        belongs(old, new, entry),
{
    let p = paired(o, n, diff_forest(o.members, n.members));
    let i = choose|i: int| 0 <= i < p.len() && p[i] == entry;
    assert(p =~= seq![entry]);
}

proof fn lemma_added_entry(old: Seq<SymbolTree>, new: Seq<SymbolTree>, n: SymbolTree)
    requires
        gone(new, old, n),
    ensures
        belongs(old, new, as_status(n, Status::Added)),
{
}

proof fn lemma_removed_entry(old: Seq<SymbolTree>, new: Seq<SymbolTree>, o: SymbolTree)
    requires
        gone(old, new, o),
    ensures
        belongs(old, new, as_status(o, Status::Removed)),
{
}

proof fn lemma_overload_entries(
    old: Seq<SymbolTree>,
    new: Seq<SymbolTree>,
    key: Seq<char>,
    texts: Seq<Seq<char>>,
    entry: SymbolDiffTree,
)
    requires
        diff_overloads(old, new, key, texts).contains(entry),
        !(with_identity(old, key).len() == 1 && with_identity(new, key).len() == 1),
    ensures
        belongs(old, new, entry),
    decreases texts.len(),
{
    let os = with_identity(old, key);
    let ns = with_identity(new, key);
    let all = diff_overloads(old, new, key, texts);
    let head = diff_overloads(old, new, key, texts.drop_last());
    let d = texts.last();
    let i = choose|i: int| 0 <= i < all.len() && all[i] == entry;
    if i < head.len() {
        assert(head[i] == entry);
        lemma_overload_entries(old, new, key, texts.drop_last(), entry);
    } else {
        lemma_last_reading(os, d);
        lemma_last_reading(ns, d);
        match (last_reading(os, d), last_reading(ns, d)) {
            (Some(o), Some(n)) => {
                lemma_group_contains(old, key, o);
                lemma_group_contains(new, key, n);
                let p = paired(o, n, diff_forest(o.members, n.members));
                assert(p[i - head.len()] == entry);
                lemma_paired_entry(old, new, o, n, entry);
            },
            (Some(o), None) => {
                lemma_group_contains(old, key, o);
                assert(entry == as_status(o, Status::Removed));
                lemma_removed_entry(old, new, o);
            },
            (None, Some(n)) => {
                lemma_group_contains(new, key, n);
                assert(entry == as_status(n, Status::Added));
                lemma_added_entry(old, new, n);
            },
            (None, None) => {},
        }
    }
}

proof fn lemma_key_entries(
    old: Seq<SymbolTree>,
    new: Seq<SymbolTree>,
    key: Seq<char>,
    entry: SymbolDiffTree,
)
    requires
        diff_key(old, new, key).contains(entry),
    ensures
        belongs(old, new, entry),
{
    let os = with_identity(old, key);
    let ns = with_identity(new, key);
    lemma_with_identity(old, key);
    lemma_with_identity(new, key);
    let all = diff_key(old, new, key);
    let i = choose|i: int| 0 <= i < all.len() && all[i] == entry;
    if os.len() == 1 && ns.len() == 1 {
        assert(old.contains(os[0]) && new.contains(ns[0]));
        lemma_paired_entry(old, new, os[0], ns[0], entry);
    } else if os.len() > 0 && ns.len() > 0 {
        lemma_overload_entries(old, new, key, sorted_distinct(decls(os) + decls(ns)), entry);
    } else if os.len() > 0 {
        assert(old.contains(os[i]));
        assert(entry == as_status(os[i], Status::Removed));
        lemma_removed_entry(old, new, os[i]);
    } else {
        assert(new.contains(ns[i]));
        assert(entry == as_status(ns[i], Status::Added));
        lemma_added_entry(old, new, ns[i]);
    }
}

proof fn lemma_keys_entries(
    old: Seq<SymbolTree>,
    new: Seq<SymbolTree>,
    keys: Seq<Seq<char>>,
    entry: SymbolDiffTree,
)
    requires
        diff_keys(old, new, keys).contains(entry),
    ensures
        belongs(old, new, entry),
    decreases keys.len(),
{
    let all = diff_keys(old, new, keys);
    let head = diff_keys(old, new, keys.drop_last());
    let i = choose|i: int| 0 <= i < all.len() && all[i] == entry;
    if i < head.len() {
        assert(head[i] == entry);
        lemma_keys_entries(old, new, keys.drop_last(), entry);
    } else {
        assert(diff_key(old, new, keys.last())[i - head.len()] == entry);
        lemma_key_entries(old, new, keys.last(), entry);
    }
}

/// Partners are out of the two snapshots and share their identity; what is
/// gone was in the first and is not in the second.
pub proof fn law_partners(
    old: Seq<SymbolTree>,
    new: Seq<SymbolTree>,
    o: SymbolTree,
    n: SymbolTree,
)
    ensures
        partners(old, new, o, n) ==> old.contains(o) && new.contains(n) && identity(o.decl)
            == identity(n.decl),
        gone(old, new, o) ==> old.contains(o) && !new.contains(o) && !partners(old, new, o, n),
{
    let key = identity(o.decl);
    let os = with_identity(old, key);
    let ns = with_identity(new, key);
    lemma_with_identity(old, key);
    lemma_with_identity(new, key);
    lemma_last_reading(os, o.decl);
    lemma_last_reading(ns, o.decl);
    lemma_group_contains(old, key, o);
    lemma_group_contains(new, key, n);
    lemma_group_contains(new, key, o);
    if ns.contains(o) {
        let i = choose|i: int| 0 <= i < ns.len() && ns[i] == o;
        assert(decls(ns)[i] == o.decl);
    }
}

proof fn lemma_overload_complete(
    old: Seq<SymbolTree>,
    new: Seq<SymbolTree>,
    key: Seq<char>,
    texts: Seq<Seq<char>>,
    i: int,
    entry: SymbolDiffTree,
)
    requires
        0 <= i < texts.len(),
        match (
            last_reading(with_identity(old, key), texts[i]),
            last_reading(with_identity(new, key), texts[i]),
        ) {
            (Some(o), Some(n)) => paired(o, n, diff_forest(o.members, n.members)) == seq![entry],
            (Some(o), None) => entry == as_status(o, Status::Removed),
            (None, Some(n)) => entry == as_status(n, Status::Added),
            (None, None) => false,
        },
    ensures
        diff_overloads(old, new, key, texts).contains(entry),
    decreases texts.len(),
{
    let all = diff_overloads(old, new, key, texts);
    let head = diff_overloads(old, new, key, texts.drop_last());
    if i == texts.len() - 1 {
        assert(all[head.len() as int] == entry);
    } else {
        lemma_overload_complete(old, new, key, texts.drop_last(), i, entry);
        let j = choose|j: int| 0 <= j < head.len() && head[j] == entry;
        assert(all[j] == entry);
    }
}

proof fn lemma_texts_contain(
    os: Seq<SymbolTree>,
    ns: Seq<SymbolTree>,
    d: Seq<char>,
) -> (i: int)
    requires
        last_reading(os, d) is Some || last_reading(ns, d) is Some,
    ensures
        0 <= i < sorted_distinct(decls(os) + decls(ns)).len(),
        sorted_distinct(decls(os) + decls(ns))[i] == d,
{
    let both = decls(os) + decls(ns);
    law_sorted_distinct(both);
    lemma_last_reading(os, d);
    lemma_last_reading(ns, d);
    if decls(os).contains(d) {
        let j = choose|j: int| 0 <= j < decls(os).len() && decls(os)[j] == d;
        assert(both[j] == d);
    } else {
        let j = choose|j: int| 0 <= j < decls(ns).len() && decls(ns)[j] == d;
        assert(both[decls(os).len() + j] == d);
    }
    assert(both.contains(d));
    assert(sorted_distinct(both).contains(d));
    choose|i: int| 0 <= i < sorted_distinct(both).len() && sorted_distinct(both)[i] == d
}

proof fn lemma_keys_complete(
    old: Seq<SymbolTree>,
    new: Seq<SymbolTree>,
    keys: Seq<Seq<char>>,
    key: Seq<char>,
    entry: SymbolDiffTree,
)
    requires
        keys.contains(key),
        diff_key(old, new, key).contains(entry),
    ensures
        diff_keys(old, new, keys).contains(entry),
    decreases keys.len(),
{
    let all = diff_keys(old, new, keys);
    let head = diff_keys(old, new, keys.drop_last());
    let i = choose|i: int| 0 <= i < keys.len() && keys[i] == key;
    if i == keys.len() - 1 {
        let last = diff_key(old, new, key);
        let j = choose|j: int| 0 <= j < last.len() && last[j] == entry;
        assert(all[head.len() + j] == entry);
    } else {
        assert(keys.drop_last()[i] == key);
        lemma_keys_complete(old, new, keys.drop_last(), key, entry);
        let j = choose|j: int| 0 <= j < head.len() && head[j] == entry;
        assert(all[j] == entry);
    }
}

proof fn lemma_forest_complete(
    old: Seq<SymbolTree>,
    new: Seq<SymbolTree>,
    t: SymbolTree,
    entry: SymbolDiffTree,
)
    requires
        old.contains(t) || new.contains(t),
        diff_key(old, new, identity(t.decl)).contains(entry),
    ensures
        diff_forest(old, new).contains(entry),
{
    let key = identity(t.decl);
    let both = identities(old) + identities(new);
    law_sorted_distinct(both);
    if old.contains(t) {
        let i = choose|i: int| 0 <= i < old.len() && old[i] == t;
        assert(both[i] == key);
    } else {
        let i = choose|i: int| 0 <= i < new.len() && new[i] == t;
        assert(both[old.len() + i] == key);
    }
    assert(both.contains(key));
    lemma_keys_complete(old, new, sorted_distinct(both), key, entry);
}

/// The report on two lists of declarations holds all that belongs in it, and
/// nothing else: the new declarations without a partner as added, the old ones
/// without a partner as removed, and the partners that differ.
pub proof fn law_entries(old: Seq<SymbolTree>, new: Seq<SymbolTree>, entry: SymbolDiffTree)
    ensures
        diff_forest(old, new).contains(entry) <==> belongs(old, new, entry),
{
    if diff_forest(old, new).contains(entry) {
        lemma_keys_entries(
            old,
            new,
            sorted_distinct(identities(old) + identities(new)),
            entry,
        );
    }
    if belongs(old, new, entry) {
        match entry.status {
            Status::Added => {
                let n = choose|n: SymbolTree|
                    #[trigger] gone(new, old, n) && entry == as_status(n, Status::Added);
                law_partners(new, old, n, n);
                lemma_unpaired(old, new, n, entry);
            },
            Status::Removed => {
                let o = choose|o: SymbolTree|
                    #[trigger] gone(old, new, o) && entry == as_status(o, Status::Removed);
                law_partners(old, new, o, o);
                lemma_unpaired(old, new, o, entry);
            },
            _ => {
                let (o, n) = choose|o: SymbolTree, n: SymbolTree|
                    #[trigger] partners(old, new, o, n) && paired(
                        o,
                        n,
                        diff_forest(o.members, n.members),
                    ) == seq![entry];
                law_partners(old, new, o, n);
                let key = identity(o.decl);
                let os = with_identity(old, key);
                let ns = with_identity(new, key);
                lemma_group_contains(old, key, o);
                lemma_group_contains(new, key, n);
                if os.len() == 1 && ns.len() == 1 {
                    assert(diff_key(old, new, key)[0] == entry);
                } else {
                    let i = lemma_texts_contain(os, ns, o.decl);
                    lemma_overload_complete(
                        old,
                        new,
                        key,
                        sorted_distinct(decls(os) + decls(ns)),
                        i,
                        entry,
                    );
                }
                lemma_forest_complete(old, new, o, entry);
            },
        }
    }
}

proof fn lemma_unpaired(
    old: Seq<SymbolTree>,
    new: Seq<SymbolTree>,
    t: SymbolTree,
    entry: SymbolDiffTree,
)
    requires
        (gone(old, new, t) && entry == as_status(t, Status::Removed)) || (gone(new, old, t)
            && entry == as_status(t, Status::Added)),
    ensures
        diff_forest(old, new).contains(entry),
{
    let key = identity(t.decl);
    let os = with_identity(old, key);
    let ns = with_identity(new, key);
    law_partners(old, new, t, t);
    law_partners(new, old, t, t);
    lemma_group_contains(old, key, t);
    lemma_group_contains(new, key, t);
    if os.len() > 0 && ns.len() > 0 {
        let i = lemma_texts_contain(os, ns, t.decl);
        lemma_overload_complete(
            old,
            new,
            key,
            sorted_distinct(decls(os) + decls(ns)),
            i,
            entry,
        );
    } else if os.len() > 0 {
        let j = choose|j: int| 0 <= j < os.len() && os[j] == t;
        assert(diff_key(old, new, key)[j] == entry);
    } else {
        let j = choose|j: int| 0 <= j < ns.len() && ns[j] == t;
        assert(diff_key(old, new, key)[j] == entry);
    }
    lemma_forest_complete(old, new, t, entry);
}


/// A list of declarations does not differ from itself.
pub proof fn law_same_declarations(f: Seq<SymbolTree>)
    ensures
        diff_forest(f, f).len() == 0,
    decreases f,
{
    let all = diff_forest(f, f);
    if all.len() > 0 {
        let entry = all[0];
        assert(all.contains(entry));
        law_entries(f, f, entry);
        match entry.status {
            Status::Added => {
                let n = choose|n: SymbolTree|
                    #[trigger] gone(f, f, n) && entry == as_status(n, Status::Added);
                law_partners(f, f, n, n);
            },
            Status::Removed => {
                let o = choose|o: SymbolTree|
                    #[trigger] gone(f, f, o) && entry == as_status(o, Status::Removed);
                law_partners(f, f, o, o);
            },
            _ => {
                let (o, n) = choose|o: SymbolTree, n: SymbolTree|
                    #[trigger] partners(f, f, o, n) && paired(
                        o,
                        n,
                        diff_forest(o.members, n.members),
                    ) == seq![entry];
                law_partners(f, f, o, n);
                assert(o == n);
                let i = choose|i: int| 0 <= i < f.len() && f[i] == o;
                assert(decreases_to!(f => f[i]));
                assert(decreases_to!(f[i] => f[i].members));
                law_same_declarations(o.members);
                assert(paired(o, n, diff_forest(o.members, n.members)).len() == 0);
                assert(seq![entry].len() == 1);
            },
        }
    }
}

proof fn lemma_same_extensions(f: Seq<ExtensionTree>, list: Seq<Seq<char>>)
    ensures
        diff_extension_list(f, f, list).len() == 0,
    decreases list.len(),
{
    if list.len() > 0 {
        lemma_same_extensions(f, list.drop_last());
        match last_named::<ExtensionGroup>(f, list.last()) {
            Some(e) => {
                law_same_declarations(e.symbols);
            },
            None => {},
        }
    }
}

proof fn lemma_same_modules(f: Seq<ModuleTree>, list: Seq<Seq<char>>)
    ensures
        diff_module_list(f, f, list).len() == 0,
    decreases list.len(),
{
    if list.len() > 0 {
        lemma_same_modules(f, list.drop_last());
        match last_named::<ModuleModel>(f, list.last()) {
            Some(m) => {
                law_same_declarations(m.symbols);
                lemma_same_extensions(
                    m.extensions,
                    sorted_distinct(
                        names::<ExtensionGroup>(m.extensions) + names::<ExtensionGroup>(
                            m.extensions,
                        ),
                    ),
                );
            },
            None => {},
        }
    }
}

/// A package does not differ from itself.
pub proof fn law_same_package(modules: Seq<ModuleTree>)
    ensures
        diff_modules(modules, modules).len() == 0,
{
    lemma_same_modules(
        modules,
        sorted_distinct(names::<ModuleModel>(modules) + names::<ModuleModel>(modules)),
    );
}

impl SymbolDiffTree {
    /// Whether every changed declaration, here and in what is nested, has the
    /// identity that it had before and reads otherwise.
    pub open spec fn pairs_rightly(self) -> bool
        decreases self,
    {
        &&& match self.status {
            Status::Changed(before) => identity(before) == identity(self.decl) && before
                != self.decl,
            _ => true,
        }
        &&& forall|i: int|
            0 <= i < self.members.len() ==> (#[trigger] self.members[i]).pairs_rightly()
    }
}

/// Whether every changed declaration of a list has the identity that it had
/// before and reads otherwise.
pub open spec fn all_pair_rightly(f: Seq<SymbolDiffTree>) -> bool {
    forall|i: int| 0 <= i < f.len() ==> (#[trigger] f[i]).pairs_rightly()
}

proof fn lemma_as_status_pairs(t: SymbolTree, status: Status)
    requires
        !(status is Changed),
    ensures
        as_status(t, status).pairs_rightly(),
    decreases t,
{
    let r = as_status(t, status);
    assert forall|i: int| 0 <= i < r.members.len() implies (
    #[trigger] r.members[i]).pairs_rightly() by {
        lemma_as_status_pairs(t.members[i], status);
    }
}

proof fn lemma_all_as_status_pair(f: Seq<SymbolTree>, status: Status)
    requires
        !(status is Changed),
    ensures
        all_pair_rightly(all_as_status(f, status)),
{
    assert forall|i: int| 0 <= i < f.len() implies (
    #[trigger] all_as_status(f, status)[i]).pairs_rightly() by {
        lemma_as_status_pairs(f[i], status);
    }
}

/// Only declarations with the same identity are reported as one that changed;
/// those with different identities are reported as one removed and one added.
pub proof fn law_changes_pair(old: Seq<SymbolTree>, new: Seq<SymbolTree>)
    ensures
        all_pair_rightly(diff_forest(old, new)),
    decreases old,
{
    let all = diff_forest(old, new);
    assert forall|i: int| 0 <= i < all.len() implies (#[trigger] all[i]).pairs_rightly() by {
        let entry = all[i];
        assert(all.contains(entry));
        law_entries(old, new, entry);
        match entry.status {
            Status::Added => {
                let n = choose|n: SymbolTree|
                    #[trigger] gone(new, old, n) && entry == as_status(n, Status::Added);
                lemma_as_status_pairs(n, Status::Added);
            },
            Status::Removed => {
                let o = choose|o: SymbolTree|
                    #[trigger] gone(old, new, o) && entry == as_status(o, Status::Removed);
                lemma_as_status_pairs(o, Status::Removed);
            },
            _ => {
                let (o, n) = choose|o: SymbolTree, n: SymbolTree|
                    #[trigger] partners(old, new, o, n) && paired(
                        o,
                        n,
                        diff_forest(o.members, n.members),
                    ) == seq![entry];
                law_partners(old, new, o, n);
                let j = choose|j: int| 0 <= j < old.len() && old[j] == o;
                assert(decreases_to!(old => old[j]));
                assert(decreases_to!(old[j] => old[j].members));
                law_changes_pair(o.members, n.members);
                assert(seq![entry][0] == entry);
            },
        }
    }
}

pub proof fn lemma_from_extension(
    old: Seq<ExtensionTree>,
    new: Seq<ExtensionTree>,
    list: Seq<Seq<char>>,
    e: ExtensionDiffTree,
) -> (name: Seq<char>)
    requires
        diff_extension_list(old, new, list).contains(e),
    ensures
        diff_extension(old, new, name) == seq![e],
    decreases list.len(),
{
    let all = diff_extension_list(old, new, list);
    let head = diff_extension_list(old, new, list.drop_last());
    let i = choose|i: int| 0 <= i < all.len() && all[i] == e;
    if i < head.len() {
        assert(head[i] == e);
        lemma_from_extension(old, new, list.drop_last(), e)
    } else {
        assert(diff_extension(old, new, list.last())[i - head.len()] == e);
        assert(diff_extension(old, new, list.last()) =~= seq![e]);
        list.last()
    }
}

pub proof fn lemma_from_module(
    old: Seq<ModuleTree>,
    new: Seq<ModuleTree>,
    list: Seq<Seq<char>>,
    m: ModuleDiffTree,
) -> (name: Seq<char>)
    requires
        diff_module_list(old, new, list).contains(m),
    ensures
        diff_module_named(old, new, name) == seq![m],
    decreases list.len(),
{
    let all = diff_module_list(old, new, list);
    let head = diff_module_list(old, new, list.drop_last());
    let i = choose|i: int| 0 <= i < all.len() && all[i] == m;
    if i < head.len() {
        assert(head[i] == m);
        lemma_from_module(old, new, list.drop_last(), m)
    } else {
        assert(diff_module_named(old, new, list.last())[i - head.len()] == m);
        assert(diff_module_named(old, new, list.last()) =~= seq![m]);
        list.last()
    }
}

impl ExtensionDiffTree {
    /// Whether the group itself is not changed, and every changed declaration
    /// in it has the identity that it had before and reads otherwise.
    pub open spec fn pairs_rightly(self) -> bool {
        !(self.status is Changed) && all_pair_rightly(self.symbols)
    }
}

impl ModuleDiffTree {
    /// Whether the module itself is not changed, and every changed declaration
    /// in it has the identity that it had before and reads otherwise.
    pub open spec fn pairs_rightly(self) -> bool {
        &&& !(self.status is Changed)
        &&& all_pair_rightly(self.symbols)
        &&& forall|i: int|
            0 <= i < self.extensions.len() ==> (#[trigger] self.extensions[i]).pairs_rightly()
    }
}

proof fn lemma_extension_changes(
    old: Seq<ExtensionTree>,
    new: Seq<ExtensionTree>,
    e: ExtensionDiffTree,
)
    requires
        diff_extension_groups(old, new).contains(e),
    ensures
        e.pairs_rightly(),
{
    let name = lemma_from_extension(
        old,
        new,
        sorted_distinct(names::<ExtensionGroup>(old) + names::<ExtensionGroup>(new)),
        e,
    );
    assert(diff_extension(old, new, name)[0] == e);
    match (last_named::<ExtensionGroup>(old, name), last_named::<ExtensionGroup>(new, name)) {
        (Some(o), Some(n)) => {
            law_changes_pair(o.symbols, n.symbols);
        },
        (Some(o), None) => {
            lemma_all_as_status_pair(o.symbols, Status::Removed);
        },
        (None, Some(n)) => {
            lemma_all_as_status_pair(n.symbols, Status::Added);
        },
        (None, None) => {},
    }
}

/// In the report on two packages, only declarations with the same identity
/// are reported as one that changed, and no module and no extension group is.
pub proof fn law_package_changes_pair(old: Seq<ModuleTree>, new: Seq<ModuleTree>)
    ensures
        forall|i: int|
            0 <= i < diff_modules(old, new).len() ==> (#[trigger] diff_modules(
                old,
                new,
            )[i]).pairs_rightly(),
{
    let all = diff_modules(old, new);
    assert forall|i: int| 0 <= i < all.len() implies (#[trigger] all[i]).pairs_rightly() by {
        let m = all[i];
        assert(all.contains(m));
        let name = lemma_from_module(
            old,
            new,
            sorted_distinct(names::<ModuleModel>(old) + names::<ModuleModel>(new)),
            m,
        );
        assert(diff_module_named(old, new, name)[0] == m);
        match (last_named::<ModuleModel>(old, name), last_named::<ModuleModel>(new, name)) {
            (Some(o), Some(n)) => {
                law_changes_pair(o.symbols, n.symbols);
                assert forall|j: int| 0 <= j < m.extensions.len() implies (
                #[trigger] m.extensions[j]).pairs_rightly() by {
                    assert(m.extensions.contains(m.extensions[j]));
                    lemma_extension_changes(o.extensions, n.extensions, m.extensions[j]);
                }
            },
            (Some(o), None) => {
                lemma_module_as_status_pairs(o, Status::Removed);
            },
            (None, Some(n)) => {
                lemma_module_as_status_pairs(n, Status::Added);
            },
            (None, None) => {},
        }
    }
}

proof fn lemma_module_as_status_pairs(m: ModuleTree, status: Status)
    requires
        status is Added || status is Removed,
    ensures
        module_as_status(m, status).pairs_rightly(),
{
    let r = module_as_status(m, status);
    lemma_all_as_status_pair(m.symbols, status);
    assert forall|j: int| 0 <= j < r.extensions.len() implies (
    #[trigger] r.extensions[j]).pairs_rightly() by {
        lemma_all_as_status_pair(m.extensions[j].symbols, status);
    }
}

} // verus!
