//! What a comparison says of whole snapshots: of their modules, of their
//! extension groups, and of two that are reported to be alike.

use vstd::prelude::*;

use crate::comparison_laws::{
    all_marked, entries_for, identified, law_added, law_overloads_compared, law_pair_compared,
    law_removed, lemma_all_marked, reads, reads_last,
};
use crate::diff::{
    diff_extension, diff_extension_groups, diff_extension_list, diff_forest, diff_module_list,
    diff_module_named, diff_module_pair, diff_modules, last_named, lemma_last_named,
    module_as_status, names, Named,
};
use crate::identity::identity;
use crate::model::{ExtensionGroup, ExtensionTree, ModuleModel, ModuleTree, SymbolTree};
use crate::order::{text_order, Order};
use crate::report::{ExtensionDiffTree, ModuleDiffTree, Status, SymbolDiffTree};
use crate::textmap::{law_sorted_distinct, sorted_distinct, strictly_increasing};

verus! {

/// Whether the declaration at `i` is the only one of a list with its identity.
pub open spec fn stands_alone(f: Seq<SymbolTree>, i: int) -> bool {
    &&& 0 <= i < f.len()
    &&& forall|k: int|
        0 <= k < f.len() && k != i ==> identity((#[trigger] f[k]).decl) != identity(f[i].decl)
}

proof fn lemma_identified_alone(f: Seq<SymbolTree>, i: int)
    requires
        stands_alone(f, i),
    ensures
        identified(f, identity(f[i].decl)) == seq![f[i]],
    decreases f.len(),
{
    let key = identity(f[i].decl);
    reveal(Seq::filter);
    let p = f.drop_last();
    if i < p.len() {
        assert(identity(f[f.len() - 1].decl) != key);
        assert forall|k: int| 0 <= k < p.len() && k != i implies identity((#[trigger] p[k]).decl)
            != identity(p[i].decl) by {
            assert(p[k] == f[k]);
        }
        lemma_identified_alone(p, i);
    } else {
        assert forall|k: int| 0 <= k < p.len() implies identity((#[trigger] p[k]).decl) != key by {
            assert(p[k] == f[k]);
        }
        lemma_identified_none(p, key);
        assert(identified(f, key) =~= seq![f[i]]);
    }
}

proof fn lemma_identified_none(f: Seq<SymbolTree>, key: Seq<char>)
    requires
        forall|k: int| 0 <= k < f.len() ==> identity((#[trigger] f[k]).decl) != key,
    ensures
        identified(f, key).len() == 0,
    decreases f.len(),
{
    reveal(Seq::filter);
    if f.len() > 0 {
        lemma_identified_none(f.drop_last(), key);
    }
}

/// What holds an entry for an identity holds an entry.
proof fn lemma_entry_found(report: Seq<SymbolDiffTree>, key: Seq<char>, k: int) -> (m: int)
    requires
        0 <= k < entries_for(report, key).len(),
    ensures
        0 <= m < report.len(),
        report[m] == entries_for(report, key)[k],
    decreases report.len(),
{
    reveal(Seq::filter);
    let p = report.drop_last();
    if k < entries_for(p, key).len() {
        lemma_entry_found(p, key, k)
    } else {
        report.len() - 1
    }
}

/// A declaration that reads differently now, and is the only one with its
/// identity on either side, is reported as changed, together with the text that
/// it had.
pub proof fn law_change_reported(old: Seq<SymbolTree>, new: Seq<SymbolTree>, i: int, j: int)
    requires
        stands_alone(old, i),
        stands_alone(new, j),
        identity(old[i].decl) == identity(new[j].decl),
        old[i].decl != new[j].decl,
    ensures
        exists|k: int|
            0 <= k < diff_forest(old, new).len() && (#[trigger] diff_forest(old, new)[k]).decl
                == new[j].decl && diff_forest(old, new)[k].status == Status::Changed(old[i].decl),
{
    let key = identity(old[i].decl);
    lemma_identified_alone(old, i);
    lemma_identified_alone(new, j);
    law_pair_compared(old, new, key);
    let m = lemma_entry_found(diff_forest(old, new), key, 0);
}

proof fn lemma_in_identified(f: Seq<SymbolTree>, i: int) -> (k: int)
    requires
        0 <= i < f.len(),
    ensures
        0 <= k < identified(f, identity(f[i].decl)).len(),
        identified(f, identity(f[i].decl))[k] == f[i],
{
    let key = identity(f[i].decl);
    f.lemma_filter_contains(|t: SymbolTree| identity(t.decl) == key, i);
    let g = identified(f, key);
    assert(g.contains(f[i]));
    choose|k: int| 0 <= k < g.len() && g[k] == f[i]
}

proof fn lemma_from_identified(f: Seq<SymbolTree>, key: Seq<char>, k: int) -> (i: int)
    requires
        0 <= k < identified(f, key).len(),
    ensures
        0 <= i < f.len(),
        f[i] == identified(f, key)[k],
    decreases f.len(),
{
    reveal(Seq::filter);
    let p = f.drop_last();
    if k < identified(p, key).len() {
        lemma_from_identified(p, key, k)
    } else {
        f.len() - 1
    }
}

/// Of those that read as the one at `i`, one is the last.
proof fn lemma_last_of(f: Seq<SymbolTree>, i: int) -> (m: int)
    requires
        0 <= i < f.len(),
    ensures
        reads_last(f, m),
        f[m].decl == f[i].decl,
    decreases f.len() - i,
{
    if reads_last(f, i) {
        i
    } else {
        let k = choose|k: int| i < k < f.len() && (#[trigger] f[k]).decl == f[i].decl;
        lemma_last_of(f, k)
    }
}

proof fn lemma_none_lost(old: Seq<SymbolTree>, new: Seq<SymbolTree>, i: int)
    requires
        diff_forest(old, new).len() == 0,
        0 <= i < old.len(),
    ensures
        reads(new, old[i].decl),
{
    let key = identity(old[i].decl);
    let os = identified(old, key);
    let ns = identified(new, key);
    let r = entries_for(diff_forest(old, new), key);
    reveal(Seq::filter);
    assert(r.len() == 0);
    let k = lemma_in_identified(old, i);
    if ns.len() == 0 {
        law_removed(old, new, key);
    } else {
        let m = if os.len() == 1 && ns.len() == 1 {
            law_pair_compared(old, new, key);
            lemma_from_identified(new, key, 0)
        } else {
            law_overloads_compared(old, new, key);
            let last = lemma_last_of(os, k);
            assert(reads(ns, os[last].decl));
            let j = choose|j: int| 0 <= j < ns.len() && (#[trigger] ns[j]).decl == os[last].decl;
            lemma_from_identified(new, key, j)
        };
        assert(new[m].decl == old[i].decl);
    }
}

proof fn lemma_none_new(old: Seq<SymbolTree>, new: Seq<SymbolTree>, j: int)
    requires
        diff_forest(old, new).len() == 0,
        0 <= j < new.len(),
    ensures
        reads(old, new[j].decl),
{
    let key = identity(new[j].decl);
    let os = identified(old, key);
    let ns = identified(new, key);
    let r = entries_for(diff_forest(old, new), key);
    reveal(Seq::filter);
    assert(r.len() == 0);
    let k = lemma_in_identified(new, j);
    if os.len() == 0 {
        law_added(old, new, key);
    } else {
        let m = if os.len() == 1 && ns.len() == 1 {
            law_pair_compared(old, new, key);
            lemma_from_identified(old, key, 0)
        } else {
            law_overloads_compared(old, new, key);
            let last = lemma_last_of(ns, k);
            assert(reads(os, ns[last].decl));
            let i = choose|i: int| 0 <= i < os.len() && (#[trigger] os[i]).decl == ns[last].decl;
            lemma_from_identified(old, key, i)
        };
        assert(old[m].decl == new[j].decl);
    }
}

/// Where nothing is reported, both lists hold the same texts. Where the
/// identities in each of them are different too, nothing is reported of what is
/// nested in declarations that read the same.
pub proof fn law_nothing_hidden(old: Seq<SymbolTree>, new: Seq<SymbolTree>)
    requires
        diff_forest(old, new).len() == 0,
    ensures
        forall|d: Seq<char>| #[trigger] reads(old, d) <==> reads(new, d),
        forall|i: int, j: int|
            #[trigger] stands_alone(old, i) && #[trigger] stands_alone(new, j) && old[i].decl
                == new[j].decl ==> diff_forest(old[i].members, new[j].members).len() == 0,
{
    assert forall|d: Seq<char>| #[trigger] reads(old, d) <==> reads(new, d) by {
        if reads(old, d) {
            let i = choose|i: int| 0 <= i < old.len() && (#[trigger] old[i]).decl == d;
            lemma_none_lost(old, new, i);
        }
        if reads(new, d) {
            let j = choose|j: int| 0 <= j < new.len() && (#[trigger] new[j]).decl == d;
            lemma_none_new(old, new, j);
        }
    }
    assert forall|i: int, j: int|
        #[trigger] stands_alone(old, i) && #[trigger] stands_alone(new, j) && old[i].decl
            == new[j].decl implies diff_forest(old[i].members, new[j].members).len() == 0 by {
        let key = identity(old[i].decl);
        lemma_identified_alone(old, i);
        lemma_identified_alone(new, j);
        law_pair_compared(old, new, key);
        reveal(Seq::filter);
        assert(entries_for(diff_forest(old, new), key).len() == 0);
    }
}

// Modules and extension groups.

proof fn lemma_named_at<T: Named>(s: Seq<T::V>, i: int)
    requires
        0 <= i < s.len(),
        forall|k: int| i < k < s.len() ==> T::name_in(#[trigger] s[k]) != T::name_in(s[i]),
    ensures
        last_named::<T>(s, T::name_in(s[i])) == Some(s[i]),
    decreases s.len(),
{
    if i < s.len() - 1 {
        assert(T::name_in(s[s.len() - 1]) != T::name_in(s[i]));
        let p = s.drop_last();
        assert forall|k: int| i < k < p.len() implies T::name_in(#[trigger] p[k]) != T::name_in(
            p[i],
        ) by {
            assert(p[k] == s[k]);
        }
        lemma_named_at::<T>(p, i);
    }
}

proof fn lemma_named_none<T: Named>(s: Seq<T::V>, name: Seq<char>)
    requires
        forall|k: int| 0 <= k < s.len() ==> T::name_in(#[trigger] s[k]) != name,
    ensures
        last_named::<T>(s, name) is None,
    decreases s.len(),
{
    if s.len() > 0 {
        lemma_named_none::<T>(s.drop_last(), name);
    }
}

/// Each name that is listed is that of a part.
proof fn lemma_name_listed<T: Named>(old: Seq<T::V>, new: Seq<T::V>, name: Seq<char>)
    requires
        names::<T>(old).contains(name) || names::<T>(new).contains(name),
    ensures
        sorted_distinct(names::<T>(old) + names::<T>(new)).contains(name),
{
    let both = names::<T>(old) + names::<T>(new);
    law_sorted_distinct(both);
    if names::<T>(old).contains(name) {
        let i = choose|i: int| 0 <= i < old.len() && names::<T>(old)[i] == name;
        assert(both[i] == name);
    } else {
        let i = choose|i: int| 0 <= i < new.len() && names::<T>(new)[i] == name;
        assert(both[old.len() + i] == name);
    }
    assert(both.contains(name));
}

proof fn lemma_module_name(old: Seq<ModuleTree>, new: Seq<ModuleTree>, name: Seq<char>)
    ensures
        diff_module_named(old, new, name).len() <= 1,
        diff_module_named(old, new, name).len() == 1 ==> diff_module_named(old, new, name)[0].name
            == name,
{
    lemma_last_named::<ModuleModel>(old, name);
    lemma_last_named::<ModuleModel>(new, name);
}

proof fn lemma_module_entries(
    old: Seq<ModuleTree>,
    new: Seq<ModuleTree>,
    list: Seq<Seq<char>>,
    name: Seq<char>,
)
    requires
        strictly_increasing(list),
    ensures
        ({
            let r = diff_module_list(old, new, list);
            &&& forall|a: int| 0 <= a < r.len() ==> list.contains((#[trigger] r[a]).name)
            &&& forall|a: int, b: int|
                0 <= a < b < r.len() ==> text_order((#[trigger] r[a]).name, (#[trigger] r[b]).name)
                    == Order::Less
            &&& forall|a: int|
                0 <= a < r.len() && (#[trigger] r[a]).name == name ==> diff_module_named(
                    old,
                    new,
                    name,
                ) == seq![r[a]]
            &&& list.contains(name) && diff_module_named(old, new, name).len() > 0 ==> exists|
                a: int,
            |
                0 <= a < r.len() && diff_module_named(old, new, name) == seq![#[trigger] r[a]]
        }),
    decreases list.len(),
{
    let r = diff_module_list(old, new, list);
    if list.len() > 0 {
        let p = list.drop_last();
        let last = list.last();
        let h = diff_module_list(old, new, p);
        let t = diff_module_named(old, new, last);
        assert forall|i: int, j: int| 0 <= i < j < p.len() implies text_order(p[i], p[j])
            == Order::Less by {
            assert(text_order(list[i], list[j]) == Order::Less);
        }
        lemma_module_entries(old, new, p, name);
        lemma_module_name(old, new, last);
        assert forall|a: int| 0 <= a < r.len() implies list.contains((#[trigger] r[a]).name) by {
            if a < h.len() {
                assert(r[a] == h[a]);
                let k = choose|k: int| 0 <= k < p.len() && p[k] == h[a].name;
                assert(list[k] == r[a].name);
            } else {
                assert(list[list.len() - 1] == r[a].name);
            }
        }
        assert forall|a: int, b: int| 0 <= a < b < r.len() implies text_order(
            (#[trigger] r[a]).name,
            (#[trigger] r[b]).name,
        ) == Order::Less by {
            assert(r[a] == h[a]);
            if b < h.len() {
                assert(r[b] == h[b]);
            } else {
                assert(p.contains(h[a].name));
                let k = choose|k: int| 0 <= k < p.len() && p[k] == h[a].name;
                assert(text_order(list[k], list[list.len() - 1]) == Order::Less);
            }
        }
        assert forall|a: int| 0 <= a < r.len() && (#[trigger] r[a]).name == name implies
            diff_module_named(old, new, name) == seq![r[a]] by {
            if a < h.len() {
                assert(r[a] == h[a]);
            } else {
                assert(r[a] == t[0]);
                assert(t =~= seq![r[a]]);
            }
        }
        if list.contains(name) && diff_module_named(old, new, name).len() > 0 {
            if name == last {
                assert(r[h.len() as int] == t[0]);
                assert(t =~= seq![r[h.len() as int]]);
            } else {
                let i = choose|i: int| 0 <= i < list.len() && list[i] == name;
                assert(p[i] == name);
                let a = choose|a: int|
                    0 <= a < h.len() && diff_module_named(old, new, name) == seq![#[trigger] h[a]];
                assert(r[a] == h[a]);
            }
        }
    }
}

/// Whether the module at `i` is the last with its name.
pub open spec fn last_module(f: Seq<ModuleTree>, i: int) -> bool {
    &&& 0 <= i < f.len()
    &&& forall|k: int| i < k < f.len() ==> (#[trigger] f[k]).name != f[i].name
}

/// Whether a list holds no module with a name.
pub open spec fn no_module(f: Seq<ModuleTree>, name: Seq<char>) -> bool {
    forall|k: int| 0 <= k < f.len() ==> (#[trigger] f[k]).name != name
}

/// Whether an entry reports a module and everything in it with one status.
pub open spec fn module_marked(d: ModuleDiffTree, m: ModuleTree, status: Status) -> bool {
    &&& d.name == m.name
    &&& d.status == status
    &&& all_marked(d.symbols, m.symbols, status)
    &&& d.extensions.len() == m.extensions.len()
    &&& forall|i: int|
        0 <= i < m.extensions.len() ==> group_marked(
            d.extensions[i],
            #[trigger] m.extensions[i],
            status,
        )
}

/// Whether an entry reports an extension group and everything in it with one
/// status.
pub open spec fn group_marked(d: ExtensionDiffTree, e: ExtensionTree, status: Status) -> bool {
    &&& d.extended_module == e.extended_module
    &&& d.status == status
    &&& all_marked(d.symbols, e.symbols, status)
}

proof fn lemma_module_marked(m: ModuleTree, status: Status)
    requires
        status is Added || status is Removed,
    ensures
        module_marked(module_as_status(m, status), m, status),
{
    let d = module_as_status(m, status);
    lemma_all_marked(m.symbols, status);
    assert forall|i: int| 0 <= i < m.extensions.len() implies group_marked(
        d.extensions[i],
        #[trigger] m.extensions[i],
        status,
    ) by {
        lemma_all_marked(m.extensions[i].symbols, status);
    }
}

/// Two modules are compared under the name of the new one: as what is neither
/// new nor gone, with the comparisons of their declarations and of their
/// extension groups. Nothing is to be reported where these are empty.
pub proof fn law_pair_of_modules(old: ModuleTree, new: ModuleTree)
    ensures
        ({
            let d = diff_module_pair(old, new);
            &&& d.name == new.name
            &&& d.status is Same
            &&& d.symbols == diff_forest(old.symbols, new.symbols)
            &&& d.extensions == diff_extension_groups(old.extensions, new.extensions)
            &&& d.differs() <==> d.symbols.len() > 0 || d.extensions.len() > 0
        }),
{
}

/// With a status other than those of a module that is new or gone, the module has
/// that status and everything in it is unchanged.
pub proof fn law_module_kept(m: ModuleTree, status: Status)
    requires
        !(status is Added) && !(status is Removed),
    ensures
        ({
            let d = module_as_status(m, status);
            &&& d.status == status
            &&& module_marked(ModuleDiffTree { status: Status::Same, ..d }, m, Status::Same)
        }),
{
    let d = ModuleDiffTree { status: Status::Same, ..module_as_status(m, status) };
    lemma_all_marked(m.symbols, Status::Same);
    assert forall|i: int| 0 <= i < m.extensions.len() implies group_marked(
        d.extensions[i],
        #[trigger] m.extensions[i],
        Status::Same,
    ) by {
        lemma_all_marked(m.extensions[i].symbols, Status::Same);
    }
}

/// A report lists modules by name, each name once and in order.
pub proof fn law_modules_in_order(old: Seq<ModuleTree>, new: Seq<ModuleTree>)
    ensures
        ({
            let r = diff_modules(old, new);
            &&& forall|a: int, b: int|
                0 <= a < b < r.len() ==> text_order((#[trigger] r[a]).name, (#[trigger] r[b]).name)
                    == Order::Less
            &&& forall|a: int|
                0 <= a < r.len() ==> !no_module(old, (#[trigger] r[a]).name) || !no_module(
                    new,
                    r[a].name,
                )
        }),
{
    let r = diff_modules(old, new);
    let both = names::<ModuleModel>(old) + names::<ModuleModel>(new);
    law_sorted_distinct(both);
    lemma_module_entries(old, new, sorted_distinct(both), seq![]);
    assert forall|a: int| 0 <= a < r.len() implies !no_module(old, (#[trigger] r[a]).name)
        || !no_module(new, r[a].name) by {
        assert(both.contains(r[a].name));
        let i = choose|i: int| 0 <= i < both.len() && both[i] == r[a].name;
        if i < old.len() {
            assert(old[i].name == r[a].name);
        } else {
            assert(new[i - old.len()].name == r[a].name);
        }
    }
}

/// A module that is in both snapshots is compared: it is reported if and only
/// if something in it differs, with the comparison of its declarations and that
/// of its extension groups.
pub proof fn law_module_compared(old: Seq<ModuleTree>, new: Seq<ModuleTree>, i: int, j: int)
    requires
        last_module(old, i),
        last_module(new, j),
        old[i].name == new[j].name,
    ensures
        ({
            let r = diff_modules(old, new);
            let symbols = diff_forest(old[i].symbols, new[j].symbols);
            let extensions = diff_extension_groups(old[i].extensions, new[j].extensions);
            &&& symbols.len() > 0 || extensions.len() > 0 ==> r.contains(
                ModuleDiffTree { name: new[j].name, status: Status::Same, symbols, extensions },
            )
            &&& symbols.len() == 0 && extensions.len() == 0 ==> forall|a: int|
                0 <= a < r.len() ==> (#[trigger] r[a]).name != new[j].name
        }),
{
    let name = new[j].name;
    let r = diff_modules(old, new);
    lemma_named_at::<ModuleModel>(old, i);
    lemma_named_at::<ModuleModel>(new, j);
    assert(names::<ModuleModel>(new)[j] == name);
    lemma_name_listed::<ModuleModel>(old, new, name);
    law_sorted_distinct(names::<ModuleModel>(old) + names::<ModuleModel>(new));
    lemma_module_entries(
        old,
        new,
        sorted_distinct(names::<ModuleModel>(old) + names::<ModuleModel>(new)),
        name,
    );
    let symbols = diff_forest(old[i].symbols, new[j].symbols);
    let extensions = diff_extension_groups(old[i].extensions, new[j].extensions);
    let one = diff_module_named(old, new, name);
    if symbols.len() > 0 || extensions.len() > 0 {
        assert(one.len() == 1);
        let a = choose|a: int| 0 <= a < r.len() && one == seq![#[trigger] r[a]];
        assert(one[0] == r[a]);
        assert(r[a] == ModuleDiffTree { name, status: Status::Same, symbols, extensions });
    } else {
        assert(one.len() == 0);
        assert forall|a: int| 0 <= a < r.len() implies (#[trigger] r[a]).name != name by {
            if r[a].name == name {
                assert(seq![r[a]].len() == 1);
            }
        }
    }
}

/// A module that only the old snapshot has is reported as removed, and one that
/// only the new one has as added, with everything in them.
pub proof fn law_module_gone(old: Seq<ModuleTree>, new: Seq<ModuleTree>, i: int)
    ensures
        last_module(old, i) && no_module(new, old[i].name) ==> exists|a: int|
            0 <= a < diff_modules(old, new).len() && #[trigger] module_marked(
                diff_modules(old, new)[a],
                old[i],
                Status::Removed,
            ),
        last_module(new, i) && no_module(old, new[i].name) ==> exists|a: int|
            0 <= a < diff_modules(old, new).len() && #[trigger] module_marked(
                diff_modules(old, new)[a],
                new[i],
                Status::Added,
            ),
{
    let r = diff_modules(old, new);
    law_sorted_distinct(names::<ModuleModel>(old) + names::<ModuleModel>(new));
    let list = sorted_distinct(names::<ModuleModel>(old) + names::<ModuleModel>(new));
    if last_module(old, i) && no_module(new, old[i].name) {
        let name = old[i].name;
        lemma_named_at::<ModuleModel>(old, i);
        lemma_named_none::<ModuleModel>(new, name);
        assert(names::<ModuleModel>(old)[i] == name);
        lemma_name_listed::<ModuleModel>(old, new, name);
        lemma_module_entries(old, new, list, name);
        lemma_module_marked(old[i], Status::Removed);
        let one = diff_module_named(old, new, name);
        let a = choose|a: int| 0 <= a < r.len() && one == seq![#[trigger] r[a]];
        assert(one[0] == r[a]);
        assert(module_marked(r[a], old[i], Status::Removed));
    }
    if last_module(new, i) && no_module(old, new[i].name) {
        let name = new[i].name;
        lemma_named_at::<ModuleModel>(new, i);
        lemma_named_none::<ModuleModel>(old, name);
        assert(names::<ModuleModel>(new)[i] == name);
        lemma_name_listed::<ModuleModel>(old, new, name);
        lemma_module_entries(old, new, list, name);
        lemma_module_marked(new[i], Status::Added);
        let one = diff_module_named(old, new, name);
        let a = choose|a: int| 0 <= a < r.len() && one == seq![#[trigger] r[a]];
        assert(one[0] == r[a]);
        assert(module_marked(r[a], new[i], Status::Added));
    }
}

proof fn lemma_group_name(old: Seq<ExtensionTree>, new: Seq<ExtensionTree>, name: Seq<char>)
    ensures
        diff_extension(old, new, name).len() <= 1,
        diff_extension(old, new, name).len() == 1 ==> diff_extension(
            old,
            new,
            name,
        )[0].extended_module == name,
{
    lemma_last_named::<ExtensionGroup>(old, name);
    lemma_last_named::<ExtensionGroup>(new, name);
}

proof fn lemma_group_entries(
    old: Seq<ExtensionTree>,
    new: Seq<ExtensionTree>,
    list: Seq<Seq<char>>,
    name: Seq<char>,
)
    requires
        strictly_increasing(list),
    ensures
        ({
            let r = diff_extension_list(old, new, list);
            &&& forall|a: int|
                0 <= a < r.len() ==> list.contains((#[trigger] r[a]).extended_module)
            &&& forall|a: int, b: int|
                0 <= a < b < r.len() ==> text_order(
                    (#[trigger] r[a]).extended_module,
                    (#[trigger] r[b]).extended_module,
                ) == Order::Less
            &&& forall|a: int|
                0 <= a < r.len() && (#[trigger] r[a]).extended_module == name ==> diff_extension(
                    old,
                    new,
                    name,
                ) == seq![r[a]]
            &&& list.contains(name) && diff_extension(old, new, name).len() > 0 ==> exists|a: int|
                0 <= a < r.len() && diff_extension(old, new, name) == seq![#[trigger] r[a]]
        }),
    decreases list.len(),
{
    let r = diff_extension_list(old, new, list);
    if list.len() > 0 {
        let p = list.drop_last();
        let last = list.last();
        let h = diff_extension_list(old, new, p);
        let t = diff_extension(old, new, last);
        assert forall|i: int, j: int| 0 <= i < j < p.len() implies text_order(p[i], p[j])
            == Order::Less by {
            assert(text_order(list[i], list[j]) == Order::Less);
        }
        lemma_group_entries(old, new, p, name);
        lemma_group_name(old, new, last);
        assert forall|a: int| 0 <= a < r.len() implies list.contains(
            (#[trigger] r[a]).extended_module,
        ) by {
            if a < h.len() {
                assert(r[a] == h[a]);
                let k = choose|k: int| 0 <= k < p.len() && p[k] == h[a].extended_module;
                assert(list[k] == r[a].extended_module);
            } else {
                assert(list[list.len() - 1] == r[a].extended_module);
            }
        }
        assert forall|a: int, b: int| 0 <= a < b < r.len() implies text_order(
            (#[trigger] r[a]).extended_module,
            (#[trigger] r[b]).extended_module,
        ) == Order::Less by {
            assert(r[a] == h[a]);
            if b < h.len() {
                assert(r[b] == h[b]);
            } else {
                assert(p.contains(h[a].extended_module));
                let k = choose|k: int| 0 <= k < p.len() && p[k] == h[a].extended_module;
                assert(text_order(list[k], list[list.len() - 1]) == Order::Less);
            }
        }
        assert forall|a: int| 0 <= a < r.len() && (#[trigger] r[a]).extended_module == name implies
            diff_extension(old, new, name) == seq![r[a]] by {
            if a < h.len() {
                assert(r[a] == h[a]);
            } else {
                assert(r[a] == t[0]);
                assert(t =~= seq![r[a]]);
            }
        }
        if list.contains(name) && diff_extension(old, new, name).len() > 0 {
            if name == last {
                assert(r[h.len() as int] == t[0]);
                assert(t =~= seq![r[h.len() as int]]);
            } else {
                let i = choose|i: int| 0 <= i < list.len() && list[i] == name;
                assert(p[i] == name);
                let a = choose|a: int|
                    0 <= a < h.len() && diff_extension(old, new, name) == seq![#[trigger] h[a]];
                assert(r[a] == h[a]);
            }
        }
    }
}

/// Whether the group at `i` is the last that extends its module.
pub open spec fn last_group(f: Seq<ExtensionTree>, i: int) -> bool {
    &&& 0 <= i < f.len()
    &&& forall|k: int|
        i < k < f.len() ==> (#[trigger] f[k]).extended_module != f[i].extended_module
}

/// Whether a list holds no group that extends a module.
pub open spec fn no_group(f: Seq<ExtensionTree>, name: Seq<char>) -> bool {
    forall|k: int| 0 <= k < f.len() ==> (#[trigger] f[k]).extended_module != name
}

/// A report lists extension groups by the module that they extend, each of
/// them once and in order.
pub proof fn law_groups_in_order(old: Seq<ExtensionTree>, new: Seq<ExtensionTree>)
    ensures
        ({
            let r = diff_extension_groups(old, new);
            &&& forall|a: int, b: int|
                0 <= a < b < r.len() ==> text_order(
                    (#[trigger] r[a]).extended_module,
                    (#[trigger] r[b]).extended_module,
                ) == Order::Less
            &&& forall|a: int|
                0 <= a < r.len() ==> !no_group(old, (#[trigger] r[a]).extended_module)
                    || !no_group(new, r[a].extended_module)
        }),
{
    let r = diff_extension_groups(old, new);
    let both = names::<ExtensionGroup>(old) + names::<ExtensionGroup>(new);
    law_sorted_distinct(both);
    lemma_group_entries(old, new, sorted_distinct(both), seq![]);
    assert forall|a: int| 0 <= a < r.len() implies !no_group(
        old,
        (#[trigger] r[a]).extended_module,
    ) || !no_group(new, r[a].extended_module) by {
        assert(both.contains(r[a].extended_module));
        let i = choose|i: int| 0 <= i < both.len() && both[i] == r[a].extended_module;
        if i < old.len() {
            assert(old[i].extended_module == r[a].extended_module);
        } else {
            assert(new[i - old.len()].extended_module == r[a].extended_module);
        }
    }
}

/// An extension group that is in both snapshots is compared: it is reported if
/// and only if its declarations differ, with their comparison.
pub proof fn law_group_compared(old: Seq<ExtensionTree>, new: Seq<ExtensionTree>, i: int, j: int)
    requires
        last_group(old, i),
        last_group(new, j),
        old[i].extended_module == new[j].extended_module,
    ensures
        ({
            let r = diff_extension_groups(old, new);
            let symbols = diff_forest(old[i].symbols, new[j].symbols);
            &&& symbols.len() > 0 ==> r.contains(
                ExtensionDiffTree {
                    extended_module: new[j].extended_module,
                    status: Status::Same,
                    symbols,
                },
            )
            &&& symbols.len() == 0 ==> forall|a: int|
                0 <= a < r.len() ==> (#[trigger] r[a]).extended_module != new[j].extended_module
        }),
{
    let name = new[j].extended_module;
    let r = diff_extension_groups(old, new);
    lemma_named_at::<ExtensionGroup>(old, i);
    lemma_named_at::<ExtensionGroup>(new, j);
    assert(names::<ExtensionGroup>(new)[j] == name);
    lemma_name_listed::<ExtensionGroup>(old, new, name);
    law_sorted_distinct(names::<ExtensionGroup>(old) + names::<ExtensionGroup>(new));
    lemma_group_entries(
        old,
        new,
        sorted_distinct(names::<ExtensionGroup>(old) + names::<ExtensionGroup>(new)),
        name,
    );
    let symbols = diff_forest(old[i].symbols, new[j].symbols);
    let one = diff_extension(old, new, name);
    if symbols.len() > 0 {
        assert(one.len() == 1);
        let a = choose|a: int| 0 <= a < r.len() && one == seq![#[trigger] r[a]];
        assert(one[0] == r[a]);
    } else {
        assert(one.len() == 0);
        assert forall|a: int| 0 <= a < r.len() implies (#[trigger] r[a]).extended_module
            != name by {
            if r[a].extended_module == name {
                assert(seq![r[a]].len() == 1);
            }
        }
    }
}

/// An extension group that only the old snapshot has is reported as removed,
/// and one that only the new one has as added, with everything in them.
pub proof fn law_group_gone(old: Seq<ExtensionTree>, new: Seq<ExtensionTree>, i: int)
    ensures
        last_group(old, i) && no_group(new, old[i].extended_module) ==> exists|a: int|
            0 <= a < diff_extension_groups(old, new).len() && #[trigger] group_marked(
                diff_extension_groups(old, new)[a],
                old[i],
                Status::Removed,
            ),
        last_group(new, i) && no_group(old, new[i].extended_module) ==> exists|a: int|
            0 <= a < diff_extension_groups(old, new).len() && #[trigger] group_marked(
                diff_extension_groups(old, new)[a],
                new[i],
                Status::Added,
            ),
{
    let r = diff_extension_groups(old, new);
    law_sorted_distinct(names::<ExtensionGroup>(old) + names::<ExtensionGroup>(new));
    let list = sorted_distinct(names::<ExtensionGroup>(old) + names::<ExtensionGroup>(new));
    if last_group(old, i) && no_group(new, old[i].extended_module) {
        let name = old[i].extended_module;
        lemma_named_at::<ExtensionGroup>(old, i);
        lemma_named_none::<ExtensionGroup>(new, name);
        assert(names::<ExtensionGroup>(old)[i] == name);
        lemma_name_listed::<ExtensionGroup>(old, new, name);
        lemma_group_entries(old, new, list, name);
        lemma_all_marked(old[i].symbols, Status::Removed);
        let one = diff_extension(old, new, name);
        let a = choose|a: int| 0 <= a < r.len() && one == seq![#[trigger] r[a]];
        assert(one[0] == r[a]);
        assert(group_marked(r[a], old[i], Status::Removed));
    }
    if last_group(new, i) && no_group(old, new[i].extended_module) {
        let name = new[i].extended_module;
        lemma_named_at::<ExtensionGroup>(new, i);
        lemma_named_none::<ExtensionGroup>(old, name);
        assert(names::<ExtensionGroup>(new)[i] == name);
        lemma_name_listed::<ExtensionGroup>(old, new, name);
        lemma_group_entries(old, new, list, name);
        lemma_all_marked(new[i].symbols, Status::Added);
        let one = diff_extension(old, new, name);
        let a = choose|a: int| 0 <= a < r.len() && one == seq![#[trigger] r[a]];
        assert(one[0] == r[a]);
        assert(group_marked(r[a], new[i], Status::Added));
    }
}

} // verus!
