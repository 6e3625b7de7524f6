//! That additions break nothing.

use vstd::prelude::*;

use crate::command::exit_code_for;
use crate::diff::{
    all_as_status, as_status, diff_extension, diff_extension_groups, diff_forest, diff_module_named,
    diff_modules, identities, last_named, last_reading, lemma_last_named, lemma_with_identity,
    module_as_status, names, paired, with_identity,
};
use crate::diff_laws::{
    gone, law_entries, law_partners, lemma_from_extension, lemma_from_module, partners,
};
use crate::identity::identity;
use crate::model::{ExtensionGroup, ExtensionTree, ModuleModel, ModuleTree, SymbolTree};
use crate::report::{any_breaks, report_breaks, ExtensionDiffTree, Status};
use crate::textmap::sorted_distinct;

verus! {

/// Whether a declaration reads as before, and its members have grown.
pub open spec fn tree_grown(old: SymbolTree, new: SymbolTree) -> bool
    decreases new,
{
    old.decl == new.decl && forest_grown(old.members, new.members, identities(old.members))
}

/// Whether a list of declarations arises from another by growth of its
/// declarations and by insertions anywhere in it. The identity of what is
/// inserted is not in `taken`.
pub open spec fn forest_grown(
    old: Seq<SymbolTree>,
    new: Seq<SymbolTree>,
    taken: Seq<Seq<char>>,
) -> bool
    decreases new,
{
    if new.len() == 0 {
        old.len() == 0
    } else {
        ||| old.len() > 0 && tree_grown(old.last(), new.last()) && forest_grown(
            old.drop_last(),
            new.drop_last(),
            taken,
        )
        ||| !taken.contains(identity(new.last().decl)) && forest_grown(old, new.drop_last(), taken)
    }
}

/// Whether an extension group has grown.
pub open spec fn group_grown(old: ExtensionTree, new: ExtensionTree) -> bool {
    old.extended_module == new.extended_module && forest_grown(
        old.symbols,
        new.symbols,
        identities(old.symbols),
    )
}

/// Whether a list of extension groups arises from another by growth of its
/// groups and by insertions anywhere in it. What is inserted extends a module
/// that is not in `taken`.
pub open spec fn groups_grown(
    old: Seq<ExtensionTree>,
    new: Seq<ExtensionTree>,
    taken: Seq<Seq<char>>,
) -> bool
    decreases new.len(),
{
    if new.len() == 0 {
        old.len() == 0
    } else {
        ||| old.len() > 0 && group_grown(old.last(), new.last()) && groups_grown(
            old.drop_last(),
            new.drop_last(),
            taken,
        )
        ||| !taken.contains(new.last().extended_module) && groups_grown(
            old,
            new.drop_last(),
            taken,
        )
    }
}

/// Whether a module has grown.
pub open spec fn module_grown(old: ModuleTree, new: ModuleTree) -> bool {
    &&& old.name == new.name
    &&& forest_grown(old.symbols, new.symbols, identities(old.symbols))
    &&& groups_grown(old.extensions, new.extensions, names::<ExtensionGroup>(old.extensions))
}

/// Whether a list of modules arises from another by growth of its modules and
/// by insertions anywhere in it. The name of what is inserted is not in
/// `taken`.
pub open spec fn modules_grown(
    old: Seq<ModuleTree>,
    new: Seq<ModuleTree>,
    taken: Seq<Seq<char>>,
) -> bool
    decreases new.len(),
{
    if new.len() == 0 {
        old.len() == 0
    } else {
        ||| old.len() > 0 && module_grown(old.last(), new.last()) && modules_grown(
            old.drop_last(),
            new.drop_last(),
            taken,
        )
        ||| !taken.contains(new.last().name) && modules_grown(old, new.drop_last(), taken)
    }
}

/// Whether a package arises from another by insertions alone: of modules,
/// extension groups and declarations with names and identities that were not
/// there.
pub open spec fn package_grown(old: Seq<ModuleTree>, new: Seq<ModuleTree>) -> bool {
    modules_grown(old, new, names::<ModuleModel>(old))
}

/// The declarations with an identity that is taken have grown one by one.
proof fn lemma_group_grown(
    old: Seq<SymbolTree>,
    new: Seq<SymbolTree>,
    taken: Seq<Seq<char>>,
    key: Seq<char>,
)
    requires
        forest_grown(old, new, taken),
        taken.contains(key),
    ensures
        with_identity(old, key).len() == with_identity(new, key).len(),
        forall|i: int|
            0 <= i < with_identity(old, key).len() ==> tree_grown(
                #[trigger] with_identity(old, key)[i],
                with_identity(new, key)[i],
            ),
    decreases new.len(),
{
    if new.len() > 0 {
        let q = new.drop_last();
        if old.len() > 0 && tree_grown(old.last(), new.last()) && forest_grown(
            old.drop_last(),
            q,
            taken,
        ) {
            lemma_group_grown(old.drop_last(), q, taken, key);
        } else {
            lemma_group_grown(old, q, taken, key);
        }
    }
}

/// Where declarations have grown one by one, so have the last that read the
/// same.
proof fn lemma_reading_grown(os: Seq<SymbolTree>, ns: Seq<SymbolTree>, d: Seq<char>)
    requires
        os.len() == ns.len(),
        forall|i: int| 0 <= i < os.len() ==> tree_grown(#[trigger] os[i], ns[i]),
    ensures
        match (last_reading(os, d), last_reading(ns, d)) {
            (Some(o), Some(n)) => tree_grown(o, n),
            (None, None) => true,
            _ => false,
        },
    decreases os.len(),
{
    if os.len() > 0 {
        assert(tree_grown(os[os.len() - 1], ns[os.len() - 1]));
        let p = os.drop_last();
        let q = ns.drop_last();
        assert forall|i: int| 0 <= i < p.len() implies tree_grown(#[trigger] p[i], q[i]) by {
            assert(tree_grown(os[i], ns[i]));
        }
        lemma_reading_grown(p, q, d);
    }
}

proof fn lemma_added_harmless(t: SymbolTree)
    ensures
        !as_status(t, Status::Added).breaks(),
    decreases t,
{
    let r = as_status(t, Status::Added);
    assert forall|i: int| 0 <= i < r.members.len() implies !(#[trigger] r.members[i]).breaks() by {
        lemma_added_harmless(t.members[i]);
    }
}

proof fn lemma_all_added_harmless(f: Seq<SymbolTree>)
    ensures
        !any_breaks(all_as_status(f, Status::Added)),
{
    assert forall|i: int| 0 <= i < f.len() implies !(
    #[trigger] all_as_status(f, Status::Added)[i]).breaks() by {
        lemma_added_harmless(f[i]);
    }
}

proof fn lemma_identity_taken(f: Seq<SymbolTree>, t: SymbolTree)
    requires
        f.contains(t),
    ensures
        identities(f).contains(identity(t.decl)),
{
    let i = choose|i: int| 0 <= i < f.len() && f[i] == t;
    assert(identities(f)[i] == identity(t.decl));
}

/// Growth of a list of declarations breaks nothing.
pub proof fn law_growth_harmless(old: Seq<SymbolTree>, new: Seq<SymbolTree>)
    requires
        forest_grown(old, new, identities(old)),
    ensures
        !any_breaks(diff_forest(old, new)),
    decreases old,
{
    let all = diff_forest(old, new);
    assert forall|i: int| 0 <= i < all.len() implies !(#[trigger] all[i]).breaks() by {
        let entry = all[i];
        assert(all.contains(entry));
        law_entries(old, new, entry);
        match entry.status {
            Status::Added => {
                let n = choose|n: SymbolTree|
                    #[trigger] gone(new, old, n) && entry == as_status(n, Status::Added);
                lemma_added_harmless(n);
            },
            Status::Removed => {
                let o = choose|o: SymbolTree|
                    #[trigger] gone(old, new, o) && entry == as_status(o, Status::Removed);
                law_partners(old, new, o, o);
                lemma_identity_taken(old, o);
                lemma_group_grown(old, new, identities(old), identity(o.decl));
                lemma_with_identity(old, identity(o.decl));
                lemma_reading_grown(
                    with_identity(old, identity(o.decl)),
                    with_identity(new, identity(o.decl)),
                    o.decl,
                );
            },
            _ => {
                let (o, n) = choose|o: SymbolTree, n: SymbolTree|
                    #[trigger] partners(old, new, o, n) && paired(
                        o,
                        n,
                        diff_forest(o.members, n.members),
                    ) == seq![entry];
                law_partners(old, new, o, n);
                let key = identity(o.decl);
                let os = with_identity(old, key);
                let ns = with_identity(new, key);
                lemma_identity_taken(old, o);
                lemma_group_grown(old, new, identities(old), key);
                lemma_reading_grown(os, ns, o.decl);
                if os.len() == 1 && ns.len() == 1 {
                    assert(tree_grown(os[0], ns[0]));
                }
                assert(tree_grown(o, n));
                let j = choose|j: int| 0 <= j < old.len() && old[j] == o;
                assert(decreases_to!(old => old[j]));
                assert(decreases_to!(old[j] => old[j].members));
                law_growth_harmless(o.members, n.members);
                assert(seq![entry][0] == entry);
            },
        }
    }
}

proof fn lemma_last_group_grown(
    old: Seq<ExtensionTree>,
    new: Seq<ExtensionTree>,
    taken: Seq<Seq<char>>,
    name: Seq<char>,
)
    requires
        groups_grown(old, new, taken),
        taken.contains(name),
    ensures
        match (last_named::<ExtensionGroup>(old, name), last_named::<ExtensionGroup>(new, name)) {
            (Some(o), Some(n)) => group_grown(o, n),
            (None, None) => true,
            _ => false,
        },
    decreases new.len(),
{
    if new.len() > 0 {
        let q = new.drop_last();
        if old.len() > 0 && group_grown(old.last(), new.last()) && groups_grown(
            old.drop_last(),
            q,
            taken,
        ) {
            lemma_last_group_grown(old.drop_last(), q, taken, name);
        } else {
            lemma_last_group_grown(old, q, taken, name);
        }
    }
}

proof fn lemma_last_module_grown(
    old: Seq<ModuleTree>,
    new: Seq<ModuleTree>,
    taken: Seq<Seq<char>>,
    name: Seq<char>,
)
    requires
        modules_grown(old, new, taken),
        taken.contains(name),
    ensures
        match (last_named::<ModuleModel>(old, name), last_named::<ModuleModel>(new, name)) {
            (Some(o), Some(n)) => module_grown(o, n),
            (None, None) => true,
            _ => false,
        },
    decreases new.len(),
{
    if new.len() > 0 {
        let q = new.drop_last();
        if old.len() > 0 && module_grown(old.last(), new.last()) && modules_grown(
            old.drop_last(),
            q,
            taken,
        ) {
            lemma_last_module_grown(old.drop_last(), q, taken, name);
        } else {
            lemma_last_module_grown(old, q, taken, name);
        }
    }
}

proof fn lemma_groups_harmless(
    old: Seq<ExtensionTree>,
    new: Seq<ExtensionTree>,
    e: ExtensionDiffTree,
)
    requires
        groups_grown(old, new, names::<ExtensionGroup>(old)),
        diff_extension_groups(old, new).contains(e),
    ensures
        !e.breaks(),
{
    let taken = names::<ExtensionGroup>(old);
    let name = lemma_from_extension(
        old,
        new,
        sorted_distinct(taken + names::<ExtensionGroup>(new)),
        e,
    );
    assert(diff_extension(old, new, name)[0] == e);
    lemma_last_named::<ExtensionGroup>(old, name);
    if taken.contains(name) {
        lemma_last_group_grown(old, new, taken, name);
    }
    match (last_named::<ExtensionGroup>(old, name), last_named::<ExtensionGroup>(new, name)) {
        (Some(o), Some(n)) => {
            law_growth_harmless(o.symbols, n.symbols);
        },
        (None, Some(n)) => {
            lemma_all_added_harmless(n.symbols);
        },
        _ => {},
    }
}

proof fn lemma_added_module_harmless(m: ModuleTree)
    ensures
        !module_as_status(m, Status::Added).breaks(),
{
    let r = module_as_status(m, Status::Added);
    lemma_all_added_harmless(m.symbols);
    assert forall|i: int| 0 <= i < r.extensions.len() implies !(
    #[trigger] r.extensions[i]).breaks() by {
        lemma_all_added_harmless(m.extensions[i].symbols);
    }
}

/// Where a package arises from another by insertions alone, wherever they
/// stand, the report holds nothing that breaks users of the old API, and the
/// comparison passes if additions are accepted.
pub proof fn law_additions_harmless(old: Seq<ModuleTree>, new: Seq<ModuleTree>)
    requires
        package_grown(old, new),
    ensures
        !report_breaks(diff_modules(old, new)),
        exit_code_for(diff_modules(old, new), true) == 0,
{
    let all = diff_modules(old, new);
    let taken = names::<ModuleModel>(old);
    assert forall|i: int| 0 <= i < all.len() implies !(#[trigger] all[i]).breaks() by {
        let m = all[i];
        assert(all.contains(m));
        let name = lemma_from_module(
            old,
            new,
            sorted_distinct(taken + names::<ModuleModel>(new)),
            m,
        );
        assert(diff_module_named(old, new, name)[0] == m);
        lemma_last_named::<ModuleModel>(old, name);
        if taken.contains(name) {
            lemma_last_module_grown(old, new, taken, name);
        }
        match (last_named::<ModuleModel>(old, name), last_named::<ModuleModel>(new, name)) {
            (Some(o), Some(n)) => {
                law_growth_harmless(o.symbols, n.symbols);
                assert forall|j: int| 0 <= j < m.extensions.len() implies !(
                #[trigger] m.extensions[j]).breaks() by {
                    assert(m.extensions.contains(m.extensions[j]));
                    lemma_groups_harmless(o.extensions, n.extensions, m.extensions[j]);
                }
            },
            (None, Some(n)) => {
                lemma_added_module_harmless(n);
            },
            _ => {},
        }
    }
}

} // verus!
