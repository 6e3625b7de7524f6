//! Which targets and which files make up a package, in terms of its
//! description and of the names of the files.

use vstd::prelude::*;

use crate::model::{ModuleTree, PackageTree};
use crate::module_files::{
    extended_modules, extension_graph, is_group, is_module, is_package, law_file_names, own_graph,
    role_of, stem, symbols_name, wanted_file, GraphFile, Role,
};
use crate::order::{law_stable_sort, stable_sort, text_order, Order, Ranked};
use crate::package::{
    documented, documented_names, exposed_targets, law_documented, library_kind, object_keys,
    ProductDescription, Target,
};
use crate::text::{first_match, lemma_first_match, strings, Pattern};
use crate::textmap::{law_sorted_distinct, sorted_distinct, strictly_increasing};

verus! {

/// Whether a product is a library that lists a target: its kind is an object
/// with the key `library`.
pub open spec fn lists_target(p: ProductDescription, name: Seq<char>) -> bool {
    &&& object_keys(p.kind) matches Some(keys) && keys.contains("library"@)
    &&& exists|j: int| 0 <= j < p.targets@.len() && (#[trigger] p.targets@[j])@ == name
}

/// Whether a target is a library written in Swift, as far as it says.
pub open spec fn swift_library(t: Target) -> bool {
    t.kind == "library"@ && (t.module_type is None || t.module_type == Some("SwiftTarget"@))
}

proof fn lemma_lists_target(p: ProductDescription, name: Seq<char>)
    ensures
        lists_target(p, name) <==> library_kind(p.kind) && strings(p.targets@).contains(name),
{
    let t = strings(p.targets@);
    if t.contains(name) {
        let j = choose|j: int| 0 <= j < t.len() && t[j] == name;
        assert(p.targets@[j]@ == name);
    }
    if exists|j: int| 0 <= j < p.targets@.len() && (#[trigger] p.targets@[j])@ == name {
        let j = choose|j: int| 0 <= j < p.targets@.len() && (#[trigger] p.targets@[j])@ == name;
        assert(t[j] == name);
    }
}

/// The targets of a package that are documented are its Swift libraries that a
/// library product lists, and no others.
pub proof fn law_targets_documented(
    targets: Seq<Target>,
    products: Seq<ProductDescription>,
    name: Seq<char>,
)
    ensures
        documented_names(targets, exposed_targets(products)).contains(name) <==> (exists|i: int|
            0 <= i < targets.len() && (#[trigger] targets[i]).name == name && swift_library(
                targets[i],
            )) && (exists|k: int|
            0 <= k < products.len() && lists_target(#[trigger] products[k], name)),
{
    let exposed = exposed_targets(products);
    law_documented(targets, products, name);
    if exposed.contains(name) {
        let k = choose|k: int|
            0 <= k < products.len() && library_kind((#[trigger] products[k]).kind) && strings(
                products[k].targets@,
            ).contains(name);
        lemma_lists_target(products[k], name);
    }
    if exists|k: int| 0 <= k < products.len() && lists_target(#[trigger] products[k], name) {
        let k = choose|k: int|
            0 <= k < products.len() && lists_target(#[trigger] products[k], name);
        lemma_lists_target(products[k], name);
        assert(library_kind(products[k].kind));
    }
    if exists|i: int|
        0 <= i < targets.len() && (#[trigger] targets[i]).name == name && documented(
            targets[i],
            exposed,
        ) {
        let i = choose|i: int|
            0 <= i < targets.len() && (#[trigger] targets[i]).name == name && documented(
                targets[i],
                exposed,
            );
        assert(swift_library(targets[i]));
    }
    if exposed.contains(name) && exists|i: int|
        0 <= i < targets.len() && (#[trigger] targets[i]).name == name && swift_library(
            targets[i],
        ) {
        let i = choose|i: int|
            0 <= i < targets.len() && (#[trigger] targets[i]).name == name && swift_library(
                targets[i],
            );
        assert(documented(targets[i], exposed));
    }
}

/// Targets are documented in their order, and each of them as often as it is
/// there.
pub proof fn law_target_appended(targets: Seq<Target>, x: Target, exposed: Seq<Seq<char>>)
    ensures
        documented_names(Seq::<Target>::empty(), exposed).len() == 0,
        exposed.contains(x.name) && swift_library(x) ==> documented_names(targets.push(x), exposed)
            == documented_names(targets, exposed).push(x.name),
        !(exposed.contains(x.name) && swift_library(x)) ==> documented_names(
            targets.push(x),
            exposed,
        ) == documented_names(targets, exposed),
{
    assert(targets.push(x).drop_last() =~= targets);
}

// File names.

proof fn lemma_stem_is_front(name: Seq<char>)
    requires
        symbols_name(name),
    ensures
        (stem(name) + ".symbols.json"@).is_prefix_of(name),
        !symbols_name(stem(name)),
    decreases name.len(),
{
    reveal_strlit(".symbols.json");
    let suffix = ".symbols.json"@;
    let n = name.len() - suffix.len();
    let front = name.take(n);
    assert(suffix =~= name.subrange(n, name.len() as int));
    assert(name =~= front + suffix);
    if symbols_name(front) {
        lemma_stem_is_front(front);
        let p = stem(front) + suffix;
        assert(p =~= front.subrange(0, p.len() as int));
        assert(p =~= name.subrange(0, p.len() as int));
    } else {
        assert(stem(front) == front);
        assert(front + suffix =~= name.subrange(0, name.len() as int));
    }
}

/// A file is the graph of a module only if its name is that of the module, a dot
/// and more, and the graph of what it adds to another only if its name is that
/// of the module, an at sign, that of the other, a dot and more. The name ends in
/// `.symbols.json` then.
pub proof fn law_role_in_name(name: Seq<char>, module: Seq<char>)
    ensures
        match role_of(name, module) {
            Role::Own => (module + "."@).is_prefix_of(name) && ".symbols.json"@.is_suffix_of(name),
            Role::Extension(other) => (module + "@"@ + other + "."@).is_prefix_of(name)
                && ".symbols.json"@.is_suffix_of(name),
            Role::Other => true,
        },
{
    if symbols_name(name) {
        reveal_strlit(".symbols.json");
        reveal_strlit(".");
        reveal_strlit("@");
        lemma_stem_is_front(name);
        let s = stem(name);
        let whole = s + ".symbols.json"@;
        assert(whole =~= name.subrange(0, whole.len() as int));
        let at = first_match(s, Pattern::Char('@')) as int;
        lemma_first_match(s, Pattern::Char('@'));
        if at < s.len() {
            let other = s.skip(at + 1);
            assert(s =~= s.take(at) + "@"@ + other);
        }
        let dotted = s + "."@;
        assert(dotted =~= name.subrange(0, dotted.len() as int)) by {
            assert forall|i: int| 0 <= i < dotted.len() implies dotted[i] == name[i] by {
                assert(whole[i] == name[i]);
            }
        }
        match role_of(name, module) {
            Role::Own => {
                assert(module + "."@ == dotted);
            },
            Role::Extension(other) => {
                assert(module + "@"@ + other + "."@ == dotted);
            },
            Role::Other => {},
        }
    }
}

/// A file whose name does not end in `.symbols.json` is nothing to any module,
/// and the files of one module are nothing to another.
pub proof fn law_other_files(name: Seq<char>, module: Seq<char>, other: Seq<char>, to: Seq<char>)
    requires
        !other.contains('@'),
        other != module,
        !".symbols.json"@.is_suffix_of(other),
        !".symbols.json"@.is_suffix_of(to),
    ensures
        !".symbols.json"@.is_suffix_of(name) ==> role_of(name, module) == Role::Other,
        role_of(other + ".symbols.json"@, module) == Role::Other,
        role_of(other + "@"@ + to + ".symbols.json"@, module) == Role::Other,
{
    law_file_names(other, to);
    let a = other + ".symbols.json"@;
    let b = other + "@"@ + to + ".symbols.json"@;
    assert(role_of(a, other) == Role::Own);
    assert(role_of(b, other) == Role::Extension(to));
}

// The model of a module.

proof fn lemma_own_graph(files: Seq<GraphFile>, module: Seq<char>, i: int)
    requires
        0 <= i < files.len(),
        role_of(files[i].name@, module) is Own,
        forall|k: int|
            i < k < files.len() ==> !(role_of((#[trigger] files[k]).name@, module) is Own),
    ensures
        own_graph(files, module) == Some(files[i].graph@),
    decreases files.len(),
{
    if i < files.len() - 1 {
        assert(!(role_of(files[files.len() - 1].name@, module) is Own));
        let p = files.drop_last();
        assert forall|k: int| i < k < p.len() implies !(role_of((#[trigger] p[k]).name@, module)
            is Own) by {
            assert(p[k] == files[k]);
        }
        lemma_own_graph(p, module, i);
    }
}

proof fn lemma_no_graph(files: Seq<GraphFile>, module: Seq<char>)
    requires
        forall|k: int|
            0 <= k < files.len() ==> !(role_of((#[trigger] files[k]).name@, module) is Own),
    ensures
        own_graph(files, module) is None,
    decreases files.len(),
{
    if files.len() > 0 {
        lemma_no_graph(files.drop_last(), module);
    }
}

/// The declarations of a module are the trees of the symbols in the file
/// `<module>.symbols.json`; of several such files, the last one counts. Where
/// there is none, there are no declarations.
pub proof fn law_module_from_file(
    m: ModuleTree,
    files: Seq<GraphFile>,
    module: Seq<char>,
    i: int,
)
    requires
        is_module(m, files, module),
        !module.contains('@'),
        !".symbols.json"@.is_suffix_of(module),
    ensures
        m.name == module,
        0 <= i < files.len() && files[i].name@ == module + ".symbols.json"@ && (forall|k: int|
            i < k < files.len() ==> !(module + "."@).is_prefix_of((#[trigger] files[k]).name@))
            ==> files[i].graph@.are_trees(m.symbols, files[i].graph@.roots()),
        (forall|k: int|
            0 <= k < files.len() ==> !(module + "."@).is_prefix_of((#[trigger] files[k]).name@))
            ==> m.symbols.len() == 0,
{
    assert forall|k: int|
        0 <= k < files.len() && !(module + "."@).is_prefix_of((#[trigger] files[k]).name@) implies
        !(role_of(files[k].name@, module) is Own) by {
        law_role_in_name(files[k].name@, module);
    }
    if 0 <= i < files.len() && files[i].name@ == module + ".symbols.json"@ && (forall|k: int|
        i < k < files.len() ==> !(module + "."@).is_prefix_of((#[trigger] files[k]).name@)) {
        lemma_empty_no_suffix();
        law_file_names(module, seq![]);
        lemma_own_graph(files, module, i);
    }
    if forall|k: int|
        0 <= k < files.len() ==> !(module + "."@).is_prefix_of((#[trigger] files[k]).name@) {
        lemma_no_graph(files, module);
    }
}

proof fn lemma_empty_no_suffix()
    ensures
        !symbols_name(Seq::<char>::empty()),
{
    reveal_strlit(".symbols.json");
}

proof fn lemma_extension_file(files: Seq<GraphFile>, module: Seq<char>, other: Seq<char>, i: int)
    requires
        0 <= i < files.len(),
        role_of(files[i].name@, module) == Role::Extension(other),
        forall|k: int|
            i < k < files.len() ==> role_of((#[trigger] files[k]).name@, module)
                != Role::Extension(other),
    ensures
        extension_graph(files, module, other) == Some(files[i].graph@),
    decreases files.len(),
{
    if i < files.len() - 1 {
        assert(role_of(files[files.len() - 1].name@, module) != Role::Extension(other));
        let p = files.drop_last();
        assert forall|k: int| i < k < p.len() implies role_of((#[trigger] p[k]).name@, module)
            != Role::Extension(other) by {
            assert(p[k] == files[k]);
        }
        lemma_extension_file(p, module, other, i);
    }
}

proof fn lemma_extended(files: Seq<GraphFile>, module: Seq<char>, other: Seq<char>)
    ensures
        extended_modules(files, module).contains(other) <==> exists|i: int|
            0 <= i < files.len() && role_of((#[trigger] files[i]).name@, module)
                == Role::Extension(other),
    decreases files.len(),
{
    if files.len() > 0 {
        let p = files.drop_last();
        let a = extended_modules(p, module);
        let b = extended_modules(files, module);
        lemma_extended(p, module, other);
        if a.contains(other) {
            let i = choose|i: int| 0 <= i < a.len() && a[i] == other;
            assert(b[i] == other);
            let k = choose|k: int|
                0 <= k < p.len() && role_of((#[trigger] p[k]).name@, module) == Role::Extension(
                    other,
                );
            assert(files[k] == p[k]);
        }
        if b.contains(other) && !a.contains(other) {
            let i = choose|i: int| 0 <= i < b.len() && b[i] == other;
            if i < a.len() {
                assert(a[i] == other);
            }
            assert(role_of(files[files.len() - 1].name@, module) == Role::Extension(other));
        }
        if exists|i: int|
            0 <= i < files.len() && role_of((#[trigger] files[i]).name@, module)
                == Role::Extension(other) {
            let i = choose|i: int|
                0 <= i < files.len() && role_of((#[trigger] files[i]).name@, module)
                    == Role::Extension(other);
            if i < p.len() {
                assert(p[i] == files[i]);
            } else {
                assert(b[b.len() - 1] == other);
            }
        }
    }
}

/// What a module adds to another is the trees of the symbols in the file
/// `<module>@<other>.symbols.json`; of several such files, the last one counts.
pub proof fn law_group_from_file(
    m: ModuleTree,
    files: Seq<GraphFile>,
    module: Seq<char>,
    other: Seq<char>,
    i: int,
)
    requires
        is_module(m, files, module),
        !module.contains('@'),
        !".symbols.json"@.is_suffix_of(module),
        !".symbols.json"@.is_suffix_of(other),
        0 <= i < files.len(),
        files[i].name@ == module + "@"@ + other + ".symbols.json"@,
        forall|k: int|
            i < k < files.len() ==> !(module + "@"@ + other + "."@).is_prefix_of(
                (#[trigger] files[k]).name@,
            ),
    ensures
        exists|e: int|
            0 <= e < m.extensions.len() && (#[trigger] m.extensions[e]).extended_module == other
                && files[i].graph@.are_extension_trees(m.extensions[e].symbols),
{
    law_file_names(module, other);
    assert forall|k: int| i < k < files.len() implies role_of((#[trigger] files[k]).name@, module)
        != Role::Extension(other) by {
        law_role_in_name(files[k].name@, module);
    }
    lemma_extension_file(files, module, other, i);
    lemma_extended(files, module, other);
    let all = extended_modules(files, module);
    law_sorted_distinct(all);
    let names = sorted_distinct(all);
    assert(names.contains(other));
    let e = choose|e: int| 0 <= e < names.len() && names[e] == other;
    assert(is_group(m.extensions[e], files, module, names[e]));
}

/// The extension groups of a module stand in the order of the modules that they
/// extend, one for each of them, and there is a file for each.
pub proof fn law_groups_have_files(
    m: ModuleTree,
    files: Seq<GraphFile>,
    module: Seq<char>,
    a: int,
    b: int,
)
    requires
        is_module(m, files, module),
        0 <= a < m.extensions.len(),
    ensures
        exists|i: int|
            0 <= i < files.len() && (module + "@"@ + m.extensions[a].extended_module
                + "."@).is_prefix_of((#[trigger] files[i]).name@)
                && ".symbols.json"@.is_suffix_of(files[i].name@),
        a < b < m.extensions.len() ==> text_order(
            m.extensions[a].extended_module,
            m.extensions[b].extended_module,
        ) == Order::Less,
{
    let all = extended_modules(files, module);
    law_sorted_distinct(all);
    let names = sorted_distinct(all);
    assert(is_group(m.extensions[a], files, module, names[a]));
    assert(names.contains(names[a]));
    lemma_extended(files, module, names[a]);
    let i = choose|i: int|
        0 <= i < files.len() && role_of((#[trigger] files[i]).name@, module) == Role::Extension(
            names[a],
        );
    law_role_in_name(files[i].name@, module);
    if a < b < m.extensions.len() {
        assert(is_group(m.extensions[b], files, module, names[b]));
        assert(strictly_increasing(names));
    }
}

/// A file is read if its name ends in `.symbols.json` and one of the directories
/// on the way to it is named `symbolgraph`, and only then.
pub proof fn law_files_read(name: Seq<char>, before: Seq<Seq<char>>, after: Seq<Seq<char>>)
    ensures
        wanted_file(Some(name + ".symbols.json"@), before + seq!["symbolgraph"@] + after),
        !".symbols.json"@.is_suffix_of(name) ==> !wanted_file(Some(name), before),
        !before.contains("symbolgraph"@) ==> !wanted_file(Some(name), before),
        !wanted_file(None, before),
{
    let suffix = ".symbols.json"@;
    let whole = name + suffix;
    assert(suffix =~= whole.subrange(whole.len() - suffix.len(), whole.len() as int));
    let path = before + seq!["symbolgraph"@] + after;
    assert(path[before.len() as int] == "symbolgraph"@);
    assert(path.contains("symbolgraph"@));
}

/// A package has one module for each of its targets, in the order of their names,
/// whatever order the targets come in.
pub proof fn law_modules_of_package(
    p: PackageTree,
    package: Seq<char>,
    access_level: Seq<char>,
    targets: Seq<Seq<char>>,
    files: Seq<GraphFile>,
)
    requires
        is_package(p, package, access_level, targets, files),
    ensures
        p.package == package,
        p.access_level == access_level,
        p.modules.map_values(|m: ModuleTree| m.name).to_multiset() == targets.to_multiset(),
        forall|i: int, j: int|
            0 <= i < j < p.modules.len() ==> text_order(
                (#[trigger] p.modules[i]).name,
                (#[trigger] p.modules[j]).name,
            ) != Order::Greater,
        forall|i: int|
            0 <= i < p.modules.len() ==> is_module(
                #[trigger] p.modules[i],
                files,
                p.modules[i].name,
            ),
{
    let sorted = stable_sort::<String>(targets);
    law_stable_sort::<String>(targets);
    assert(p.modules.map_values(|m: ModuleTree| m.name) =~= sorted);
    assert forall|i: int, j: int| 0 <= i < j < p.modules.len() implies text_order(
        (#[trigger] p.modules[i]).name,
        (#[trigger] p.modules[j]).name,
    ) != Order::Greater by {
        assert(<String as Ranked>::order(sorted[i], sorted[j]) != Order::Greater);
    }
}

} // verus!
