//! Which symbol graph files make up a module.

use vstd::prelude::*;
use vstd::slice::slice_subrange;

use crate::graph::{ext_graph_to_nodes, graph_to_nodes};
use crate::model::{
    ExtensionGroup, ExtensionTree, ModuleModel, ModuleTree, PackageModel, PackageTree,
};
use crate::order::{law_stable_sort, sort, stable_sort, views};
use crate::symbols::{GraphData, SymbolGraph};
use crate::text::{
    chars_of, ends_with, first_match, lemma_first_match_is, position, same_chars, same_text,
    string_of, strings, Pattern,
};
use crate::textmap::{sorted_distinct, TextMap};

verus! {

/// Whether a file name is that of a symbol graph.
pub open spec fn symbols_name(name: Seq<char>) -> bool {
    ".symbols.json"@.is_suffix_of(name)
}

/// Whether a file name is that of a symbol graph.
pub fn is_symbols_file(name: &str) -> (r: bool)
    ensures
        r == symbols_name(name@),
{
    let name = chars_of(name);
    let suffix = chars_of(".symbols.json");
    ends_with(name.as_slice(), suffix.as_slice())
}

/// A file name without its symbol graph suffix, as often as that stands there.
pub open spec fn stem(name: Seq<char>) -> Seq<char>
    decreases name.len(),
{
    if symbols_name(name) && ".symbols.json"@.len() > 0 {
        stem(name.take(name.len() - ".symbols.json"@.len()))
    } else {
        name
    }
}

/// What a symbol graph file is to a module.
#[derive(Debug)]
pub enum FileRole {
    /// The graph of the module itself.
    Own,
    /// The graph of what the module adds to the module with the given name.
    Extension(String),
    /// Nothing.
    Other,
}

/// What a `FileRole` stands for.
pub enum Role {
    Own,
    Extension(Seq<char>),
    Other,
}

impl View for FileRole {
    type V = Role;

    open spec fn view(&self) -> Role {
        match self {
            FileRole::Own => Role::Own,
            FileRole::Extension(name) => Role::Extension(name@),
            FileRole::Other => Role::Other,
        }
    }
}

/// What a file is to a module, by its name: `<module>.symbols.json` is the
/// graph of the module, and `<module>@<other>.symbols.json` that of what it
/// adds to another module.
pub open spec fn role_of(name: Seq<char>, module: Seq<char>) -> Role {
    let s = stem(name);
    let at = first_match(s, Pattern::Char('@')) as int;
    if !symbols_name(name) {
        Role::Other
    } else if at < s.len() {
        if s.take(at) == module {
            Role::Extension(s.skip(at + 1))
        } else {
            Role::Other
        }
    } else if s == module {
        Role::Own
    } else {
        Role::Other
    }
}

/// A file name without its symbol graph suffix.
fn stem_of(name: &[char]) -> (r: &[char])
    ensures
        r@ == stem(name@),
{
    let suffix = chars_of(".symbols.json");
    let mut rest = name;
    while suffix.len() > 0 && ends_with(rest, suffix.as_slice())
        invariant
            suffix@ == ".symbols.json"@,
            stem(rest@) == stem(name@),
        decreases rest@.len(),
    {
        let ghost whole = rest@;
        rest = slice_subrange(rest, 0, rest.len() - suffix.len());
        assert(rest@ =~= whole.take(whole.len() - suffix@.len()));
    }
    rest
}

/// What a file is to a module.
pub fn file_role(name: &str, module: &str) -> (r: FileRole)
    ensures
        r@ == role_of(name@, module@),
{
    if !is_symbols_file(name) {
        return FileRole::Other;
    }
    let name = chars_of(name);
    let s = stem_of(name.as_slice());
    let wanted = chars_of(module);
    let at = position(s, Pattern::Char('@'));
    if at < s.len() {
        let left = slice_subrange(s, 0, at);
        assert(left@ =~= s@.take(at as int));
        if same_chars(left, wanted.as_slice()) {
            let right = slice_subrange(s, at + 1, s.len());
            assert(right@ =~= s@.skip(at as int + 1));
            return FileRole::Extension(string_of(right));
        }
        FileRole::Other
    } else if same_chars(s, wanted.as_slice()) {
        FileRole::Own
    } else {
        FileRole::Other
    }
}

/// A symbol graph and the name of the file that it was read from.
#[derive(Debug)]
pub struct GraphFile {
    pub name: String,
    pub graph: SymbolGraph,
}

/// The graph of the module itself: that of the last such file.
pub open spec fn own_graph(files: Seq<GraphFile>, module: Seq<char>) -> Option<GraphData>
    decreases files.len(),
{
    if files.len() == 0 {
        None
    } else if role_of(files.last().name@, module) is Own {
        Some(files.last().graph@)
    } else {
        own_graph(files.drop_last(), module)
    }
}

/// The graph of what the module adds to another: that of the last such file.
pub open spec fn extension_graph(
    files: Seq<GraphFile>,
    module: Seq<char>,
    other: Seq<char>,
) -> Option<GraphData>
    decreases files.len(),
{
    if files.len() == 0 {
        None
    } else if role_of(files.last().name@, module) == Role::Extension(other) {
        Some(files.last().graph@)
    } else {
        extension_graph(files.drop_last(), module, other)
    }
}

/// The modules that a module extends, in the order of the files.
pub open spec fn extended_modules(files: Seq<GraphFile>, module: Seq<char>) -> Seq<Seq<char>>
    decreases files.len(),
{
    if files.len() == 0 {
        seq![]
    } else {
        match role_of(files.last().name@, module) {
            Role::Extension(other) => extended_modules(files.drop_last(), module).push(other),
            _ => extended_modules(files.drop_last(), module),
        }
    }
}

proof fn lemma_extension_graph(files: Seq<GraphFile>, module: Seq<char>, other: Seq<char>)
    ensures
        extension_graph(files, module, other) is Some <==> extended_modules(files, module).contains(
            other,
        ),
    decreases files.len(),
{
    if files.len() > 0 {
        let p = files.drop_last();
        lemma_extension_graph(p, module, other);
        let a = extended_modules(p, module);
        let b = extended_modules(files, module);
        if a.contains(other) {
            let i = choose|i: int| 0 <= i < a.len() && a[i] == other;
            assert(b[i] == other);
        }
        if b.contains(other) && !a.contains(other) {
            let i = choose|i: int| 0 <= i < b.len() && b[i] == other;
            if i < a.len() {
                assert(a[i] == other);
            }
        }
        if role_of(files.last().name@, module) == Role::Extension(other) {
            assert(b[b.len() - 1] == other);
        }
    }
}

/// The places of the files that make up a module.
fn sort_out(module: &str, files: &Vec<GraphFile>) -> (r: (Option<usize>, TextMap<usize>))
    ensures
        match r.0 {
            Some(i) => i < files@.len() && own_graph(files@, module@) == Some(
                files@[i as int].graph@,
            ),
            None => own_graph(files@, module@) is None,
        },
        r.1.wf(),
        r.1.key_list() == sorted_distinct(extended_modules(files@, module@)),
        forall|k: Seq<char>|
            r.1@.dom().contains(k) ==> (#[trigger] r.1@[k]) < files@.len() && extension_graph(
                files@,
                module@,
                k,
            ) == Some(files@[r.1@[k] as int].graph@),
{
    let mut own: Option<usize> = None;
    let mut exts: TextMap<usize> = TextMap::new();
    for i in 0..files.len()
        invariant
            match own {
                Some(j) => j < i && own_graph(files@.take(i as int), module@) == Some(
                    files@[j as int].graph@,
                ),
                None => own_graph(files@.take(i as int), module@) is None,
            },
            exts.wf(),
            forall|k: Seq<char>| #[trigger]
                exts@.dom().contains(k) <==> extension_graph(files@.take(i as int), module@, k)
                    is Some,
            forall|k: Seq<char>|
                exts@.dom().contains(k) ==> (#[trigger] exts@[k]) < i && extension_graph(
                    files@.take(i as int),
                    module@,
                    k,
                ) == Some(files@[exts@[k] as int].graph@),
    {
        proof {
            assert(files@.take(i as int + 1).drop_last() =~= files@.take(i as int));
            assert(files@.take(i as int + 1).last() == files@[i as int]);
        }
        match file_role(files[i].name.as_str(), module) {
            FileRole::Own => {
                own = Some(i);
            },
            FileRole::Extension(other) => {
                exts.insert(other, i);
            },
            FileRole::Other => {},
        }
    }
    proof {
        assert(files@.take(files@.len() as int) =~= files@);
        assert forall|k: Seq<char>| #[trigger]
            exts@.dom().contains(k) <==> extended_modules(files@, module@).contains(k) by {
            lemma_extension_graph(files@, module@, k);
        }
        exts.lemma_keys_are(extended_modules(files@, module@));
    }
    (own, exts)
}

/// Whether an extension group holds the trees of what a module adds to the
/// module with the given name.
pub open spec fn is_group(
    e: ExtensionTree,
    files: Seq<GraphFile>,
    module: Seq<char>,
    other: Seq<char>,
) -> bool {
    &&& e.extended_module == other
    &&& match extension_graph(files, module, other) {
        Some(g) => g.are_extension_trees(e.symbols),
        None => false,
    }
}

/// Whether a tree is the model of a module, from the symbol graph files of a
/// package: the trees of its own graph, and for each module that it extends,
/// in the order of their names, the trees of what it adds to it.
pub open spec fn is_module(m: ModuleTree, files: Seq<GraphFile>, module: Seq<char>) -> bool {
    let others = sorted_distinct(extended_modules(files, module));
    &&& m.name == module
    &&& match own_graph(files, module) {
        Some(g) => g.are_trees(m.symbols, g.roots()),
        None => m.symbols.len() == 0,
    }
    &&& m.extensions.len() == others.len()
    &&& forall|i: int|
        0 <= i < m.extensions.len() ==> is_group(
            #[trigger] m.extensions[i],
            files,
            module,
            others[i],
        )
}

/// The model of a module, from the symbol graph files of a package.
pub fn build_module_model(module: &str, files: &Vec<GraphFile>) -> (r: ModuleModel)
    ensures
        is_module(r@, files@, module@),
{
    let (own, exts) = sort_out(module, files);
    let symbols = match own {
        Some(i) => graph_to_nodes(&files[i].graph),
        None => Vec::new(),
    };
    let mut extensions: Vec<ExtensionGroup> = Vec::new();
    let ghost names = sorted_distinct(extended_modules(files@, module@));
    let n = exts.len();
    for i in 0..n
        invariant
            n == names.len(),
            names == sorted_distinct(extended_modules(files@, module@)),
            exts.wf(),
            exts.key_list() == names,
            forall|k: Seq<char>|
                exts@.dom().contains(k) ==> (#[trigger] exts@[k]) < files@.len() && extension_graph(
                    files@,
                    module@,
                    k,
                ) == Some(files@[exts@[k] as int].graph@),
            extensions@.len() == i,
            forall|j: int|
                0 <= j < i ==> is_group((#[trigger] extensions@[j])@, files@, module@, names[j]),
    {
        let at = *exts.value_at(i);
        let group = ExtensionGroup {
            extended_module: exts.key_at(i).clone(),
            symbols: ext_graph_to_nodes(&files[at].graph),
        };
        assert(is_group(group@, files@, module@, names[i as int]));
        extensions.push(group);
    }
    ModuleModel { name: module.to_string(), symbols, extensions }
}

/// Whether a tree is the model of a package, from its targets and its symbol
/// graph files: the models of its modules, in the order of their names.
pub open spec fn is_package(
    p: PackageTree,
    package: Seq<char>,
    access_level: Seq<char>,
    targets: Seq<Seq<char>>,
    files: Seq<GraphFile>,
) -> bool {
    &&& p.package == package
    &&& p.access_level == access_level
    &&& p.modules.len() == targets.len()
    &&& forall|i: int|
        0 <= i < p.modules.len() ==> is_module(
            #[trigger] p.modules[i],
            files,
            stable_sort::<String>(targets)[i],
        )
}

/// The model of a package: the models of its modules, in the order of their
/// names.
pub fn build_package_model(
    package: &str,
    access_level: &str,
    targets: &Vec<String>,
    files: &Vec<GraphFile>,
) -> (r: PackageModel)
    ensures
        r@.package == package@,
        r@.access_level == access_level@,
        r@.modules.len() == targets@.len(),
        forall|i: int|
            0 <= i < r@.modules.len() ==> is_module(
                #[trigger] r@.modules[i],
                files@,
                stable_sort::<String>(strings(targets@))[i],
            ),
        is_package(r@, package@, access_level@, strings(targets@), files@),
{
    let mut names: Vec<String> = Vec::new();
    for i in 0..targets.len()
        invariant
            strings(names@) == strings(targets@).take(i as int),
    {
        let ghost before = names@;
        names.push(targets[i].clone());
        assert(strings(names@) =~= strings(before).push(targets@[i as int]@));
        assert(strings(targets@).take(i as int + 1) =~= strings(targets@).take(i as int).push(
            targets@[i as int]@,
        ));
    }
    assert(strings(targets@).take(targets@.len() as int) =~= strings(targets@));
    assert(views(names@) =~= strings(targets@));
    sort(&mut names);
    let ghost sorted = stable_sort::<String>(strings(targets@));
    proof {
        law_stable_sort::<String>(strings(targets@));
    }
    let mut modules: Vec<ModuleModel> = Vec::new();
    for i in 0..names.len()
        invariant
            views(names@) == sorted,
            modules@.len() == i,
            forall|j: int|
                0 <= j < i ==> is_module((#[trigger] modules@[j])@, files@, sorted[j]),
    {
        assert(sorted[i as int] == names@[i as int]@);
        modules.push(build_module_model(names[i].as_str(), files));
    }
    PackageModel { package: package.to_string(), access_level: access_level.to_string(), modules }
}

/// Whether a file below the build directory is a symbol graph to be read: by
/// its name, and by a directory `symbolgraph` on the way to it.
pub open spec fn wanted_file(name: Option<Seq<char>>, components: Seq<Seq<char>>) -> bool {
    &&& name matches Some(n) && symbols_name(n)
    &&& components.contains("symbolgraph"@)
}

/// Whether a file below the build directory is a symbol graph to be read.
/// `name` is the name of the file, where that is Unicode, and `components`
/// are the components of its path.
pub fn is_wanted_file(name: Option<&str>, components: &Vec<String>) -> (r: bool)
    ensures
        r == wanted_file(
            match name {
                Some(n) => Some(n@),
                None => None,
            },
            strings(components@),
        ),
{
    let ghost cs = strings(components@);
    let is_symbols = match name {
        Some(n) => is_symbols_file(n),
        None => false,
    };
    if !is_symbols {
        return false;
    }
    for i in 0..components.len()
        invariant
            is_symbols,
            is_symbols == (name matches Some(n) && symbols_name(n@)),
            cs == strings(components@),
            forall|j: int| 0 <= j < i ==> #[trigger] cs[j] != "symbolgraph"@,
    {
        if same_text(components[i].as_str(), "symbolgraph") {
            assert(cs[i as int] == "symbolgraph"@);
            return true;
        }
    }
    false
}


proof fn lemma_stem(s: Seq<char>)
    requires
        !symbols_name(s),
    ensures
        symbols_name(s + ".symbols.json"@),
        stem(s + ".symbols.json"@) == s,
{
    reveal_strlit(".symbols.json");
    let suffix = ".symbols.json"@;
    let name = s + suffix;
    assert(suffix =~= name.subrange(name.len() - suffix.len(), name.len() as int));
    assert(name.take(name.len() - suffix.len()) =~= s);
    reveal_with_fuel(stem, 2);
}

/// The file `<module>.symbols.json` holds the graph of the module, and
/// `<module>@<other>.symbols.json` what it adds to the other module. The name
/// of a module holds no `@`, and neither name ends in `.symbols.json`.
pub proof fn law_file_names(module: Seq<char>, other: Seq<char>)
    requires
        !module.contains('@'),
        !symbols_name(module),
        !symbols_name(other),
    ensures
        role_of(module + ".symbols.json"@, module) == Role::Own,
        role_of(module + "@"@ + other + ".symbols.json"@, module) == Role::Extension(other),
{
    let at = Pattern::Char('@');
    reveal_strlit("@");
    reveal_strlit(".symbols.json");
    lemma_stem(module);
    assert forall|i: int| 0 <= i < module.len() implies !at.admits(#[trigger] module[i]) by {
        assert(module.contains(module[i]));
    }
    lemma_first_match_is(module, at, module.len() as int);
    let both = module + "@"@ + other;
    let suffix = ".symbols.json"@;
    if symbols_name(both) {
        let n = both.len() - suffix.len();
        if other.len() < suffix.len() {
            assert(both[module.len() as int] == '@');
            assert(both.subrange(n, both.len() as int)[module.len() - n] == '@');
        } else {
            assert(other.subrange(other.len() - suffix.len(), other.len() as int)
                =~= both.subrange(n, both.len() as int));
        }
    }
    lemma_stem(both);
    assert forall|i: int| 0 <= i < module.len() implies !at.admits(#[trigger] both[i]) by {
        assert(both[i] == module[i]);
    }
    lemma_first_match_is(both, at, module.len() as int);
    assert(both.take(module.len() as int) =~= module);
    assert(both.skip(module.len() as int + 1) =~= other);
}

/// The suffix of a file name counts once, however often it stands there.
pub proof fn law_suffix_repeated(name: Seq<char>, module: Seq<char>)
    ensures
        role_of(name + ".symbols.json"@ + ".symbols.json"@, module) == role_of(
            name + ".symbols.json"@,
            module,
        ),
{
    reveal_strlit(".symbols.json");
    let suffix = ".symbols.json"@;
    let once = name + suffix;
    let twice = once + suffix;
    assert(suffix =~= once.subrange(once.len() - suffix.len(), once.len() as int));
    assert(suffix =~= twice.subrange(twice.len() - suffix.len(), twice.len() as int));
    assert(twice.take(twice.len() - suffix.len()) =~= once);
    assert(stem(twice) == stem(once));
}

} // verus!
