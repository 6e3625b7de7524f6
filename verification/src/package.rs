//! What `swift package describe` says of a package, and which of its targets
//! are documented.

use vstd::hash_map::StringHashMap;
use vstd::prelude::*;

use crate::order::views;
use crate::text::{same_text, strings};
use crate::textmap::lemma_take_contains;

verus! {

/// A JSON value. Its contents are not visible here, except through
/// `object_keys`.
#[verifier::external_type_specification]
#[verifier::external_body]
pub struct ExValue(serde_json::Value);

/// A JSON object. Its contents are not visible here, except through
/// `map_keys`.
#[verifier::external_type_specification]
#[verifier::external_body]
#[verifier::reject_recursive_types(K)]
#[verifier::reject_recursive_types(V)]
pub struct ExMap<K, V>(serde_json::Map<K, V>);

/// The keys of a JSON object.
pub uninterp spec fn map_keys(m: serde_json::Map<String, serde_json::Value>) -> Set<Seq<char>>;

/// The keys of a JSON value that is an object; `None` for any other value.
pub uninterp spec fn object_keys(v: serde_json::Value) -> Option<Set<Seq<char>>>;

/// `serde_json::Value::as_object` gives the object that a value is, and
/// `None` where it is none.
pub assume_specification[ serde_json::Value::as_object ](v: &serde_json::Value) -> (r: Option<
    &serde_json::Map<String, serde_json::Value>,
>)
    ensures
        match r {
            Some(m) => object_keys(*v) == Some(map_keys(*m)),
            None => object_keys(*v) is None,
        },
;

/// `serde_json::Map::contains_key` tells whether an object has a key.
#[verifier::external_body]
fn contains_key(m: &serde_json::Map<String, serde_json::Value>, key: &str) -> (r: bool)
    ensures
        r == map_keys(*m).contains(key@),
{
    m.contains_key(key)
}

/// A package: its targets, and the products that it offers.
#[derive(Debug)]
pub struct PackageDescription {
    pub name: String,
    pub targets: Vec<TargetDescription>,
    pub products: Vec<ProductDescription>,
}

/// A target of a package.
#[derive(Debug)]
pub struct TargetDescription {
    pub name: String,
    pub kind: String,
    pub module_type: Option<String>,
}

/// A product of a package, and the targets that it is made of.
#[derive(Debug)]
pub struct ProductDescription {
    pub name: String,
    pub kind: serde_json::Value,
    pub targets: Vec<String>,
}

/// What a `TargetDescription` stands for.
pub struct Target {
    pub name: Seq<char>,
    pub kind: Seq<char>,
    pub module_type: Option<Seq<char>>,
}

impl View for TargetDescription {
    type V = Target;

    open spec fn view(&self) -> Target {
        Target {
            name: self.name@,
            kind: self.kind@,
            module_type: match self.module_type {
                Some(t) => Some(t@),
                None => None,
            },
        }
    }
}

/// Whether a product kind is that of a library: an object with the key `library`.
pub open spec fn library_kind(kind: serde_json::Value) -> bool {
    match object_keys(kind) {
        Some(keys) => keys.contains("library"@),
        None => false,
    }
}

/// The targets of the library products.
pub open spec fn exposed_targets(products: Seq<ProductDescription>) -> Seq<Seq<char>>
    decreases products.len(),
{
    if products.len() == 0 {
        seq![]
    } else if library_kind(products.last().kind) {
        exposed_targets(products.drop_last()) + strings(products.last().targets@)
    } else {
        exposed_targets(products.drop_last())
    }
}

/// Whether a target is a Swift library that a product exposes. A target that
/// does not say what it is written in is taken to be Swift.
pub open spec fn documented(t: Target, exposed: Seq<Seq<char>>) -> bool {
    &&& exposed.contains(t.name)
    &&& t.kind == "library"@
    &&& match t.module_type {
        Some(m) => m == "SwiftTarget"@,
        None => true,
    }
}

/// The names of the targets that are documented, in their order.
pub open spec fn documented_names(t: Seq<Target>, exposed: Seq<Seq<char>>) -> Seq<Seq<char>>
    decreases t.len(),
{
    if t.len() == 0 {
        seq![]
    } else if documented(t.last(), exposed) {
        documented_names(t.drop_last(), exposed).push(t.last().name)
    } else {
        documented_names(t.drop_last(), exposed)
    }
}

impl ProductDescription {
    /// Whether the product is a library.
    pub fn is_library(&self) -> (r: bool)
        ensures
            r == library_kind(self.kind),
    {
        match self.kind.as_object() {
            Some(o) => contains_key(o, "library"),
            None => false,
        }
    }
}

/// The targets of the library products.
fn collect_exposed(products: &Vec<ProductDescription>) -> (r: Vec<String>)
    ensures
        strings(r@) == exposed_targets(products@),
{
    let mut out: Vec<String> = Vec::new();
    assert(strings(out@) =~= exposed_targets(products@.take(0)));
    for i in 0..products.len()
        invariant
            strings(out@) == exposed_targets(products@.take(i as int)),
    {
        let p = &products[i];
        let ghost before = strings(out@);
        assert(products@.take(i as int + 1).drop_last() =~= products@.take(i as int));
        if p.is_library() {
            let ghost ts = strings(p.targets@);
            assert(before =~= before + ts.take(0));
            for j in 0..p.targets.len()
                invariant
                    ts == strings(p.targets@),
                    strings(out@) == before + ts.take(j as int),
            {
                let ghost now = out@;
                let name = p.targets[j].clone();
                out.push(name);
                assert(strings(out@) =~= strings(now).push(name@));
                assert(ts.take(j as int + 1) =~= ts.take(j as int).push(name@));
            }
            assert(ts.take(p.targets@.len() as int) =~= ts);
        }
    }
    assert(products@.take(products@.len() as int) =~= products@);
    out
}

/// The names of the targets that are documented, given the names of those
/// that products expose.
pub fn select_targets(targets: &Vec<TargetDescription>, exposed: &Vec<String>) -> (r: Vec<String>)
    ensures
        strings(r@) == documented_names(views(targets@), strings(exposed@)),
{
    let mut names: StringHashMap<bool> = StringHashMap::new();
    let ghost ex = strings(exposed@);
    for i in 0..exposed.len()
        invariant
            ex == strings(exposed@),
            forall|k: Seq<char>| #[trigger]
                names@.dom().contains(k) <==> ex.take(i as int).contains(k),
    {
        names.insert(exposed[i].clone(), true);
        proof {
            lemma_take_contains(ex, i as int);
        }
    }
    assert(ex.take(exposed@.len() as int) =~= ex);
    let mut out: Vec<String> = Vec::new();
    let ghost ts = views(targets@);
    assert(strings(out@) =~= documented_names(ts.take(0), ex));
    for i in 0..targets.len()
        invariant
            ex == strings(exposed@),
            ts == views(targets@),
            forall|k: Seq<char>| #[trigger] names@.dom().contains(k) <==> ex.contains(k),
            strings(out@) == documented_names(ts.take(i as int), ex),
    {
        let t = &targets[i];
        let ghost before = out@;
        assert(ts.take(i as int + 1).drop_last() =~= ts.take(i as int));
        let swift = match &t.module_type {
            Some(m) => same_text(m.as_str(), "SwiftTarget"),
            None => true,
        };
        if names.contains_key(t.name.as_str()) && same_text(t.kind.as_str(), "library") && swift {
            out.push(t.name.clone());
            assert(strings(out@) =~= strings(before).push(t.name@));
        }
    }
    assert(ts.take(targets@.len() as int) =~= ts);
    out
}

/// The names of the Swift library targets that the library products expose.
pub fn library_target_names(desc: &PackageDescription) -> (r: Vec<String>)
    ensures
        strings(r@) == documented_names(views(desc.targets@), exposed_targets(desc.products@)),
{
    select_targets(&desc.targets, &collect_exposed(&desc.products))
}

/// A target is documented if and only if it is a Swift library and a library
/// product lists it.
pub proof fn law_documented(
    targets: Seq<Target>,
    products: Seq<ProductDescription>,
    name: Seq<char>,
)
    ensures
        documented_names(targets, exposed_targets(products)).contains(name) <==> (exists|i: int|
            0 <= i < targets.len() && (#[trigger] targets[i]).name == name && documented(
                targets[i],
                exposed_targets(products),
            )),
        exposed_targets(products).contains(name) <==> (exists|i: int|
            0 <= i < products.len() && library_kind((#[trigger] products[i]).kind) && strings(
                products[i].targets@,
            ).contains(name)),
{
    lemma_documented(targets, exposed_targets(products), name);
    lemma_exposed(products, name);
}

proof fn lemma_documented(targets: Seq<Target>, exposed: Seq<Seq<char>>, name: Seq<char>)
    ensures
        documented_names(targets, exposed).contains(name) <==> (exists|i: int|
            0 <= i < targets.len() && (#[trigger] targets[i]).name == name && documented(
                targets[i],
                exposed,
            )),
    decreases targets.len(),
{
    if targets.len() > 0 {
        let p = targets.drop_last();
        let a = documented_names(p, exposed);
        let b = documented_names(targets, exposed);
        lemma_documented(p, exposed, name);
        if a.contains(name) {
            let i = choose|i: int|
                0 <= i < p.len() && (#[trigger] p[i]).name == name && documented(p[i], exposed);
            assert(targets[i].name == name);
            let k = choose|k: int| 0 <= k < a.len() && a[k] == name;
            assert(b[k] == name);
        }
        if documented(targets.last(), exposed) {
            assert(b[a.len() as int] == targets.last().name);
            assert(targets[targets.len() - 1] == targets.last());
        }
        if exists|i: int|
            0 <= i < targets.len() && (#[trigger] targets[i]).name == name && documented(
                targets[i],
                exposed,
            ) {
            let i = choose|i: int|
                0 <= i < targets.len() && (#[trigger] targets[i]).name == name && documented(
                    targets[i],
                    exposed,
                );
            if i < p.len() {
                assert(p[i].name == name);
            }
        }
    }
}

proof fn lemma_exposed(products: Seq<ProductDescription>, name: Seq<char>)
    ensures
        exposed_targets(products).contains(name) <==> (exists|i: int|
            0 <= i < products.len() && library_kind((#[trigger] products[i]).kind) && strings(
                products[i].targets@,
            ).contains(name)),
    decreases products.len(),
{
    if products.len() > 0 {
        let p = products.drop_last();
        let last = products.last();
        let t = strings(last.targets@);
        let a = exposed_targets(p);
        let b = exposed_targets(products);
        lemma_exposed(p, name);
        if a.contains(name) {
            let i = choose|i: int|
                0 <= i < p.len() && library_kind((#[trigger] p[i]).kind) && strings(
                    p[i].targets@,
                ).contains(name);
            assert(products[i] == p[i]);
            let k = choose|k: int| 0 <= k < a.len() && a[k] == name;
            assert(b[k] == name);
        }
        if library_kind(last.kind) && t.contains(name) {
            let k = choose|k: int| 0 <= k < t.len() && t[k] == name;
            assert(b[a.len() + k] == name);
            assert(products[products.len() - 1] == last);
        }
        if b.contains(name) && !a.contains(name) {
            let k = choose|k: int| 0 <= k < b.len() && b[k] == name;
            if k < a.len() {
                assert(a[k] == name);
            }
            assert(t[k - a.len()] == name);
        }
        if exists|i: int|
            0 <= i < products.len() && library_kind((#[trigger] products[i]).kind) && strings(
                products[i].targets@,
            ).contains(name) {
            let i = choose|i: int|
                0 <= i < products.len() && library_kind((#[trigger] products[i]).kind) && strings(
                    products[i].targets@,
                ).contains(name);
            if i < p.len() {
                assert(p[i] == products[i]);
            }
        }
    }
}

} // verus!
