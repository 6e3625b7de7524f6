//! Comparison of two snapshots of a package API.
//!
//! Modules and extension groups are paired by name, declarations by their
//! identity within the same scope. A declaration that is paired and reads
//! otherwise is changed; one that finds no partner was added or removed.

use vstd::prelude::*;

use crate::identity::{identity, identity_key};
use crate::model::{
    ExtensionGroup, ExtensionTree, ModuleModel, ModuleTree, PackageModel, SymbolNode, SymbolTree,
};
use crate::order::views;
use crate::report::{
    DiffReport, ExtensionDiff, ExtensionDiffTree, ModuleDiff, ModuleDiffTree, NodeStatus, Status,
    SymbolDiff, SymbolDiffTree,
};
use crate::text::{same_text, strings};
use crate::textmap::{
    law_sorted_distinct, lemma_increasing_unique, merged_keys, sorted_distinct, strictly_increasing,
    TextMap,
};

verus! {

/// A declaration and all those nested in it, with one status.
pub open spec fn as_status(t: SymbolTree, status: Status) -> SymbolDiffTree
    decreases t,
{
    SymbolDiffTree {
        decl: t.decl,
        status,
        members: Seq::new(
            t.members.len(),
            |i: int|
                if 0 <= i < t.members.len() {
                    as_status(t.members[i], status)
                } else {
                    arbitrary()
                },
        ),
    }
}

/// Declarations and all those nested in them, with one status.
pub open spec fn all_as_status(f: Seq<SymbolTree>, status: Status) -> Seq<SymbolDiffTree> {
    Seq::new(f.len(), |i: int| as_status(f[i], status))
}

/// The declarations with the identity `key`, in their order.
pub open spec fn with_identity(f: Seq<SymbolTree>, key: Seq<char>) -> Seq<SymbolTree>
    decreases f.len(),
{
    if f.len() == 0 {
        f
    } else {
        let rest = with_identity(f.drop_last(), key);
        if identity(f.last().decl) == key {
            rest.push(f.last())
        } else {
            rest
        }
    }
}

/// The identities of declarations, in their order.
pub open spec fn identities(f: Seq<SymbolTree>) -> Seq<Seq<char>> {
    Seq::new(f.len(), |i: int| identity(f[i].decl))
}

/// The texts of declarations, in their order.
pub open spec fn decls(f: Seq<SymbolTree>) -> Seq<Seq<char>> {
    Seq::new(f.len(), |i: int| f[i].decl)
}

/// The last declaration that reads `decl`.
pub open spec fn last_reading(f: Seq<SymbolTree>, decl: Seq<char>) -> Option<SymbolTree>
    decreases f.len(),
{
    if f.len() == 0 {
        None
    } else if f.last().decl == decl {
        Some(f.last())
    } else {
        last_reading(f.drop_last(), decl)
    }
}

pub proof fn lemma_with_identity(f: Seq<SymbolTree>, key: Seq<char>)
    ensures
        forall|j: int|
            0 <= j < with_identity(f, key).len() ==> f.contains(#[trigger] with_identity(f, key)[j])
                && identity(with_identity(f, key)[j].decl) == key,
        with_identity(f, key).len() > 0 <==> identities(f).contains(key),
    decreases f.len(),
{
    if f.len() > 0 {
        let p = f.drop_last();
        lemma_with_identity(p, key);
        assert forall|j: int| 0 <= j < with_identity(f, key).len() implies f.contains(
            #[trigger] with_identity(f, key)[j],
        ) && identity(with_identity(f, key)[j].decl) == key by {
            if j < with_identity(p, key).len() {
                let t = with_identity(p, key)[j];
                let i = choose|i: int| 0 <= i < p.len() && p[i] == t;
                assert(f[i] == t);
            } else {
                assert(f[f.len() - 1] == f.last());
            }
        }
        if identities(p).contains(key) {
            let i = choose|i: int| 0 <= i < p.len() && identities(p)[i] == key;
            assert(identities(f)[i] == key);
        }
        if identities(f).contains(key) {
            let i = choose|i: int| 0 <= i < f.len() && identities(f)[i] == key;
            if i < p.len() {
                assert(identities(p)[i] == key);
            }
        }
        assert(identities(f)[f.len() - 1] == identity(f.last().decl));
    }
}

pub proof fn lemma_last_reading(f: Seq<SymbolTree>, decl: Seq<char>)
    ensures
        match last_reading(f, decl) {
            Some(t) => f.contains(t) && t.decl == decl && decls(f).contains(decl),
            None => !decls(f).contains(decl),
        },
    decreases f.len(),
{
    if f.len() > 0 {
        let p = f.drop_last();
        lemma_last_reading(p, decl);
        assert(f[f.len() - 1] == f.last());
        assert(decls(f)[f.len() - 1] == f.last().decl);
        if f.last().decl != decl {
            match last_reading(p, decl) {
                Some(t) => {
                    let i = choose|i: int| 0 <= i < p.len() && p[i] == t;
                    assert(f[i] == t);
                    assert(decls(f)[i] == decl);
                },
                None => {
                    if decls(f).contains(decl) {
                        let i = choose|i: int| 0 <= i < f.len() && decls(f)[i] == decl;
                        assert(decls(p)[i] == decl);
                    }
                },
            }
        }
    }
}

/// The report on a declaration that is in both snapshots: nothing where
/// neither it nor anything in it differs.
pub open spec fn paired(
    old: SymbolTree,
    new: SymbolTree,
    members: Seq<SymbolDiffTree>,
) -> Seq<SymbolDiffTree> {
    if old.decl != new.decl {
        seq![SymbolDiffTree { decl: new.decl, status: Status::Changed(old.decl), members }]
    } else if members.len() > 0 {
        seq![SymbolDiffTree { decl: new.decl, status: Status::Same, members }]
    } else {
        seq![]
    }
}

/// The comparison of two lists of declarations: by identity, in the order of
/// the identities.
pub open spec fn diff_forest(old: Seq<SymbolTree>, new: Seq<SymbolTree>) -> Seq<SymbolDiffTree>
    decreases old, 3nat, 0nat,
{
    diff_keys(old, new, sorted_distinct(identities(old) + identities(new)))
}

/// The comparison of the declarations with the given identities.
pub open spec fn diff_keys(
    old: Seq<SymbolTree>,
    new: Seq<SymbolTree>,
    keys: Seq<Seq<char>>,
) -> Seq<SymbolDiffTree>
    decreases old, 2nat, keys.len(),
{
    if keys.len() == 0 {
        seq![]
    } else {
        diff_keys(old, new, keys.drop_last()) + diff_key(old, new, keys.last())
    }
}

/// The comparison of the declarations with one identity. Where it is the
/// identity of one declaration on each side, the two are a pair. Where it is
/// that of several on one side, those pair that read the same.
pub open spec fn diff_key(
    old: Seq<SymbolTree>,
    new: Seq<SymbolTree>,
    key: Seq<char>,
) -> Seq<SymbolDiffTree>
    decreases old, 1nat, 0nat,
{
    let os = with_identity(old, key);
    let ns = with_identity(new, key);
    if os.len() == 1 && ns.len() == 1 {
        proof {
            lemma_with_identity(old, key);
            assert(old.contains(os[0]));
            let i = choose|i: int| 0 <= i < old.len() && old[i] == os[0];
            assert(decreases_to!(old => old[i]));
            assert(decreases_to!(old[i] => old[i].members));
        }
        paired(os[0], ns[0], diff_forest(os[0].members, ns[0].members))
    } else if os.len() > 0 && ns.len() > 0 {
        diff_overloads(old, new, key, sorted_distinct(decls(os) + decls(ns)))
    } else if os.len() > 0 {
        all_as_status(os, Status::Removed)
    } else {
        all_as_status(ns, Status::Added)
    }
}

/// The comparison of the declarations that share an identity, by what they read.
pub open spec fn diff_overloads(
    old: Seq<SymbolTree>,
    new: Seq<SymbolTree>,
    key: Seq<char>,
    texts: Seq<Seq<char>>,
) -> Seq<SymbolDiffTree>
    decreases old, 0nat, texts.len(),
{
    if texts.len() == 0 {
        seq![]
    } else {
        diff_overloads(old, new, key, texts.drop_last()) + match (
            last_reading(with_identity(old, key), texts.last()),
            last_reading(with_identity(new, key), texts.last()),
        ) {
            (Some(o), Some(n)) => {
                proof {
                    lemma_with_identity(old, key);
                    lemma_last_reading(with_identity(old, key), texts.last());
                    let os = with_identity(old, key);
                    let j = choose|j: int| 0 <= j < os.len() && os[j] == o;
                    assert(old.contains(os[j]));
                    let i = choose|i: int| 0 <= i < old.len() && old[i] == o;
                    assert(decreases_to!(old => old[i]));
                    assert(decreases_to!(old[i] => old[i].members));
                }
                paired(o, n, diff_forest(o.members, n.members))
            },
            (Some(o), None) => seq![as_status(o, Status::Removed)],
            (None, Some(n)) => seq![as_status(n, Status::Added)],
            (None, None) => seq![],
        }
    }
}

/// `as_status`, one level deep.
proof fn lemma_as_status(t: SymbolTree, status: Status)
    ensures
        as_status(t, status).decl == t.decl,
        as_status(t, status).status == status,
        as_status(t, status).members == all_as_status(t.members, status),
{
    reveal_with_fuel(as_status, 2);
    assert(as_status(t, status).members =~= all_as_status(t.members, status));
}

/// A declaration and all those nested in it, with one status.
pub fn symbol_as(s: &SymbolNode, status: &NodeStatus) -> (r: SymbolDiff)
    ensures
        r@ == as_status(s@, status@),
    decreases s,
{
    let mut members: Vec<SymbolDiff> = Vec::new();
    for i in 0..s.members.len()
        invariant
            members@.len() == i,
            forall|j: int|
                0 <= j < i ==> (#[trigger] members@[j])@ == as_status(s.members@[j]@, status@),
    {
        members.push(symbol_as(&s.members[i], status));
    }
    let r = SymbolDiff { decl: s.decl.clone(), status: status.clone(), members };
    proof {
        s.lemma_view();
        r.lemma_view();
        lemma_as_status(s@, status@);
        assert(r@.members =~= all_as_status(s@.members, status@));
    }
    r
}

/// Declarations and all those nested in them, with one status.
fn symbols_as(symbols: &Vec<SymbolNode>, status: &NodeStatus) -> (r: Vec<SymbolDiff>)
    ensures
        views(r@) == all_as_status(views(symbols@), status@),
{
    let mut out: Vec<SymbolDiff> = Vec::new();
    for i in 0..symbols.len()
        invariant
            out@.len() == i,
            forall|j: int|
                0 <= j < i ==> (#[trigger] out@[j])@ == as_status(symbols@[j]@, status@),
    {
        out.push(symbol_as(&symbols[i], status));
    }
    assert(views(out@) =~= all_as_status(views(symbols@), status@));
    out
}

/// Appends the declarations of a group, with one status, to a report.
fn push_group(group: &Vec<&SymbolNode>, status: &NodeStatus, out: &mut Vec<SymbolDiff>)
    ensures
        views(final(out)@) == views(old(out)@) + all_as_status(views(group@), status@),
{
    let ghost before = views(out@);
    let ghost all = all_as_status(views(group@), status@);
    for i in 0..group.len()
        invariant
            all == all_as_status(views(group@), status@),
            views(out@) == before + all.take(i as int),
    {
        let ghost now = out@;
        let d = symbol_as(group[i], status);
        out.push(d);
        assert(views(out@) =~= views(now).push(d@));
        assert(all.take(i as int + 1) =~= all.take(i as int).push(d@));
    }
    assert(all.take(group@.len() as int) =~= all);
}

/// The declarations by their identities; those with one identity keep their order.
pub fn key_symbols(v: &[SymbolNode]) -> (r: TextMap<Vec<&SymbolNode>>)
    ensures
        r.wf(),
        forall|k: Seq<char>| #[trigger]
            r@.dom().contains(k) <==> identities(views(v@)).contains(k),
        forall|k: Seq<char>|
            r@.dom().contains(k) ==> views((#[trigger] r@[k])@) == with_identity(views(v@), k),
        forall|k: Seq<char>, j: int|
            r@.dom().contains(k) && 0 <= j < r@[k]@.len() ==> v@.contains(
                *(#[trigger] r@[k]@[j]),
            ),
{
    let mut out: TextMap<Vec<&SymbolNode>> = TextMap::new();
    let ghost f = views(v@);
    for i in 0..v.len()
        invariant
            f == views(v@),
            out.wf(),
            forall|k: Seq<char>| #[trigger]
                out@.dom().contains(k) <==> with_identity(f.take(i as int), k).len() > 0,
            forall|k: Seq<char>|
                out@.dom().contains(k) ==> views((#[trigger] out@[k])@) == with_identity(
                    f.take(i as int),
                    k,
                ),
            forall|k: Seq<char>, j: int|
                out@.dom().contains(k) && 0 <= j < out@[k]@.len() ==> v@.contains(
                    *(#[trigger] out@[k]@[j]),
                ),
    {
        let ghost before = out@;
        let s = &v[i];
        let key = identity_key(s.decl.as_str());
        let ghost k0 = key@;
        proof {
            s.lemma_view();
            assert(f.take(i as int + 1).drop_last() =~= f.take(i as int));
            assert(f.take(i as int + 1).last() == s@);
            assert(v@.contains(*s));
        }
        out.append(key, s);
        proof {
            assert forall|k: Seq<char>| out@.dom().contains(k) implies views(
                (#[trigger] out@[k])@,
            ) == with_identity(f.take(i as int + 1), k) by {
                if k == k0 {
                    if before.dom().contains(k) {
                        assert(views(out@[k]@) =~= views(before[k]@).push(s@));
                    } else {
                        assert(with_identity(f.take(i as int), k) =~= seq![]);
                        assert(views(out@[k]@) =~= seq![s@]);
                        assert(with_identity(f.take(i as int + 1), k) =~= seq![s@]);
                    }
                } else {
                    assert(before.dom().contains(k));
                }
            }
            assert forall|k: Seq<char>, j: int|
                out@.dom().contains(k) && 0 <= j < out@[k]@.len() implies v@.contains(
                *(#[trigger] out@[k]@[j]),
            ) by {
                if k == k0 {
                    if before.dom().contains(k) {
                        if j < before[k]@.len() {
                            assert(out@[k]@[j] == before[k]@[j]);
                        }
                    }
                } else {
                    assert(before.dom().contains(k));
                    assert(out@[k]@[j] == before[k]@[j]);
                }
            }
        }
    }
    proof {
        assert(f.take(v@.len() as int) =~= f);
        assert forall|k: Seq<char>| #[trigger]
            out@.dom().contains(k) <==> identities(views(v@)).contains(k) by {
            lemma_with_identity(f, k);
        }
    }
    out
}

/// The declarations of a group by what they read; of those that read the
/// same, the last.
fn by_decl<'a>(group: &Vec<&'a SymbolNode>) -> (r: TextMap<&'a SymbolNode>)
    ensures
        r.wf(),
        forall|d: Seq<char>| #[trigger]
            r@.dom().contains(d) <==> decls(views(group@)).contains(d),
        forall|d: Seq<char>|
            r@.dom().contains(d) ==> group@.contains(#[trigger] r@[d]) && last_reading(
                views(group@),
                d,
            ) == Some(r@[d]@),
{
    let mut out: TextMap<&'a SymbolNode> = TextMap::new();
    let ghost f = views(group@);
    for i in 0..group.len()
        invariant
            f == views(group@),
            out.wf(),
            forall|d: Seq<char>| #[trigger]
                out@.dom().contains(d) <==> last_reading(f.take(i as int), d) is Some,
            forall|d: Seq<char>|
                out@.dom().contains(d) ==> group@.contains(#[trigger] out@[d]) && last_reading(
                    f.take(i as int),
                    d,
                ) == Some(out@[d]@),
    {
        let s = group[i];
        proof {
            s.lemma_view();
            assert(f.take(i as int + 1).drop_last() =~= f.take(i as int));
            assert(f.take(i as int + 1).last() == s@);
            assert(group@.contains(s));
        }
        out.insert(s.decl.clone(), s);
    }
    proof {
        assert(f.take(group@.len() as int) =~= f);
        assert forall|d: Seq<char>| #[trigger]
            out@.dom().contains(d) <==> decls(views(group@)).contains(d) by {
            lemma_last_reading(f, d);
        }
    }
    out
}

/// The keys of two maps are the different texts of the two sequences that
/// hold the keys of one and of the other.
proof fn lemma_merged(
    keys: Seq<Seq<char>>,
    a: Set<Seq<char>>,
    b: Set<Seq<char>>,
    s: Seq<Seq<char>>,
    t: Seq<Seq<char>>,
)
    requires
        strictly_increasing(keys),
        forall|k: Seq<char>| #[trigger] keys.contains(k) <==> a.contains(k) || b.contains(k),
        forall|k: Seq<char>| #[trigger] a.contains(k) <==> s.contains(k),
        forall|k: Seq<char>| #[trigger] b.contains(k) <==> t.contains(k),
    ensures
        keys == sorted_distinct(s + t),
{
    law_sorted_distinct(s + t);
    assert forall|k: Seq<char>| #[trigger] keys.contains(k) <==> sorted_distinct(s + t).contains(
        k,
    ) by {
        if s.contains(k) {
            let i = choose|i: int| 0 <= i < s.len() && s[i] == k;
            assert((s + t)[i] == k);
        }
        if t.contains(k) {
            let i = choose|i: int| 0 <= i < t.len() && t[i] == k;
            assert((s + t)[s.len() + i] == k);
        }
        if (s + t).contains(k) {
            let i = choose|i: int| 0 <= i < (s + t).len() && (s + t)[i] == k;
            if i < s.len() {
                assert(s[i] == k);
            } else {
                assert(t[i - s.len()] == k);
            }
        }
        assert(a.contains(k) <==> s.contains(k));
        assert(b.contains(k) <==> t.contains(k));
    }
    lemma_increasing_unique(keys, sorted_distinct(s + t));
}

/// Appends the report on a declaration that is in both snapshots.
fn push_pair(o: &SymbolNode, n: &SymbolNode, out: &mut Vec<SymbolDiff>)
    ensures
        views(final(out)@) == views(old(out)@) + paired(
            o@,
            n@,
            diff_forest(o@.members, n@.members),
        ),
    decreases o, 0nat,
{
    let ghost before = out@;
    proof {
        o.lemma_view();
        n.lemma_view();
    }
    let members = diff_symbols(o.members.as_slice(), n.members.as_slice());
    if !same_text(o.decl.as_str(), n.decl.as_str()) {
        let d = SymbolDiff {
            decl: n.decl.clone(),
            status: NodeStatus::Changed { old_decl: o.decl.clone() },
            members,
        };
        proof {
            d.lemma_view();
        }
        out.push(d);
        assert(views(out@) =~= views(before).push(d@));
    } else if members.len() > 0 {
        let d = SymbolDiff { decl: n.decl.clone(), status: NodeStatus::Same, members };
        proof {
            d.lemma_view();
        }
        out.push(d);
        assert(views(out@) =~= views(before).push(d@));
    } else {
        assert(views(members@).len() == 0);
        assert(views(out@) =~= views(before) + seq![]);
    }
}

/// Appends the comparison of the declarations that share the identity `key`,
/// by what they read.
fn push_overloads(
    os: &Vec<&SymbolNode>,
    ns: &Vec<&SymbolNode>,
    out: &mut Vec<SymbolDiff>,
    Ghost(all_old): Ghost<Seq<SymbolNode>>,
    Ghost(all_new): Ghost<Seq<SymbolNode>>,
    Ghost(key): Ghost<Seq<char>>,
)
    requires
        views(os@) == with_identity(views(all_old), key),
        views(ns@) == with_identity(views(all_new), key),
        forall|j: int| 0 <= j < os@.len() ==> all_old.contains(*(#[trigger] os@[j])),
    ensures
        views(final(out)@) == views(old(out)@) + diff_overloads(
            views(all_old),
            views(all_new),
            key,
            sorted_distinct(decls(views(os@)) + decls(views(ns@))),
        ),
    decreases all_old, 0nat,
{
    let old_by = by_decl(os);
    let new_by = by_decl(ns);
    let texts = merged_keys(&old_by, &new_by);
    let ghost ds = strings(texts@);
    let ghost before = views(out@);
    proof {
        lemma_merged(ds, old_by@.dom(), new_by@.dom(), decls(views(os@)), decls(views(ns@)));
    }
    assert(views(out@) =~= before + diff_overloads(
        views(all_old),
        views(all_new),
        key,
        ds.take(0),
    ));
    for i in 0..texts.len()
        invariant
            ds == strings(texts@),
            old_by.wf(),
            new_by.wf(),
            views(os@) == with_identity(views(all_old), key),
            views(ns@) == with_identity(views(all_new), key),
            forall|j: int| 0 <= j < os@.len() ==> all_old.contains(*(#[trigger] os@[j])),
            forall|d: Seq<char>| #[trigger]
                old_by@.dom().contains(d) <==> decls(views(os@)).contains(d),
            forall|d: Seq<char>|
                old_by@.dom().contains(d) ==> os@.contains(#[trigger] old_by@[d]) && last_reading(
                    views(os@),
                    d,
                ) == Some(old_by@[d]@),
            forall|d: Seq<char>| #[trigger]
                new_by@.dom().contains(d) <==> decls(views(ns@)).contains(d),
            forall|d: Seq<char>|
                new_by@.dom().contains(d) ==> ns@.contains(#[trigger] new_by@[d]) && last_reading(
                    views(ns@),
                    d,
                ) == Some(new_by@[d]@),
            views(out@) == before + diff_overloads(
                views(all_old),
                views(all_new),
                key,
                ds.take(i as int),
            ),
    {
        let ghost so_far = out@;
        let ghost done = diff_overloads(views(all_old), views(all_new), key, ds.take(i as int));
        let text = texts[i].as_str();
        proof {
            assert(ds.take(i as int + 1).drop_last() =~= ds.take(i as int));
            assert(ds.take(i as int + 1).last() == text@);
            lemma_last_reading(views(os@), text@);
            lemma_last_reading(views(ns@), text@);
        }
        match (old_by.get(text), new_by.get(text)) {
            (Some(o), Some(n)) => {
                proof {
                    let j = choose|j: int| 0 <= j < os@.len() && os@[j] == *o;
                    assert(all_old.contains(*os@[j]));
                    let i = choose|i: int| 0 <= i < all_old.len() && all_old[i] == **o;
                    assert(decreases_to!(all_old => all_old[i]));
                }
                push_pair(*o, *n, out);
                assert(views(out@) =~= before + (done + paired(
                    o@,
                    n@,
                    diff_forest(o@.members, n@.members),
                )));
            },
            (Some(o), None) => {
                let d = symbol_as(*o, &NodeStatus::Removed);
                out.push(d);
                assert(views(out@) =~= views(so_far).push(d@));
                assert(views(out@) =~= before + (done + seq![d@]));
            },
            (None, Some(n)) => {
                let d = symbol_as(*n, &NodeStatus::Added);
                out.push(d);
                assert(views(out@) =~= views(so_far).push(d@));
                assert(views(out@) =~= before + (done + seq![d@]));
            },
            (None, None) => {
                assert(views(out@) =~= before + (done + seq![]));
            },
        }
    }
    assert(ds.take(texts@.len() as int) =~= ds);
}

/// The comparison of two lists of declarations.
///
/// Declarations are paired by identity. Where several on one side share an
/// identity, those are paired that read the same.
pub fn diff_symbols(old: &[SymbolNode], new: &[SymbolNode]) -> (r: Vec<SymbolDiff>)
    ensures
        views(r@) == diff_forest(views(old@), views(new@)),
    decreases old@, 1nat,
{
    let old_keyed = key_symbols(old);
    let new_keyed = key_symbols(new);
    let keys = merged_keys(&old_keyed, &new_keyed);
    let ghost ks = strings(keys@);
    let ghost f = views(old@);
    let ghost g = views(new@);
    proof {
        lemma_merged(ks, old_keyed@.dom(), new_keyed@.dom(), identities(f), identities(g));
    }
    let mut out: Vec<SymbolDiff> = Vec::new();
    assert(views(out@) =~= diff_keys(f, g, ks.take(0)));
    for i in 0..keys.len()
        invariant
            f == views(old@),
            g == views(new@),
            ks == strings(keys@),
            old_keyed.wf(),
            new_keyed.wf(),
            forall|k: Seq<char>| #[trigger]
                old_keyed@.dom().contains(k) <==> identities(f).contains(k),
            forall|k: Seq<char>|
                old_keyed@.dom().contains(k) ==> views((#[trigger] old_keyed@[k])@)
                    == with_identity(f, k),
            forall|k: Seq<char>, j: int|
                old_keyed@.dom().contains(k) && 0 <= j < old_keyed@[k]@.len() ==> old@.contains(
                    *(#[trigger] old_keyed@[k]@[j]),
                ),
            forall|k: Seq<char>| #[trigger]
                new_keyed@.dom().contains(k) <==> identities(g).contains(k),
            forall|k: Seq<char>|
                new_keyed@.dom().contains(k) ==> views((#[trigger] new_keyed@[k])@)
                    == with_identity(g, k),
            views(out@) == diff_keys(f, g, ks.take(i as int)),
    {
        let ghost so_far = views(out@);
        let key = keys[i].as_str();
        proof {
            assert(ks.take(i as int + 1).drop_last() =~= ks.take(i as int));
            assert(ks.take(i as int + 1).last() == key@);
            lemma_with_identity(f, key@);
            lemma_with_identity(g, key@);
        }
        match (old_keyed.get(key), new_keyed.get(key)) {
            (Some(os), Some(ns)) => {
                assert(views(os@).len() == os@.len());
                assert(views(ns@).len() == ns@.len());
                if os.len() == 1 && ns.len() == 1 {
                    proof {
                        assert(views(os@)[0] == os@[0]@);
                        assert(views(ns@)[0] == ns@[0]@);
                        assert(old@.contains(*old_keyed@[key@]@[0]));
                        let i = choose|i: int| 0 <= i < old@.len() && old@[i] == *os@[0];
                        assert(decreases_to!(old@ => old@[i]));
                    }
                    push_pair(os[0], ns[0], &mut out);
                    assert(views(out@) == so_far + diff_key(f, g, key@));
                } else {
                    proof {
                        assert forall|j: int| 0 <= j < os@.len() implies old@.contains(
                            *(#[trigger] os@[j]),
                        ) by {
                            assert(old@.contains(*old_keyed@[key@]@[j]));
                        }
                    }
                    push_overloads(os, ns, &mut out, Ghost(old@), Ghost(new@), Ghost(key@));
                    assert(views(out@) == so_far + diff_key(f, g, key@));
                }
            },
            (Some(os), None) => {
                push_group(os, &NodeStatus::Removed, &mut out);
                assert(views(out@) == so_far + diff_key(f, g, key@));
            },
            (None, Some(ns)) => {
                push_group(ns, &NodeStatus::Added, &mut out);
                assert(views(out@) == so_far + diff_key(f, g, key@));
            },
            (None, None) => {
                assert(all_as_status(with_identity(g, key@), Status::Added) =~= seq![]);
                assert(views(out@) =~= so_far + seq![]);
                assert(views(out@) == so_far + diff_key(f, g, key@));
            },
        }
    }
    assert(ks.take(keys@.len() as int) =~= ks);
    out
}

/// A part of a package that is found by its name.
pub trait Named: View + Sized {
    spec fn name_in(v: Self::V) -> Seq<char>;

    fn name(&self) -> (r: &String)
        ensures
            r@ == Self::name_in(self@),
    ;
}

impl Named for ModuleModel {
    open spec fn name_in(v: ModuleTree) -> Seq<char> {
        v.name
    }

    fn name(&self) -> (r: &String) {
        &self.name
    }
}

impl Named for ExtensionGroup {
    open spec fn name_in(v: ExtensionTree) -> Seq<char> {
        v.extended_module
    }

    fn name(&self) -> (r: &String) {
        &self.extended_module
    }
}

/// The names of parts, in their order.
pub open spec fn names<T: Named>(s: Seq<T::V>) -> Seq<Seq<char>> {
    Seq::new(s.len(), |i: int| T::name_in(s[i]))
}

/// The last part with a name.
pub open spec fn last_named<T: Named>(s: Seq<T::V>, name: Seq<char>) -> Option<T::V>
    decreases s.len(),
{
    if s.len() == 0 {
        None
    } else if T::name_in(s.last()) == name {
        Some(s.last())
    } else {
        last_named::<T>(s.drop_last(), name)
    }
}

pub proof fn lemma_last_named<T: Named>(s: Seq<T::V>, name: Seq<char>)
    ensures
        match last_named::<T>(s, name) {
            Some(v) => T::name_in(v) == name && names::<T>(s).contains(name),
            None => !names::<T>(s).contains(name),
        },
    decreases s.len(),
{
    if s.len() > 0 {
        let p = s.drop_last();
        lemma_last_named::<T>(p, name);
        assert(names::<T>(s)[s.len() - 1] == T::name_in(s.last()));
        if names::<T>(p).contains(name) {
            let i = choose|i: int| 0 <= i < p.len() && names::<T>(p)[i] == name;
            assert(names::<T>(s)[i] == name);
        }
        if names::<T>(s).contains(name) {
            let i = choose|i: int| 0 <= i < s.len() && names::<T>(s)[i] == name;
            if i < p.len() {
                assert(names::<T>(p)[i] == name);
            }
        }
    }
}

/// Parts by their names; of those with the same name, the last.
fn by_name<T: Named>(parts: &Vec<T>) -> (r: TextMap<&T>)
    ensures
        r.wf(),
        forall|k: Seq<char>| #[trigger]
            r@.dom().contains(k) <==> names::<T>(views(parts@)).contains(k),
        forall|k: Seq<char>|
            r@.dom().contains(k) ==> last_named::<T>(views(parts@), k) == Some(
                (#[trigger] r@[k])@,
            ),
{
    let mut out: TextMap<&T> = TextMap::new();
    let ghost all = views(parts@);
    for i in 0..parts.len()
        invariant
            all == views(parts@),
            out.wf(),
            forall|k: Seq<char>| #[trigger]
                out@.dom().contains(k) <==> last_named::<T>(all.take(i as int), k) is Some,
            forall|k: Seq<char>|
                out@.dom().contains(k) ==> last_named::<T>(all.take(i as int), k) == Some(
                    (#[trigger] out@[k])@,
                ),
    {
        let part = &parts[i];
        assert(all.take(i as int + 1).drop_last() =~= all.take(i as int));
        assert(all.take(i as int + 1).last() == part@);
        out.insert(part.name().clone(), part);
    }
    proof {
        assert(all.take(parts@.len() as int) =~= all);
        assert forall|k: Seq<char>| #[trigger]
            out@.dom().contains(k) <==> names::<T>(views(parts@)).contains(k) by {
            lemma_last_named::<T>(all, k);
        }
    }
    out
}

/// The report on the extensions to one module.
pub open spec fn diff_extension(
    old: Seq<ExtensionTree>,
    new: Seq<ExtensionTree>,
    name: Seq<char>,
) -> Seq<ExtensionDiffTree> {
    match (last_named::<ExtensionGroup>(old, name), last_named::<ExtensionGroup>(new, name)) {
        (Some(o), Some(n)) => {
            let symbols = diff_forest(o.symbols, n.symbols);
            if symbols.len() > 0 {
                seq![ExtensionDiffTree { extended_module: name, status: Status::Same, symbols }]
            } else {
                seq![]
            }
        },
        (Some(o), None) => seq![extension_as_status(o, Status::Removed)],
        (None, Some(n)) => seq![extension_as_status(n, Status::Added)],
        (None, None) => seq![],
    }
}

/// An extension group and all that is in it, with one status.
pub open spec fn extension_as_status(e: ExtensionTree, status: Status) -> ExtensionDiffTree {
    ExtensionDiffTree {
        extended_module: e.extended_module,
        status,
        symbols: all_as_status(e.symbols, status),
    }
}

/// The report on the extensions to the given modules.
pub open spec fn diff_extension_list(
    old: Seq<ExtensionTree>,
    new: Seq<ExtensionTree>,
    list: Seq<Seq<char>>,
) -> Seq<ExtensionDiffTree>
    decreases list.len(),
{
    if list.len() == 0 {
        seq![]
    } else {
        diff_extension_list(old, new, list.drop_last()) + diff_extension(old, new, list.last())
    }
}

/// The comparison of two lists of extension groups: by the name of the
/// extended module, in the order of the names.
pub open spec fn diff_extension_groups(
    old: Seq<ExtensionTree>,
    new: Seq<ExtensionTree>,
) -> Seq<ExtensionDiffTree> {
    diff_extension_list(
        old,
        new,
        sorted_distinct(names::<ExtensionGroup>(old) + names::<ExtensionGroup>(new)),
    )
}

/// An extension group and all that is in it, with one status.
fn extension_as(e: &ExtensionGroup, status: &NodeStatus) -> (r: ExtensionDiff)
    ensures
        r@ == extension_as_status(e@, status@),
{
    ExtensionDiff {
        extended_module: e.extended_module.clone(),
        status: status.clone(),
        symbols: symbols_as(&e.symbols, status),
    }
}

/// The comparison of two lists of extension groups.
pub fn diff_extensions(old: &Vec<ExtensionGroup>, new: &Vec<ExtensionGroup>) -> (r: Vec<
    ExtensionDiff,
>)
    ensures
        views(r@) == diff_extension_groups(views(old@), views(new@)),
{
    let old_by = by_name(old);
    let new_by = by_name(new);
    let list = merged_keys(&old_by, &new_by);
    let ghost ks = strings(list@);
    let ghost f = views(old@);
    let ghost g = views(new@);
    proof {
        lemma_merged(
            ks,
            old_by@.dom(),
            new_by@.dom(),
            names::<ExtensionGroup>(f),
            names::<ExtensionGroup>(g),
        );
    }
    let mut out: Vec<ExtensionDiff> = Vec::new();
    assert(views(out@) =~= diff_extension_list(f, g, ks.take(0)));
    for i in 0..list.len()
        invariant
            f == views(old@),
            g == views(new@),
            ks == strings(list@),
            old_by.wf(),
            new_by.wf(),
            forall|k: Seq<char>| #[trigger]
                old_by@.dom().contains(k) <==> names::<ExtensionGroup>(f).contains(k),
            forall|k: Seq<char>|
                old_by@.dom().contains(k) ==> last_named::<ExtensionGroup>(f, k) == Some(
                    (#[trigger] old_by@[k])@,
                ),
            forall|k: Seq<char>| #[trigger]
                new_by@.dom().contains(k) <==> names::<ExtensionGroup>(g).contains(k),
            forall|k: Seq<char>|
                new_by@.dom().contains(k) ==> last_named::<ExtensionGroup>(g, k) == Some(
                    (#[trigger] new_by@[k])@,
                ),
            views(out@) == diff_extension_list(f, g, ks.take(i as int)),
    {
        let ghost so_far = out@;
        let name = list[i].as_str();
        proof {
            assert(ks.take(i as int + 1).drop_last() =~= ks.take(i as int));
            assert(ks.take(i as int + 1).last() == name@);
            lemma_last_named::<ExtensionGroup>(f, name@);
            lemma_last_named::<ExtensionGroup>(g, name@);
        }
        match (old_by.get(name), new_by.get(name)) {
            (Some(o), Some(n)) => {
                let symbols = diff_symbols(o.symbols.as_slice(), n.symbols.as_slice());
                assert(views(symbols@).len() == symbols@.len());
                if symbols.len() > 0 {
                    let d = ExtensionDiff {
                        extended_module: list[i].clone(),
                        status: NodeStatus::Same,
                        symbols,
                    };
                    out.push(d);
                    assert(views(out@) =~= views(so_far).push(d@));
                } else {
                    assert(views(out@) =~= views(so_far) + seq![]);
                }
            },
            (Some(o), None) => {
                let d = extension_as(*o, &NodeStatus::Removed);
                out.push(d);
                assert(views(out@) =~= views(so_far).push(d@));
            },
            (None, Some(n)) => {
                let d = extension_as(*n, &NodeStatus::Added);
                out.push(d);
                assert(views(out@) =~= views(so_far).push(d@));
            },
            (None, None) => {
                assert(views(out@) =~= views(so_far) + seq![]);
            },
        }
        assert(views(out@) =~= views(so_far) + diff_extension(f, g, name@));
    }
    assert(ks.take(list@.len() as int) =~= ks);
    out
}

/// The comparison of two modules of the same name.
pub open spec fn diff_module_pair(old: ModuleTree, new: ModuleTree) -> ModuleDiffTree {
    ModuleDiffTree {
        name: new.name,
        status: Status::Same,
        symbols: diff_forest(old.symbols, new.symbols),
        extensions: diff_extension_groups(old.extensions, new.extensions),
    }
}

/// The comparison of two modules.
pub fn diff_module(old: &ModuleModel, new: &ModuleModel) -> (r: ModuleDiff)
    ensures
        r@ == diff_module_pair(old@, new@),
{
    ModuleDiff {
        name: new.name.clone(),
        status: NodeStatus::Same,
        symbols: diff_symbols(old.symbols.as_slice(), new.symbols.as_slice()),
        extensions: diff_extensions(&old.extensions, &new.extensions),
    }
}

/// The status that a module hands down to what is in it.
pub open spec fn handed_down(status: Status) -> Status {
    match status {
        Status::Added => Status::Added,
        Status::Removed => Status::Removed,
        _ => Status::Same,
    }
}

/// A module with a status, and all that is in it with the status handed down.
pub open spec fn module_as_status(m: ModuleTree, status: Status) -> ModuleDiffTree {
    let inner = handed_down(status);
    ModuleDiffTree {
        name: m.name,
        status,
        symbols: all_as_status(m.symbols, inner),
        extensions: Seq::new(
            m.extensions.len(),
            |i: int| extension_as_status(m.extensions[i], inner),
        ),
    }
}

/// A module with a status, and all that is in it with the status handed down.
pub fn module_as(m: &ModuleModel, status: NodeStatus) -> (r: ModuleDiff)
    ensures
        r@ == module_as_status(m@, status@),
{
    let inner = match &status {
        NodeStatus::Added => NodeStatus::Added,
        NodeStatus::Removed => NodeStatus::Removed,
        _ => NodeStatus::Same,
    };
    let mut extensions: Vec<ExtensionDiff> = Vec::new();
    for i in 0..m.extensions.len()
        invariant
            inner@ == handed_down(status@),
            extensions@.len() == i,
            forall|j: int|
                0 <= j < i ==> (#[trigger] extensions@[j])@ == extension_as_status(
                    m.extensions@[j]@,
                    inner@,
                ),
    {
        extensions.push(extension_as(&m.extensions[i], &inner));
    }
    let r = ModuleDiff {
        name: m.name.clone(),
        status,
        symbols: symbols_as(&m.symbols, &inner),
        extensions,
    };
    assert(r@.extensions =~= module_as_status(m@, status@).extensions);
    r
}

/// The report on the modules with one name: nothing where there is no
/// difference.
pub open spec fn diff_module_named(
    old: Seq<ModuleTree>,
    new: Seq<ModuleTree>,
    name: Seq<char>,
) -> Seq<ModuleDiffTree> {
    match (last_named::<ModuleModel>(old, name), last_named::<ModuleModel>(new, name)) {
        (Some(o), Some(n)) => {
            let d = diff_module_pair(o, n);
            if d.differs() {
                seq![d]
            } else {
                seq![]
            }
        },
        (Some(o), None) => seq![module_as_status(o, Status::Removed)],
        (None, Some(n)) => seq![module_as_status(n, Status::Added)],
        (None, None) => seq![],
    }
}

/// The report on the modules with the given names.
pub open spec fn diff_module_list(
    old: Seq<ModuleTree>,
    new: Seq<ModuleTree>,
    list: Seq<Seq<char>>,
) -> Seq<ModuleDiffTree>
    decreases list.len(),
{
    if list.len() == 0 {
        seq![]
    } else {
        diff_module_list(old, new, list.drop_last()) + diff_module_named(old, new, list.last())
    }
}

/// The comparison of the modules of two packages: by name, in the order of
/// the names.
pub open spec fn diff_modules(old: Seq<ModuleTree>, new: Seq<ModuleTree>) -> Seq<ModuleDiffTree> {
    diff_module_list(
        old,
        new,
        sorted_distinct(names::<ModuleModel>(old) + names::<ModuleModel>(new)),
    )
}

/// The comparison of two snapshots of a package.
#[verifier::rlimit(40)]
pub fn diff_packages(old: &PackageModel, new: &PackageModel) -> (r: DiffReport)
    ensures
        r@ == diff_modules(old@.modules, new@.modules),
{
    let old_by = by_name(&old.modules);
    let new_by = by_name(&new.modules);
    let list = merged_keys(&old_by, &new_by);
    let ghost ks = strings(list@);
    let ghost f = old@.modules;
    let ghost g = new@.modules;
    proof {
        lemma_merged(
            ks,
            old_by@.dom(),
            new_by@.dom(),
            names::<ModuleModel>(f),
            names::<ModuleModel>(g),
        );
    }
    let mut modules: Vec<ModuleDiff> = Vec::new();
    assert(views(modules@) =~= diff_module_list(f, g, ks.take(0)));
    for i in 0..list.len()
        invariant
            ks == strings(list@),
            old_by.wf(),
            new_by.wf(),
            forall|k: Seq<char>| #[trigger]
                old_by@.dom().contains(k) <==> names::<ModuleModel>(f).contains(k),
            forall|k: Seq<char>|
                old_by@.dom().contains(k) ==> last_named::<ModuleModel>(f, k) == Some(
                    (#[trigger] old_by@[k])@,
                ),
            forall|k: Seq<char>| #[trigger]
                new_by@.dom().contains(k) <==> names::<ModuleModel>(g).contains(k),
            forall|k: Seq<char>|
                new_by@.dom().contains(k) ==> last_named::<ModuleModel>(g, k) == Some(
                    (#[trigger] new_by@[k])@,
                ),
            views(modules@) == diff_module_list(f, g, ks.take(i as int)),
    {
        let ghost so_far = modules@;
        let name = list[i].as_str();
        proof {
            assert(ks.take(i as int + 1).drop_last() =~= ks.take(i as int));
            assert(ks.take(i as int + 1).last() == name@);
            lemma_last_named::<ModuleModel>(f, name@);
            lemma_last_named::<ModuleModel>(g, name@);
        }
        match (old_by.get(name), new_by.get(name)) {
            (Some(o), Some(n)) => {
                let d = diff_module(*o, *n);
                if d.any_changes() {
                    modules.push(d);
                    assert(views(modules@) =~= views(so_far).push(d@));
                } else {
                    assert(views(modules@) =~= views(so_far) + seq![]);
                }
            },
            (Some(o), None) => {
                let d = module_as(*o, NodeStatus::Removed);
                modules.push(d);
                assert(views(modules@) =~= views(so_far).push(d@));
            },
            (None, Some(n)) => {
                let d = module_as(*n, NodeStatus::Added);
                modules.push(d);
                assert(views(modules@) =~= views(so_far).push(d@));
            },
            (None, None) => {
                assert(views(modules@) =~= views(so_far) + seq![]);
            },
        }
        assert(views(modules@) =~= views(so_far) + diff_module_named(f, g, name@));
    }
    assert(ks.take(list@.len() as int) =~= ks);
    DiffReport { modules }
}

} // verus!
