//! What a comparison reports, in terms of the two snapshots.

use vstd::prelude::*;

use crate::diff::{
    all_as_status, as_status, decls, diff_forest, diff_key, diff_keys, diff_overloads, identities,
    last_reading, lemma_last_reading, lemma_with_identity, with_identity,
};
use crate::identity::identity;
use crate::model::SymbolTree;
use crate::order::{lemma_text_order_flips, text_order, Order};
use crate::report::{Status, SymbolDiffTree};
use crate::textmap::{law_sorted_distinct, sorted_distinct, strictly_increasing};

verus! {

/// The declarations of a list with an identity, in their order.
pub open spec fn identified(f: Seq<SymbolTree>, key: Seq<char>) -> Seq<SymbolTree> {
    f.filter(|t: SymbolTree| identity(t.decl) == key)
}

/// The entries of a report for declarations with an identity, in their order.
pub open spec fn entries_for(report: Seq<SymbolDiffTree>, key: Seq<char>) -> Seq<SymbolDiffTree> {
    report.filter(|e: SymbolDiffTree| identity(e.decl) == key)
}

/// Whether an entry reports a declaration and everything nested in it with
/// one status.
pub open spec fn marked(e: SymbolDiffTree, t: SymbolTree, status: Status) -> bool
    decreases t,
{
    &&& e.decl == t.decl
    &&& e.status == status
    &&& e.members.len() == t.members.len()
    &&& forall|i: int|
        0 <= i < t.members.len() ==> marked(e.members[i], #[trigger] t.members[i], status)
}

/// Whether entries report declarations, one by one, with one status.
pub open spec fn all_marked(
    entries: Seq<SymbolDiffTree>,
    f: Seq<SymbolTree>,
    status: Status,
) -> bool {
    &&& entries.len() == f.len()
    &&& forall|i: int| 0 <= i < f.len() ==> marked(entries[i], #[trigger] f[i], status)
}

/// Whether the declaration at `i` is the last of a list that reads as it does.
pub open spec fn reads_last(f: Seq<SymbolTree>, i: int) -> bool {
    &&& 0 <= i < f.len()
    &&& forall|k: int| i < k < f.len() ==> (#[trigger] f[k]).decl != f[i].decl
}

/// Whether a list holds a declaration that reads `decl`.
pub open spec fn reads(f: Seq<SymbolTree>, decl: Seq<char>) -> bool {
    exists|i: int| 0 <= i < f.len() && (#[trigger] f[i]).decl == decl
}

pub proof fn lemma_marked(t: SymbolTree, status: Status)
    ensures
        marked(as_status(t, status), t, status),
    decreases t,
{
    let e = as_status(t, status);
    assert forall|i: int| 0 <= i < t.members.len() implies marked(
        e.members[i],
        #[trigger] t.members[i],
        status,
    ) by {
        lemma_marked(t.members[i], status);
    }
}

pub proof fn lemma_all_marked(f: Seq<SymbolTree>, status: Status)
    ensures
        all_marked(all_as_status(f, status), f, status),
{
    assert forall|i: int| 0 <= i < f.len() implies marked(
        all_as_status(f, status)[i],
        #[trigger] f[i],
        status,
    ) by {
        lemma_marked(f[i], status);
    }
}

proof fn lemma_identified(f: Seq<SymbolTree>, key: Seq<char>)
    ensures
        identified(f, key) == with_identity(f, key),
    decreases f.len(),
{
    reveal(Seq::filter);
    if f.len() > 0 {
        lemma_identified(f.drop_last(), key);
    }
}

/// All entries for an identity are for that identity.
proof fn lemma_key_identity(old: Seq<SymbolTree>, new: Seq<SymbolTree>, key: Seq<char>)
    ensures
        forall|i: int|
            0 <= i < diff_key(old, new, key).len() ==> identity(
                (#[trigger] diff_key(old, new, key)[i]).decl,
            ) == key,
{
    let os = with_identity(old, key);
    let ns = with_identity(new, key);
    lemma_with_identity(old, key);
    lemma_with_identity(new, key);
    let all = diff_key(old, new, key);
    if os.len() > 0 && ns.len() > 0 && !(os.len() == 1 && ns.len() == 1) {
        lemma_overloads_identity(old, new, key, sorted_distinct(decls(os) + decls(ns)));
    } else {
        assert forall|i: int| 0 <= i < all.len() implies identity((#[trigger] all[i]).decl)
            == key by {
            if os.len() == 1 && ns.len() == 1 {
                assert(identity(ns[0].decl) == key);
            } else if os.len() > 0 {
                assert(identity(os[i].decl) == key);
            } else {
                assert(identity(ns[i].decl) == key);
            }
        }
    }
}

proof fn lemma_overloads_identity(
    old: Seq<SymbolTree>,
    new: Seq<SymbolTree>,
    key: Seq<char>,
    texts: Seq<Seq<char>>,
)
    ensures
        forall|i: int|
            0 <= i < diff_overloads(old, new, key, texts).len() ==> identity(
                (#[trigger] diff_overloads(old, new, key, texts)[i]).decl,
            ) == key && texts.contains(diff_overloads(old, new, key, texts)[i].decl),
    decreases texts.len(),
{
    if texts.len() > 0 {
        let p = texts.drop_last();
        let d = texts.last();
        let head = diff_overloads(old, new, key, p);
        let all = diff_overloads(old, new, key, texts);
        lemma_overloads_identity(old, new, key, p);
        lemma_reading_identity(old, key, d);
        lemma_reading_identity(new, key, d);
        assert forall|i: int| 0 <= i < all.len() implies identity((#[trigger] all[i]).decl) == key
            && texts.contains(all[i].decl) by {
            if i < head.len() {
                assert(all[i] == head[i]);
                let k = choose|k: int| 0 <= k < p.len() && p[k] == head[i].decl;
                assert(texts[k] == all[i].decl);
            } else {
                assert(texts[texts.len() - 1] == all[i].decl);
            }
        }
    }
}

proof fn lemma_reading_identity(f: Seq<SymbolTree>, key: Seq<char>, d: Seq<char>)
    ensures
        match last_reading(with_identity(f, key), d) {
            Some(t) => t.decl == d && identity(t.decl) == key,
            None => true,
        },
{
    let g = with_identity(f, key);
    lemma_with_identity(f, key);
    lemma_last_reading(g, d);
    match last_reading(g, d) {
        Some(t) => {
            let i = choose|i: int| 0 <= i < g.len() && g[i] == t;
            assert(identity(g[i].decl) == key);
        },
        None => {},
    }
}

proof fn lemma_filter_none(s: Seq<SymbolDiffTree>, key: Seq<char>)
    requires
        forall|i: int| 0 <= i < s.len() ==> identity((#[trigger] s[i]).decl) != key,
    ensures
        entries_for(s, key).len() == 0,
    decreases s.len(),
{
    reveal(Seq::filter);
    if s.len() > 0 {
        lemma_filter_none(s.drop_last(), key);
    }
}

proof fn lemma_filter_all(s: Seq<SymbolDiffTree>, key: Seq<char>)
    requires
        forall|i: int| 0 <= i < s.len() ==> identity((#[trigger] s[i]).decl) == key,
    ensures
        entries_for(s, key) == s,
    decreases s.len(),
{
    reveal(Seq::filter);
    if s.len() > 0 {
        lemma_filter_all(s.drop_last(), key);
        assert(s =~= s.drop_last().push(s.last()));
    }
}

/// What a comparison reports for an identity is the comparison of the
/// declarations with that identity.
#[verifier::rlimit(40)]
proof fn lemma_entries_for(
    old: Seq<SymbolTree>,
    new: Seq<SymbolTree>,
    keys: Seq<Seq<char>>,
    key: Seq<char>,
)
    requires
        strictly_increasing(keys),
    ensures
        entries_for(diff_keys(old, new, keys), key) == if keys.contains(key) {
            diff_key(old, new, key)
        } else {
            seq![]
        },
    decreases keys.len(),
{
    let all = diff_keys(old, new, keys);
    if keys.len() == 0 {
        reveal(Seq::filter);
        assert(entries_for(all, key) =~= seq![]);
    } else {
        let p = keys.drop_last();
        let last = keys.last();
        let head = diff_keys(old, new, p);
        let tail = diff_key(old, new, last);
        lemma_entries_for(old, new, p, key);
        lemma_key_identity(old, new, last);
        Seq::filter_distributes_over_add(
            head,
            tail,
            |e: SymbolDiffTree| identity(e.decl) == key,
        );
        assert(entries_for(all, key) == entries_for(head, key) + entries_for(tail, key));
        if last == key {
            lemma_filter_all(tail, key);
            if p.contains(key) {
                let i = choose|i: int| 0 <= i < p.len() && p[i] == key;
                assert(text_order(keys[i], keys[keys.len() - 1]) == Order::Less);
                lemma_text_order_flips(key, key);
            }
            assert(keys[keys.len() - 1] == key);
            assert(entries_for(all, key) =~= tail);
        } else {
            lemma_filter_none(tail, key);
            assert(entries_for(all, key) =~= entries_for(head, key));
            if keys.contains(key) {
                let i = choose|i: int| 0 <= i < keys.len() && keys[i] == key;
                assert(p[i] == key);
            }
            if p.contains(key) {
                let i = choose|i: int| 0 <= i < p.len() && p[i] == key;
                assert(keys[i] == key);
            }
        }
    }
}

proof fn lemma_report_for(old: Seq<SymbolTree>, new: Seq<SymbolTree>, key: Seq<char>)
    ensures
        entries_for(diff_forest(old, new), key) == diff_key(old, new, key),
        identified(old, key) == with_identity(old, key),
        identified(new, key) == with_identity(new, key),
{
    let both = identities(old) + identities(new);
    law_sorted_distinct(both);
    lemma_entries_for(old, new, sorted_distinct(both), key);
    lemma_identified(old, key);
    lemma_identified(new, key);
    lemma_with_identity(old, key);
    lemma_with_identity(new, key);
    if identities(old).contains(key) {
        let i = choose|i: int| 0 <= i < old.len() && identities(old)[i] == key;
        assert(both[i] == key);
    }
    if identities(new).contains(key) {
        let i = choose|i: int| 0 <= i < new.len() && identities(new)[i] == key;
        assert(both[old.len() + i] == key);
    }
    if !both.contains(key) {
        assert(all_as_status(with_identity(new, key), Status::Added) =~= seq![]);
    }
}

/// Where an identity is that of one declaration on each side, these two are
/// compared. If they read differently, the new one is reported as changed, with
/// the text of the old one; if only what is nested in them differs, it is
/// reported as the same; and if nothing differs, it is not reported. What is
/// reported of the nested declarations is the comparison of the two lists.
pub proof fn law_pair_compared(old: Seq<SymbolTree>, new: Seq<SymbolTree>, key: Seq<char>)
    requires
        identified(old, key).len() == 1,
        identified(new, key).len() == 1,
    ensures
        ({
            let o = identified(old, key)[0];
            let n = identified(new, key)[0];
            let r = entries_for(diff_forest(old, new), key);
            let nested = diff_forest(o.members, n.members);
            &&& o.decl != n.decl ==> r.len() == 1 && r[0].decl == n.decl && r[0].status
                == Status::Changed(o.decl) && r[0].members == nested
            &&& o.decl == n.decl && nested.len() > 0 ==> r.len() == 1 && r[0].decl == n.decl
                && r[0].status == Status::Same && r[0].members == nested
            &&& o.decl == n.decl && nested.len() == 0 ==> r.len() == 0
        }),
{
    lemma_report_for(old, new, key);
}

/// Declarations with an identity that only the old snapshot has are reported
/// as removed, one by one, with everything nested in them.
pub proof fn law_removed(old: Seq<SymbolTree>, new: Seq<SymbolTree>, key: Seq<char>)
    requires
        identified(new, key).len() == 0,
    ensures
        all_marked(
            entries_for(diff_forest(old, new), key),
            identified(old, key),
            Status::Removed,
        ),
{
    lemma_report_for(old, new, key);
    lemma_all_marked(with_identity(old, key), Status::Removed);
}

/// Declarations with an identity that only the new snapshot has are reported
/// as added, one by one, with everything nested in them.
pub proof fn law_added(old: Seq<SymbolTree>, new: Seq<SymbolTree>, key: Seq<char>)
    requires
        identified(old, key).len() == 0,
    ensures
        all_marked(entries_for(diff_forest(old, new), key), identified(new, key), Status::Added),
{
    lemma_report_for(old, new, key);
    lemma_all_marked(with_identity(new, key), Status::Added);
}

proof fn lemma_last_reading_at(f: Seq<SymbolTree>, d: Seq<char>)
    ensures
        match last_reading(f, d) {
            Some(t) => exists|i: int| #[trigger] reads_last(f, i) && f[i] == t && t.decl == d,
            None => !reads(f, d),
        },
    decreases f.len(),
{
    if f.len() > 0 {
        let p = f.drop_last();
        let last = f.len() - 1;
        if f.last().decl == d {
            assert(reads_last(f, last));
        } else {
            lemma_last_reading_at(p, d);
            match last_reading(p, d) {
                Some(t) => {
                    let i = choose|i: int| #[trigger] reads_last(p, i) && p[i] == t && t.decl == d;
                    assert forall|k: int| i < k < f.len() implies (#[trigger] f[k]).decl
                        != f[i].decl by {
                        if k < p.len() {
                            assert(f[k] == p[k]);
                        }
                    }
                    assert(reads_last(f, i) && f[i] == t);
                },
                None => {
                    if reads(f, d) {
                        let i = choose|i: int| 0 <= i < f.len() && (#[trigger] f[i]).decl == d;
                        assert(p[i].decl == d);
                    }
                },
            }
        }
    }
}

proof fn lemma_reads_last(f: Seq<SymbolTree>, i: int)
    requires
        reads_last(f, i),
    ensures
        last_reading(f, f[i].decl) == Some(f[i]),
    decreases f.len(),
{
    if i < f.len() - 1 {
        assert(f[f.len() - 1].decl != f[i].decl);
        let p = f.drop_last();
        assert forall|k: int| i < k < p.len() implies (#[trigger] p[k]).decl != p[i].decl by {
            assert(f[k] == p[k]);
        }
        lemma_reads_last(p, i);
    }
}

/// What a report says of overloads that read `d`, the last of them on each
/// side being `o` and `n`.
spec fn overload_entry(
    o: Option<SymbolTree>,
    n: Option<SymbolTree>,
    d: Seq<char>,
    e: SymbolDiffTree,
) -> bool {
    match (o, n) {
        (Some(x), Some(y)) => {
            let nested = diff_forest(x.members, y.members);
            &&& nested.len() > 0
            &&& e == SymbolDiffTree { decl: d, status: Status::Same, members: nested }
        },
        (Some(x), None) => e == as_status(x, Status::Removed),
        (None, Some(y)) => e == as_status(y, Status::Added),
        (None, None) => false,
    }
}

proof fn lemma_overload_report(
    old: Seq<SymbolTree>,
    new: Seq<SymbolTree>,
    key: Seq<char>,
    texts: Seq<Seq<char>>,
)
    requires
        strictly_increasing(texts),
    ensures
        ({
            let r = diff_overloads(old, new, key, texts);
            let os = with_identity(old, key);
            let ns = with_identity(new, key);
            &&& forall|a: int, b: int|
                0 <= a < b < r.len() ==> text_order((#[trigger] r[a]).decl, (#[trigger] r[b]).decl)
                    == Order::Less
            &&& forall|a: int|
                0 <= a < r.len() ==> texts.contains((#[trigger] r[a]).decl) && overload_entry(
                    last_reading(os, r[a].decl),
                    last_reading(ns, r[a].decl),
                    r[a].decl,
                    r[a],
                )
            &&& forall|i: int, e: SymbolDiffTree|
                0 <= i < texts.len() && #[trigger] overload_entry(
                    last_reading(os, texts[i]),
                    last_reading(ns, texts[i]),
                    texts[i],
                    e,
                ) ==> r.contains(e)
        }),
    decreases texts.len(),
{
    let r = diff_overloads(old, new, key, texts);
    let os = with_identity(old, key);
    let ns = with_identity(new, key);
    if texts.len() > 0 {
        let p = texts.drop_last();
        let d = texts.last();
        let h = diff_overloads(old, new, key, p);
        assert forall|i: int, j: int| 0 <= i < j < p.len() implies text_order(p[i], p[j])
            == Order::Less by {
            assert(text_order(texts[i], texts[j]) == Order::Less);
        }
        lemma_overload_report(old, new, key, p);
        lemma_last_reading(os, d);
        lemma_last_reading(ns, d);
        assert(r.len() == h.len() || r.len() == h.len() + 1);
        assert forall|a: int| 0 <= a < r.len() implies texts.contains((#[trigger] r[a]).decl)
            && overload_entry(
            last_reading(os, r[a].decl),
            last_reading(ns, r[a].decl),
            r[a].decl,
            r[a],
        ) by {
            if a < h.len() {
                assert(r[a] == h[a]);
                let k = choose|k: int| 0 <= k < p.len() && p[k] == h[a].decl;
                assert(texts[k] == r[a].decl);
            } else {
                assert(texts[texts.len() - 1] == d);
            }
        }
        assert forall|a: int, b: int| 0 <= a < b < r.len() implies text_order(
            (#[trigger] r[a]).decl,
            (#[trigger] r[b]).decl,
        ) == Order::Less by {
            assert(r[a] == h[a]);
            if b < h.len() {
                assert(r[b] == h[b]);
            } else {
                assert(p.contains(h[a].decl));
                let k = choose|k: int| 0 <= k < p.len() && p[k] == h[a].decl;
                assert(text_order(texts[k], texts[texts.len() - 1]) == Order::Less);
            }
        }
        assert forall|i: int, e: SymbolDiffTree|
            0 <= i < texts.len() && #[trigger] overload_entry(
                last_reading(os, texts[i]),
                last_reading(ns, texts[i]),
                texts[i],
                e,
            ) implies r.contains(e) by {
            if i < p.len() {
                assert(p[i] == texts[i]);
                assert(overload_entry(last_reading(os, p[i]), last_reading(ns, p[i]), p[i], e));
                assert(h.contains(e));
                let k = choose|k: int| 0 <= k < h.len() && h[k] == e;
                assert(r[k] == e);
            } else {
                assert(r[h.len() as int] == e);
            }
        }
    }
}

/// Where several declarations on one side share an identity that both sides
/// have, they are compared by what they read. An old text that the new side
/// does not have is reported as removed, a new one that the old side does not
/// have as added. Of a text that both have, what is nested is compared, and
/// reported under the declaration where it differs. Nothing else is reported,
/// nothing as changed, and each text once, in order.
pub proof fn law_overloads_compared(old: Seq<SymbolTree>, new: Seq<SymbolTree>, key: Seq<char>)
    requires
        identified(old, key).len() > 0,
        identified(new, key).len() > 0,
        identified(old, key).len() > 1 || identified(new, key).len() > 1,
    ensures
        ({
            let os = identified(old, key);
            let ns = identified(new, key);
            let r = entries_for(diff_forest(old, new), key);
            &&& forall|a: int, b: int|
                0 <= a < b < r.len() ==> text_order((#[trigger] r[a]).decl, (#[trigger] r[b]).decl)
                    == Order::Less
            &&& forall|i: int|
                #[trigger] reads_last(os, i) && !reads(ns, os[i].decl) ==> exists|k: int|
                    0 <= k < r.len() && #[trigger] marked(r[k], os[i], Status::Removed)
            &&& forall|j: int|
                #[trigger] reads_last(ns, j) && !reads(os, ns[j].decl) ==> exists|k: int|
                    0 <= k < r.len() && #[trigger] marked(r[k], ns[j], Status::Added)
            &&& forall|i: int, j: int|
                #[trigger] reads_last(os, i) && #[trigger] reads_last(ns, j) && os[i].decl
                    == ns[j].decl && diff_forest(os[i].members, ns[j].members).len() > 0
                    ==> r.contains(
                    SymbolDiffTree {
                        decl: os[i].decl,
                        status: Status::Same,
                        members: diff_forest(os[i].members, ns[j].members),
                    },
                )
            &&& forall|k: int|
                0 <= k < r.len() ==> match (#[trigger] r[k]).status {
                    Status::Removed => reads(os, r[k].decl) && !reads(ns, r[k].decl),
                    Status::Added => reads(ns, r[k].decl) && !reads(os, r[k].decl),
                    Status::Same => reads(os, r[k].decl) && reads(ns, r[k].decl)
                        && r[k].members.len() > 0,
                    Status::Changed(_) => false,
                }
        }),
{
    lemma_report_for(old, new, key);
    let os = identified(old, key);
    let ns = identified(new, key);
    let r = entries_for(diff_forest(old, new), key);
    let texts = sorted_distinct(decls(os) + decls(ns));
    law_sorted_distinct(decls(os) + decls(ns));
    lemma_overload_report(old, new, key, texts);
    assert(r == diff_overloads(old, new, key, texts));
    assert forall|i: int| #[trigger] reads_last(os, i) && !reads(ns, os[i].decl) implies exists|
        k: int,
    |
        0 <= k < r.len() && #[trigger] marked(r[k], os[i], Status::Removed) by {
        let d = os[i].decl;
        let e = as_status(os[i], Status::Removed);
        lemma_reads_last(os, i);
        lemma_last_reading_at(ns, d);
        let m = lemma_text_listed(os, ns, i, -1);
        assert(overload_entry(last_reading(os, texts[m]), last_reading(ns, texts[m]), texts[m], e));
        assert(r.contains(e));
        lemma_marked(os[i], Status::Removed);
        let k = choose|k: int| 0 <= k < r.len() && r[k] == e;
        assert(marked(r[k], os[i], Status::Removed));
    }
    assert forall|j: int| #[trigger] reads_last(ns, j) && !reads(os, ns[j].decl) implies exists|
        k: int,
    |
        0 <= k < r.len() && #[trigger] marked(r[k], ns[j], Status::Added) by {
        let d = ns[j].decl;
        let e = as_status(ns[j], Status::Added);
        lemma_reads_last(ns, j);
        lemma_last_reading_at(os, d);
        let m = lemma_text_listed(os, ns, -1, j);
        assert(overload_entry(last_reading(os, texts[m]), last_reading(ns, texts[m]), texts[m], e));
        assert(r.contains(e));
        lemma_marked(ns[j], Status::Added);
        let k = choose|k: int| 0 <= k < r.len() && r[k] == e;
        assert(marked(r[k], ns[j], Status::Added));
    }
    assert forall|i: int, j: int|
        #[trigger] reads_last(os, i) && #[trigger] reads_last(ns, j) && os[i].decl == ns[j].decl
            && diff_forest(os[i].members, ns[j].members).len() > 0 implies r.contains(
        SymbolDiffTree {
            decl: os[i].decl,
            status: Status::Same,
            members: diff_forest(os[i].members, ns[j].members),
        },
    ) by {
        let e = SymbolDiffTree {
            decl: os[i].decl,
            status: Status::Same,
            members: diff_forest(os[i].members, ns[j].members),
        };
        lemma_reads_last(os, i);
        lemma_reads_last(ns, j);
        let m = lemma_text_listed(os, ns, i, -1);
        assert(overload_entry(last_reading(os, texts[m]), last_reading(ns, texts[m]), texts[m], e));
    }
    assert forall|k: int| 0 <= k < r.len() implies match (#[trigger] r[k]).status {
        Status::Removed => reads(os, r[k].decl) && !reads(ns, r[k].decl),
        Status::Added => reads(ns, r[k].decl) && !reads(os, r[k].decl),
        Status::Same => reads(os, r[k].decl) && reads(ns, r[k].decl) && r[k].members.len() > 0,
        Status::Changed(_) => false,
    } by {
        lemma_last_reading_at(os, r[k].decl);
        lemma_last_reading_at(ns, r[k].decl);
    }
}

proof fn lemma_text_listed(os: Seq<SymbolTree>, ns: Seq<SymbolTree>, i: int, j: int) -> (m: int)
    requires
        0 <= i < os.len() || 0 <= j < ns.len(),
    ensures
        0 <= m < sorted_distinct(decls(os) + decls(ns)).len(),
        sorted_distinct(decls(os) + decls(ns))[m] == if 0 <= i < os.len() {
            os[i].decl
        } else {
            ns[j].decl
        },
{
    let both = decls(os) + decls(ns);
    law_sorted_distinct(both);
    let d = if 0 <= i < os.len() {
        assert(both[i] == os[i].decl);
        os[i].decl
    } else {
        assert(both[os.len() + j] == ns[j].decl);
        ns[j].decl
    };
    assert(both.contains(d));
    assert(sorted_distinct(both).contains(d));
    choose|m: int| 0 <= m < sorted_distinct(both).len() && sorted_distinct(both)[m] == d
}

proof fn lemma_keys_in_order(old: Seq<SymbolTree>, new: Seq<SymbolTree>, keys: Seq<Seq<char>>)
    requires
        strictly_increasing(keys),
    ensures
        ({
            let r = diff_keys(old, new, keys);
            &&& forall|a: int|
                0 <= a < r.len() ==> keys.contains(identity((#[trigger] r[a]).decl))
            &&& forall|a: int, b: int|
                0 <= a < b < r.len() ==> text_order(
                    identity((#[trigger] r[a]).decl),
                    identity((#[trigger] r[b]).decl),
                ) != Order::Greater
        }),
    decreases keys.len(),
{
    let r = diff_keys(old, new, keys);
    if keys.len() > 0 {
        let p = keys.drop_last();
        let last = keys.last();
        let h = diff_keys(old, new, p);
        let t = diff_key(old, new, last);
        assert forall|i: int, j: int| 0 <= i < j < p.len() implies text_order(p[i], p[j])
            == Order::Less by {
            assert(text_order(keys[i], keys[j]) == Order::Less);
        }
        lemma_keys_in_order(old, new, p);
        lemma_key_identity(old, new, last);
        assert forall|a: int| 0 <= a < r.len() implies keys.contains(
            identity((#[trigger] r[a]).decl),
        ) by {
            if a < h.len() {
                assert(r[a] == h[a]);
                let k = choose|k: int| 0 <= k < p.len() && p[k] == identity(h[a].decl);
                assert(keys[k] == identity(r[a].decl));
            } else {
                assert(r[a] == t[a - h.len()]);
                assert(keys[keys.len() - 1] == identity(r[a].decl));
            }
        }
        assert forall|a: int, b: int| 0 <= a < b < r.len() implies text_order(
            identity((#[trigger] r[a]).decl),
            identity((#[trigger] r[b]).decl),
        ) != Order::Greater by {
            if b < h.len() {
                assert(r[a] == h[a] && r[b] == h[b]);
            } else {
                assert(r[b] == t[b - h.len()]);
                if a < h.len() {
                    assert(r[a] == h[a]);
                    assert(p.contains(identity(h[a].decl)));
                    let k = choose|k: int| 0 <= k < p.len() && p[k] == identity(h[a].decl);
                    assert(text_order(keys[k], keys[keys.len() - 1]) == Order::Less);
                } else {
                    assert(r[a] == t[a - h.len()]);
                    lemma_text_order_flips(last, last);
                }
            }
        }
    }
}

/// A report lists its entries in the order of their identities, and each of
/// them has the identity of a declaration in one of the snapshots.
pub proof fn law_report_order(old: Seq<SymbolTree>, new: Seq<SymbolTree>)
    ensures
        ({
            let r = diff_forest(old, new);
            &&& forall|a: int, b: int|
                0 <= a < b < r.len() ==> text_order(
                    identity((#[trigger] r[a]).decl),
                    identity((#[trigger] r[b]).decl),
                ) != Order::Greater
            &&& forall|a: int|
                0 <= a < r.len() ==> (exists|i: int|
                    0 <= i < old.len() && identity((#[trigger] old[i]).decl) == identity(
                        (#[trigger] r[a]).decl,
                    )) || (exists|j: int|
                    0 <= j < new.len() && identity((#[trigger] new[j]).decl) == identity(
                        r[a].decl,
                    ))
        }),
{
    let r = diff_forest(old, new);
    let both = identities(old) + identities(new);
    law_sorted_distinct(both);
    lemma_keys_in_order(old, new, sorted_distinct(both));
    assert forall|a: int| 0 <= a < r.len() implies (exists|i: int|
        0 <= i < old.len() && identity((#[trigger] old[i]).decl) == identity(
            (#[trigger] r[a]).decl,
        )) || (exists|j: int|
        0 <= j < new.len() && identity((#[trigger] new[j]).decl) == identity(r[a].decl)) by {
        let key = identity(r[a].decl);
        assert(both.contains(key));
        let i = choose|i: int| 0 <= i < both.len() && both[i] == key;
        if i < old.len() {
            assert(identity(old[i].decl) == key);
        } else {
            assert(identity(new[i - old.len()].decl) == key);
        }
    }
}

} // verus!
