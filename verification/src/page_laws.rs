//! The links, the ids and the tags of a page.

use vstd::prelude::*;

use crate::html::{
    code_html, escaped, extensions_html, extensions_nav, group_open_html, leaf_html, link_html,
    module_id, modules_html, modules_nav, nav_html, navs_html, nodes_html, page_html, search_name,
};
use crate::html_assets::{lemma_css, lemma_js, CSS, JS};
use crate::html_laws::{
    group_ids, groups_ids, has_element, has_link, law_escaped, law_ids_distinct, law_links_lead,
    lemma_digits, lemma_occurs_add, lemma_occurs_around, list_ids, module_ids, node_ids, page_ids,
    reserved,
};
use crate::markup::{
    alone, count_of, counts, inert, lemma_alone_counts, lemma_alone_yields, lemma_counts_add,
    lemma_inert_counts, lemma_inert_yields, lemma_occurs_counted, lemma_once, lemma_refines,
    lemma_values_counted, lemma_whole, lemma_yields_add, may_start, values_of, yields,
};
use crate::model::{ExtensionTree, ModuleTree, PackageTree, SymbolTree};
use crate::symbol_name::short_name;
use crate::text::{decimal_digits, occurs_at, occurs_in, trimmed_end};

verus! {

/// What stands before the target of a link within the page.
pub open spec fn link_mark() -> Seq<char> {
    "href=\"#"@
}

/// What stands at the start of the id of a module, an extension group or a
/// declaration.
pub open spec fn id_mark() -> Seq<char> {
    " id=\"mod-"@
}

/// The targets of the links within a page, in their order.
pub open spec fn link_targets(page: Seq<char>) -> Seq<Seq<char>> {
    values_of(page, link_mark(), link_mark().len() as int)
}

/// The ids that start with `mod-` in a page, in their order.
pub open spec fn element_ids(page: Seq<char>) -> Seq<Seq<char>> {
    values_of(page, id_mark(), " id=\""@.len() as int)
}

/// Whether a text starts an element that a self-contained page has once, or
/// one that it does not have.
spec fn is_tag(p: Seq<char>) -> bool {
    p == "<script"@ || p == "<style"@ || p == "<link"@ || p == "<img"@
}

/// Whether a piece of a page holds the given links and ids, and none of the
/// tags, whatever comes after it.
spec fn part(s: Seq<char>, links: Seq<Seq<char>>, ids: Seq<Seq<char>>) -> bool {
    &&& yields(s, link_mark(), 7, links)
    &&& yields(s, id_mark(), 5, ids)
    &&& counts(s, "<script"@, 0)
    &&& counts(s, "<style"@, 0)
    &&& counts(s, "<link"@, 0)
    &&& counts(s, "<img"@, 0)
}

proof fn lemma_part_add(
    a: Seq<char>,
    la: Seq<Seq<char>>,
    ia: Seq<Seq<char>>,
    b: Seq<char>,
    lb: Seq<Seq<char>>,
    ib: Seq<Seq<char>>,
)
    requires
        part(a, la, ia),
        part(b, lb, ib),
    ensures
        part(a + b, la + lb, ia + ib),
{
    lemma_yields_add(a, la, b, lb, link_mark(), 7);
    lemma_yields_add(a, ia, b, ib, id_mark(), 5);
    lemma_counts_add(a, 0, b, 0, "<script"@);
    lemma_counts_add(a, 0, b, 0, "<style"@);
    lemma_counts_add(a, 0, b, 0, "<link"@);
    lemma_counts_add(a, 0, b, 0, "<img"@);
}

/// A piece before which another stands that holds nothing.
proof fn lemma_part_after(
    a: Seq<char>,
    b: Seq<char>,
    links: Seq<Seq<char>>,
    ids: Seq<Seq<char>>,
)
    requires
        part(a, seq![], seq![]),
        part(b, links, ids),
    ensures
        part(a + b, links, ids),
{
    lemma_part_add(a, seq![], seq![], b, links, ids);
    assert(Seq::<Seq<char>>::empty() + links =~= links);
    assert(Seq::<Seq<char>>::empty() + ids =~= ids);
}

/// A piece behind which another stands that holds nothing.
proof fn lemma_part_before(
    a: Seq<char>,
    b: Seq<char>,
    links: Seq<Seq<char>>,
    ids: Seq<Seq<char>>,
)
    requires
        part(a, links, ids),
        part(b, seq![], seq![]),
    ensures
        part(a + b, links, ids),
{
    lemma_part_add(a, links, ids, b, seq![], seq![]);
    assert(links + Seq::<Seq<char>>::empty() =~= links);
    assert(ids + Seq::<Seq<char>>::empty() =~= ids);
}

// Pieces that hold nothing.

/// Whether a text that is not markup holds nothing that could be taken for it.
spec fn mild(e: Seq<char>) -> bool {
    &&& forall|i: int| 0 <= i < e.len() && #[trigger] e[i] == '"' ==> i > 0 && e[i - 1] != '='
    &&& forall|i: int| 0 <= i < e.len() && #[trigger] e[i] == '<' ==> i + 1 < e.len() && e[i + 1] == 'd'
}

/// Whether a piece of markup may follow a text.
spec fn closes(m: Seq<char>) -> bool {
    &&& m.len() > 1
    &&& m[0] == '<' || (m[0] == '"' && (m[1] == ' ' || m[1] == '>'))
}

spec fn calm_link_at(m: Seq<char>, i: int) -> bool {
    m[i] == 'h' ==> i + 1 < m.len() && m[i + 1] != 'r'
}

spec fn calm_id_at(m: Seq<char>, i: int) -> bool {
    m[i] == ' ' ==> i + 1 < m.len() && (m[i + 1] != 'i' || (i + 2 < m.len() && (m[i + 2] != 'd' || (
    i + 5 < m.len() && m[i + 3] == '=' && m[i + 4] == '"' && m[i + 5] != 'm'))))
}

spec fn calm_tag_at(m: Seq<char>, i: int) -> bool {
    m[i] == '<' ==> {
        &&& i + 1 < m.len()
        &&& m[i + 1] == 's' ==> i + 2 < m.len() && (m[i + 2] == 'e' || m[i + 2] == 'u')
        &&& m[i + 1] == 'l' ==> i + 3 < m.len() && m[i + 2] == 'i' && m[i + 3] == '>'
        &&& m[i + 1] == 'i' ==> i + 2 < m.len() && m[i + 2] == 'n'
    }
}

/// Whether a piece of markup holds no link.
spec fn calm_link(m: Seq<char>) -> bool {
    forall|i: int| 0 <= i < m.len() ==> #[trigger] calm_link_at(m, i)
}

/// Whether a piece of markup holds no id that starts with `mod-`.
spec fn calm_id(m: Seq<char>) -> bool {
    forall|i: int| 0 <= i < m.len() ==> #[trigger] calm_id_at(m, i)
}

/// Whether a piece of markup holds none of the tags.
spec fn calm_tag(m: Seq<char>) -> bool {
    forall|i: int| 0 <= i < m.len() ==> #[trigger] calm_tag_at(m, i)
}

spec fn calm(m: Seq<char>) -> bool {
    calm_link(m) && calm_id(m) && calm_tag(m)
}

proof fn lemma_calm_link(m: Seq<char>)
    requires
        calm_link(m),
    ensures
        inert(m, link_mark()),
{
    let p = link_mark();
    reveal_strlit("href=\"#");
    assert forall|i: int| 0 <= i < m.len() implies !#[trigger] may_start(m, p, i) by {
        if may_start(m, p, i) {
            assert(calm_link_at(m, i));
            assert(m[i + 0] == p[0]);
            assert(m[i + 1] == p[1]);
        }
    }
}

proof fn lemma_calm_id(m: Seq<char>)
    requires
        calm_id(m),
    ensures
        inert(m, id_mark()),
{
    let p = id_mark();
    reveal_strlit(" id=\"mod-");
    assert forall|i: int| 0 <= i < m.len() implies !#[trigger] may_start(m, p, i) by {
        if may_start(m, p, i) {
            assert(calm_id_at(m, i));
            assert(m[i + 0] == p[0]);
            assert(m[i + 1] == p[1]);
            assert(i + 2 < m.len() ==> m[i + 2] == p[2]);
            assert(i + 5 < m.len() ==> m[i + 5] == p[5]);
        }
    }
}

proof fn lemma_calm_tag(m: Seq<char>, p: Seq<char>)
    requires
        calm_tag(m),
        is_tag(p),
    ensures
        inert(m, p),
{
    reveal_strlit("<script");
    reveal_strlit("<style");
    reveal_strlit("<link");
    reveal_strlit("<img");
    assert forall|i: int| 0 <= i < m.len() implies !#[trigger] may_start(m, p, i) by {
        if may_start(m, p, i) {
            assert(calm_tag_at(m, i));
            assert(m[i + 0] == p[0]);
            assert(m[i + 1] == p[1]);
            assert(i + 2 < m.len() ==> m[i + 2] == p[2]);
            assert(p.len() > 3 && i + 3 < m.len() ==> m[i + 3] == p[3]);
        }
    }
}

proof fn lemma_may_start_shift(a: Seq<char>, b: Seq<char>, p: Seq<char>, i: int)
    requires
        a.len() <= i < (a + b).len(),
        may_start(a + b, p, i),
    ensures
        may_start(b, p, i - a.len()),
{
    let j = i - a.len();
    assert forall|k: int| 0 <= k < p.len() && j + k < b.len() implies b[j + k]
        == #[trigger] p[k] by {
        assert((a + b)[i + k] == b[j + k]);
    }
}

/// A text and the markup behind it hold no more of `p` than the markup does.
proof fn lemma_text_inert(e: Seq<char>, m: Seq<char>, p: Seq<char>)
    requires
        mild(e),
        closes(m),
        inert(m, p),
        p == link_mark() || p == id_mark() || is_tag(p),
    ensures
        inert(e + m, p),
{
    let s = e + m;
    reveal_strlit("href=\"#");
    reveal_strlit(" id=\"mod-");
    reveal_strlit("<script");
    reveal_strlit("<style");
    reveal_strlit("<link");
    reveal_strlit("<img");
    assert forall|i: int| 0 <= i < s.len() implies !#[trigger] may_start(s, p, i) by {
        if may_start(s, p, i) {
            if i >= e.len() {
                lemma_may_start_shift(e, m, p, i);
                assert(!may_start(m, p, i - e.len()));
            } else if is_tag(p) {
                assert(s[i + 0] == p[0]);
                assert(s[i] == e[i]);
                assert(s[i + 1] == p[1]);
                assert(s[i + 1] == e[i + 1]);
            } else {
                let q: int = if p == link_mark() {
                    5
                } else {
                    4
                };
                let k = e.len() - i;
                if k < p.len() {
                    assert(s[i + k] == p[k]);
                    assert(s[i + k] == m[0]);
                    assert(k == q);
                    assert(s[i + (q + 1)] == p[q + 1]);
                    assert(s[i + (q + 1)] == m[1]);
                } else {
                    assert(s[i + q] == p[q]);
                    assert(s[i + (q - 1)] == p[q - 1]);
                    assert(e[i + q] == '"');
                    assert(e[i + q - 1] == '=');
                }
            }
        }
    }
}

proof fn lemma_part_inert(s: Seq<char>)
    requires
        inert(s, link_mark()),
        inert(s, id_mark()),
        inert(s, "<script"@),
        inert(s, "<style"@),
        inert(s, "<link"@),
        inert(s, "<img"@),
    ensures
        part(s, seq![], seq![]),
{
    lemma_inert_yields(s, link_mark(), 7);
    lemma_inert_yields(s, id_mark(), 5);
    lemma_inert_counts(s, "<script"@);
    lemma_inert_counts(s, "<style"@);
    lemma_inert_counts(s, "<link"@);
    lemma_inert_counts(s, "<img"@);
}

/// A piece of markup that holds nothing.
proof fn lemma_part_calm(m: Seq<char>)
    requires
        calm(m),
    ensures
        part(m, seq![], seq![]),
{
    lemma_calm_link(m);
    lemma_calm_id(m);
    lemma_calm_tag(m, "<script"@);
    lemma_calm_tag(m, "<style"@);
    lemma_calm_tag(m, "<link"@);
    lemma_calm_tag(m, "<img"@);
    lemma_part_inert(m);
}

/// A text and the markup behind it.
proof fn lemma_part_text(e: Seq<char>, m: Seq<char>)
    requires
        mild(e),
        closes(m),
        calm(m),
    ensures
        part(e + m, seq![], seq![]),
{
    lemma_calm_link(m);
    lemma_calm_id(m);
    lemma_calm_tag(m, "<script"@);
    lemma_calm_tag(m, "<style"@);
    lemma_calm_tag(m, "<link"@);
    lemma_calm_tag(m, "<img"@);
    lemma_text_inert(e, m, link_mark());
    lemma_text_inert(e, m, id_mark());
    lemma_text_inert(e, m, "<script"@);
    lemma_text_inert(e, m, "<style"@);
    lemma_text_inert(e, m, "<link"@);
    lemma_text_inert(e, m, "<img"@);
    lemma_part_inert(e + m);
}

proof fn lemma_escaped_mild(s: Seq<char>)
    ensures
        mild(escaped(s)),
{
    law_escaped(s);
    assert forall|i: int| 0 <= i < escaped(s).len() implies escaped(s)[i] != '"' && escaped(s)[i]
        != '<' by {
        assert(!reserved(escaped(s)[i]));
    }
}

// Ids.

/// Whether a text can be the id of an element: it needs no escape, and starts
/// with `mod-`.
spec fn good_id(id: Seq<char>) -> bool {
    &&& safe(id)
    &&& id.len() >= 4
    &&& id[0] == 'm' && id[1] == 'o' && id[2] == 'd' && id[3] == '-'
}

spec fn safe(s: Seq<char>) -> bool {
    forall|i: int| 0 <= i < s.len() ==> !reserved(#[trigger] s[i]) && s[i] != '&'
}

proof fn lemma_safe_escaped(s: Seq<char>)
    requires
        safe(s),
    ensures
        escaped(s) == s,
    decreases s.len(),
{
    if s.len() > 0 {
        assert(safe(s.drop_last())) by {
            assert forall|i: int| 0 <= i < s.drop_last().len() implies !reserved(
                #[trigger] s.drop_last()[i],
            ) && s.drop_last()[i] != '&' by {
                assert(!reserved(s[i]));
            }
        }
        lemma_safe_escaped(s.drop_last());
        assert(!reserved(s[s.len() - 1]));
        assert(escaped(s) =~= s);
    }
}

/// An id, a step and a number make an id.
proof fn lemma_good_step(id: Seq<char>, step: Seq<char>, n: nat)
    requires
        good_id(id),
        step == "-m"@ || step == "-s"@ || step == "-e"@,
    ensures
        good_id(id + step + decimal_digits(n)),
{
    reveal_strlit("-m");
    reveal_strlit("-s");
    reveal_strlit("-e");
    lemma_digits(n);
    let r = id + step + decimal_digits(n);
    assert forall|i: int| 0 <= i < r.len() implies !reserved(#[trigger] r[i]) && r[i] != '&' by {
        if i < id.len() {
            assert(!reserved(id[i]));
            assert(r[i] == id[i]);
        } else if i < id.len() + step.len() {
            assert(r[i] == step[i - id.len()]);
        } else {
            assert(r[i] == decimal_digits(n)[i - id.len() - step.len()]);
        }
    }
    assert(r[0] == id[0] && r[1] == id[1] && r[2] == id[2] && r[3] == id[3]);
}

proof fn lemma_good_module(n: nat)
    ensures
        good_id(module_id(n)),
{
    reveal_strlit("mod-");
    lemma_digits(n);
    let r = module_id(n);
    assert forall|i: int| 0 <= i < r.len() implies !reserved(#[trigger] r[i]) && r[i] != '&' by {
        if i >= 4 {
            assert(r[i] == decimal_digits(n)[i - 4]);
        }
    }
}

// Pieces with a link or an id.

/// The start of a link, with the id behind it.
proof fn lemma_part_link(id: Seq<char>, m: Seq<char>)
    requires
        good_id(id),
        closes(m),
        m[0] == '"',
        calm(m),
    ensures
        part("<li><a href=\"#"@ + id + m, seq![id], seq![]),
{
    let front = "<li><a href=\"#"@;
    let p = link_mark();
    reveal_strlit("<li><a href=\"#");
    reveal_strlit("href=\"#");
    lemma_safe_escaped(id);
    lemma_escaped_mild(id);
    lemma_part_text(id, m);
    lemma_calm_link(m);
    lemma_text_inert(id, m, p);
    let rest = id + m;
    let a = front + rest;
    assert(front + id + m =~= a);
    assert forall|i: int| 0 <= i < a.len() && i != 7 implies !#[trigger] may_start(a, p, i) by {
        if may_start(a, p, i) {
            if i >= front.len() {
                lemma_may_start_shift(front, rest, p, i);
                assert(!may_start(rest, p, i - front.len()));
            } else {
                assert(a[i + 0] == p[0]);
                assert(a[i] == front[i]);
            }
        }
    }
    assert(a.subrange(7, 7int + p.len()) =~= p);
    assert(alone(a, p, 7));
    assert(a.subrange(14, 14int + id.len()) =~= id);
    assert(!id.contains('"')) by {
        if id.contains('"') {
            let i = choose|i: int| 0 <= i < id.len() && id[i] == '"';
            assert(!reserved(id[i]));
        }
    }
    assert(a[14int + id.len()] == m[0]);
    lemma_alone_yields(a, p, 7, 7, id);
    assert(calm_id(front));
    assert(calm_tag(front));
    lemma_calm_id(front);
    lemma_inert_yields(front, id_mark(), 5);
    lemma_yields_add(front, seq![], rest, seq![], id_mark(), 5);
    assert(Seq::<Seq<char>>::empty() + Seq::<Seq<char>>::empty() =~= Seq::<Seq<char>>::empty());
    lemma_tags_before(front, rest);
}

/// No tags in markup that holds none, and in a piece behind it.
proof fn lemma_tags_before(front: Seq<char>, rest: Seq<char>)
    requires
        calm_tag(front),
        part(rest, seq![], seq![]),
    ensures
        counts(front + rest, "<script"@, 0),
        counts(front + rest, "<style"@, 0),
        counts(front + rest, "<link"@, 0),
        counts(front + rest, "<img"@, 0),
{
    lemma_tag_before(front, rest, "<script"@);
    lemma_tag_before(front, rest, "<style"@);
    lemma_tag_before(front, rest, "<link"@);
    lemma_tag_before(front, rest, "<img"@);
}

proof fn lemma_tag_before(front: Seq<char>, rest: Seq<char>, p: Seq<char>)
    requires
        calm_tag(front),
        is_tag(p),
        counts(rest, p, 0),
    ensures
        counts(front + rest, p, 0),
{
    lemma_calm_tag(front, p);
    lemma_inert_counts(front, p);
    lemma_counts_add(front, 0, rest, 0, p);
}

/// Whether markup ends with the start of an id, and holds no other.
spec fn opens_id(front: Seq<char>) -> bool {
    let n = front.len() - 5;
    &&& n >= 0
    &&& front[n] == ' ' && front[n + 1] == 'i' && front[n + 2] == 'd' && front[n + 3] == '='
        && front[n + 4] == '"'
    &&& forall|i: int| 0 <= i < n ==> #[trigger] calm_id_at(front, i)
    &&& calm_link(front)
    &&& calm_tag(front)
}

/// The start of an element, with its id.
proof fn lemma_part_id(front: Seq<char>, id: Seq<char>, m: Seq<char>)
    requires
        opens_id(front),
        good_id(id),
        closes(m),
        m[0] == '"',
        calm(m),
    ensures
        part(front + id + m, seq![], seq![id]),
{
    let p = id_mark();
    let n = front.len() - 5;
    reveal_strlit(" id=\"mod-");
    lemma_safe_escaped(id);
    lemma_escaped_mild(id);
    lemma_part_text(id, m);
    lemma_calm_id(m);
    lemma_text_inert(id, m, p);
    let rest = id + m;
    let a = front + rest;
    assert(front + id + m =~= a);
    assert forall|i: int| 0 <= i < a.len() && i != n implies !#[trigger] may_start(a, p, i) by {
        if may_start(a, p, i) {
            if i >= front.len() {
                lemma_may_start_shift(front, rest, p, i);
                assert(!may_start(rest, p, i - front.len()));
            } else {
                assert(a[i + 0] == p[0]);
                assert(a[i] == front[i]);
                if i < n {
                    assert(calm_id_at(front, i));
                    assert(a[i + 1] == p[1]);
                    assert(a[i + 1] == front[i + 1]);
                    assert(a[i + 2] == p[2]);
                    assert(a[i + 2] == front[i + 2]);
                    assert(a[i + 5] == p[5]);
                    assert(i + 5 < front.len() ==> a[i + 5] == front[i + 5]);
                }
            }
        }
    }
    assert(a.subrange(n, n + p.len()) =~= p) by {
        assert forall|k: int| 0 <= k < p.len() implies a.subrange(n, n + p.len())[k] == p[k] by {
            if k < 5 {
                assert(a[n + k] == front[n + k]);
            } else {
                assert(a[n + k] == id[k - 5]);
            }
        }
    }
    assert(alone(a, p, n));
    assert(a.subrange(n + 5, n + 5 + id.len()) =~= id);
    assert(!id.contains('"')) by {
        if id.contains('"') {
            let i = choose|i: int| 0 <= i < id.len() && id[i] == '"';
            assert(!reserved(id[i]));
        }
    }
    assert(a[n + 5 + id.len()] == m[0]);
    lemma_alone_yields(a, p, 5, n, id);
    lemma_calm_link(front);
    lemma_inert_yields(front, link_mark(), 7);
    lemma_yields_add(front, seq![], rest, seq![], link_mark(), 7);
    assert(Seq::<Seq<char>>::empty() + Seq::<Seq<char>>::empty() =~= Seq::<Seq<char>>::empty());
    lemma_tags_before(front, rest);
}


// The pieces of a page, one by one.

proof fn lemma_leaf_part(id: Seq<char>, name: Seq<char>, decl: Seq<char>)
    requires
        good_id(id),
    ensures
        part(leaf_html(id, name, decl), seq![], seq![id]),
{
    let front = "<div class=\"sym leaf\" id=\""@;
    let a = "\" data-name=\""@;
    let b = "\"><pre><code>"@;
    let c = "</code></pre></div>\n"@;
    reveal_strlit("<div class=\"sym leaf\" id=\"");
    reveal_strlit("\" data-name=\"");
    reveal_strlit("\"><pre><code>");
    reveal_strlit("</code></pre></div>\n");
    lemma_safe_escaped(id);
    lemma_escaped_mild(name);
    lemma_escaped_mild(trimmed_end(decl));
    lemma_part_id(front, id, a);
    lemma_part_text(escaped(name), b);
    lemma_part_text(code_html(decl), c);
    let x = front + id + a;
    let y = escaped(name) + b;
    let z = code_html(decl) + c;
    lemma_part_before(x, y, seq![], seq![id]);
    lemma_part_before(x + y, z, seq![], seq![id]);
    assert(leaf_html(id, name, decl) =~= x + y + z);
}

proof fn lemma_group_part(id: Seq<char>, name: Seq<char>, decl: Seq<char>)
    requires
        good_id(id),
    ensures
        part(group_open_html(id, name, decl), seq![], seq![id]),
{
    let front = "<details class=\"sym\" id=\""@;
    let a = "\" data-name=\""@;
    let b = "\" open><summary><pre><code>"@;
    let c = "</code></pre></summary><div class=\"children\">\n"@;
    reveal_strlit("<details class=\"sym\" id=\"");
    reveal_strlit("\" data-name=\"");
    reveal_strlit("\" open><summary><pre><code>");
    reveal_strlit("</code></pre></summary><div class=\"children\">\n");
    lemma_safe_escaped(id);
    lemma_escaped_mild(name);
    lemma_escaped_mild(trimmed_end(decl));
    lemma_part_id(front, id, a);
    lemma_part_text(escaped(name), b);
    lemma_part_text(code_html(decl), c);
    let x = front + id + a;
    let y = escaped(name) + b;
    let z = code_html(decl) + c;
    lemma_part_before(x, y, seq![], seq![id]);
    lemma_part_before(x + y, z, seq![], seq![id]);
    assert(group_open_html(id, name, decl) =~= x + y + z);
}

proof fn lemma_link_part(id: Seq<char>, text: Seq<char>)
    requires
        good_id(id),
    ensures
        part(link_html(id, text), seq![id], seq![]),
{
    let a = "\">"@;
    let b = "</a>"@;
    reveal_strlit("\">");
    reveal_strlit("</a>");
    lemma_safe_escaped(id);
    lemma_escaped_mild(text);
    lemma_part_link(id, a);
    lemma_part_text(escaped(text), b);
    let x = "<li><a href=\"#"@ + id + a;
    let y = escaped(text) + b;
    lemma_part_before(x, y, seq![id], seq![]);
    assert(link_html(id, text) =~= x + y);
}

proof fn lemma_empty_part()
    ensures
        part(seq![], seq![], seq![]),
{
    lemma_part_calm(seq![]);
}

proof fn lemma_node_part(t: SymbolTree, id: Seq<char>)
    requires
        good_id(id),
    ensures
        part(t.html(id), seq![], node_ids(t, id)),
    decreases t, 1nat,
{
    let name = search_name(t.decl);
    let inner = list_ids(t.members, id + "-m"@);
    if t.members.len() == 0 {
        lemma_leaf_part(id, name, t.decl);
        assert(inner =~= Seq::<Seq<char>>::empty());
        assert(node_ids(t, id) =~= seq![id]);
    } else {
        let open = group_open_html(id, name, t.decl);
        let members = nodes_html(t.members, id + "-m"@);
        let end = "</div></details>\n"@;
        reveal_strlit("</div></details>\n");
        lemma_group_part(id, name, t.decl);
        lemma_list_part(t.members, id, "-m"@);
        lemma_part_calm(end);
        lemma_part_add(open, seq![], seq![id], members, seq![], inner);
        assert(Seq::<Seq<char>>::empty() + Seq::<Seq<char>>::empty() =~= seq![]);
        lemma_part_before(open + members, end, seq![], seq![id] + inner);
    }
}

proof fn lemma_list_part(f: Seq<SymbolTree>, id: Seq<char>, step: Seq<char>)
    requires
        good_id(id),
        step == "-m"@ || step == "-s"@,
    ensures
        part(nodes_html(f, id + step), seq![], list_ids(f, id + step)),
    decreases f, 0nat,
{
    let prefix = id + step;
    if f.len() > 0 {
        let p = f.drop_last();
        let n = (f.len() - 1) as nat;
        lemma_list_part(p, id, step);
        lemma_good_step(id, step, n);
        assert(decreases_to!(f => f[f.len() - 1]));
        lemma_node_part(f.last(), prefix + decimal_digits(n));
        lemma_part_add(
            nodes_html(p, prefix),
            seq![],
            list_ids(p, prefix),
            f.last().html(prefix + decimal_digits(n)),
            seq![],
            node_ids(f.last(), prefix + decimal_digits(n)),
        );
        assert(Seq::<Seq<char>>::empty() + Seq::<Seq<char>>::empty() =~= seq![]);
    } else {
        lemma_empty_part();
    }
}

proof fn lemma_nav_part(t: SymbolTree, id: Seq<char>)
    requires
        good_id(id),
    ensures
        part(t.nav(id), node_ids(t, id), seq![]),
    decreases t, 1nat,
{
    let link = link_html(id, short_name(t.decl));
    let inner = list_ids(t.members, id + "-m"@);
    lemma_link_part(id, short_name(t.decl));
    if t.members.len() == 0 {
        reveal_strlit("</li>\n");
        lemma_part_calm("</li>\n"@);
        lemma_part_before(link, "</li>\n"@, seq![id], seq![]);
        assert(inner =~= Seq::<Seq<char>>::empty());
        assert(node_ids(t, id) =~= seq![id]);
    } else {
        let entries = navs_html(t.members, id + "-m"@);
        reveal_strlit("<ul>\n");
        reveal_strlit("</ul></li>\n");
        lemma_part_calm("<ul>\n"@);
        lemma_part_calm("</ul></li>\n"@);
        lemma_navs_part(t.members, id, "-m"@);
        lemma_part_before(link, "<ul>\n"@, seq![id], seq![]);
        lemma_part_add(link + "<ul>\n"@, seq![id], seq![], entries, inner, seq![]);
        assert(Seq::<Seq<char>>::empty() + Seq::<Seq<char>>::empty() =~= seq![]);
        lemma_part_before(
            link + "<ul>\n"@ + entries,
            "</ul></li>\n"@,
            seq![id] + inner,
            seq![],
        );
    }
}

proof fn lemma_navs_part(f: Seq<SymbolTree>, id: Seq<char>, step: Seq<char>)
    requires
        good_id(id),
        step == "-m"@ || step == "-s"@,
    ensures
        part(navs_html(f, id + step), list_ids(f, id + step), seq![]),
    decreases f, 0nat,
{
    let prefix = id + step;
    if f.len() > 0 {
        let p = f.drop_last();
        let n = (f.len() - 1) as nat;
        lemma_navs_part(p, id, step);
        lemma_good_step(id, step, n);
        assert(decreases_to!(f => f[f.len() - 1]));
        lemma_nav_part(f.last(), prefix + decimal_digits(n));
        lemma_part_add(
            navs_html(p, prefix),
            list_ids(p, prefix),
            seq![],
            f.last().nav(prefix + decimal_digits(n)),
            node_ids(f.last(), prefix + decimal_digits(n)),
            seq![],
        );
        assert(Seq::<Seq<char>>::empty() + Seq::<Seq<char>>::empty() =~= seq![]);
    } else {
        lemma_empty_part();
    }
}

proof fn lemma_extension_part(e: ExtensionTree, id: Seq<char>)
    requires
        good_id(id),
    ensures
        part(e.html(id), seq![], group_ids(e, id)),
{
    let front = "<section class=\"ext\" id=\""@;
    let a = "\"><h3>Extensions to <code>"@;
    let b = "</code></h3>\n<div class=\"symbols\">\n"@;
    let end = "</div></section>\n"@;
    reveal_strlit("<section class=\"ext\" id=\"");
    reveal_strlit("\"><h3>Extensions to <code>");
    reveal_strlit("</code></h3>\n<div class=\"symbols\">\n");
    reveal_strlit("</div></section>\n");
    let inner = list_ids(e.symbols, id + "-s"@);
    let x = front + id + a;
    let y = escaped(e.extended_module) + b;
    let z = nodes_html(e.symbols, id + "-s"@);
    lemma_safe_escaped(id);
    lemma_escaped_mild(e.extended_module);
    lemma_part_id(front, id, a);
    lemma_part_text(escaped(e.extended_module), b);
    lemma_list_part(e.symbols, id, "-s"@);
    lemma_part_calm(end);
    lemma_part_before(x, y, seq![], seq![id]);
    lemma_part_add(x + y, seq![], seq![id], z, seq![], inner);
    assert(Seq::<Seq<char>>::empty() + Seq::<Seq<char>>::empty() =~= seq![]);
    lemma_part_before(x + y + z, end, seq![], seq![id] + inner);
    assert(e.html(id) =~= x + y + z + end);
}

proof fn lemma_extension_nav_part(e: ExtensionTree, id: Seq<char>)
    requires
        good_id(id),
    ensures
        part(e.nav(id), group_ids(e, id), seq![]),
{
    let a = "\">ext:"@;
    let b = "</a>\n<ul>\n"@;
    let end = "</ul></li>\n"@;
    reveal_strlit("\">ext: ");
    reveal_strlit("\">ext:");
    reveal_strlit(" ");
    reveal_strlit("</a>\n<ul>\n");
    reveal_strlit("</ul></li>\n");
    assert("\">ext: "@ =~= a + " "@);
    let inner = list_ids(e.symbols, id + "-s"@);
    let name = " "@ + escaped(e.extended_module);
    lemma_safe_escaped(id);
    law_escaped(e.extended_module);
    assert(mild(name)) by {
        assert forall|i: int| 0 <= i < name.len() implies name[i] != '"' && name[i] != '<' by {
            if i > 0 {
                assert(!reserved(escaped(e.extended_module)[i - 1]));
            }
        }
    }
    let x = "<li><a href=\"#"@ + id + a;
    let y = name + b;
    let z = navs_html(e.symbols, id + "-s"@);
    lemma_part_link(id, a);
    lemma_part_text(name, b);
    lemma_navs_part(e.symbols, id, "-s"@);
    lemma_part_calm(end);
    lemma_part_before(x, y, seq![id], seq![]);
    lemma_part_add(x + y, seq![id], seq![], z, inner, seq![]);
    assert(Seq::<Seq<char>>::empty() + Seq::<Seq<char>>::empty() =~= seq![]);
    lemma_part_before(x + y + z, end, seq![id] + inner, seq![]);
    assert(e.nav(id) =~= x + y + z + end);
}

proof fn lemma_extensions_part(f: Seq<ExtensionTree>, id: Seq<char>)
    requires
        good_id(id),
    ensures
        part(extensions_html(f, id + "-e"@), seq![], groups_ids(f, id + "-e"@)),
        part(extensions_nav(f, id + "-e"@), groups_ids(f, id + "-e"@), seq![]),
    decreases f.len(),
{
    let prefix = id + "-e"@;
    if f.len() > 0 {
        let p = f.drop_last();
        let e = f.last();
        let n = (f.len() - 1) as nat;
        let own = prefix + decimal_digits(n);
        lemma_extensions_part(p, id);
        lemma_good_step(id, "-e"@, n);
        lemma_extension_part(e, own);
        lemma_extension_nav_part(e, own);
        lemma_part_add(
            extensions_html(p, prefix),
            seq![],
            groups_ids(p, prefix),
            e.html(own),
            seq![],
            group_ids(e, own),
        );
        lemma_part_add(
            extensions_nav(p, prefix),
            groups_ids(p, prefix),
            seq![],
            e.nav(own),
            group_ids(e, own),
            seq![],
        );
        assert(Seq::<Seq<char>>::empty() + Seq::<Seq<char>>::empty() =~= seq![]);
    } else {
        lemma_empty_part();
    }
}

proof fn lemma_module_part(m: ModuleTree, id: Seq<char>)
    requires
        good_id(id),
    ensures
        part(m.html(id), seq![], module_ids(m, id)),
{
    let none = Seq::<Seq<char>>::empty();
    let front = "<section class=\"module\" id=\""@;
    let a = "\"><h2>"@;
    let b = "</h2>\n"@;
    let end = "</section>\n"@;
    reveal_strlit("<section class=\"module\" id=\"");
    reveal_strlit("\"><h2>");
    reveal_strlit("</h2>\n");
    reveal_strlit("</section>\n");
    reveal_strlit("<div class=\"symbols\">\n");
    reveal_strlit("</div>\n");
    let own = list_ids(m.symbols, id + "-s"@);
    let body = nodes_html(m.symbols, id + "-s"@);
    let symbols = if m.symbols.len() > 0 {
        "<div class=\"symbols\">\n"@ + body + "</div>\n"@
    } else {
        seq![]
    };
    lemma_safe_escaped(id);
    lemma_escaped_mild(m.name);
    lemma_part_id(front, id, a);
    lemma_part_text(escaped(m.name), b);
    if m.symbols.len() > 0 {
        lemma_part_calm("<div class=\"symbols\">\n"@);
        lemma_part_calm("</div>\n"@);
        lemma_list_part(m.symbols, id, "-s"@);
        lemma_part_after("<div class=\"symbols\">\n"@, body, none, own);
        lemma_part_before("<div class=\"symbols\">\n"@ + body, "</div>\n"@, none, own);
    } else {
        lemma_empty_part();
        assert(own =~= none);
    }
    lemma_extensions_part(m.extensions, id);
    lemma_part_calm(end);
    let x = front + id + a;
    let y = escaped(m.name) + b;
    let z = extensions_html(m.extensions, id + "-e"@);
    let groups = groups_ids(m.extensions, id + "-e"@);
    lemma_part_before(x, y, none, seq![id]);
    lemma_part_add(x + y, none, seq![id], symbols, none, own);
    assert(none + none =~= none);
    lemma_part_add(x + y + symbols, none, seq![id] + own, z, none, groups);
    lemma_part_before(x + y + symbols + z, end, none, seq![id] + own + groups);
    assert(m.html(id) =~= x + y + symbols + z + end);
}

proof fn lemma_module_nav_part(m: ModuleTree, id: Seq<char>)
    requires
        good_id(id),
    ensures
        part(m.nav(id), module_ids(m, id), seq![]),
{
    let none = Seq::<Seq<char>>::empty();
    let end = "</li>\n"@;
    reveal_strlit("\n");
    reveal_strlit("</li>\n");
    reveal_strlit("<ul>\n");
    reveal_strlit("</ul>\n");
    let own = list_ids(m.symbols, id + "-s"@);
    let entries = navs_html(m.symbols, id + "-s"@);
    let symbols = if m.symbols.len() > 0 {
        "<ul>\n"@ + entries + "</ul>\n"@
    } else {
        seq![]
    };
    let x = link_html(id, m.name);
    let z = extensions_nav(m.extensions, id + "-e"@);
    let groups = groups_ids(m.extensions, id + "-e"@);
    lemma_link_part(id, m.name);
    lemma_part_calm("\n"@);
    if m.symbols.len() > 0 {
        lemma_part_calm("<ul>\n"@);
        lemma_part_calm("</ul>\n"@);
        lemma_navs_part(m.symbols, id, "-s"@);
        lemma_part_after("<ul>\n"@, entries, own, none);
        lemma_part_before("<ul>\n"@ + entries, "</ul>\n"@, own, none);
    } else {
        lemma_empty_part();
        assert(own =~= none);
    }
    lemma_extensions_part(m.extensions, id);
    lemma_part_calm(end);
    lemma_part_before(x, "\n"@, seq![id], none);
    lemma_part_add(x + "\n"@, seq![id], none, symbols, own, none);
    assert(none + none =~= none);
    lemma_part_add(x + "\n"@ + symbols, seq![id] + own, none, z, groups, none);
    lemma_part_before(x + "\n"@ + symbols + z, end, seq![id] + own + groups, none);
}

proof fn lemma_modules_part(f: Seq<ModuleTree>)
    ensures
        part(modules_html(f), seq![], page_ids(f)),
        part(modules_nav(f), page_ids(f), seq![]),
    decreases f.len(),
{
    if f.len() > 0 {
        let p = f.drop_last();
        let m = f.last();
        let id = module_id((f.len() - 1) as nat);
        lemma_modules_part(p);
        lemma_good_module((f.len() - 1) as nat);
        lemma_module_part(m, id);
        lemma_module_nav_part(m, id);
        lemma_part_add(
            modules_html(p),
            seq![],
            page_ids(p),
            m.html(id),
            seq![],
            module_ids(m, id),
        );
        lemma_part_add(
            modules_nav(p),
            page_ids(p),
            seq![],
            m.nav(id),
            module_ids(m, id),
            seq![],
        );
        assert(Seq::<Seq<char>>::empty() + Seq::<Seq<char>>::empty() =~= seq![]);
    } else {
        lemma_empty_part();
    }
}

// The whole page.

/// The page up to the style sheet.
spec fn page_start(p: PackageTree) -> Seq<char> {
    "<!DOCTYPE html>\n<html lang=\"en\">\n<head>\n<meta charset=\"utf-8\">\n<title>"@ + escaped(
        p.package + " – Public API"@,
    ) + "</title>\n"@
}

/// The page between the style sheet's start and the script's.
spec fn page_middle(p: PackageTree) -> Seq<char> {
    CSS@ + "</style>\n</head>\n<body>\n<header>\n  <h1>"@ + escaped(p.package)
        + "</h1>\n  <p class=\"meta\">Access level: <code>"@ + escaped(p.access_level)
        + "</code></p>\n  <input type=\"search\" id=\"filter\" placeholder=\"Filter symbols…\" autocomplete=\"off\" autofocus>\n</header>\n<div class=\"layout\">\n  <nav id=\"nav\">"@
        + nav_html(p) + "</nav>\n  <main>"@ + modules_html(p.modules) + "</main>\n</div>\n"@
}

/// The page from the script on.
spec fn page_end() -> Seq<char> {
    JS@ + "</script>\n</body>\n</html>\n"@
}

proof fn lemma_start_part(p: PackageTree)
    ensures
        part(page_start(p), seq![], seq![]),
{
    let a = "<!DOCTYPE html>\n<html lang=\"en\">\n<head>\n<meta charset=\"utf-8\">\n<title>"@;
    let e = escaped(p.package + " – Public API"@);
    let b = "</title>\n"@;
    reveal_strlit(
        "<!DOCTYPE html>\n<html lang=\"en\">\n<head>\n<meta charset=\"utf-8\">\n<title>",
    );
    reveal_strlit("</title>\n");
    lemma_escaped_mild(p.package + " – Public API"@);
    lemma_part_calm(a);
    lemma_part_text(e, b);
    lemma_part_after(a, e + b, seq![], seq![]);
    assert(page_start(p) =~= a + (e + b));
}

proof fn lemma_header_calm()
    ensures
        calm(
            "</code></p>\n  <input type=\"search\" id=\"filter\" placeholder=\"Filter symbols…\" autocomplete=\"off\" autofocus>\n</header>\n<div class=\"layout\">\n  <nav id=\"nav\">"@,
        ),
        closes(
            "</code></p>\n  <input type=\"search\" id=\"filter\" placeholder=\"Filter symbols…\" autocomplete=\"off\" autofocus>\n</header>\n<div class=\"layout\">\n  <nav id=\"nav\">"@,
        ),
{
    reveal_strlit(
        "</code></p>\n  <input type=\"search\" id=\"filter\" placeholder=\"Filter symbols…\" autocomplete=\"off\" autofocus>\n</header>\n<div class=\"layout\">\n  <nav id=\"nav\">",
    );
}

proof fn lemma_middle_part(p: PackageTree)
    ensures
        part(page_middle(p), page_ids(p.modules), page_ids(p.modules)),
{
    let none = Seq::<Seq<char>>::empty();
    let ids = page_ids(p.modules);
    let a = "</style>\n</head>\n<body>\n<header>\n  <h1>"@;
    let b = "</h1>\n  <p class=\"meta\">Access level: <code>"@;
    let c =
        "</code></p>\n  <input type=\"search\" id=\"filter\" placeholder=\"Filter symbols…\" autocomplete=\"off\" autofocus>\n</header>\n<div class=\"layout\">\n  <nav id=\"nav\">"@;
    let d = "</nav>\n  <main>"@;
    let end = "</main>\n</div>\n"@;
    reveal_strlit("</style>\n</head>\n<body>\n<header>\n  <h1>");
    reveal_strlit("</h1>\n  <p class=\"meta\">Access level: <code>");
    reveal_strlit("</nav>\n  <main>");
    reveal_strlit("</main>\n</div>\n");
    reveal_strlit("<ul class=\"nav-root\">\n");
    reveal_strlit("</ul>\n");
    lemma_header_calm();
    lemma_css();
    lemma_escaped_mild(p.package);
    lemma_escaped_mild(p.access_level);
    lemma_part_text(CSS@, a);
    lemma_part_text(escaped(p.package), b);
    lemma_part_text(escaped(p.access_level), c);
    lemma_part_calm(d);
    lemma_part_calm(end);
    lemma_part_calm("<ul class=\"nav-root\">\n"@);
    lemma_part_calm("</ul>\n"@);
    lemma_modules_part(p.modules);
    let nav = modules_nav(p.modules);
    let body = modules_html(p.modules);
    lemma_part_after("<ul class=\"nav-root\">\n"@, nav, ids, none);
    lemma_part_before("<ul class=\"nav-root\">\n"@ + nav, "</ul>\n"@, ids, none);
    let x = CSS@ + a;
    let y = escaped(p.package) + b;
    let z = escaped(p.access_level) + c;
    lemma_part_before(x, y, none, none);
    lemma_part_before(x + y, z, none, none);
    lemma_part_after(x + y + z, nav_html(p), ids, none);
    lemma_part_before(x + y + z + nav_html(p), d, ids, none);
    lemma_part_add(x + y + z + nav_html(p) + d, ids, none, body, none, ids);
    assert(ids + none =~= ids);
    assert(none + ids =~= ids);
    lemma_part_before(x + y + z + nav_html(p) + d + body, end, ids, ids);
    assert(page_middle(p) =~= x + y + z + nav_html(p) + d + body + end);
}

proof fn lemma_end_part()
    ensures
        part(page_end(), seq![], seq![]),
{
    reveal_strlit("</script>\n</body>\n</html>\n");
    lemma_js();
    lemma_part_text(JS@, "</script>\n</body>\n</html>\n"@);
}

/// What the start of the style sheet or of the script holds.
proof fn lemma_tag(t: Seq<char>, own: Seq<char>, p: Seq<char>)
    requires
        (t == "<style>"@ && own == "<style"@) || (t == "<script>"@ && own == "<script"@),
        is_tag(p),
    ensures
        counts(
            t,
            p,
            if p == own {
                1
            } else {
                0
            },
        ),
        yields(t, link_mark(), 7, seq![]),
        yields(t, id_mark(), 5, seq![]),
{
    reveal_strlit("<style>");
    reveal_strlit("<script>");
    reveal_strlit("<script");
    reveal_strlit("<style");
    reveal_strlit("<link");
    reveal_strlit("<img");
    assert(calm_link(t));
    assert(calm_id(t));
    lemma_calm_link(t);
    lemma_calm_id(t);
    lemma_inert_yields(t, link_mark(), 7);
    lemma_inert_yields(t, id_mark(), 5);
    assert forall|i: int| 0 <= i < t.len() && !(i == 0 && p == own) implies !#[trigger] may_start(
        t,
        p,
        i,
    ) by {
        if may_start(t, p, i) {
            assert(t[i + 0] == p[0]);
            assert(t[i + 1] == p[1]);
            assert(t[i + 2] == p[2]);
        }
    }
    if p == own {
        assert(t.subrange(0, 0int + p.len()) =~= p);
        assert(alone(t, p, 0));
        lemma_alone_counts(t, p, 0);
    } else {
        lemma_inert_counts(t, p);
    }
}

proof fn lemma_page_pieces(p: PackageTree)
    ensures
        page_html(p) == page_start(p) + "<style>"@ + page_middle(p) + "<script>"@ + page_end(),
{
    reveal_strlit("</title>\n<style>");
    reveal_strlit("</title>\n");
    reveal_strlit("<style>");
    reveal_strlit("</main>\n</div>\n<script>");
    reveal_strlit("</main>\n</div>\n");
    reveal_strlit("<script>");
    assert("</title>\n<style>"@ =~= "</title>\n"@ + "<style>"@);
    assert("</main>\n</div>\n<script>"@ =~= "</main>\n</div>\n"@ + "<script>"@);
    assert(page_html(p) =~= page_start(p) + "<style>"@ + page_middle(p) + "<script>"@
        + page_end());
}

proof fn lemma_page_tag(p: PackageTree, tag: Seq<char>)
    requires
        is_tag(tag),
    ensures
        count_of(page_html(p), tag) == if tag == "<script"@ || tag == "<style"@ {
            1nat
        } else {
            0nat
        },
{
    reveal_strlit("<script");
    reveal_strlit("<style");
    let a = page_start(p);
    let b = page_middle(p);
    let c = page_end();
    let style: nat = if tag == "<style"@ {
        1
    } else {
        0
    };
    let script: nat = if tag == "<script"@ {
        1
    } else {
        0
    };
    assert("<script"@ != "<style"@) by {
        assert("<script"@[2] != "<style"@[2]);
    }
    lemma_start_part(p);
    lemma_middle_part(p);
    lemma_end_part();
    lemma_tag("<style>"@, "<style"@, tag);
    lemma_tag("<script>"@, "<script"@, tag);
    lemma_counts_add(a, 0, "<style>"@, style, tag);
    lemma_counts_add(a + "<style>"@, style, b, 0, tag);
    lemma_counts_add(a + "<style>"@ + b, style, "<script>"@, script, tag);
    lemma_counts_add(a + "<style>"@ + b + "<script>"@, style + script, c, 0, tag);
    lemma_page_pieces(p);
    lemma_whole(page_html(p), tag);
    assert(counts(page_html(p), tag, style + script));
}

/// A page is self-contained: it has one style sheet and one script, both in
/// the page, and neither links to a resource nor shows an image.
pub proof fn law_self_contained(p: PackageTree)
    ensures
        count_of(page_html(p), "<script"@) == 1,
        count_of(page_html(p), "<style"@) == 1,
        count_of(page_html(p), "<link"@) == 0,
        count_of(page_html(p), "<img"@) == 0,
{
    reveal_strlit("<script");
    reveal_strlit("<style");
    reveal_strlit("<link");
    reveal_strlit("<img");
    lemma_page_tag(p, "<script"@);
    lemma_page_tag(p, "<style"@);
    lemma_page_tag(p, "<link"@);
    lemma_page_tag(p, "<img"@);
    assert("<link"@[1] != "<script"@[1] && "<link"@[1] != "<style"@[1]);
    assert("<img"@[1] != "<script"@[1] && "<img"@[1] != "<style"@[1]);
}

proof fn lemma_five(
    a: Seq<char>,
    b: Seq<char>,
    c: Seq<char>,
    d: Seq<char>,
    e: Seq<char>,
    list: Seq<Seq<char>>,
    p: Seq<char>,
    from: int,
)
    requires
        yields(a, p, from, seq![]),
        yields(b, p, from, seq![]),
        yields(c, p, from, list),
        yields(d, p, from, seq![]),
        yields(e, p, from, seq![]),
    ensures
        values_of(a + b + c + d + e, p, from) == list,
{
    let none = Seq::<Seq<char>>::empty();
    assert(none + none =~= none);
    assert(none + list =~= list);
    assert(list + none =~= list);
    lemma_yields_add(a, none, b, none, p, from);
    lemma_yields_add(a + b, none, c, list, p, from);
    lemma_yields_add(a + b + c, list, d, none, p, from);
    lemma_yields_add(a + b + c + d, list, e, none, p, from);
    lemma_whole(a + b + c + d + e, p);
}

/// The links within a page lead, one by one, to the elements of its modules,
/// extension groups and declarations, and there are no others. Each of these
/// elements has one link and one id.
pub proof fn law_links(p: PackageTree)
    ensures
        link_targets(page_html(p)) == page_ids(p.modules),
        element_ids(page_html(p)) == page_ids(p.modules),
        page_ids(p.modules).no_duplicates(),
        count_of(page_html(p), link_mark()) == page_ids(p.modules).len(),
        count_of(page_html(p), id_mark()) == page_ids(p.modules).len(),
{
    let ids = page_ids(p.modules);
    reveal_strlit("href=\"#");
    reveal_strlit(" id=\"");
    lemma_start_part(p);
    lemma_middle_part(p);
    lemma_end_part();
    lemma_tag("<style>"@, "<style"@, "<style"@);
    lemma_tag("<script>"@, "<script"@, "<script"@);
    lemma_page_pieces(p);
    let a = page_start(p);
    let b = page_middle(p);
    let c = page_end();
    lemma_five(a, "<style>"@, b, "<script>"@, c, ids, link_mark(), 7);
    lemma_five(a, "<style>"@, b, "<script>"@, c, ids, id_mark(), 5);
    law_ids_distinct(p.modules);
    lemma_values_counted(page_html(p), link_mark(), 7);
    lemma_values_counted(page_html(p), id_mark(), 5);
}


// That each link and each id stands at one place.

spec fn all_good(ids: Seq<Seq<char>>) -> bool {
    forall|i: int| 0 <= i < ids.len() ==> good_id(#[trigger] ids[i])
}

proof fn lemma_good_add(a: Seq<Seq<char>>, b: Seq<Seq<char>>)
    requires
        all_good(a),
        all_good(b),
    ensures
        all_good(a + b),
{
    assert forall|i: int| 0 <= i < (a + b).len() implies good_id(#[trigger] (a + b)[i]) by {
        if i < a.len() {
            assert(good_id(a[i]));
        } else {
            assert(good_id(b[i - a.len()]));
        }
    }
}

proof fn lemma_good_node(t: SymbolTree, id: Seq<char>)
    requires
        good_id(id),
    ensures
        all_good(node_ids(t, id)),
    decreases t, 1nat,
{
    lemma_good_list(t.members, id, "-m"@);
    lemma_good_add(seq![id], list_ids(t.members, id + "-m"@));
}

proof fn lemma_good_list(f: Seq<SymbolTree>, id: Seq<char>, step: Seq<char>)
    requires
        good_id(id),
        step == "-m"@ || step == "-s"@,
    ensures
        all_good(list_ids(f, id + step)),
    decreases f, 0nat,
{
    if f.len() > 0 {
        let n = (f.len() - 1) as nat;
        lemma_good_list(f.drop_last(), id, step);
        lemma_good_step(id, step, n);
        assert(decreases_to!(f => f[f.len() - 1]));
        lemma_good_node(f.last(), id + step + decimal_digits(n));
        lemma_good_add(
            list_ids(f.drop_last(), id + step),
            node_ids(f.last(), id + step + decimal_digits(n)),
        );
    }
}

proof fn lemma_good_groups(f: Seq<ExtensionTree>, id: Seq<char>)
    requires
        good_id(id),
    ensures
        all_good(groups_ids(f, id + "-e"@)),
    decreases f.len(),
{
    if f.len() > 0 {
        let n = (f.len() - 1) as nat;
        let own = id + "-e"@ + decimal_digits(n);
        lemma_good_groups(f.drop_last(), id);
        lemma_good_step(id, "-e"@, n);
        lemma_good_list(f.last().symbols, own, "-s"@);
        lemma_good_add(seq![own], list_ids(f.last().symbols, own + "-s"@));
        lemma_good_add(groups_ids(f.drop_last(), id + "-e"@), group_ids(f.last(), own));
    }
}

proof fn lemma_good_page(f: Seq<ModuleTree>)
    ensures
        all_good(page_ids(f)),
    decreases f.len(),
{
    if f.len() > 0 {
        let m = f.last();
        let id = module_id((f.len() - 1) as nat);
        lemma_good_page(f.drop_last());
        lemma_good_module((f.len() - 1) as nat);
        lemma_good_list(m.symbols, id, "-s"@);
        lemma_good_groups(m.extensions, id);
        lemma_good_add(seq![id], list_ids(m.symbols, id + "-s"@));
        lemma_good_add(
            seq![id] + list_ids(m.symbols, id + "-s"@),
            groups_ids(m.extensions, id + "-e"@),
        );
        lemma_good_add(page_ids(f.drop_last()), module_ids(m, id));
    }
}

/// Each module, extension group and declaration has, under one id, exactly one
/// link and exactly one element in the page.
pub proof fn law_one_link_each(p: PackageTree, i: int)
    requires
        0 <= i < page_ids(p.modules).len(),
    ensures
        count_of(page_html(p), "href=\"#"@ + page_ids(p.modules)[i] + "\""@) == 1,
        count_of(page_html(p), " id=\""@ + page_ids(p.modules)[i] + "\""@) == 1,
{
    let page = page_html(p);
    let id = page_ids(p.modules)[i];
    lemma_good_page(p.modules);
    assert(good_id(id));
    lemma_safe_escaped(id);
    assert(!id.contains('"')) by {
        if id.contains('"') {
            let k = choose|k: int| 0 <= k < id.len() && id[k] == '"';
            assert(!reserved(id[k]));
        }
    }
    law_links(p);
    law_links_lead(p.modules);
    reveal_strlit("href=\"#");
    reveal_strlit(" href=\"#");
    reveal_strlit(" id=\"");
    reveal_strlit(" id=\"mod-");
    reveal_strlit("\"");
    // The link.
    let q = "href=\"#"@ + id + "\""@;
    assert(link_mark() =~= ("href=\"#"@ + id).subrange(0, link_mark().len() as int));
    lemma_refines("href=\"#"@, link_mark(), id);
    lemma_once(page, q, link_mark(), 7, id);
    let spaced = " href=\"#"@ + escaped(id) + "\""@;
    assert(has_link(modules_nav(p.modules), id));
    lemma_nav_in_page(p, spaced);
    let at = choose|at: int| occurs_at(page, spaced, at);
    assert(page.subrange(at + 1, at + 1 + q.len()) =~= q) by {
        assert forall|k: int| 0 <= k < q.len() implies page[at + 1 + k] == q[k] by {
            assert(page.subrange(at, at + spaced.len())[k + 1] == spaced[k + 1]);
            assert(spaced[k + 1] == q[k]);
        }
    }
    lemma_occurs_counted(page, q, at + 1);
    // The element.
    let r = " id=\""@ + id + "\""@;
    assert(id_mark() =~= (" id=\""@ + id).subrange(0, id_mark().len() as int));
    lemma_refines(" id=\""@, id_mark(), id);
    lemma_once(page, r, id_mark(), 5, id);
    assert(has_element(modules_html(p.modules), id));
    lemma_body_in_page(p, r);
    let at = choose|at: int| occurs_at(page, r, at);
    lemma_occurs_counted(page, r, at);
}

/// The page up to the navigation.
spec fn page_head(p: PackageTree) -> Seq<char> {
    "<!DOCTYPE html>\n<html lang=\"en\">\n<head>\n<meta charset=\"utf-8\">\n<title>"@ + escaped(
        p.package + " – Public API"@,
    ) + "</title>\n<style>"@ + CSS@ + "</style>\n</head>\n<body>\n<header>\n  <h1>"@ + escaped(
        p.package,
    ) + "</h1>\n  <p class=\"meta\">Access level: <code>"@ + escaped(p.access_level)
        + "</code></p>\n  <input type=\"search\" id=\"filter\" placeholder=\"Filter symbols…\" autocomplete=\"off\" autofocus>\n</header>\n<div class=\"layout\">\n  <nav id=\"nav\">"@
}

proof fn lemma_nav_in_page(p: PackageTree, q: Seq<char>)
    requires
        occurs_in(modules_nav(p.modules), q),
    ensures
        occurs_in(page_html(p), q),
{
    let a = page_head(p) + nav_html(p);
    let b = a + "</nav>\n  <main>"@;
    lemma_occurs_around("<ul class=\"nav-root\">\n"@, modules_nav(p.modules), "</ul>\n"@, q);
    lemma_occurs_add(page_head(p), nav_html(p), q);
    lemma_occurs_add(a, "</nav>\n  <main>"@, q);
    lemma_occurs_add(b, modules_html(p.modules), q);
    lemma_page_tail(b + modules_html(p.modules), q);
}

proof fn lemma_body_in_page(p: PackageTree, q: Seq<char>)
    requires
        occurs_in(modules_html(p.modules), q),
    ensures
        occurs_in(page_html(p), q),
{
    let b = page_head(p) + nav_html(p) + "</nav>\n  <main>"@;
    lemma_occurs_add(b, modules_html(p.modules), q);
    lemma_page_tail(b + modules_html(p.modules), q);
}

/// What occurs in a page up to its body occurs in the page.
proof fn lemma_page_tail(s: Seq<char>, q: Seq<char>)
    requires
        occurs_in(s, q),
    ensures
        occurs_in(s + "</main>\n</div>\n<script>"@ + JS@ + "</script>\n</body>\n</html>\n"@, q),
{
    let a = s + "</main>\n</div>\n<script>"@;
    lemma_occurs_add(s, "</main>\n</div>\n<script>"@, q);
    lemma_occurs_add(a, JS@, q);
    lemma_occurs_add(a + JS@, "</script>\n</body>\n</html>\n"@, q);
}

} // verus!
