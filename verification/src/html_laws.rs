//! What holds of every page: that texts are written so that they can be read
//! back, and that each navigation link leads to an element of its own.

use vstd::prelude::*;

use crate::html::{
    code_html, escaped, escaped_char, extensions_html, extensions_nav, group_open_html, leaf_html,
    link_html, module_id, modules_html, modules_nav, navs_html, nodes_html, search_name,
};
use crate::model::{ExtensionTree, ModuleTree, SymbolTree};
use crate::symbol_name::short_name;
use crate::text::{decimal_digits, digit_char, occurs_at, occurs_in};

verus! {

// Escaping.

/// Whether a character has a meaning of its own in HTML text or in the value
/// of an attribute, apart from `&`.
pub open spec fn reserved(c: char) -> bool {
    c == '<' || c == '>' || c == '"' || c == '\''
}

proof fn lemma_escaped_char(c: char)
    ensures
        escaped_char(c).len() > 0,
        forall|i: int| 0 <= i < escaped_char(c).len() ==> !reserved(#[trigger] escaped_char(c)[i]),
{
    reveal_strlit("&amp;");
    reveal_strlit("&lt;");
    reveal_strlit("&gt;");
    reveal_strlit("&quot;");
    reveal_strlit("&#39;");
}

/// An escaped text holds none of the reserved characters.
pub proof fn law_escaped(s: Seq<char>)
    ensures
        forall|i: int| 0 <= i < escaped(s).len() ==> !reserved(#[trigger] escaped(s)[i]),
    decreases s.len(),
{
    if s.len() > 0 {
        let p = escaped(s.drop_last());
        law_escaped(s.drop_last());
        lemma_escaped_char(s.last());
        assert forall|i: int| 0 <= i < escaped(s).len() implies !reserved(
            #[trigger] escaped(s)[i],
        ) by {
            if i < p.len() {
                assert(escaped(s)[i] == p[i]);
            } else {
                assert(escaped(s)[i] == escaped_char(s.last())[i - p.len()]);
            }
        }
    }
}

proof fn lemma_escaped_first(s: Seq<char>)
    requires
        s.len() > 0,
    ensures
        escaped(s) == escaped_char(s[0]) + escaped(s.skip(1)),
    decreases s.len(),
{
    if s.len() == 1 {
        assert(s.drop_last() =~= Seq::<char>::empty());
        assert(s.skip(1) =~= Seq::<char>::empty());
        assert(escaped(s) =~= escaped_char(s[0]) + escaped(s.skip(1)));
    } else {
        let p = s.drop_last();
        lemma_escaped_first(p);
        assert(p.skip(1) =~= s.skip(1).drop_last());
        assert(escaped(s) =~= escaped_char(s[0]) + escaped(s.skip(1)));
    }
}

/// Where two escaped texts agree, so do their first characters.
proof fn lemma_escaped_char_unique(a: char, x: Seq<char>, b: char, y: Seq<char>)
    requires
        escaped_char(a) + x == escaped_char(b) + y,
    ensures
        a == b,
{
    let s = escaped_char(a) + x;
    let t = escaped_char(b) + y;
    reveal_strlit("&amp;");
    reveal_strlit("&lt;");
    reveal_strlit("&gt;");
    reveal_strlit("&quot;");
    reveal_strlit("&#39;");
    assert(s[0] == escaped_char(a)[0]);
    assert(t[0] == escaped_char(b)[0]);
    if escaped_char(a).len() > 1 && escaped_char(b).len() > 1 {
        assert(s[1] == escaped_char(a)[1]);
        assert(t[1] == escaped_char(b)[1]);
    }
}

/// Different texts are escaped to different texts, so that a text can be read
/// back from the page.
pub proof fn law_escaped_distinct(a: Seq<char>, b: Seq<char>)
    requires
        escaped(a) == escaped(b),
    ensures
        a == b,
    decreases a.len(),
{
    if a.len() == 0 {
        if b.len() > 0 {
            lemma_escaped_first(b);
            lemma_escaped_char(b[0]);
        }
        assert(a =~= b);
    } else {
        lemma_escaped_first(a);
        lemma_escaped_char(a[0]);
        assert(b.len() > 0);
        lemma_escaped_first(b);
        let x = escaped(a.skip(1));
        let y = escaped(b.skip(1));
        lemma_escaped_char_unique(a[0], x, b[0], y);
        let n = escaped_char(a[0]).len() as int;
        assert(x =~= escaped(a).skip(n));
        assert(y =~= escaped(b).skip(n));
        law_escaped_distinct(a.skip(1), b.skip(1));
        assert(a =~= seq![a[0]] + a.skip(1));
        assert(b =~= seq![b[0]] + b.skip(1));
    }
}

// The ids of a page.

/// The ids of the elements of a declaration and of those nested in it.
pub open spec fn node_ids(t: SymbolTree, id: Seq<char>) -> Seq<Seq<char>>
    decreases t,
{
    seq![id] + list_ids(t.members, id + "-m"@)
}

/// The ids of the elements of a list of declarations.
pub open spec fn list_ids(f: Seq<SymbolTree>, prefix: Seq<char>) -> Seq<Seq<char>>
    decreases f,
{
    if f.len() == 0 {
        seq![]
    } else {
        list_ids(f.drop_last(), prefix) + node_ids(
            f.last(),
            prefix + decimal_digits((f.len() - 1) as nat),
        )
    }
}

/// The ids of the elements of an extension group.
pub open spec fn group_ids(e: ExtensionTree, id: Seq<char>) -> Seq<Seq<char>> {
    seq![id] + list_ids(e.symbols, id + "-s"@)
}

/// The ids of the elements of a list of extension groups.
pub open spec fn groups_ids(f: Seq<ExtensionTree>, prefix: Seq<char>) -> Seq<Seq<char>>
    decreases f.len(),
{
    if f.len() == 0 {
        seq![]
    } else {
        groups_ids(f.drop_last(), prefix) + group_ids(
            f.last(),
            prefix + decimal_digits((f.len() - 1) as nat),
        )
    }
}

/// The ids of the elements of a module.
pub open spec fn module_ids(m: ModuleTree, id: Seq<char>) -> Seq<Seq<char>> {
    seq![id] + list_ids(m.symbols, id + "-s"@) + groups_ids(m.extensions, id + "-e"@)
}

/// The ids of the elements for modules, extension groups and declarations.
pub open spec fn page_ids(f: Seq<ModuleTree>) -> Seq<Seq<char>>
    decreases f.len(),
{
    if f.len() == 0 {
        seq![]
    } else {
        page_ids(f.drop_last()) + module_ids(f.last(), module_id((f.len() - 1) as nat))
    }
}

// That the ids are different.

pub proof fn lemma_digits(n: nat)
    ensures
        decimal_digits(n).len() > 0,
        n < 10 <==> decimal_digits(n).len() == 1,
        decimal_digits(n).last() == digit_char(n % 10),
        forall|i: int|
            0 <= i < decimal_digits(n).len() ==> '0' <= #[trigger] decimal_digits(n)[i]
                && decimal_digits(n)[i] <= '9',
    decreases n,
{
    if n >= 10 {
        lemma_digits(n / 10);
    }
}

proof fn lemma_digits_distinct(a: nat, b: nat)
    requires
        decimal_digits(a) == decimal_digits(b),
    ensures
        a == b,
    decreases a,
{
    lemma_digits(a);
    lemma_digits(b);
    assert(a % 10 == b % 10);
    if a >= 10 {
        assert(decimal_digits(a / 10) =~= decimal_digits(a).drop_last());
        assert(decimal_digits(b / 10) =~= decimal_digits(b).drop_last());
        lemma_digits_distinct(a / 10, b / 10);
    }
}

/// Whether `x` is `id`, or `id` and a hyphen and more.
pub open spec fn under(x: Seq<char>, id: Seq<char>) -> bool {
    &&& id.is_prefix_of(x)
    &&& x.len() > id.len() ==> x[id.len() as int] == '-'
}

proof fn lemma_under_trans(x: Seq<char>, mid: Seq<char>, id: Seq<char>, step: Seq<char>)
    requires
        under(x, id + step + mid),
        step.len() > 0,
        step[0] == '-',
    ensures
        under(x, id),
        x != id,
        (id + step).is_prefix_of(x),
{
    let all = id + step + mid;
    assert(id =~= x.subrange(0, id.len() as int)) by {
        assert forall|i: int| 0 <= i < id.len() implies id[i] == x[i] by {
            assert(all[i] == id[i]);
        }
    }
    assert(x[id.len() as int] == all[id.len() as int]);
    assert(id + step =~= x.subrange(0, (id + step).len() as int)) by {
        assert forall|i: int| 0 <= i < (id + step).len() implies (id + step)[i] == x[i] by {
            assert(all[i] == (id + step)[i]);
        }
    }
}

/// What stands under different numbers is different.
proof fn lemma_numbers_apart(x: Seq<char>, prefix: Seq<char>, a: nat, b: nat)
    requires
        under(x, prefix + decimal_digits(a)),
        under(x, prefix + decimal_digits(b)),
    ensures
        a == b,
{
    let p = prefix + decimal_digits(a);
    let q = prefix + decimal_digits(b);
    lemma_digits(a);
    lemma_digits(b);
    if p.len() < q.len() {
        assert(x[p.len() as int] == q[p.len() as int]);
        assert(q[p.len() as int] == decimal_digits(b)[p.len() - prefix.len()]);
    }
    if q.len() < p.len() {
        assert(x[q.len() as int] == p[q.len() as int]);
        assert(p[q.len() as int] == decimal_digits(a)[q.len() - prefix.len()]);
    }
    assert(p =~= q);
    assert(decimal_digits(a) =~= p.skip(prefix.len() as int));
    assert(decimal_digits(b) =~= q.skip(prefix.len() as int));
    lemma_digits_distinct(a, b);
}

/// Whether all of `ids` stand under `prefix` and one of the first `n` numbers.
spec fn numbered(ids: Seq<Seq<char>>, prefix: Seq<char>, n: nat) -> bool {
    forall|i: int| 0 <= i < ids.len() ==> under_number(#[trigger] ids[i], prefix, n)
}

spec fn under_number(x: Seq<char>, prefix: Seq<char>, n: nat) -> bool {
    exists|k: nat| k < n && under(x, #[trigger] numbered_id(prefix, k))
}

spec fn numbered_id(prefix: Seq<char>, k: nat) -> Seq<char> {
    prefix + decimal_digits(k)
}

proof fn lemma_more_numbers(ids: Seq<Seq<char>>, prefix: Seq<char>, n: nat)
    requires
        numbered(ids, prefix, n),
    ensures
        numbered(ids, prefix, n + 1),
{
    assert forall|i: int| 0 <= i < ids.len() implies under_number(
        #[trigger] ids[i],
        prefix,
        n + 1,
    ) by {
        let k = choose|k: nat| k < n && under(ids[i], #[trigger] numbered_id(prefix, k));
        assert(k < n + 1 && under(ids[i], numbered_id(prefix, k)));
    }
}

/// One more batch of different ids, all under the next number.
proof fn lemma_next_number(
    ids: Seq<Seq<char>>,
    more: Seq<Seq<char>>,
    prefix: Seq<char>,
    n: nat,
)
    requires
        ids.no_duplicates(),
        more.no_duplicates(),
        numbered(ids, prefix, n),
        forall|i: int| 0 <= i < more.len() ==> under(#[trigger] more[i], prefix + decimal_digits(n)),
    ensures
        (ids + more).no_duplicates(),
        numbered(ids + more, prefix, n + 1),
{
    let all = ids + more;
    assert forall|i: int, j: int| 0 <= i < j < all.len() implies all[i] != all[j] by {
        if i < ids.len() && j >= ids.len() {
            assert(all[j] == more[j - ids.len()]);
            let k = choose|k: nat| k < n && under(ids[i], #[trigger] numbered_id(prefix, k));
            if all[i] == all[j] {
                lemma_numbers_apart(all[i], prefix, k, n);
            }
        } else if i >= ids.len() {
            assert(all[i] == more[i - ids.len()] && all[j] == more[j - ids.len()]);
        }
    }
    lemma_more_numbers(ids, prefix, n);
    assert forall|i: int| 0 <= i < all.len() implies under_number(
        #[trigger] all[i],
        prefix,
        n + 1,
    ) by {
        if i < ids.len() {
            assert(under_number(ids[i], prefix, n + 1));
        } else {
            assert(all[i] == more[i - ids.len()]);
            assert(n < n + 1 && under(all[i], numbered_id(prefix, n)));
        }
    }
}

/// An id, and different ids under it, after `step` and a number.
proof fn lemma_below(id: Seq<char>, step: Seq<char>, ids: Seq<Seq<char>>, n: nat)
    requires
        step.len() > 0,
        step[0] == '-',
        ids.no_duplicates(),
        numbered(ids, id + step, n),
    ensures
        (seq![id] + ids).no_duplicates(),
        forall|i: int| 0 <= i < ids.len() ==> under(#[trigger] ids[i], id) && ids[i] != id && (id
            + step).is_prefix_of(ids[i]),
{
    assert forall|i: int| 0 <= i < ids.len() implies under(#[trigger] ids[i], id) && ids[i] != id
        && (id + step).is_prefix_of(ids[i]) by {
        let k = choose|k: nat| k < n && under(ids[i], #[trigger] numbered_id(id + step, k));
        lemma_under_trans(ids[i], decimal_digits(k), id, step);
    }
    let all = seq![id] + ids;
    assert forall|i: int, j: int| 0 <= i < j < all.len() implies all[i] != all[j] by {
        assert(all[j] == ids[j - 1]);
        if i > 0 {
            assert(all[i] == ids[i - 1]);
        }
    }
}

proof fn lemma_node_ids(t: SymbolTree, id: Seq<char>)
    ensures
        node_ids(t, id).no_duplicates(),
        forall|i: int| 0 <= i < node_ids(t, id).len() ==> under(#[trigger] node_ids(t, id)[i], id),
    decreases t, 1nat,
{
    reveal_strlit("-m");
    lemma_list_ids(t.members, id + "-m"@);
    lemma_below(id, "-m"@, list_ids(t.members, id + "-m"@), t.members.len());
    assert forall|i: int| 0 <= i < node_ids(t, id).len() implies under(
        #[trigger] node_ids(t, id)[i],
        id,
    ) by {
        if i > 0 {
            assert(node_ids(t, id)[i] == list_ids(t.members, id + "-m"@)[i - 1]);
        } else {
            assert(id =~= id.subrange(0, id.len() as int));
        }
    }
}

proof fn lemma_list_ids(f: Seq<SymbolTree>, prefix: Seq<char>)
    ensures
        list_ids(f, prefix).no_duplicates(),
        numbered(list_ids(f, prefix), prefix, f.len()),
    decreases f, 0nat,
{
    if f.len() > 0 {
        let n = (f.len() - 1) as nat;
        lemma_list_ids(f.drop_last(), prefix);
        assert(decreases_to!(f => f[f.len() - 1]));
        lemma_node_ids(f.last(), prefix + decimal_digits(n));
        lemma_next_number(
            list_ids(f.drop_last(), prefix),
            node_ids(f.last(), prefix + decimal_digits(n)),
            prefix,
            n,
        );
    }
}

proof fn lemma_group_ids(e: ExtensionTree, id: Seq<char>)
    ensures
        group_ids(e, id).no_duplicates(),
        forall|i: int| 0 <= i < group_ids(e, id).len() ==> under(#[trigger] group_ids(e, id)[i], id),
{
    reveal_strlit("-s");
    let inner = list_ids(e.symbols, id + "-s"@);
    lemma_list_ids(e.symbols, id + "-s"@);
    lemma_below(id, "-s"@, inner, e.symbols.len());
    assert forall|i: int| 0 <= i < group_ids(e, id).len() implies under(
        #[trigger] group_ids(e, id)[i],
        id,
    ) by {
        if i > 0 {
            assert(group_ids(e, id)[i] == inner[i - 1]);
        } else {
            assert(id =~= id.subrange(0, id.len() as int));
        }
    }
}

proof fn lemma_groups_ids(f: Seq<ExtensionTree>, prefix: Seq<char>)
    ensures
        groups_ids(f, prefix).no_duplicates(),
        numbered(groups_ids(f, prefix), prefix, f.len()),
    decreases f.len(),
{
    if f.len() > 0 {
        let n = (f.len() - 1) as nat;
        lemma_groups_ids(f.drop_last(), prefix);
        lemma_group_ids(f.last(), prefix + decimal_digits(n));
        lemma_next_number(
            groups_ids(f.drop_last(), prefix),
            group_ids(f.last(), prefix + decimal_digits(n)),
            prefix,
            n,
        );
    }
}

proof fn lemma_module_ids(m: ModuleTree, id: Seq<char>)
    ensures
        module_ids(m, id).no_duplicates(),
        forall|i: int|
            0 <= i < module_ids(m, id).len() ==> under(#[trigger] module_ids(m, id)[i], id),
{
    reveal_strlit("-s");
    reveal_strlit("-e");
    let a = list_ids(m.symbols, id + "-s"@);
    let b = groups_ids(m.extensions, id + "-e"@);
    lemma_list_ids(m.symbols, id + "-s"@);
    lemma_groups_ids(m.extensions, id + "-e"@);
    lemma_below(id, "-s"@, a, m.symbols.len());
    lemma_below(id, "-e"@, b, m.extensions.len());
    let all = module_ids(m, id);
    let n = 1 + a.len();
    assert forall|i: int| 0 <= i < all.len() implies under(#[trigger] all[i], id) by {
        if i == 0 {
            assert(id =~= id.subrange(0, id.len() as int));
        } else if i < n {
            assert(all[i] == a[i - 1]);
        } else {
            assert(all[i] == b[i - n]);
        }
    }
    assert forall|i: int, j: int| 0 <= i < j < all.len() implies all[i] != all[j] by {
        if j < n {
            assert(all[i] == (seq![id] + a)[i] && all[j] == (seq![id] + a)[j]);
        } else {
            assert(all[j] == b[j - n]);
            if i >= n {
                assert(all[i] == b[i - n]);
            } else if i > 0 {
                assert(all[i] == a[i - 1]);
                let k = id.len() as int;
                assert((id + "-s"@)[k + 1] == 's' && (id + "-e"@)[k + 1] == 'e');
                assert(all[i][k + 1] == 's');
                assert(all[j][k + 1] == 'e');
            }
        }
    }
}

proof fn lemma_page_ids(f: Seq<ModuleTree>)
    ensures
        page_ids(f).no_duplicates(),
        numbered(page_ids(f), "mod-"@, f.len()),
    decreases f.len(),
{
    if f.len() > 0 {
        let n = (f.len() - 1) as nat;
        lemma_page_ids(f.drop_last());
        lemma_module_ids(f.last(), module_id(n));
        lemma_next_number(
            page_ids(f.drop_last()),
            module_ids(f.last(), module_id(n)),
            "mod-"@,
            n,
        );
    }
}

/// No two of the elements for modules, extension groups and declarations have
/// the same id, and all of their ids start with `mod-`, unlike those of the
/// elements that every page has.
pub proof fn law_ids_distinct(modules: Seq<ModuleTree>)
    ensures
        page_ids(modules).no_duplicates(),
        forall|i: int|
            0 <= i < page_ids(modules).len() ==> "mod-"@.is_prefix_of(
                #[trigger] page_ids(modules)[i],
            ),
{
    lemma_page_ids(modules);
    let ids = page_ids(modules);
    assert forall|i: int| 0 <= i < ids.len() implies "mod-"@.is_prefix_of(#[trigger] ids[i]) by {
        assert(under_number(ids[i], "mod-"@, modules.len()));
        let k = choose|k: nat|
            k < modules.len() && under(ids[i], #[trigger] numbered_id("mod-"@, k));
        let p = "mod-"@ + decimal_digits(k);
        assert forall|j: int| 0 <= j < "mod-"@.len() implies "mod-"@[j] == ids[i][j] by {
            assert(p[j] == ids[i][j]);
        }
        assert("mod-"@ =~= ids[i].subrange(0, "mod-"@.len() as int));
    }
}

// That every id has its element and its link.

/// Whether an element with an id stands in a page.
pub open spec fn has_element(page: Seq<char>, id: Seq<char>) -> bool {
    occurs_in(page, " id=\""@ + escaped(id) + "\""@)
}

/// Whether a link to the element with an id stands in a page.
pub open spec fn has_link(page: Seq<char>, id: Seq<char>) -> bool {
    occurs_in(page, " href=\"#"@ + escaped(id) + "\""@)
}

pub proof fn lemma_occurs_add(a: Seq<char>, b: Seq<char>, p: Seq<char>)
    ensures
        occurs_in(a, p) ==> occurs_in(a + b, p),
        occurs_in(b, p) ==> occurs_in(a + b, p),
{
    if occurs_in(a, p) {
        let at = choose|at: int| occurs_at(a, p, at);
        assert((a + b).subrange(at, at + p.len()) =~= a.subrange(at, at + p.len()));
        assert(occurs_at(a + b, p, at));
    }
    if occurs_in(b, p) {
        let at = choose|at: int| occurs_at(b, p, at);
        let n = a.len() as int;
        assert((a + b).subrange(n + at, n + at + p.len()) =~= b.subrange(at, at + p.len()));
        assert(occurs_at(a + b, p, n + at));
    }
}

pub proof fn lemma_occurs_around(a: Seq<char>, b: Seq<char>, c: Seq<char>, p: Seq<char>)
    requires
        occurs_in(b, p),
    ensures
        occurs_in(a + b + c, p),
{
    lemma_occurs_add(a, b, p);
    lemma_occurs_add(a + b, c, p);
}

/// An attribute value stands between the text before it, which ends with
/// `name`, and a quotation mark.
proof fn lemma_attribute(front: Seq<char>, name: Seq<char>, value: Seq<char>, back: Seq<char>)
    requires
        name.len() <= front.len(),
        front.skip(front.len() - name.len()) == name,
        back.len() > 0,
        back[0] == '"',
    ensures
        occurs_in(front + value + back, name + value + "\""@),
{
    reveal_strlit("\"");
    let s = front + value + back;
    let at = front.len() - name.len();
    let p = name + value + "\""@;
    assert(s.subrange(at, at + p.len()) =~= p) by {
        assert forall|i: int| 0 <= i < p.len() implies s.subrange(at, at + p.len())[i] == p[i] by {
            if i < name.len() {
                assert(name[i] == front.skip(at)[i]);
            }
        }
    }
    assert(occurs_at(s, p, at));
}

proof fn lemma_leaf_element(id: Seq<char>, name: Seq<char>, decl: Seq<char>)
    ensures
        has_element(leaf_html(id, name, decl), id),
{
    let front = "<div class=\"sym leaf\" id=\""@;
    let back = "\" data-name=\""@ + escaped(name) + "\"><pre><code>"@ + code_html(decl)
        + "</code></pre></div>\n"@;
    reveal_strlit("<div class=\"sym leaf\" id=\"");
    reveal_strlit("\" data-name=\"");
    reveal_strlit(" id=\"");
    assert(front.skip(front.len() - " id=\""@.len()) =~= " id=\""@);
    lemma_attribute(front, " id=\""@, escaped(id), back);
    assert(leaf_html(id, name, decl) =~= front + escaped(id) + back);
}

proof fn lemma_group_element(id: Seq<char>, name: Seq<char>, decl: Seq<char>)
    ensures
        has_element(group_open_html(id, name, decl), id),
{
    let front = "<details class=\"sym\" id=\""@;
    let back = "\" data-name=\""@ + escaped(name) + "\" open><summary><pre><code>"@ + code_html(
        decl,
    ) + "</code></pre></summary><div class=\"children\">\n"@;
    reveal_strlit("<details class=\"sym\" id=\"");
    reveal_strlit("\" data-name=\"");
    reveal_strlit(" id=\"");
    assert(front.skip(front.len() - " id=\""@.len()) =~= " id=\""@);
    lemma_attribute(front, " id=\""@, escaped(id), back);
    assert(group_open_html(id, name, decl) =~= front + escaped(id) + back);
}

proof fn lemma_link(id: Seq<char>, text: Seq<char>)
    ensures
        has_link(link_html(id, text), id),
{
    let front = "<li><a href=\"#"@;
    let back = "\">"@ + escaped(text) + "</a>"@;
    reveal_strlit("<li><a href=\"#");
    reveal_strlit("\">");
    reveal_strlit(" href=\"#");
    assert(front.skip(front.len() - " href=\"#"@.len()) =~= " href=\"#"@);
    lemma_attribute(front, " href=\"#"@, escaped(id), back);
    assert(link_html(id, text) =~= front + escaped(id) + back);
}

/// Whether all ids have an element in a page.
pub open spec fn all_elements(page: Seq<char>, ids: Seq<Seq<char>>) -> bool {
    forall|i: int| 0 <= i < ids.len() ==> has_element(page, #[trigger] ids[i])
}

/// Whether all ids have a link in a page.
pub open spec fn all_links(page: Seq<char>, ids: Seq<Seq<char>>) -> bool {
    forall|i: int| 0 <= i < ids.len() ==> has_link(page, #[trigger] ids[i])
}

proof fn lemma_all_around(
    a: Seq<char>,
    b: Seq<char>,
    c: Seq<char>,
    ids: Seq<Seq<char>>,
)
    ensures
        all_elements(b, ids) ==> all_elements(a + b + c, ids),
        all_links(b, ids) ==> all_links(a + b + c, ids),
{
    if all_elements(b, ids) {
        assert forall|i: int| 0 <= i < ids.len() implies has_element(
            a + b + c,
            #[trigger] ids[i],
        ) by {
            lemma_occurs_around(a, b, c, " id=\""@ + escaped(ids[i]) + "\""@);
        }
    }
    if all_links(b, ids) {
        assert forall|i: int| 0 <= i < ids.len() implies has_link(
            a + b + c,
            #[trigger] ids[i],
        ) by {
            lemma_occurs_around(a, b, c, " href=\"#"@ + escaped(ids[i]) + "\""@);
        }
    }
}

proof fn lemma_all_concat(page: Seq<char>, a: Seq<Seq<char>>, b: Seq<Seq<char>>)
    ensures
        all_elements(page, a) && all_elements(page, b) ==> all_elements(page, a + b),
        all_links(page, a) && all_links(page, b) ==> all_links(page, a + b),
{
    assert forall|i: int| 0 <= i < (a + b).len() implies (#[trigger] (a + b)[i]) == if i < a.len() {
        a[i]
    } else {
        b[i - a.len()]
    } by {}
}

proof fn lemma_node_elements(t: SymbolTree, id: Seq<char>)
    ensures
        all_elements(t.html(id), node_ids(t, id)),
        all_links(t.nav(id), node_ids(t, id)),
    decreases t, 1nat,
{
    let name = search_name(t.decl);
    let inner = list_ids(t.members, id + "-m"@);
    let link = link_html(id, short_name(t.decl));
    let none = Seq::<char>::empty();
    lemma_link(id, short_name(t.decl));
    assert(all_links(link, seq![id]));
    if t.members.len() == 0 {
        lemma_leaf_element(id, name, t.decl);
        assert(all_elements(t.html(id), seq![id]));
        assert(inner =~= Seq::<Seq<char>>::empty());
        assert(node_ids(t, id) =~= seq![id]);
        lemma_all_around(none, link, "</li>\n"@, seq![id]);
        assert(none + link + "</li>\n"@ =~= t.nav(id));
    } else {
        let open = group_open_html(id, name, t.decl);
        let members = nodes_html(t.members, id + "-m"@);
        lemma_group_element(id, name, t.decl);
        assert(all_elements(open, seq![id]));
        lemma_list_elements(t.members, id + "-m"@);
        lemma_all_around(none, open, members + "</div></details>\n"@, seq![id]);
        assert(none + open + (members + "</div></details>\n"@) =~= t.html(id));
        lemma_all_around(open, members, "</div></details>\n"@, inner);
        lemma_all_concat(t.html(id), seq![id], inner);
        let entries = navs_html(t.members, id + "-m"@);
        lemma_all_around(none, link, "<ul>\n"@ + entries + "</ul></li>\n"@, seq![id]);
        assert(none + link + ("<ul>\n"@ + entries + "</ul></li>\n"@) =~= t.nav(id));
        lemma_all_around(link + "<ul>\n"@, entries, "</ul></li>\n"@, inner);
        lemma_all_concat(t.nav(id), seq![id], inner);
    }
}

proof fn lemma_list_elements(f: Seq<SymbolTree>, prefix: Seq<char>)
    ensures
        all_elements(nodes_html(f, prefix), list_ids(f, prefix)),
        all_links(navs_html(f, prefix), list_ids(f, prefix)),
    decreases f, 0nat,
{
    if f.len() > 0 {
        let p = f.drop_last();
        let t = f.last();
        let id = prefix + decimal_digits((f.len() - 1) as nat);
        let none = Seq::<char>::empty();
        lemma_list_elements(p, prefix);
        assert(decreases_to!(f => f[f.len() - 1]));
        lemma_node_elements(t, id);
        lemma_all_around(none, nodes_html(p, prefix), t.html(id), list_ids(p, prefix));
        assert(none + nodes_html(p, prefix) + t.html(id) =~= nodes_html(f, prefix));
        lemma_all_around(nodes_html(p, prefix), t.html(id), none, node_ids(t, id));
        assert(nodes_html(p, prefix) + t.html(id) + none =~= nodes_html(f, prefix));
        lemma_all_concat(nodes_html(f, prefix), list_ids(p, prefix), node_ids(t, id));
        lemma_all_around(none, navs_html(p, prefix), t.nav(id), list_ids(p, prefix));
        assert(none + navs_html(p, prefix) + t.nav(id) =~= navs_html(f, prefix));
        lemma_all_around(navs_html(p, prefix), t.nav(id), none, node_ids(t, id));
        assert(navs_html(p, prefix) + t.nav(id) + none =~= navs_html(f, prefix));
        lemma_all_concat(navs_html(f, prefix), list_ids(p, prefix), node_ids(t, id));
    }
}

proof fn lemma_group_elements(e: ExtensionTree, id: Seq<char>)
    ensures
        all_elements(e.html(id), group_ids(e, id)),
        all_links(e.nav(id), group_ids(e, id)),
{
    let inner = list_ids(e.symbols, id + "-s"@);
    let none = Seq::<char>::empty();
    lemma_list_elements(e.symbols, id + "-s"@);
    let front = "<section class=\"ext\" id=\""@;
    let head = "\"><h3>Extensions to <code>"@ + escaped(e.extended_module)
        + "</code></h3>\n<div class=\"symbols\">\n"@;
    let body = nodes_html(e.symbols, id + "-s"@);
    let end = "</div></section>\n"@;
    reveal_strlit("<section class=\"ext\" id=\"");
    reveal_strlit("\"><h3>Extensions to <code>");
    reveal_strlit(" id=\"");
    assert(front.skip(front.len() - " id=\""@.len()) =~= " id=\""@);
    lemma_attribute(front, " id=\""@, escaped(id), head + body + end);
    assert(front + escaped(id) + (head + body + end) =~= e.html(id));
    assert(all_elements(e.html(id), seq![id]));
    lemma_all_around(front + escaped(id) + head, body, end, inner);
    assert(front + escaped(id) + head + body + end =~= e.html(id));
    lemma_all_concat(e.html(id), seq![id], inner);
    let start = "<li><a href=\"#"@;
    let label = "\">ext: "@ + escaped(e.extended_module) + "</a>\n<ul>\n"@;
    let entries = navs_html(e.symbols, id + "-s"@);
    let close = "</ul></li>\n"@;
    reveal_strlit("<li><a href=\"#");
    reveal_strlit("\">ext: ");
    reveal_strlit(" href=\"#");
    assert(start.skip(start.len() - " href=\"#"@.len()) =~= " href=\"#"@);
    lemma_attribute(start, " href=\"#"@, escaped(id), label + entries + close);
    assert(start + escaped(id) + (label + entries + close) =~= e.nav(id));
    assert(all_links(e.nav(id), seq![id]));
    lemma_all_around(start + escaped(id) + label, entries, close, inner);
    assert(start + escaped(id) + label + entries + close =~= e.nav(id));
    lemma_all_concat(e.nav(id), seq![id], inner);
}

proof fn lemma_groups_elements(f: Seq<ExtensionTree>, prefix: Seq<char>)
    ensures
        all_elements(extensions_html(f, prefix), groups_ids(f, prefix)),
        all_links(extensions_nav(f, prefix), groups_ids(f, prefix)),
    decreases f.len(),
{
    if f.len() > 0 {
        let p = f.drop_last();
        let e = f.last();
        let id = prefix + decimal_digits((f.len() - 1) as nat);
        let none = Seq::<char>::empty();
        lemma_groups_elements(p, prefix);
        lemma_group_elements(e, id);
        let ids = groups_ids(p, prefix);
        lemma_all_around(none, extensions_html(p, prefix), e.html(id), ids);
        assert(none + extensions_html(p, prefix) + e.html(id) =~= extensions_html(f, prefix));
        lemma_all_around(extensions_html(p, prefix), e.html(id), none, group_ids(e, id));
        assert(extensions_html(p, prefix) + e.html(id) + none =~= extensions_html(f, prefix));
        lemma_all_concat(extensions_html(f, prefix), ids, group_ids(e, id));
        lemma_all_around(none, extensions_nav(p, prefix), e.nav(id), ids);
        assert(none + extensions_nav(p, prefix) + e.nav(id) =~= extensions_nav(f, prefix));
        lemma_all_around(extensions_nav(p, prefix), e.nav(id), none, group_ids(e, id));
        assert(extensions_nav(p, prefix) + e.nav(id) + none =~= extensions_nav(f, prefix));
        lemma_all_concat(extensions_nav(f, prefix), ids, group_ids(e, id));
    }
}

proof fn lemma_module_elements(m: ModuleTree, id: Seq<char>)
    ensures
        all_elements(m.html(id), module_ids(m, id)),
{
    let none = Seq::<char>::empty();
    let front = "<section class=\"module\" id=\""@;
    let title = "\"><h2>"@ + escaped(m.name) + "</h2>\n"@;
    let body = nodes_html(m.symbols, id + "-s"@);
    let symbols = if m.symbols.len() > 0 {
        "<div class=\"symbols\">\n"@ + body + "</div>\n"@
    } else {
        none
    };
    let groups = extensions_html(m.extensions, id + "-e"@);
    let end = "</section>\n"@;
    let a = list_ids(m.symbols, id + "-s"@);
    let b = groups_ids(m.extensions, id + "-e"@);
    reveal_strlit("<section class=\"module\" id=\"");
    reveal_strlit("\"><h2>");
    reveal_strlit(" id=\"");
    assert(front.skip(front.len() - " id=\""@.len()) =~= " id=\""@);
    lemma_attribute(front, " id=\""@, escaped(id), title + symbols + groups + end);
    assert(front + escaped(id) + (title + symbols + groups + end) =~= m.html(id));
    assert(all_elements(m.html(id), seq![id]));
    lemma_list_elements(m.symbols, id + "-s"@);
    lemma_groups_elements(m.extensions, id + "-e"@);
    if m.symbols.len() > 0 {
        lemma_all_around("<div class=\"symbols\">\n"@, body, "</div>\n"@, a);
    } else {
        assert(a =~= Seq::<Seq<char>>::empty());
    }
    let head = front + escaped(id) + title;
    lemma_all_around(head, symbols, groups + end, a);
    assert(head + symbols + (groups + end) =~= m.html(id));
    lemma_all_around(head + symbols, groups, end, b);
    assert(head + symbols + groups + end =~= m.html(id));
    lemma_all_concat(m.html(id), seq![id], a);
    lemma_all_concat(m.html(id), seq![id] + a, b);
}

proof fn lemma_module_links(m: ModuleTree, id: Seq<char>)
    ensures
        all_links(m.nav(id), module_ids(m, id)),
{
    let none = Seq::<char>::empty();
    let link = link_html(id, m.name);
    let entries = navs_html(m.symbols, id + "-s"@);
    let symbols = if m.symbols.len() > 0 {
        "<ul>\n"@ + entries + "</ul>\n"@
    } else {
        none
    };
    let groups = extensions_nav(m.extensions, id + "-e"@);
    let end = "</li>\n"@;
    let a = list_ids(m.symbols, id + "-s"@);
    let b = groups_ids(m.extensions, id + "-e"@);
    lemma_link(id, m.name);
    assert(all_links(link, seq![id]));
    lemma_all_around(none, link, "\n"@ + symbols + groups + end, seq![id]);
    assert(none + link + ("\n"@ + symbols + groups + end) =~= m.nav(id));
    lemma_list_elements(m.symbols, id + "-s"@);
    lemma_groups_elements(m.extensions, id + "-e"@);
    if m.symbols.len() > 0 {
        lemma_all_around("<ul>\n"@, entries, "</ul>\n"@, a);
    } else {
        assert(a =~= Seq::<Seq<char>>::empty());
    }
    let head = link + "\n"@;
    lemma_all_around(head, symbols, groups + end, a);
    assert(head + symbols + (groups + end) =~= m.nav(id));
    lemma_all_around(head + symbols, groups, end, b);
    assert(head + symbols + groups + end =~= m.nav(id));
    lemma_all_concat(m.nav(id), seq![id], a);
    lemma_all_concat(m.nav(id), seq![id] + a, b);
}

/// Each id of a page is that of an element in its body and of a link in its
/// navigation.
pub proof fn law_links_lead(modules: Seq<ModuleTree>)
    ensures
        all_elements(modules_html(modules), page_ids(modules)),
        all_links(modules_nav(modules), page_ids(modules)),
    decreases modules.len(),
{
    if modules.len() > 0 {
        let p = modules.drop_last();
        let m = modules.last();
        let id = module_id((modules.len() - 1) as nat);
        let none = Seq::<char>::empty();
        law_links_lead(p);
        lemma_module_elements(m, id);
        lemma_module_links(m, id);
        lemma_all_around(none, modules_html(p), m.html(id), page_ids(p));
        assert(none + modules_html(p) + m.html(id) =~= modules_html(modules));
        lemma_all_around(modules_html(p), m.html(id), none, module_ids(m, id));
        assert(modules_html(p) + m.html(id) + none =~= modules_html(modules));
        lemma_all_concat(modules_html(modules), page_ids(p), module_ids(m, id));
        lemma_all_around(none, modules_nav(p), m.nav(id), page_ids(p));
        assert(none + modules_nav(p) + m.nav(id) =~= modules_nav(modules));
        lemma_all_around(modules_nav(p), m.nav(id), none, module_ids(m, id));
        assert(modules_nav(p) + m.nav(id) + none =~= modules_nav(modules));
        lemma_all_concat(modules_nav(modules), page_ids(p), module_ids(m, id));
    }
}

} // verus!
