//! What stands in a written report, in terms of its entries.

use vstd::prelude::*;

use crate::html_laws::lemma_occurs_add;
use crate::report::{ExtensionDiffTree, ModuleDiffTree, Status, SymbolDiffTree};
use crate::report_output::{
    extensions_md, extensions_text, headline, md_was, modules_md, modules_text, painted, report_md,
    report_text, status_text, symbols_md, symbols_text, totals_md, totals_text, was_text, Style,
};
use crate::tally::report_tally;
use crate::text::{
    chomped, first_line, lemma_first_match_is, line_list, occurs_at, occurs_in, trimmed,
    white_space, Pattern,
};
use crate::text_laws::{law_trimmed, spaces};

verus! {

/// Whether a text is `line`, apart from white space around it, or has that as
/// its first line.
pub open spec fn opens_with(decl: Seq<char>, line: Seq<char>) -> bool {
    &&& !line.contains('\n')
    &&& line.len() > 0 ==> !white_space(line[0]) && !white_space(line.last())
    &&& exists|a: Seq<char>, b: Seq<char>, rest: Seq<char>|
        spaces(a) && spaces(b) && !a.contains('\n') && !b.contains('\n') && (rest.len() > 0
            ==> rest[0] == '\n') && decl == #[trigger] (a + line + b + rest)
}

proof fn lemma_chomped_trimmed(a: Seq<char>, line: Seq<char>, b: Seq<char>)
    requires
        spaces(a),
        spaces(b),
        line.len() > 0 ==> !white_space(line[0]) && !white_space(line.last()),
    ensures
        trimmed(chomped(a + line + b)) == line,
{
    let x = a + line + b;
    law_trimmed(a, line, b);
    if x.len() > 0 && x.last() == '\r' {
        if b.len() > 0 {
            let c = b.drop_last();
            assert forall|i: int| 0 <= i < c.len() implies white_space(#[trigger] c[i]) by {
                assert(c[i] == b[i]);
            }
            assert(x.drop_last() =~= a + line + c);
            law_trimmed(a, line, c);
        } else if line.len() > 0 {
            assert(x.last() == line.last());
            assert(white_space('\r'));
        } else {
            let c = a.drop_last();
            assert forall|i: int| 0 <= i < c.len() implies white_space(#[trigger] c[i]) by {
                assert(c[i] == a[i]);
            }
            assert(x.drop_last() =~= c + line + b);
            law_trimmed(c, line, b);
        }
    }
}

/// What stands for a declaration in a report is its first line, all of it,
/// without white space around it.
pub proof fn law_headline(decl: Seq<char>, line: Seq<char>)
    requires
        opens_with(decl, line),
    ensures
        headline(decl) == line,
{
    let (a, b, rest) = choose|a: Seq<char>, b: Seq<char>, rest: Seq<char>|
        spaces(a) && spaces(b) && !a.contains('\n') && !b.contains('\n') && (rest.len() > 0
            ==> rest[0] == '\n') && decl == #[trigger] (a + line + b + rest);
    let x = a + line + b;
    let p = Pattern::Char('\n');
    let n = x.len() as int;
    assert(decl =~= x + rest);
    assert forall|i: int| 0 <= i < n implies !p.admits(#[trigger] decl[i]) by {
        if i < a.len() {
            assert(a.contains(a[i]));
            assert(decl[i] == a[i]);
        } else if i < a.len() + line.len() {
            assert(line.contains(line[i - a.len()]));
            assert(decl[i] == line[i - a.len()]);
        } else {
            assert(b.contains(b[i - a.len() - line.len()]));
            assert(decl[i] == b[i - a.len() - line.len()]);
        }
    }
    if rest.len() > 0 {
        assert(decl[n] == rest[0]);
    }
    lemma_first_match_is(decl, p, n);
    assert(decl.take(n) =~= x);
    lemma_chomped_trimmed(a, line, b);
    law_trimmed(a, line, b);
    if decl.len() == 0 {
        assert(line =~= decl);
    } else if rest.len() == 0 {
        assert(decl =~= x);
        assert(first_line(decl) == x);
    } else {
        assert(line_list(decl)[0] == chomped(x));
    }
}

/// A declaration of one line, without white space around it, stands for itself.
pub proof fn law_line_stands_for_itself(decl: Seq<char>)
    requires
        !decl.contains('\n'),
        decl.len() > 0 ==> !white_space(decl[0]) && !white_space(decl.last()),
    ensures
        opens_with(decl, decl),
        headline(decl) == decl,
{
    let none = Seq::<char>::empty();
    assert(decl =~= none + decl + none + none);
    assert(opens_with(decl, decl));
    law_headline(decl, decl);
}

/// A text in a color, or as it is where there are no colors. `on` is the escape
/// sequence that turns the color on.
pub open spec fn in_color(s: Seq<char>, on: Seq<char>, color: bool) -> Seq<char> {
    if color {
        on + s + "\x1b[0m"@
    } else {
        s
    }
}

/// The lines of an entry in a text report: a mark and the declaration, green for
/// what was added, red for what was removed, yellow for what was changed; and
/// below what was changed, what it was.
pub open spec fn entry_lines(
    status: Status,
    line: Seq<char>,
    was: Seq<char>,
    indent: Seq<char>,
    color: bool,
) -> Seq<char> {
    match status {
        Status::Same => indent + "  "@ + line + "\n"@,
        Status::Added => indent + in_color("+"@, "\x1b[32m"@, color) + " "@ + in_color(
            line,
            "\x1b[32m"@,
            color,
        ) + "\n"@,
        Status::Removed => indent + in_color("-"@, "\x1b[31m"@, color) + " "@ + in_color(
            line,
            "\x1b[31m"@,
            color,
        ) + "\n"@,
        Status::Changed(_) => indent + in_color("~"@, "\x1b[33m"@, color) + " "@ + in_color(
            line,
            "\x1b[33m"@,
            color,
        ) + "\n"@ + indent + "  "@ + in_color("was:"@, "\x1b[2m"@, color) + " "@ + in_color(
            was,
            "\x1b[2m"@,
            color,
        ) + "\n"@,
    }
}

/// The items of an entry in a Markdown report.
pub open spec fn entry_items(
    status: Status,
    line: Seq<char>,
    was: Seq<char>,
    indent: Seq<char>,
) -> Seq<char> {
    match status {
        Status::Same => indent + "- • `"@ + line + "`\n"@,
        Status::Added => indent + "- ➕ `"@ + line + "`\n"@,
        Status::Removed => indent + "- ➖ `"@ + line + "`\n"@,
        Status::Changed(_) => indent + "- ✎ `"@ + line + "`\n"@ + indent + "  - was: `"@ + was
            + "`\n"@,
    }
}

/// A text is put between the escape sequence of its style and the one that ends
/// it, where there are colors; a plain text, or one without colors, stays as it is.
pub proof fn law_painted(s: Seq<char>, color: bool)
    ensures
        painted(s, Style::Plain, color) == s,
        painted(s, Style::Dim, color) == in_color(s, "\x1b[2m"@, color),
        painted(s, Style::Red, color) == in_color(s, "\x1b[31m"@, color),
        painted(s, Style::Green, color) == in_color(s, "\x1b[32m"@, color),
        painted(s, Style::Yellow, color) == in_color(s, "\x1b[33m"@, color),
{
    reveal_strlit("\x1b[");
    reveal_strlit("m");
    reveal_strlit("2");
    reveal_strlit("31");
    reveal_strlit("32");
    reveal_strlit("33");
    reveal_strlit("\x1b[2m");
    reveal_strlit("\x1b[31m");
    reveal_strlit("\x1b[32m");
    reveal_strlit("\x1b[33m");
    assert("\x1b["@ + "2"@ + "m"@ =~= "\x1b[2m"@);
    assert("\x1b["@ + "31"@ + "m"@ =~= "\x1b[31m"@);
    assert("\x1b["@ + "32"@ + "m"@ =~= "\x1b[32m"@);
    assert("\x1b["@ + "33"@ + "m"@ =~= "\x1b[33m"@);
}

/// Whether the text that a status keeps opens with a line.
pub open spec fn was_opens_with(status: Status, was: Seq<char>) -> bool {
    match status {
        Status::Changed(old_decl) => opens_with(old_decl, was),
        _ => true,
    }
}

/// Whatever stands for an entry, its lines are made in the same way.
pub proof fn law_status_lines(
    status: Status,
    label: Seq<char>,
    was: Seq<char>,
    indent: Seq<char>,
    color: bool,
)
    requires
        was_opens_with(status, was),
    ensures
        status_text(status, label, color, indent) + was_text(status, color, indent) == entry_lines(
            status,
            label,
            was,
            indent,
            color,
        ),
{
    let none = Seq::<char>::empty();
    law_painted(label, color);
    law_painted(status.marker(), color);
    law_painted("was:"@, color);
    law_painted(was, color);
    let first = status_text(status, label, color, indent);
    match status {
        Status::Changed(old_decl) => {
            law_headline(old_decl, was);
            let a = in_color("was:"@, "\x1b[2m"@, color);
            let b = in_color(was, "\x1b[2m"@, color);
            assert(first + (indent + "  "@ + a + " "@ + b + "\n"@) =~= first + indent + "  "@ + a
                + " "@ + b + "\n"@);
        },
        Status::Same => {
            reveal_strlit(" ");
            reveal_strlit("  ");
            assert(" "@ + " "@ =~= "  "@);
            assert(indent + " "@ + " "@ =~= indent + "  "@);
            assert(first + none =~= first);
        },
        _ => {
            assert(first + none =~= first);
        },
    }
}

proof fn lemma_md_items(
    status: Status,
    line: Seq<char>,
    was: Seq<char>,
    indent: Seq<char>,
)
    requires
        was_opens_with(status, was),
    ensures
        indent + "- "@ + status.md_marker() + " `"@ + line + "`\n"@ + md_was(status, indent)
            == entry_items(status, line, was, indent),
{
    reveal_strlit("- ");
    reveal_strlit(" `");
    reveal_strlit("•");
    reveal_strlit("➕");
    reveal_strlit("➖");
    reveal_strlit("✎");
    reveal_strlit("- • `");
    reveal_strlit("- ➕ `");
    reveal_strlit("- ➖ `");
    reveal_strlit("- ✎ `");
    assert("- "@ + "•"@ + " `"@ =~= "- • `"@);
    assert("- "@ + "➕"@ + " `"@ =~= "- ➕ `"@);
    assert("- "@ + "➖"@ + " `"@ =~= "- ➖ `"@);
    assert("- "@ + "✎"@ + " `"@ =~= "- ✎ `"@);
    let none = Seq::<char>::empty();
    let mark = status.md_marker();
    assert(indent + "- "@ + mark + " `"@ =~= indent + ("- "@ + mark + " `"@));
    let first = indent + "- "@ + mark + " `"@ + line + "`\n"@;
    match status {
        Status::Changed(old_decl) => {
            law_headline(old_decl, was);
            assert(first + (indent + "  - was: `"@ + was + "`\n"@) =~= first + indent
                + "  - was: `"@ + was + "`\n"@);
        },
        _ => {
            assert(first + none =~= first);
        },
    }
}

/// An entry without nested ones is its own lines. Another nested entry comes
/// behind the others, two columns further in.
pub proof fn law_entry_text(
    e: SymbolDiffTree,
    x: SymbolDiffTree,
    line: Seq<char>,
    was: Seq<char>,
    indent: Seq<char>,
    color: bool,
)
    requires
        opens_with(e.decl, line),
        was_opens_with(e.status, was),
    ensures
        e.members.len() == 0 ==> e.text(indent, color) == entry_lines(
            e.status,
            line,
            was,
            indent,
            color,
        ),
        e.members.len() == 0 ==> e.md(indent) == entry_items(e.status, line, was, indent),
        (SymbolDiffTree { members: e.members.push(x), ..e }).text(indent, color) == e.text(
            indent,
            color,
        ) + x.text(indent + "  "@, color),
        (SymbolDiffTree { members: e.members.push(x), ..e }).md(indent) == e.md(indent) + x.md(
            indent + "  "@,
        ),
{
    let none = Seq::<char>::empty();
    law_headline(e.decl, line);
    law_status_lines(e.status, line, was, indent, color);
    lemma_md_items(e.status, line, was, indent);
    let inner = indent + "  "@;
    let more = SymbolDiffTree { members: e.members.push(x), ..e };
    assert(more.members.drop_last() =~= e.members);
    assert(symbols_text(more.members, inner, color) == symbols_text(e.members, inner, color)
        + x.text(inner, color));
    assert(symbols_md(more.members, inner) == symbols_md(e.members, inner) + x.md(inner));
    assert(more.text(indent, color) =~= e.text(indent, color) + x.text(inner, color));
    assert(more.md(indent) =~= e.md(indent) + x.md(inner));
    if e.members.len() == 0 {
        assert(symbols_text(e.members, inner, color) =~= none);
        assert(symbols_md(e.members, inner) =~= none);
        assert(e.text(indent, color) =~= entry_lines(e.status, line, was, indent, color));
        assert(e.md(indent) =~= entry_items(e.status, line, was, indent));
    }
}

/// Whether an entry stands at a place in a list of entries: at `[i]` is the
/// entry `i`, at `[i, j]` the nested entry `j` of that, and so on.
pub open spec fn entry_at(f: Seq<SymbolDiffTree>, place: Seq<int>, e: SymbolDiffTree) -> bool
    decreases place.len(),
{
    &&& place.len() > 0
    &&& 0 <= place[0] < f.len()
    &&& if place.len() == 1 {
        f[place[0]] == e
    } else {
        entry_at(f[place[0]].members, place.skip(1), e)
    }
}

/// So many spaces.
pub open spec fn columns(n: nat) -> Seq<char> {
    Seq::new(n, |i: int| ' ')
}

proof fn lemma_itself(p: Seq<char>)
    ensures
        occurs_in(p, p),
{
    assert(p.subrange(0, p.len() as int) =~= p);
    assert(occurs_at(p, p, 0));
}

proof fn lemma_in_entries(
    f: Seq<SymbolDiffTree>,
    i: int,
    indent: Seq<char>,
    color: bool,
    p: Seq<char>,
    q: Seq<char>,
)
    requires
        0 <= i < f.len(),
        occurs_in(f[i].text(indent, color), p),
        occurs_in(f[i].md(indent), q),
    ensures
        occurs_in(symbols_text(f, indent, color), p),
        occurs_in(symbols_md(f, indent), q),
    decreases f.len(),
{
    let h = f.drop_last();
    lemma_occurs_add(symbols_text(h, indent, color), f.last().text(indent, color), p);
    lemma_occurs_add(symbols_md(h, indent), f.last().md(indent), q);
    if i < h.len() {
        assert(h[i] == f[i]);
        lemma_in_entries(h, i, indent, color, p, q);
    }
}

proof fn lemma_entry_found(
    f: Seq<SymbolDiffTree>,
    place: Seq<int>,
    e: SymbolDiffTree,
    line: Seq<char>,
    was: Seq<char>,
    n: nat,
    color: bool,
)
    requires
        entry_at(f, place, e),
        opens_with(e.decl, line),
        was_opens_with(e.status, was),
    ensures
        occurs_in(
            symbols_text(f, columns(n), color),
            entry_lines(e.status, line, was, columns((n + 2 * (place.len() - 1)) as nat), color),
        ),
        occurs_in(
            symbols_md(f, columns(n)),
            entry_items(e.status, line, was, columns((n + 2 * (place.len() - 1)) as nat)),
        ),
    decreases place.len(),
{
    let at = columns((n + 2 * (place.len() - 1)) as nat);
    let p = entry_lines(e.status, line, was, at, color);
    let q = entry_items(e.status, line, was, at);
    let indent = columns(n);
    let i = place[0];
    let x = f[i];
    reveal_strlit("  ");
    assert(indent + "  "@ =~= columns((n + 2) as nat));
    let inner = indent + "  "@;
    let own = status_text(x.status, headline(x.decl), color, indent) + was_text(
        x.status,
        color,
        indent,
    );
    let item = indent + "- "@ + x.status.md_marker() + " `"@ + headline(x.decl) + "`\n"@ + md_was(
        x.status,
        indent,
    );
    if place.len() == 1 {
        law_headline(e.decl, line);
        law_status_lines(e.status, line, was, indent, color);
        lemma_md_items(e.status, line, was, indent);
        lemma_itself(p);
        lemma_itself(q);
    } else {
        lemma_entry_found(x.members, place.skip(1), e, line, was, (n + 2) as nat, color);
    }
    lemma_occurs_add(own, symbols_text(x.members, inner, color), p);
    lemma_occurs_add(item, symbols_md(x.members, inner), q);
    assert(x.text(indent, color) == own + symbols_text(x.members, inner, color));
    assert(x.md(indent) == item + symbols_md(x.members, inner));
    lemma_in_entries(f, i, indent, color, p, q);
}

proof fn lemma_in_modules(
    f: Seq<ModuleDiffTree>,
    m: int,
    color: bool,
    p: Seq<char>,
    q: Seq<char>,
)
    requires
        0 <= m < f.len(),
        occurs_in(f[m].text(color), p),
        occurs_in(f[m].md(), q),
    ensures
        occurs_in(modules_text(f, color), p),
        occurs_in(modules_md(f), q),
    decreases f.len(),
{
    let h = f.drop_last();
    lemma_occurs_add(modules_text(h, color), f.last().text(color), p);
    lemma_occurs_add(modules_md(h), f.last().md(), q);
    if m < h.len() {
        assert(h[m] == f[m]);
        lemma_in_modules(h, m, color, p, q);
    }
}

proof fn lemma_in_report(
    report: Seq<ModuleDiffTree>,
    m: int,
    color: bool,
    p: Seq<char>,
    q: Seq<char>,
)
    requires
        0 <= m < report.len(),
        report[m].differs(),
        occurs_in(report[m].text(color), p),
        occurs_in(report[m].md(), q),
    ensures
        occurs_in(report_text(report, color), p),
        occurs_in(report_md(report), q),
{
    lemma_in_modules(report, m, color, p, q);
    let t = report_tally(report);
    lemma_occurs_add(totals_text(t), modules_text(report, color), p);
    lemma_occurs_add(totals_md(t), modules_md(report), q);
}

proof fn lemma_in_module(m: ModuleDiffTree, color: bool, p: Seq<char>, q: Seq<char>)
    ensures
        occurs_in(symbols_text(m.symbols, "  "@, color), p) || occurs_in(
            extensions_text(m.extensions, color),
            p,
        ) || occurs_in(status_text(m.status, "Module "@ + m.name, color, ""@), p) ==> occurs_in(
            m.text(color),
            p,
        ),
        occurs_in(symbols_md(m.symbols, ""@), q) || occurs_in(extensions_md(m.extensions), q)
            || occurs_in("#### "@ + m.status.md_badge() + "Module `"@ + m.name + "`\n\n"@, q)
            ==> occurs_in(m.md(), q),
{
    let a = status_text(m.status, "Module "@ + m.name, color, ""@);
    let b = symbols_text(m.symbols, "  "@, color);
    let c = extensions_text(m.extensions, color);
    lemma_occurs_add(a, b, p);
    lemma_occurs_add(a + b, c, p);
    lemma_occurs_add(a + b + c, "\n"@, p);
    let d = "#### "@ + m.status.md_badge() + "Module `"@ + m.name + "`\n\n"@;
    let e = symbols_md(m.symbols, ""@);
    let f = extensions_md(m.extensions);
    lemma_occurs_add(d, e, q);
    lemma_occurs_add(d + e, f, q);
    lemma_occurs_add(d + e + f, "\n"@, q);
}

/// A report shows each entry of a module, however deeply nested: in a text
/// report in lines that are indented by two columns for each level, in a
/// Markdown report as items of nested lists, with the declaration between back
/// quotes.
pub proof fn law_entry_shown(
    report: Seq<ModuleDiffTree>,
    m: int,
    place: Seq<int>,
    e: SymbolDiffTree,
    line: Seq<char>,
    was: Seq<char>,
    color: bool,
)
    requires
        0 <= m < report.len(),
        entry_at(report[m].symbols, place, e),
        opens_with(e.decl, line),
        was_opens_with(e.status, was),
    ensures
        occurs_in(
            report_text(report, color),
            entry_lines(e.status, line, was, columns(2 * place.len()), color),
        ),
        occurs_in(
            report_md(report),
            entry_items(e.status, line, was, columns((2 * place.len() - 2) as nat)),
        ),
{
    reveal_strlit("  ");
    reveal_strlit("");
    assert("  "@ =~= columns(2));
    assert(""@ =~= columns(0));
    let p = entry_lines(e.status, line, was, columns(2 * place.len()), color);
    let q = entry_items(e.status, line, was, columns((2 * place.len() - 2) as nat));
    lemma_entry_found(report[m].symbols, place, e, line, was, 2, color);
    lemma_entry_found(report[m].symbols, place, e, line, was, 0, color);
    lemma_in_module(report[m], color, p, q);
    lemma_in_report(report, m, color, p, q);
}

proof fn lemma_in_groups(
    f: Seq<ExtensionDiffTree>,
    i: int,
    color: bool,
    p: Seq<char>,
    q: Seq<char>,
)
    requires
        0 <= i < f.len(),
        occurs_in(f[i].text(color), p),
        occurs_in(f[i].md(), q),
    ensures
        occurs_in(extensions_text(f, color), p),
        occurs_in(extensions_md(f), q),
    decreases f.len(),
{
    let h = f.drop_last();
    lemma_occurs_add(extensions_text(h, color), f.last().text(color), p);
    lemma_occurs_add(extensions_md(h), f.last().md(), q);
    if i < h.len() {
        assert(h[i] == f[i]);
        lemma_in_groups(h, i, color, p, q);
    }
}

/// The same holds of the entries of an extension group, two columns further in.
pub proof fn law_extension_entry_shown(
    report: Seq<ModuleDiffTree>,
    m: int,
    x: int,
    place: Seq<int>,
    e: SymbolDiffTree,
    line: Seq<char>,
    was: Seq<char>,
    color: bool,
)
    requires
        0 <= m < report.len(),
        0 <= x < report[m].extensions.len(),
        entry_at(report[m].extensions[x].symbols, place, e),
        opens_with(e.decl, line),
        was_opens_with(e.status, was),
    ensures
        occurs_in(
            report_text(report, color),
            entry_lines(e.status, line, was, columns(2 * place.len() + 2), color),
        ),
        occurs_in(report_md(report), entry_items(e.status, line, was, columns(2 * place.len()))),
{
    reveal_strlit("    ");
    reveal_strlit("  ");
    assert("    "@ =~= columns(4));
    assert("  "@ =~= columns(2));
    let p = entry_lines(e.status, line, was, columns(2 * place.len() + 2), color);
    let q = entry_items(e.status, line, was, columns(2 * place.len()));
    let g = report[m].extensions[x];
    lemma_entry_found(g.symbols, place, e, line, was, 4, color);
    lemma_entry_found(g.symbols, place, e, line, was, 2, color);
    lemma_occurs_add(
        status_text(g.status, "extension "@ + g.extended_module, color, "  "@),
        symbols_text(g.symbols, "    "@, color),
        p,
    );
    lemma_occurs_add(
        "- "@ + g.status.md_badge() + "extension `"@ + g.extended_module + "`\n"@,
        symbols_md(g.symbols, "  "@),
        q,
    );
    lemma_in_groups(report[m].extensions, x, color, p, q);
    lemma_in_module(report[m], color, p, q);
    lemma_in_report(report, m, color, p, q);
}

/// What marks a module or an extension group in a Markdown report, with a space
/// behind it: a plus or a minus sign where it was added or removed as a whole.
pub open spec fn badge(status: Status) -> Seq<char> {
    match status {
        Status::Added => "➕ "@,
        Status::Removed => "➖ "@,
        _ => Seq::<char>::empty(),
    }
}

/// A module is its own line, its entries one after the other, its extension
/// groups one after the other, and an empty line. An extension group is its own
/// line and its entries one after the other.
pub proof fn law_module_report(
    m: ModuleDiffTree,
    g: ExtensionDiffTree,
    x: SymbolDiffTree,
    color: bool,
)
    requires
        !(m.status is Changed),
        !(g.status is Changed),
    ensures
        m.symbols.len() == 0 && m.extensions.len() == 0 ==> m.text(color) == entry_lines(
            m.status,
            "Module "@ + m.name,
            seq![],
            seq![],
            color,
        ) + "\n"@,
        m.symbols.len() == 0 && m.extensions.len() == 0 ==> m.md() == "#### "@ + badge(m.status)
            + "Module `"@ + m.name + "`\n\n"@ + "\n"@,
        m.extensions.len() == 0 ==> (ModuleDiffTree { symbols: m.symbols.push(x), ..m }).text(color)
            == m.text(color).drop_last() + x.text("  "@, color) + "\n"@,
        m.extensions.len() == 0 ==> (ModuleDiffTree { symbols: m.symbols.push(x), ..m }).md()
            == m.md().drop_last() + x.md(seq![]) + "\n"@,
        (ModuleDiffTree { extensions: m.extensions.push(g), ..m }).text(color) == m.text(
            color,
        ).drop_last() + g.text(color) + "\n"@,
        (ModuleDiffTree { extensions: m.extensions.push(g), ..m }).md() == m.md().drop_last()
            + g.md() + "\n"@,
        g.symbols.len() == 0 ==> g.text(color) == entry_lines(
            g.status,
            "extension "@ + g.extended_module,
            seq![],
            "  "@,
            color,
        ),
        g.symbols.len() == 0 ==> g.md() == "- "@ + badge(g.status) + "extension `"@
            + g.extended_module + "`\n"@,
        (ExtensionDiffTree { symbols: g.symbols.push(x), ..g }).text(color) == g.text(color)
            + x.text("    "@, color),
        (ExtensionDiffTree { symbols: g.symbols.push(x), ..g }).md() == g.md() + x.md("  "@),
{
    let none = Seq::<char>::empty();
    reveal_strlit("\n");
    reveal_strlit("");
    assert(""@ =~= none);
    law_status_lines(m.status, "Module "@ + m.name, none, none, color);
    law_status_lines(g.status, "extension "@ + g.extended_module, none, "  "@, color);
    assert(was_text(m.status, color, none) =~= none);
    assert(was_text(g.status, color, "  "@) =~= none);
    let own = status_text(m.status, "Module "@ + m.name, color, none);
    let group = status_text(g.status, "extension "@ + g.extended_module, color, "  "@);
    assert(own + none =~= own);
    assert(group + none =~= group);
    let head = "#### "@ + badge(m.status) + "Module `"@ + m.name + "`\n\n"@;
    let item = "- "@ + badge(g.status) + "extension `"@ + g.extended_module + "`\n"@;
    assert(m.status.md_badge() =~= badge(m.status));
    assert(g.status.md_badge() =~= badge(g.status));
    assert(m.symbols.push(x).drop_last() =~= m.symbols);
    assert(m.extensions.push(g).drop_last() =~= m.extensions);
    assert(g.symbols.push(x).drop_last() =~= g.symbols);
    let a = symbols_text(m.symbols, "  "@, color);
    let b = extensions_text(m.extensions, color);
    let c = symbols_md(m.symbols, none);
    let d = extensions_md(m.extensions);
    assert(symbols_text(m.symbols.push(x), "  "@, color) == a + x.text("  "@, color));
    assert(symbols_md(m.symbols.push(x), none) == c + x.md(none));
    assert(extensions_text(m.extensions.push(g), color) == b + g.text(color));
    assert(extensions_md(m.extensions.push(g)) == d + g.md());
    assert(symbols_text(g.symbols.push(x), "    "@, color) == symbols_text(
        g.symbols,
        "    "@,
        color,
    ) + x.text("    "@, color));
    assert(symbols_md(g.symbols.push(x), "  "@) == symbols_md(g.symbols, "  "@) + x.md("  "@));
    assert(m.text(color) == own + a + b + "\n"@);
    assert(m.md() == head + c + d + "\n"@);
    assert(m.text(color).drop_last() =~= own + a + b);
    assert(m.md().drop_last() =~= head + c + d);
    if m.extensions.len() == 0 {
        assert(b =~= none);
        assert(d =~= none);
        let more = ModuleDiffTree { symbols: m.symbols.push(x), ..m };
        assert(more.text(color) =~= own + a + b + x.text("  "@, color) + "\n"@);
        assert(more.md() =~= head + c + d + x.md(none) + "\n"@);
        if m.symbols.len() == 0 {
            assert(a =~= none);
            assert(c =~= none);
            assert(m.text(color) =~= own + "\n"@);
            assert(m.md() =~= head + "\n"@);
        }
    }
    let more = ModuleDiffTree { extensions: m.extensions.push(g), ..m };
    assert(more.text(color) =~= own + a + b + g.text(color) + "\n"@);
    assert(more.md() =~= head + c + d + g.md() + "\n"@);
    if g.symbols.len() == 0 {
        assert(symbols_text(g.symbols, "    "@, color) =~= none);
        assert(symbols_md(g.symbols, "  "@) =~= none);
        assert(g.text(color) =~= group);
        assert(g.md() =~= item);
    }
    let bigger = ExtensionDiffTree { symbols: g.symbols.push(x), ..g };
    assert(bigger.text(color) =~= g.text(color) + x.text("    "@, color));
    assert(bigger.md() =~= g.md() + x.md("  "@));
}

} // verus!
