//! Where a written report holds terminal escape sequences, and where not.

use vstd::prelude::*;

use crate::report::{nothing_differs, ExtensionDiffTree, ModuleDiffTree, Status, SymbolDiffTree};
use crate::report_output::{
    extensions_md, extensions_text, headline, modules_md, modules_text, painted, report_md,
    report_text, status_text, symbols_md, symbols_text, totals_md, totals_text, was_text, Style,
};
use crate::tally::{capped, extensions_tally, report_tally, symbols_tally, Tally};
use crate::text::{decimal_digits, first_line, trimmed_end, trimmed_start};

verus! {

/// The character that starts a terminal escape sequence.
pub const ESCAPE: char = '\x1b';

/// Whether a text holds no escape character.
pub open spec fn plain(s: Seq<char>) -> bool {
    forall|i: int| 0 <= i < s.len() ==> #[trigger] s[i] != ESCAPE
}

impl Status {
    /// Whether the text in the status holds no escape character.
    pub open spec fn is_plain(self) -> bool {
        match self {
            Status::Changed(old_decl) => plain(old_decl),
            _ => true,
        }
    }
}

impl SymbolDiffTree {
    /// Whether no text in the entry holds an escape character.
    pub open spec fn is_plain(self) -> bool
        decreases self,
    {
        &&& plain(self.decl)
        &&& self.status.is_plain()
        &&& forall|i: int| 0 <= i < self.members.len() ==> (#[trigger] self.members[i]).is_plain()
    }
}

/// Whether no text in the entries holds an escape character.
pub open spec fn all_plain(f: Seq<SymbolDiffTree>) -> bool {
    forall|i: int| 0 <= i < f.len() ==> (#[trigger] f[i]).is_plain()
}

impl ExtensionDiffTree {
    /// Whether no text in the entry holds an escape character.
    pub open spec fn is_plain(self) -> bool {
        plain(self.extended_module) && all_plain(self.symbols)
    }
}

impl ModuleDiffTree {
    /// Whether no text in the entry holds an escape character.
    pub open spec fn is_plain(self) -> bool {
        &&& plain(self.name)
        &&& all_plain(self.symbols)
        &&& forall|i: int|
            0 <= i < self.extensions.len() ==> (#[trigger] self.extensions[i]).is_plain()
    }
}

/// Whether no text in a report holds an escape character.
pub open spec fn report_plain(report: Seq<ModuleDiffTree>) -> bool {
    forall|i: int| 0 <= i < report.len() ==> (#[trigger] report[i]).is_plain()
}

broadcast proof fn lemma_plain_add(a: Seq<char>, b: Seq<char>)
    ensures
        #[trigger] plain(a + b) <==> plain(a) && plain(b),
{
    if plain(a + b) {
        assert forall|i: int| 0 <= i < a.len() implies #[trigger] a[i] != ESCAPE by {
            assert((a + b)[i] == a[i]);
        }
        assert forall|i: int| 0 <= i < b.len() implies #[trigger] b[i] != ESCAPE by {
            assert((a + b)[a.len() + i] == b[i]);
        }
    }
}

proof fn lemma_trimmed_start_plain(s: Seq<char>)
    requires
        plain(s),
    ensures
        plain(trimmed_start(s)),
    decreases s.len(),
{
    if s.len() > 0 {
        assert(plain(s.skip(1)));
        lemma_trimmed_start_plain(s.skip(1));
    }
}

proof fn lemma_trimmed_end_plain(s: Seq<char>)
    requires
        plain(s),
    ensures
        plain(trimmed_end(s)),
    decreases s.len(),
{
    if s.len() > 0 {
        assert(plain(s.drop_last()));
        lemma_trimmed_end_plain(s.drop_last());
    }
}

proof fn lemma_headline_plain(decl: Seq<char>)
    requires
        plain(decl),
    ensures
        plain(headline(decl)),
{
    let line = first_line(decl);
    assert(plain(line));
    lemma_trimmed_start_plain(line);
    lemma_trimmed_end_plain(trimmed_start(line));
}

proof fn lemma_digits_plain(n: nat)
    ensures
        plain(decimal_digits(n)),
    decreases n,
{
    if n >= 10 {
        lemma_digits_plain(n / 10);
    }
}

proof fn lemma_marks_plain(status: Status)
    ensures
        plain(status.marker()),
        plain(status.md_marker()),
        plain(status.md_badge()),
{
    reveal_strlit(" ");
    reveal_strlit("+");
    reveal_strlit("-");
    reveal_strlit("~");
    reveal_strlit("•");
    reveal_strlit("➕");
    reveal_strlit("➖");
    reveal_strlit("✎");
    reveal_strlit("➕ ");
    reveal_strlit("➖ ");
    reveal_strlit("");
}

proof fn lemma_status_text_plain(status: Status, label: Seq<char>, indent: Seq<char>)
    requires
        plain(label),
        plain(indent),
    ensures
        plain(status_text(status, label, false, indent)),
{
    broadcast use lemma_plain_add;

    lemma_marks_plain(status);
    reveal_strlit(" ");
    reveal_strlit("\n");
}

proof fn lemma_was_text_plain(status: Status, indent: Seq<char>)
    requires
        status.is_plain(),
        plain(indent),
    ensures
        plain(was_text(status, false, indent)),
{
    broadcast use lemma_plain_add;

    match status {
        Status::Changed(old_decl) => {
            lemma_headline_plain(old_decl);
            reveal_strlit("  ");
            reveal_strlit("was:");
            reveal_strlit(" ");
            reveal_strlit("\n");
        },
        _ => {},
    }
}

proof fn lemma_symbol_text_plain(t: SymbolDiffTree, indent: Seq<char>)
    requires
        t.is_plain(),
        plain(indent),
    ensures
        plain(t.text(indent, false)),
    decreases t, 1nat,
{
    broadcast use lemma_plain_add;

    reveal_strlit("  ");
    lemma_headline_plain(t.decl);
    lemma_status_text_plain(t.status, headline(t.decl), indent);
    lemma_was_text_plain(t.status, indent);
    lemma_symbols_text_plain(t.members, indent + "  "@);
}

proof fn lemma_symbols_text_plain(f: Seq<SymbolDiffTree>, indent: Seq<char>)
    requires
        all_plain(f),
        plain(indent),
    ensures
        plain(symbols_text(f, indent, false)),
    decreases f, 0nat,
{
    broadcast use lemma_plain_add;

    if f.len() > 0 {
        lemma_symbols_text_plain(f.drop_last(), indent);
        assert(decreases_to!(f => f[f.len() - 1]));
        lemma_symbol_text_plain(f.last(), indent);
    }
}

proof fn lemma_extensions_text_plain(f: Seq<ExtensionDiffTree>)
    requires
        forall|i: int| 0 <= i < f.len() ==> (#[trigger] f[i]).is_plain(),
    ensures
        plain(extensions_text(f, false)),
    decreases f.len(),
{
    broadcast use lemma_plain_add;

    if f.len() > 0 {
        let e = f.last();
        lemma_extensions_text_plain(f.drop_last());
        reveal_strlit("extension ");
        reveal_strlit("  ");
        reveal_strlit("    ");
        lemma_status_text_plain(e.status, "extension "@ + e.extended_module, "  "@);
        lemma_symbols_text_plain(e.symbols, "    "@);
    }
}

proof fn lemma_modules_text_plain(f: Seq<ModuleDiffTree>)
    requires
        report_plain(f),
    ensures
        plain(modules_text(f, false)),
    decreases f.len(),
{
    broadcast use lemma_plain_add;

    if f.len() > 0 {
        let m = f.last();
        lemma_modules_text_plain(f.drop_last());
        reveal_strlit("Module ");
        reveal_strlit("");
        reveal_strlit("  ");
        reveal_strlit("\n");
        lemma_status_text_plain(m.status, "Module "@ + m.name, ""@);
        lemma_symbols_text_plain(m.symbols, "  "@);
        lemma_extensions_text_plain(m.extensions);
    }
}

/// Without colors, a text report holds no escape character, unless a name or
/// a declaration holds one.
pub proof fn law_no_color_no_escapes(report: Seq<ModuleDiffTree>)
    requires
        report_plain(report),
    ensures
        !report_text(report, false).contains(ESCAPE),
{
    broadcast use lemma_plain_add;

    reveal_strlit("No API differences.\n");
    lemma_totals_plain(report_tally(report));
    lemma_modules_text_plain(report);
    assert(plain(report_text(report, false)));
}

proof fn lemma_symbol_md_plain(t: SymbolDiffTree, indent: Seq<char>)
    requires
        t.is_plain(),
        plain(indent),
    ensures
        plain(t.md(indent)),
    decreases t, 1nat,
{
    broadcast use lemma_plain_add;

    lemma_marks_plain(t.status);
    reveal_strlit("- ");
    reveal_strlit(" `");
    reveal_strlit("`\n");
    reveal_strlit("  ");
    reveal_strlit("  - was: `");
    lemma_headline_plain(t.decl);
    match t.status {
        Status::Changed(old_decl) => {
            lemma_headline_plain(old_decl);
        },
        _ => {},
    }
    lemma_symbols_md_plain(t.members, indent + "  "@);
}

proof fn lemma_symbols_md_plain(f: Seq<SymbolDiffTree>, indent: Seq<char>)
    requires
        all_plain(f),
        plain(indent),
    ensures
        plain(symbols_md(f, indent)),
    decreases f, 0nat,
{
    broadcast use lemma_plain_add;

    if f.len() > 0 {
        lemma_symbols_md_plain(f.drop_last(), indent);
        assert(decreases_to!(f => f[f.len() - 1]));
        lemma_symbol_md_plain(f.last(), indent);
    }
}

proof fn lemma_extensions_md_plain(f: Seq<ExtensionDiffTree>)
    requires
        forall|i: int| 0 <= i < f.len() ==> (#[trigger] f[i]).is_plain(),
    ensures
        plain(extensions_md(f)),
    decreases f.len(),
{
    broadcast use lemma_plain_add;

    if f.len() > 0 {
        let e = f.last();
        lemma_extensions_md_plain(f.drop_last());
        lemma_marks_plain(e.status);
        reveal_strlit("- ");
        reveal_strlit("extension `");
        reveal_strlit("`\n");
        reveal_strlit("  ");
        lemma_symbols_md_plain(e.symbols, "  "@);
    }
}

proof fn lemma_modules_md_plain(f: Seq<ModuleDiffTree>)
    requires
        report_plain(f),
    ensures
        plain(modules_md(f)),
    decreases f.len(),
{
    broadcast use lemma_plain_add;

    if f.len() > 0 {
        let m = f.last();
        lemma_modules_md_plain(f.drop_last());
        lemma_marks_plain(m.status);
        reveal_strlit("#### ");
        reveal_strlit("Module `");
        reveal_strlit("`\n\n");
        reveal_strlit("");
        reveal_strlit("\n");
        lemma_symbols_md_plain(m.symbols, ""@);
        lemma_extensions_md_plain(m.extensions);
    }
}

/// A Markdown report holds no escape character, unless a name or a
/// declaration holds one.
pub proof fn law_markdown_no_escapes(report: Seq<ModuleDiffTree>)
    requires
        report_plain(report),
    ensures
        !report_md(report).contains(ESCAPE),
{
    broadcast use lemma_plain_add;

    let t = report_tally(report);
    reveal_strlit("**No API differences.**\n");
    reveal_strlit("### API differences\n\n- **Added:** ");
    reveal_strlit("\n- **Removed:** ");
    reveal_strlit("\n- **Changed:** ");
    reveal_strlit("\n\n");
    lemma_digits_plain(capped(t.added));
    lemma_digits_plain(capped(t.removed));
    lemma_digits_plain(capped(t.changed));
    lemma_modules_md_plain(report);
    assert(plain(totals_md(t)));
    assert(plain(report_md(report)));
}

proof fn lemma_painted_escapes(s: Seq<char>, style: Style)
    requires
        !(style is Plain),
    ensures
        !plain(painted(s, style, true)),
{
    broadcast use lemma_plain_add;

    reveal_strlit("\x1b[");
    assert("\x1b["@[0] == ESCAPE);
}

proof fn lemma_status_escapes(status: Status, label: Seq<char>, indent: Seq<char>)
    requires
        !(status is Same),
    ensures
        !plain(status_text(status, label, true, indent)),
{
    broadcast use lemma_plain_add;

    lemma_painted_escapes(label, status.style());
}

proof fn lemma_symbol_escapes(t: SymbolDiffTree, indent: Seq<char>)
    requires
        t.tally().total() > 0,
    ensures
        !plain(t.text(indent, true)),
    decreases t, 1nat,
{
    broadcast use lemma_plain_add;

    if t.status is Same {
        lemma_symbols_escape(t.members, indent + "  "@);
    } else {
        lemma_status_escapes(t.status, headline(t.decl), indent);
    }
}

proof fn lemma_symbols_escape(f: Seq<SymbolDiffTree>, indent: Seq<char>)
    requires
        symbols_tally(f).total() > 0,
    ensures
        !plain(symbols_text(f, indent, true)),
    decreases f, 0nat,
{
    broadcast use lemma_plain_add;

    if symbols_tally(f.drop_last()).total() > 0 {
        lemma_symbols_escape(f.drop_last(), indent);
    } else {
        assert(decreases_to!(f => f[f.len() - 1]));
        lemma_symbol_escapes(f.last(), indent);
    }
}

proof fn lemma_extensions_escape(f: Seq<ExtensionDiffTree>)
    requires
        extensions_tally(f).total() > 0,
    ensures
        !plain(extensions_text(f, true)),
    decreases f.len(),
{
    broadcast use lemma_plain_add;

    if extensions_tally(f.drop_last()).total() > 0 {
        lemma_extensions_escape(f.drop_last());
    } else {
        let e = f.last();
        if e.status is Same {
            lemma_symbols_escape(e.symbols, "    "@);
        } else {
            lemma_status_escapes(e.status, "extension "@ + e.extended_module, "  "@);
        }
    }
}

proof fn lemma_modules_escape(f: Seq<ModuleDiffTree>)
    requires
        report_tally(f).total() > 0,
    ensures
        !plain(modules_text(f, true)),
    decreases f.len(),
{
    broadcast use lemma_plain_add;

    if report_tally(f.drop_last()).total() > 0 {
        lemma_modules_escape(f.drop_last());
    } else {
        let m = f.last();
        if !(m.status is Same) {
            lemma_status_escapes(m.status, "Module "@ + m.name, ""@);
        } else if symbols_tally(m.symbols).total() > 0 {
            lemma_symbols_escape(m.symbols, "  "@);
        } else {
            lemma_extensions_escape(m.extensions);
        }
    }
}

proof fn lemma_nothing_counted(report: Seq<ModuleDiffTree>)
    requires
        nothing_differs(report),
    ensures
        report_tally(report).total() == 0,
    decreases report.len(),
{
    if report.len() > 0 {
        let p = report.drop_last();
        assert forall|i: int| 0 <= i < p.len() implies !(#[trigger] p[i]).differs() by {
            assert(p[i] == report[i]);
        }
        lemma_nothing_counted(p);
        assert(!report[report.len() - 1].differs());
    }
}

/// With colors, a text report that counts a difference holds an escape
/// character.
pub proof fn law_color_escapes(report: Seq<ModuleDiffTree>)
    requires
        report_tally(report).total() > 0,
    ensures
        report_text(report, true).contains(ESCAPE),
{
    broadcast use lemma_plain_add;

    if nothing_differs(report) {
        lemma_nothing_counted(report);
    }
    lemma_modules_escape(report);
    let s = report_text(report, true);
    assert(!plain(s));
    let i = choose|i: int| 0 <= i < s.len() && s[i] == ESCAPE;
    assert(s.contains(s[i]));
}

/// A written report says that there are no differences if and only if that is
/// so.
pub proof fn law_no_differences_said(report: Seq<ModuleDiffTree>, color: bool)
    ensures
        report_text(report, color) == "No API differences.\n"@ <==> nothing_differs(report),
        report_md(report) == "**No API differences.**\n"@ <==> nothing_differs(report),
{
    reveal_strlit("No API differences.\n");
    reveal_strlit("**No API differences.**\n");
    reveal_strlit("API differences: ");
    reveal_strlit("### API differences\n\n- **Added:** ");
    if !nothing_differs(report) {
        assert(report_text(report, color)[0] == 'A');
        assert(report_md(report)[0] == '#');
    }
}


// That colors add escape sequences and nothing else.

/// How many characters the escape sequence has that a text starts with, if it
/// is one of those that set a style; 0 where there is none.
pub open spec fn escape_len(s: Seq<char>) -> nat {
    if "\x1b[2m"@.is_prefix_of(s) || "\x1b[0m"@.is_prefix_of(s) {
        4
    } else if "\x1b[31m"@.is_prefix_of(s) || "\x1b[32m"@.is_prefix_of(s)
        || "\x1b[33m"@.is_prefix_of(s) {
        5
    } else {
        0
    }
}

/// A text without the escape sequences that set a style.
pub open spec fn without_escapes(s: Seq<char>) -> Seq<char>
    decreases s.len(),
{
    let n = escape_len(s);
    if s.len() == 0 {
        s
    } else if 0 < n <= s.len() {
        without_escapes(s.skip(n as int))
    } else {
        seq![s[0]] + without_escapes(s.skip(1))
    }
}

/// Whether `bare` is left of `styled`, whatever comes after it.
spec fn strips_to(styled: Seq<char>, bare: Seq<char>) -> bool {
    forall|tail: Seq<char>| #[trigger]
        without_escapes(styled + tail) == bare + without_escapes(tail)
}

proof fn lemma_strips_add(a: Seq<char>, x: Seq<char>, b: Seq<char>, y: Seq<char>)
    requires
        strips_to(a, x),
        strips_to(b, y),
    ensures
        strips_to(a + b, x + y),
{
    assert forall|tail: Seq<char>| #[trigger] without_escapes((a + b) + tail) == (x + y)
        + without_escapes(tail) by {
        assert((a + b) + tail =~= a + (b + tail));
        assert(without_escapes(a + (b + tail)) == x + without_escapes(b + tail));
        assert(without_escapes(b + tail) == y + without_escapes(tail));
        assert((x + y) + without_escapes(tail) =~= x + (y + without_escapes(tail)));
    }
}

proof fn lemma_prefix_first(p: Seq<char>, s: Seq<char>)
    requires
        p.len() > 0,
    ensures
        p.is_prefix_of(s) ==> s.len() > 0 && s[0] == p[0],
{
    if p.is_prefix_of(s) {
        assert(s.subrange(0, p.len() as int)[0] == s[0]);
    }
}

proof fn lemma_strips_plain(s: Seq<char>)
    requires
        plain(s),
    ensures
        strips_to(s, s),
    decreases s.len(),
{
    assert forall|tail: Seq<char>| #[trigger] without_escapes(s + tail) == s + without_escapes(
        tail,
    ) by {
        if s.len() == 0 {
            assert(s + tail =~= tail);
            assert(s + without_escapes(tail) =~= without_escapes(tail));
        } else {
            reveal_strlit("\x1b[2m");
            reveal_strlit("\x1b[0m");
            reveal_strlit("\x1b[31m");
            reveal_strlit("\x1b[32m");
            reveal_strlit("\x1b[33m");
            assert(s[0] != ESCAPE);
            assert((s + tail)[0] == s[0]);
            lemma_prefix_first("\x1b[2m"@, s + tail);
            lemma_prefix_first("\x1b[0m"@, s + tail);
            lemma_prefix_first("\x1b[31m"@, s + tail);
            lemma_prefix_first("\x1b[32m"@, s + tail);
            lemma_prefix_first("\x1b[33m"@, s + tail);
            assert(escape_len(s + tail) == 0);
            let rest = s.skip(1);
            assert(plain(rest));
            lemma_strips_plain(rest);
            assert((s + tail).skip(1) =~= rest + tail);
            assert(without_escapes(rest + tail) == rest + without_escapes(tail));
            assert(seq![s[0]] + (rest + without_escapes(tail)) =~= s + without_escapes(tail));
        }
    }
}

proof fn lemma_strips_escape(e: Seq<char>)
    requires
        e == "\x1b[2m"@ || e == "\x1b[0m"@ || e == "\x1b[31m"@ || e == "\x1b[32m"@ || e
            == "\x1b[33m"@,
    ensures
        strips_to(e, seq![]),
{
    reveal_strlit("\x1b[2m");
    reveal_strlit("\x1b[0m");
    reveal_strlit("\x1b[31m");
    reveal_strlit("\x1b[32m");
    reveal_strlit("\x1b[33m");
    assert forall|tail: Seq<char>| #[trigger] without_escapes(e + tail) == Seq::<char>::empty()
        + without_escapes(tail) by {
        let s = e + tail;
        assert(e =~= s.subrange(0, e.len() as int));
        if "\x1b[2m"@.is_prefix_of(s) {
            assert(s[2] == '2');
            assert(s[3] == 'm');
        }
        if "\x1b[0m"@.is_prefix_of(s) {
            assert(s[2] == '0');
        }
        assert(s[2] == e[2] && s[3] == e[3]);
        assert(escape_len(s) == e.len());
        assert(s.skip(e.len() as int) =~= tail);
        assert(Seq::<char>::empty() + without_escapes(tail) =~= without_escapes(tail));
    }
}

proof fn lemma_painted_strips(s: Seq<char>, style: Style)
    requires
        plain(s),
    ensures
        strips_to(painted(s, style, true), painted(s, style, false)),
{
    lemma_strips_plain(s);
    if !(style is Plain) {
        reveal_strlit("\x1b[");
        reveal_strlit("2");
        reveal_strlit("31");
        reveal_strlit("32");
        reveal_strlit("33");
        reveal_strlit("m");
        reveal_strlit("\x1b[2m");
        reveal_strlit("\x1b[31m");
        reveal_strlit("\x1b[32m");
        reveal_strlit("\x1b[33m");
        let on = match style {
            Style::Dim => "\x1b[2m"@,
            Style::Red => "\x1b[31m"@,
            Style::Green => "\x1b[32m"@,
            _ => "\x1b[33m"@,
        };
        let code = style.code()->0;
        assert("\x1b["@ + code + "m"@ =~= on);
        lemma_strips_escape(on);
        lemma_strips_escape("\x1b[0m"@);
        lemma_strips_add(on, seq![], s, s);
        lemma_strips_add(on + s, Seq::<char>::empty() + s, "\x1b[0m"@, seq![]);
        assert(Seq::<char>::empty() + s + Seq::<char>::empty() =~= s);
        assert(painted(s, style, true) =~= on + s + "\x1b[0m"@);
    }
}

proof fn lemma_status_strips(status: Status, label: Seq<char>, indent: Seq<char>)
    requires
        plain(label),
        plain(indent),
    ensures
        strips_to(
            status_text(status, label, true, indent),
            status_text(status, label, false, indent),
        ),
{
    let style = status.style();
    let mark = status.marker();
    reveal_strlit(" ");
    reveal_strlit("\n");
    lemma_marks_plain(status);
    lemma_strips_plain(indent);
    lemma_strips_plain(" "@);
    lemma_strips_plain("\n"@);
    lemma_painted_strips(mark, style);
    lemma_painted_strips(label, style);
    lemma_strips_add(indent, indent, painted(mark, style, true), painted(mark, style, false));
    let a = indent + painted(mark, style, true);
    let b = indent + painted(mark, style, false);
    lemma_strips_add(a, b, " "@, " "@);
    lemma_strips_add(
        a + " "@,
        b + " "@,
        painted(label, style, true),
        painted(label, style, false),
    );
    lemma_strips_add(
        a + " "@ + painted(label, style, true),
        b + " "@ + painted(label, style, false),
        "\n"@,
        "\n"@,
    );
}

proof fn lemma_was_strips(status: Status, indent: Seq<char>)
    requires
        status.is_plain(),
        plain(indent),
    ensures
        strips_to(was_text(status, true, indent), was_text(status, false, indent)),
{
    broadcast use lemma_plain_add;

    match status {
        Status::Changed(old_decl) => {
            let line = headline(old_decl);
            reveal_strlit("  ");
            reveal_strlit("was:");
            reveal_strlit(" ");
            reveal_strlit("\n");
            lemma_headline_plain(old_decl);
            let front = indent + "  "@;
            lemma_strips_plain(front);
            lemma_strips_plain(" "@);
            lemma_strips_plain("\n"@);
            lemma_painted_strips("was:"@, Style::Dim);
            lemma_painted_strips(line, Style::Dim);
            lemma_strips_add(
                front,
                front,
                painted("was:"@, Style::Dim, true),
                painted("was:"@, Style::Dim, false),
            );
            let a = front + painted("was:"@, Style::Dim, true);
            let b = front + painted("was:"@, Style::Dim, false);
            lemma_strips_add(a, b, " "@, " "@);
            lemma_strips_add(
                a + " "@,
                b + " "@,
                painted(line, Style::Dim, true),
                painted(line, Style::Dim, false),
            );
            lemma_strips_add(
                a + " "@ + painted(line, Style::Dim, true),
                b + " "@ + painted(line, Style::Dim, false),
                "\n"@,
                "\n"@,
            );
        },
        _ => {
            lemma_strips_plain(seq![]);
        },
    }
}

proof fn lemma_symbol_strips(t: SymbolDiffTree, indent: Seq<char>)
    requires
        t.is_plain(),
        plain(indent),
    ensures
        strips_to(t.text(indent, true), t.text(indent, false)),
    decreases t, 1nat,
{
    broadcast use lemma_plain_add;

    reveal_strlit("  ");
    let line = headline(t.decl);
    lemma_headline_plain(t.decl);
    lemma_status_strips(t.status, line, indent);
    lemma_was_strips(t.status, indent);
    lemma_symbols_strip(t.members, indent + "  "@);
    let a = status_text(t.status, line, true, indent);
    let b = status_text(t.status, line, false, indent);
    lemma_strips_add(a, b, was_text(t.status, true, indent), was_text(t.status, false, indent));
    lemma_strips_add(
        a + was_text(t.status, true, indent),
        b + was_text(t.status, false, indent),
        symbols_text(t.members, indent + "  "@, true),
        symbols_text(t.members, indent + "  "@, false),
    );
}

proof fn lemma_symbols_strip(f: Seq<SymbolDiffTree>, indent: Seq<char>)
    requires
        all_plain(f),
        plain(indent),
    ensures
        strips_to(symbols_text(f, indent, true), symbols_text(f, indent, false)),
    decreases f, 0nat,
{
    if f.len() > 0 {
        let p = f.drop_last();
        lemma_symbols_strip(p, indent);
        assert(decreases_to!(f => f[f.len() - 1]));
        lemma_symbol_strips(f.last(), indent);
        lemma_strips_add(
            symbols_text(p, indent, true),
            symbols_text(p, indent, false),
            f.last().text(indent, true),
            f.last().text(indent, false),
        );
    } else {
        lemma_strips_plain(seq![]);
    }
}

proof fn lemma_extensions_strip(f: Seq<ExtensionDiffTree>)
    requires
        forall|i: int| 0 <= i < f.len() ==> (#[trigger] f[i]).is_plain(),
    ensures
        strips_to(extensions_text(f, true), extensions_text(f, false)),
    decreases f.len(),
{
    broadcast use lemma_plain_add;

    if f.len() > 0 {
        let p = f.drop_last();
        let e = f.last();
        let label = "extension "@ + e.extended_module;
        reveal_strlit("extension ");
        reveal_strlit("  ");
        reveal_strlit("    ");
        lemma_extensions_strip(p);
        lemma_status_strips(e.status, label, "  "@);
        lemma_symbols_strip(e.symbols, "    "@);
        lemma_strips_add(
            status_text(e.status, label, true, "  "@),
            status_text(e.status, label, false, "  "@),
            symbols_text(e.symbols, "    "@, true),
            symbols_text(e.symbols, "    "@, false),
        );
        lemma_strips_add(
            extensions_text(p, true),
            extensions_text(p, false),
            e.text(true),
            e.text(false),
        );
    } else {
        lemma_strips_plain(seq![]);
    }
}

proof fn lemma_module_strips(m: ModuleDiffTree)
    requires
        m.is_plain(),
    ensures
        strips_to(m.text(true), m.text(false)),
{
    broadcast use lemma_plain_add;

    let label = "Module "@ + m.name;
    reveal_strlit("Module ");
    reveal_strlit("");
    reveal_strlit("  ");
    reveal_strlit("\n");
    lemma_status_strips(m.status, label, ""@);
    lemma_symbols_strip(m.symbols, "  "@);
    lemma_extensions_strip(m.extensions);
    lemma_strips_plain("\n"@);
    let a = status_text(m.status, label, true, ""@);
    let b = status_text(m.status, label, false, ""@);
    let sa = symbols_text(m.symbols, "  "@, true);
    let sb = symbols_text(m.symbols, "  "@, false);
    let ea = extensions_text(m.extensions, true);
    let eb = extensions_text(m.extensions, false);
    lemma_strips_add(a, b, sa, sb);
    lemma_strips_add(a + sa, b + sb, ea, eb);
    lemma_strips_add(a + sa + ea, b + sb + eb, "\n"@, "\n"@);
}

proof fn lemma_modules_strip(f: Seq<ModuleDiffTree>)
    requires
        report_plain(f),
    ensures
        strips_to(modules_text(f, true), modules_text(f, false)),
    decreases f.len(),
{
    if f.len() > 0 {
        let p = f.drop_last();
        lemma_modules_strip(p);
        lemma_module_strips(f.last());
        lemma_strips_add(
            modules_text(p, true),
            modules_text(p, false),
            f.last().text(true),
            f.last().text(false),
        );
    } else {
        lemma_strips_plain(seq![]);
    }
}

proof fn lemma_totals_plain(t: Tally)
    ensures
        plain(totals_text(t)),
{
    broadcast use lemma_plain_add;

    reveal_strlit("API differences: ");
    reveal_strlit(" added, ");
    reveal_strlit(" removed, ");
    reveal_strlit(" changed\n\n");
    lemma_digits_plain(capped(t.added));
    lemma_digits_plain(capped(t.removed));
    lemma_digits_plain(capped(t.changed));
}

/// A text report with colors, without its escape sequences, is the report
/// without colors, unless a name or a declaration holds an escape character.
pub proof fn law_colors_only_escapes(report: Seq<ModuleDiffTree>)
    requires
        report_plain(report),
    ensures
        without_escapes(report_text(report, true)) == report_text(report, false),
{
    let a = report_text(report, true);
    let b = report_text(report, false);
    if nothing_differs(report) {
        reveal_strlit("No API differences.\n");
        lemma_strips_plain("No API differences.\n"@);
    } else {
        let t = totals_text(report_tally(report));
        lemma_totals_plain(report_tally(report));
        lemma_strips_plain(t);
        lemma_modules_strip(report);
        lemma_strips_add(t, t, modules_text(report, true), modules_text(report, false));
    }
    assert(strips_to(a, b));
    let none = Seq::<char>::empty();
    assert(without_escapes(a + none) == b + without_escapes(none));
    assert(a + none =~= a);
    assert(b + without_escapes(none) =~= b);
}

} // verus!
