//! A report as text for a terminal and as Markdown.

use vstd::prelude::*;

use crate::order::views;
use crate::report::{
    nothing_differs, DiffReport, ExtensionDiff, ExtensionDiffTree, ModuleDiff, ModuleDiffTree,
    NodeStatus, Status, SymbolDiff, SymbolDiffTree,
};
use crate::tally::{capped, count, report_tally, Tally};
use crate::text::{
    chars_of, decimal, decimal_digits, first_line, head_line, string_of, trim, trimmed,
};

verus! {

/// How a piece of text is shown on a terminal.
#[derive(Clone, Copy, Debug, PartialEq, Eq)]
pub enum Style {
    Plain,
    Dim,
    Red,
    Green,
    Yellow,
}

impl Style {
    /// The number of the style in an ANSI escape sequence.
    pub open spec fn code(self) -> Option<Seq<char>> {
        match self {
            Style::Plain => None,
            Style::Dim => Some("2"@),
            Style::Red => Some("31"@),
            Style::Green => Some("32"@),
            Style::Yellow => Some("33"@),
        }
    }
}

/// `s` between the escape sequence that turns a style on and the one that
/// turns it off; `s` alone where styles are off or there is none.
pub open spec fn painted(s: Seq<char>, style: Style, on: bool) -> Seq<char> {
    match style.code() {
        Some(code) if on => "\x1b["@ + code + "m"@ + s + "\x1b[0m"@,
        _ => s,
    }
}

pub fn paint(s: &str, style: Style, on: bool) -> (r: String)
    ensures
        r@ == painted(s@, style, on),
{
    if !on {
        return s.to_string();
    }
    let code = match style {
        Style::Plain => {
            return s.to_string();
        },
        Style::Dim => "2",
        Style::Red => "31",
        Style::Green => "32",
        Style::Yellow => "33",
    };
    let mut out = "\x1b[".to_string();
    out.push_str(code);
    out.push_str("m");
    out.push_str(s);
    out.push_str("\x1b[0m");
    out
}

/// What stands for a declaration in a report: its first line, trimmed.
pub open spec fn headline(decl: Seq<char>) -> Seq<char> {
    trimmed(first_line(decl))
}

fn headline_of(decl: &str) -> (r: String)
    ensures
        r@ == headline(decl@),
{
    let decl = chars_of(decl);
    string_of(trim(head_line(decl.as_slice())))
}

impl Status {
    /// What marks the status in a text report.
    pub open spec fn marker(self) -> Seq<char> {
        match self {
            Status::Same => " "@,
            Status::Added => "+"@,
            Status::Removed => "-"@,
            Status::Changed(_) => "~"@,
        }
    }

    pub open spec fn style(self) -> Style {
        match self {
            Status::Same => Style::Plain,
            Status::Added => Style::Green,
            Status::Removed => Style::Red,
            Status::Changed(_) => Style::Yellow,
        }
    }
}

/// One line of a text report.
pub open spec fn status_text(
    status: Status,
    label: Seq<char>,
    color: bool,
    indent: Seq<char>,
) -> Seq<char> {
    indent + painted(status.marker(), status.style(), color) + " "@ + painted(
        label,
        status.style(),
        color,
    ) + "\n"@
}

/// One line of a text report.
pub fn status_line(status: &NodeStatus, label: &str, color: bool, indent: &str) -> (r: String)
    ensures
        r@ == status_text(status@, label@, color, indent@),
{
    let (marker, style) = match status {
        NodeStatus::Same => (" ", Style::Plain),
        NodeStatus::Added => ("+", Style::Green),
        NodeStatus::Removed => ("-", Style::Red),
        NodeStatus::Changed { .. } => ("~", Style::Yellow),
    };
    let mut out = indent.to_string();
    out.push_str(paint(marker, style, color).as_str());
    out.push_str(" ");
    out.push_str(paint(label, style, color).as_str());
    out.push_str("\n");
    out
}

/// The line that says how a changed declaration read before.
pub open spec fn was_text(status: Status, color: bool, indent: Seq<char>) -> Seq<char> {
    match status {
        Status::Changed(old_decl) => indent + "  "@ + painted("was:"@, Style::Dim, color) + " "@
            + painted(headline(old_decl), Style::Dim, color) + "\n"@,
        _ => seq![],
    }
}

impl SymbolDiffTree {
    /// The text report on a declaration: its own line or two, and below it,
    /// two columns further in, the report on those nested in it.
    pub open spec fn text(self, indent: Seq<char>, color: bool) -> Seq<char>
        decreases self,
    {
        status_text(self.status, headline(self.decl), color, indent) + was_text(
            self.status,
            color,
            indent,
        ) + symbols_text(self.members, indent + "  "@, color)
    }
}

/// The text report on a list of declarations.
pub open spec fn symbols_text(f: Seq<SymbolDiffTree>, indent: Seq<char>, color: bool) -> Seq<char>
    decreases f,
{
    if f.len() == 0 {
        seq![]
    } else {
        symbols_text(f.drop_last(), indent, color) + f.last().text(indent, color)
    }
}

impl ExtensionDiffTree {
    pub open spec fn text(self, color: bool) -> Seq<char> {
        status_text(self.status, "extension "@ + self.extended_module, color, "  "@)
            + symbols_text(self.symbols, "    "@, color)
    }
}

/// The text report on a list of extension groups.
pub open spec fn extensions_text(f: Seq<ExtensionDiffTree>, color: bool) -> Seq<char>
    decreases f.len(),
{
    if f.len() == 0 {
        seq![]
    } else {
        extensions_text(f.drop_last(), color) + f.last().text(color)
    }
}

impl ModuleDiffTree {
    pub open spec fn text(self, color: bool) -> Seq<char> {
        status_text(self.status, "Module "@ + self.name, color, ""@) + symbols_text(
            self.symbols,
            "  "@,
            color,
        ) + extensions_text(self.extensions, color) + "\n"@
    }
}

/// The text report on a list of modules.
pub open spec fn modules_text(f: Seq<ModuleDiffTree>, color: bool) -> Seq<char>
    decreases f.len(),
{
    if f.len() == 0 {
        seq![]
    } else {
        modules_text(f.drop_last(), color) + f.last().text(color)
    }
}

/// A count in decimal notation.
pub open spec fn count_text(n: nat) -> Seq<char> {
    decimal_digits(capped(n))
}

/// The line with the totals.
pub open spec fn totals_text(t: Tally) -> Seq<char> {
    "API differences: "@ + count_text(t.added) + " added, "@ + count_text(t.removed)
        + " removed, "@ + count_text(t.changed) + " changed\n\n"@
}

/// A report as text.
pub open spec fn report_text(report: Seq<ModuleDiffTree>, color: bool) -> Seq<char> {
    if nothing_differs(report) {
        "No API differences.\n"@
    } else {
        totals_text(report_tally(report)) + modules_text(report, color)
    }
}

/// Appends the text report on a declaration, and on those nested in it.
pub fn render_symbol_text(s: &SymbolDiff, indent: &str, color: bool, out: &mut String)
    ensures
        final(out)@ == old(out)@ + s@.text(indent@, color),
    decreases s, 1nat,
{
    let ghost before = out@;
    proof {
        s.lemma_view();
    }
    let first = headline_of(s.decl.as_str());
    out.push_str(status_line(&s.status, first.as_str(), color, indent).as_str());
    let mut inner = indent.to_string();
    inner.push_str("  ");
    match &s.status {
        NodeStatus::Changed { old_decl } => {
            let ghost so_far = out@;
            let old_first = headline_of(old_decl.as_str());
            out.push_str(inner.as_str());
            out.push_str(paint("was:", Style::Dim, color).as_str());
            out.push_str(" ");
            out.push_str(paint(old_first.as_str(), Style::Dim, color).as_str());
            out.push_str("\n");
            assert(out@ =~= so_far + was_text(s@.status, color, indent@));
        },
        _ => {
            assert(out@ =~= out@ + was_text(s@.status, color, indent@));
        },
    }
    render_symbols_text(&s.members, inner.as_str(), color, out);
    assert(out@ =~= before + s@.text(indent@, color));
}

/// Appends the text report on a list of declarations.
fn render_symbols_text(symbols: &Vec<SymbolDiff>, indent: &str, color: bool, out: &mut String)
    ensures
        final(out)@ == old(out)@ + symbols_text(views(symbols@), indent@, color),
    decreases symbols, 0nat,
{
    let ghost f = views(symbols@);
    let ghost before = out@;
    assert(out@ =~= before + symbols_text(f.take(0), indent@, color));
    for i in 0..symbols.len()
        invariant
            f == views(symbols@),
            out@ == before + symbols_text(f.take(i as int), indent@, color),
    {
        assert(f.take(i as int + 1).drop_last() =~= f.take(i as int));
        render_symbol_text(&symbols[i], indent, color, out);
        assert(out@ =~= before + symbols_text(f.take(i as int + 1), indent@, color));
    }
    assert(f.take(symbols@.len() as int) =~= f);
}

/// Appends the text report on the extensions to one module.
fn render_extension_text(e: &ExtensionDiff, color: bool, out: &mut String)
    ensures
        final(out)@ == old(out)@ + e@.text(color),
{
    let ghost before = out@;
    let mut label = "extension ".to_string();
    label.push_str(e.extended_module.as_str());
    out.push_str(status_line(&e.status, label.as_str(), color, "  ").as_str());
    render_symbols_text(&e.symbols, "    ", color, out);
    assert(out@ =~= before + e@.text(color));
}

/// Appends the text report on a module.
fn render_module_text(m: &ModuleDiff, color: bool, out: &mut String)
    ensures
        final(out)@ == old(out)@ + m@.text(color),
{
    let ghost before = out@;
    let mut label = "Module ".to_string();
    label.push_str(m.name.as_str());
    out.push_str(status_line(&m.status, label.as_str(), color, "").as_str());
    render_symbols_text(&m.symbols, "  ", color, out);
    let ghost f = views(m.extensions@);
    let ghost so_far = out@;
    assert(out@ =~= so_far + extensions_text(f.take(0), color));
    for i in 0..m.extensions.len()
        invariant
            f == views(m.extensions@),
            out@ == so_far + extensions_text(f.take(i as int), color),
    {
        assert(f.take(i as int + 1).drop_last() =~= f.take(i as int));
        render_extension_text(&m.extensions[i], color, out);
        assert(out@ =~= so_far + extensions_text(f.take(i as int + 1), color));
    }
    assert(f.take(m.extensions@.len() as int) =~= f);
    out.push_str("\n");
    assert(out@ =~= before + m@.text(color));
}

/// A report as text, with or without colors.
pub fn render_text(report: &DiffReport, color: bool) -> (r: String)
    ensures
        r@ == report_text(report@, color),
{
    if report.is_empty() {
        return "No API differences.\n".to_string();
    }
    let (added, removed, changed) = count(report);
    let mut out = "API differences: ".to_string();
    out.push_str(decimal(added).as_str());
    out.push_str(" added, ");
    out.push_str(decimal(removed).as_str());
    out.push_str(" removed, ");
    out.push_str(decimal(changed).as_str());
    out.push_str(" changed\n\n");
    let ghost f = report@;
    let ghost totals = out@;
    assert(out@ =~= totals + modules_text(f.take(0), color));
    for i in 0..report.modules.len()
        invariant
            f == views(report.modules@),
            out@ == totals + modules_text(f.take(i as int), color),
    {
        assert(f.take(i as int + 1).drop_last() =~= f.take(i as int));
        render_module_text(&report.modules[i], color, &mut out);
        assert(out@ =~= totals + modules_text(f.take(i as int + 1), color));
    }
    assert(f.take(report.modules@.len() as int) =~= f);
    out
}

impl Status {
    /// What marks the status of a declaration in a Markdown report.
    pub open spec fn md_marker(self) -> Seq<char> {
        match self {
            Status::Same => "•"@,
            Status::Added => "➕"@,
            Status::Removed => "➖"@,
            Status::Changed(_) => "✎"@,
        }
    }

    /// What marks the status of a module or extension group there, with the
    /// space after it.
    pub open spec fn md_badge(self) -> Seq<char> {
        match self {
            Status::Added => "➕ "@,
            Status::Removed => "➖ "@,
            _ => ""@,
        }
    }
}

/// The item that says how a changed declaration read before.
pub open spec fn md_was(status: Status, indent: Seq<char>) -> Seq<char> {
    match status {
        Status::Changed(old_decl) => indent + "  - was: `"@ + headline(old_decl) + "`\n"@,
        _ => seq![],
    }
}

impl SymbolDiffTree {
    /// The Markdown report on a declaration: a list item, with the report on
    /// those nested in it below.
    pub open spec fn md(self, indent: Seq<char>) -> Seq<char>
        decreases self,
    {
        indent + "- "@ + self.status.md_marker() + " `"@ + headline(self.decl) + "`\n"@ + md_was(
            self.status,
            indent,
        ) + symbols_md(self.members, indent + "  "@)
    }
}

/// The Markdown report on a list of declarations.
pub open spec fn symbols_md(f: Seq<SymbolDiffTree>, indent: Seq<char>) -> Seq<char>
    decreases f,
{
    if f.len() == 0 {
        seq![]
    } else {
        symbols_md(f.drop_last(), indent) + f.last().md(indent)
    }
}

impl ExtensionDiffTree {
    pub open spec fn md(self) -> Seq<char> {
        "- "@ + self.status.md_badge() + "extension `"@ + self.extended_module + "`\n"@
            + symbols_md(self.symbols, "  "@)
    }
}

/// The Markdown report on a list of extension groups.
pub open spec fn extensions_md(f: Seq<ExtensionDiffTree>) -> Seq<char>
    decreases f.len(),
{
    if f.len() == 0 {
        seq![]
    } else {
        extensions_md(f.drop_last()) + f.last().md()
    }
}

impl ModuleDiffTree {
    pub open spec fn md(self) -> Seq<char> {
        "#### "@ + self.status.md_badge() + "Module `"@ + self.name + "`\n\n"@ + symbols_md(
            self.symbols,
            ""@,
        ) + extensions_md(self.extensions) + "\n"@
    }
}

/// The Markdown report on a list of modules.
pub open spec fn modules_md(f: Seq<ModuleDiffTree>) -> Seq<char>
    decreases f.len(),
{
    if f.len() == 0 {
        seq![]
    } else {
        modules_md(f.drop_last()) + f.last().md()
    }
}

/// The summary at the head of a Markdown report.
pub open spec fn totals_md(t: Tally) -> Seq<char> {
    "### API differences\n\n- **Added:** "@ + count_text(t.added) + "\n- **Removed:** "@
        + count_text(t.removed) + "\n- **Changed:** "@ + count_text(t.changed) + "\n\n"@
}

/// A report as Markdown.
pub open spec fn report_md(report: Seq<ModuleDiffTree>) -> Seq<char> {
    if nothing_differs(report) {
        "**No API differences.**\n"@
    } else {
        totals_md(report_tally(report)) + modules_md(report)
    }
}

fn md_badge_of(status: &NodeStatus) -> (r: &'static str)
    ensures
        r@ == status@.md_badge(),
{
    match status {
        NodeStatus::Added => "➕ ",
        NodeStatus::Removed => "➖ ",
        _ => "",
    }
}

/// Appends the Markdown report on a declaration, and on those nested in it.
pub fn render_symbol_md(s: &SymbolDiff, indent: &str, out: &mut String)
    ensures
        final(out)@ == old(out)@ + s@.md(indent@),
    decreases s, 1nat,
{
    let ghost before = out@;
    proof {
        s.lemma_view();
    }
    let marker = match &s.status {
        NodeStatus::Same => "•",
        NodeStatus::Added => "➕",
        NodeStatus::Removed => "➖",
        NodeStatus::Changed { .. } => "✎",
    };
    out.push_str(indent);
    out.push_str("- ");
    out.push_str(marker);
    out.push_str(" `");
    out.push_str(headline_of(s.decl.as_str()).as_str());
    out.push_str("`\n");
    match &s.status {
        NodeStatus::Changed { old_decl } => {
            let ghost so_far = out@;
            out.push_str(indent);
            out.push_str("  - was: `");
            out.push_str(headline_of(old_decl.as_str()).as_str());
            out.push_str("`\n");
            assert(out@ =~= so_far + md_was(s@.status, indent@));
        },
        _ => {
            assert(out@ =~= out@ + md_was(s@.status, indent@));
        },
    }
    let mut inner = indent.to_string();
    inner.push_str("  ");
    render_symbols_md(&s.members, inner.as_str(), out);
    assert(out@ =~= before + s@.md(indent@));
}

/// Appends the Markdown report on a list of declarations.
fn render_symbols_md(symbols: &Vec<SymbolDiff>, indent: &str, out: &mut String)
    ensures
        final(out)@ == old(out)@ + symbols_md(views(symbols@), indent@),
    decreases symbols, 0nat,
{
    let ghost f = views(symbols@);
    let ghost before = out@;
    assert(out@ =~= before + symbols_md(f.take(0), indent@));
    for i in 0..symbols.len()
        invariant
            f == views(symbols@),
            out@ == before + symbols_md(f.take(i as int), indent@),
    {
        assert(f.take(i as int + 1).drop_last() =~= f.take(i as int));
        render_symbol_md(&symbols[i], indent, out);
        assert(out@ =~= before + symbols_md(f.take(i as int + 1), indent@));
    }
    assert(f.take(symbols@.len() as int) =~= f);
}

/// Appends the Markdown report on a module.
fn render_module_md(m: &ModuleDiff, out: &mut String)
    ensures
        final(out)@ == old(out)@ + m@.md(),
{
    let ghost before = out@;
    out.push_str("#### ");
    out.push_str(md_badge_of(&m.status));
    out.push_str("Module `");
    out.push_str(m.name.as_str());
    out.push_str("`\n\n");
    render_symbols_md(&m.symbols, "", out);
    let ghost f = views(m.extensions@);
    let ghost so_far = out@;
    assert(out@ =~= so_far + extensions_md(f.take(0)));
    for i in 0..m.extensions.len()
        invariant
            f == views(m.extensions@),
            out@ == so_far + extensions_md(f.take(i as int)),
    {
        assert(f.take(i as int + 1).drop_last() =~= f.take(i as int));
        let e = &m.extensions[i];
        let ghost now = out@;
        out.push_str("- ");
        out.push_str(md_badge_of(&e.status));
        out.push_str("extension `");
        out.push_str(e.extended_module.as_str());
        out.push_str("`\n");
        render_symbols_md(&e.symbols, "  ", out);
        assert(out@ =~= now + e@.md());
        assert(out@ =~= so_far + extensions_md(f.take(i as int + 1)));
    }
    assert(f.take(m.extensions@.len() as int) =~= f);
    out.push_str("\n");
    assert(out@ =~= before + m@.md());
}

/// A report as Markdown.
pub fn render_markdown(report: &DiffReport) -> (r: String)
    ensures
        r@ == report_md(report@),
{
    if report.is_empty() {
        return "**No API differences.**\n".to_string();
    }
    let (added, removed, changed) = count(report);
    let mut out = "### API differences\n\n- **Added:** ".to_string();
    out.push_str(decimal(added).as_str());
    out.push_str("\n- **Removed:** ");
    out.push_str(decimal(removed).as_str());
    out.push_str("\n- **Changed:** ");
    out.push_str(decimal(changed).as_str());
    out.push_str("\n\n");
    let ghost f = report@;
    let ghost totals = out@;
    assert(out@ =~= totals + modules_md(f.take(0)));
    for i in 0..report.modules.len()
        invariant
            f == views(report.modules@),
            out@ == totals + modules_md(f.take(i as int)),
    {
        assert(f.take(i as int + 1).drop_last() =~= f.take(i as int));
        render_module_md(&report.modules[i], &mut out);
        assert(out@ =~= totals + modules_md(f.take(i as int + 1)));
    }
    assert(f.take(report.modules@.len() as int) =~= f);
    out
}

} // verus!
