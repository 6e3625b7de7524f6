//! A package as a Markdown document.

use vstd::prelude::*;

use crate::model::{
    ExtensionGroup, ExtensionTree, ModuleModel, ModuleTree, PackageModel, PackageTree, SymbolNode,
    SymbolTree,
};
use crate::order::views;
use crate::text::{chars_of, first_line, head_line, string_of};

verus! {

/// The deepest level that a heading can have.
pub const DEEPEST: usize = 6;

/// The mark of a heading at a level. Below the deepest level, headings have
/// the mark of that level.
pub open spec fn heading_mark(level: nat) -> Seq<char> {
    Seq::new(
        if level < DEEPEST {
            level
        } else {
            DEEPEST as nat
        },
        |i: int| '#',
    )
}

/// The level below a level.
pub open spec fn below(level: nat) -> nat {
    if level < DEEPEST {
        level + 1
    } else {
        level
    }
}

/// What ends the last line of a text, where nothing does yet.
pub open spec fn line_end(s: Seq<char>) -> Seq<char> {
    if s.len() > 0 && s.last() == '\n' {
        seq![]
    } else {
        "\n"@
    }
}

/// A declaration under a heading with its first line.
pub open spec fn entry_md(decl: Seq<char>, level: nat) -> Seq<char> {
    heading_mark(level) + " `"@ + first_line(decl) + "`\n\n```swift\n"@ + decl + line_end(decl)
        + "```\n\n"@
}

impl SymbolTree {
    /// A declaration under a heading, and those nested in it one level below.
    pub open spec fn md(self, level: nat) -> Seq<char>
        decreases self,
    {
        entry_md(self.decl, level) + nodes_md(self.members, below(level))
    }
}

/// Declarations one after the other.
pub open spec fn nodes_md(f: Seq<SymbolTree>, level: nat) -> Seq<char>
    decreases f,
{
    if f.len() == 0 {
        seq![]
    } else {
        nodes_md(f.drop_last(), level) + f.last().md(level)
    }
}

impl ExtensionTree {
    pub open spec fn md(self) -> Seq<char> {
        "### Extensions to `"@ + self.extended_module + "`\n\n"@ + nodes_md(self.symbols, 4)
    }
}

/// Extension groups one after the other.
pub open spec fn groups_md(f: Seq<ExtensionTree>) -> Seq<char>
    decreases f.len(),
{
    if f.len() == 0 {
        seq![]
    } else {
        groups_md(f.drop_last()) + f.last().md()
    }
}

impl ModuleTree {
    pub open spec fn md(self) -> Seq<char> {
        "## Module `"@ + self.name + "`\n\n"@ + (if self.symbols.len() > 0 {
            nodes_md(self.symbols, 3) + groups_md(self.extensions)
        } else if self.extensions.len() > 0 {
            "_No own symbols._\n\n"@ + groups_md(self.extensions)
        } else {
            "_No symbol graph emitted._\n\n"@
        })
    }
}

/// Modules one after the other.
pub open spec fn model_modules_md(f: Seq<ModuleTree>) -> Seq<char>
    decreases f.len(),
{
    if f.len() == 0 {
        seq![]
    } else {
        model_modules_md(f.drop_last()) + f.last().md()
    }
}

/// The document of a package.
pub open spec fn package_md(p: PackageTree) -> Seq<char> {
    "# "@ + p.package + "\n\n_Public API surface. Access level: `"@ + p.access_level
        + "`._\n\n"@ + model_modules_md(p.modules)
}

fn heading(level: usize) -> (r: String)
    ensures
        r@ == heading_mark(level as nat),
{
    let n: usize = if level < DEEPEST {
        level
    } else {
        DEEPEST
    };
    let mut out = String::new();
    for i in 0..n
        invariant
            out@ == Seq::new(i as nat, |j: int| '#'),
    {
        out.push('#');
    }
    out
}

/// A declaration under a heading with its first line.
fn render_md_entry(decl: &str, depth: usize) -> (r: String)
    ensures
        r@ == entry_md(decl@, depth as nat),
{
    let chars = chars_of(decl);
    let mut out = heading(depth);
    out.push_str(" `");
    out.push_str(string_of(head_line(chars.as_slice())).as_str());
    out.push_str("`\n\n```swift\n");
    out.push_str(decl);
    if chars.len() > 0 && chars[chars.len() - 1] == '\n' {
        assert(out@ =~= out@ + line_end(decl@));
    } else {
        out.push_str("\n");
    }
    out.push_str("```\n\n");
    out
}

/// Appends a declaration, and those nested in it.
pub fn render_md_symbol(sym: &SymbolNode, depth: usize, out: &mut String)
    ensures
        final(out)@ == old(out)@ + sym@.md(depth as nat),
    decreases sym, 1nat,
{
    let ghost before = out@;
    proof {
        sym.lemma_view();
    }
    out.push_str(render_md_entry(sym.decl.as_str(), depth).as_str());
    let inner: usize = if depth < DEEPEST {
        depth + 1
    } else {
        depth
    };
    render_md_symbols(&sym.members, inner, out);
    assert(out@ =~= before + sym@.md(depth as nat));
}

/// Appends declarations one after the other.
fn render_md_symbols(symbols: &Vec<SymbolNode>, depth: usize, out: &mut String)
    ensures
        final(out)@ == old(out)@ + nodes_md(views(symbols@), depth as nat),
    decreases symbols, 0nat,
{
    let ghost f = views(symbols@);
    let ghost before = out@;
    assert(out@ =~= before + nodes_md(f.take(0), depth as nat));
    for i in 0..symbols.len()
        invariant
            f == views(symbols@),
            out@ == before + nodes_md(f.take(i as int), depth as nat),
    {
        assert(f.take(i as int + 1).drop_last() =~= f.take(i as int));
        render_md_symbol(&symbols[i], depth, out);
        assert(out@ =~= before + nodes_md(f.take(i as int + 1), depth as nat));
    }
    assert(f.take(symbols@.len() as int) =~= f);
}

/// Appends extension groups one after the other.
fn render_md_groups(groups: &Vec<ExtensionGroup>, out: &mut String)
    ensures
        final(out)@ == old(out)@ + groups_md(views(groups@)),
{
    let ghost f = views(groups@);
    let ghost before = out@;
    assert(out@ =~= before + groups_md(f.take(0)));
    for i in 0..groups.len()
        invariant
            f == views(groups@),
            out@ == before + groups_md(f.take(i as int)),
    {
        let e = &groups[i];
        let ghost now = out@;
        assert(f.take(i as int + 1).drop_last() =~= f.take(i as int));
        out.push_str("### Extensions to `");
        out.push_str(e.extended_module.as_str());
        out.push_str("`\n\n");
        render_md_symbols(&e.symbols, 4, out);
        assert(out@ =~= now + e@.md());
        assert(out@ =~= before + groups_md(f.take(i as int + 1)));
    }
    assert(f.take(groups@.len() as int) =~= f);
}

/// Appends a module.
fn render_md_module(m: &ModuleModel, out: &mut String)
    ensures
        final(out)@ == old(out)@ + m@.md(),
{
    let ghost before = out@;
    out.push_str("## Module `");
    out.push_str(m.name.as_str());
    out.push_str("`\n\n");
    if m.symbols.len() == 0 && m.extensions.len() == 0 {
        out.push_str("_No symbol graph emitted._\n\n");
        assert(out@ =~= before + m@.md());
        return ;
    }
    if m.symbols.len() == 0 {
        out.push_str("_No own symbols._\n\n");
    } else {
        render_md_symbols(&m.symbols, 3, out);
    }
    render_md_groups(&m.extensions, out);
    assert(out@ =~= before + m@.md());
}

/// A package as a Markdown document.
pub fn render_md(model: &PackageModel) -> (r: String)
    ensures
        r@ == package_md(model@),
{
    let mut out = "# ".to_string();
    out.push_str(model.package.as_str());
    out.push_str("\n\n_Public API surface. Access level: `");
    out.push_str(model.access_level.as_str());
    out.push_str("`._\n\n");
    let ghost f = views(model.modules@);
    let ghost head = out@;
    assert(out@ =~= head + model_modules_md(f.take(0)));
    for i in 0..model.modules.len()
        invariant
            f == views(model.modules@),
            out@ == head + model_modules_md(f.take(i as int)),
    {
        assert(f.take(i as int + 1).drop_last() =~= f.take(i as int));
        render_md_module(&model.modules[i], &mut out);
        assert(out@ =~= head + model_modules_md(f.take(i as int + 1)));
    }
    assert(f.take(model.modules@.len() as int) =~= f);
    out
}

/// A heading has at most six marks, and one more than the heading above it
/// unless that one has six already.
pub proof fn law_headings(level: nat)
    ensures
        heading_mark(level).len() <= DEEPEST,
        heading_mark(below(level)).len() == if heading_mark(level).len() < DEEPEST {
            heading_mark(level).len() + 1
        } else {
            DEEPEST as nat
        },
{
}

} // verus!
