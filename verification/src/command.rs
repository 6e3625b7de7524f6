//! The decisions of the command line tool.

use vstd::prelude::*;

use crate::diff::{diff_modules, diff_packages};
use crate::diff_laws::law_same_package;
use crate::model::{ModuleTree, PackageModel};
use crate::report::{nothing_differs, report_breaks, DiffReport, ModuleDiffTree};
use crate::report_output::{render_markdown, render_text, report_md, report_text};
use crate::tally::report_tally;
use crate::tally_laws::{law_breaking_counted, law_differences_counted};
use crate::text::same_text;

verus! {

/// The format in which a package is written.
#[derive(Clone, Copy, Debug, PartialEq, Eq)]
pub enum Format {
    Md,
    Yaml,
    Html,
}

/// The format that goes with the extension of an output file: Markdown,
/// unless it is one of the others.
pub open spec fn format_for(extension: Option<Seq<char>>) -> Format {
    match extension {
        Some(e) => if e == "yaml"@ || e == "yml"@ {
            Format::Yaml
        } else if e == "html"@ || e == "htm"@ {
            Format::Html
        } else {
            Format::Md
        },
        None => Format::Md,
    }
}

/// The format that goes with the extension of an output file, which is given
/// where there is one and it is Unicode.
pub fn infer_format(extension: Option<&str>) -> (r: Format)
    ensures
        r == format_for(
            match extension {
                Some(e) => Some(e@),
                None => None,
            },
        ),
{
    match extension {
        Some(e) => {
            if same_text(e, "yaml") || same_text(e, "yml") {
                Format::Yaml
            } else if same_text(e, "html") || same_text(e, "htm") {
                Format::Html
            } else {
                Format::Md
            }
        },
        None => Format::Md,
    }
}

/// Whether symbol graphs can be had for an access level: so far only for
/// `public`.
pub fn access_level_supported(level: &str) -> (r: bool)
    ensures
        r == (level@ == "public"@),
{
    same_text(level, "public")
}

/// The format of a report.
#[derive(Clone, Copy, Debug, PartialEq, Eq)]
pub enum DiffFormat {
    Text,
    Markdown,
}

/// How a comparison is to be reported.
#[derive(Clone, Copy, Debug)]
pub struct DiffArgs {
    pub format: DiffFormat,
    /// Use colors even where the output is not a terminal.
    pub color: bool,
    /// Use no colors. This goes before `color`.
    pub no_color: bool,
    /// Accept a report that holds nothing but additions.
    pub allow_additive: bool,
}

/// What a comparison leads to.
#[derive(Debug)]
pub struct DiffOutcome {
    /// The report.
    pub output: String,
    /// The exit code of the tool.
    pub exit_code: u8,
}

/// Whether a report is colored. Colors are for text only; they are there
/// where they are asked for, and on a terminal where nothing is said.
pub open spec fn colored(args: DiffArgs, on_terminal: bool) -> bool {
    match args.format {
        DiffFormat::Markdown => false,
        DiffFormat::Text => !args.no_color && (args.color || on_terminal),
    }
}

/// A report in the format asked for.
pub open spec fn report_output(
    report: Seq<ModuleDiffTree>,
    args: DiffArgs,
    on_terminal: bool,
) -> Seq<char> {
    match args.format {
        DiffFormat::Text => report_text(report, colored(args, on_terminal)),
        DiffFormat::Markdown => report_md(report),
    }
}

/// The exit code for a report: 0 where nothing differs, or where additions
/// are accepted and nothing was removed or changed; 1 otherwise.
pub open spec fn exit_code_for(report: Seq<ModuleDiffTree>, allow_additive: bool) -> u8 {
    if nothing_differs(report) || (allow_additive && !report_breaks(report)) {
        0
    } else {
        1
    }
}

/// The exit code for a report.
pub fn exit_code(report: &DiffReport, allow_additive: bool) -> (r: u8)
    ensures
        r == exit_code_for(report@, allow_additive),
{
    if report.is_empty() {
        return 0;
    }
    if allow_additive && !report.has_breaking() {
        return 0;
    }
    1
}

/// Whether a report is colored.
pub fn use_color(args: &DiffArgs, on_terminal: bool) -> (r: bool)
    ensures
        r == colored(*args, on_terminal),
{
    match args.format {
        DiffFormat::Markdown => false,
        DiffFormat::Text => {
            if args.no_color {
                false
            } else if args.color {
                true
            } else {
                on_terminal
            }
        },
    }
}

/// Compares two snapshots of a package. `on_terminal` tells whether the
/// report goes to a terminal.
pub fn run_diff(
    args: &DiffArgs,
    old: &PackageModel,
    new: &PackageModel,
    on_terminal: bool,
) -> (r: DiffOutcome)
    ensures
        r.output@ == report_output(
            diff_modules(old@.modules, new@.modules),
            *args,
            on_terminal,
        ),
        r.exit_code == exit_code_for(
            diff_modules(old@.modules, new@.modules),
            args.allow_additive,
        ),
{
    let report = diff_packages(old, new);
    let output = match args.format {
        DiffFormat::Text => render_text(&report, use_color(args, on_terminal)),
        DiffFormat::Markdown => render_markdown(&report),
    };
    DiffOutcome { output, exit_code: exit_code(&report, args.allow_additive) }
}

/// The exit code of a comparison is 0 if it counts no difference, or if
/// additions are accepted and it counts nothing as removed or changed; it is 1
/// in all other cases.
pub proof fn law_exit_code(
    old: Seq<ModuleTree>,
    new: Seq<ModuleTree>,
    allow_additive: bool,
)
    ensures
        ({
            let report = diff_modules(old, new);
            let code = exit_code_for(report, allow_additive);
            let tally = report_tally(report);
            &&& code == 0 <==> tally.total() == 0 || (allow_additive && tally.breaking() == 0)
            &&& code == 0 || code == 1
        }),
{
    law_differences_counted(old, new);
    law_breaking_counted(diff_modules(old, new));
}

/// A comparison of a package with itself ends with exit code 0, whatever is
/// accepted.
pub proof fn law_same_package_passes(modules: Seq<ModuleTree>, allow_additive: bool)
    ensures
        exit_code_for(diff_modules(modules, modules), allow_additive) == 0,
{
    law_same_package(modules);
}

} // verus!
