//! What a report counts, says and leads to, in terms of the statuses in it.

use vstd::prelude::*;

use crate::command::{colored, exit_code_for, format_for, report_output, DiffArgs};
use crate::report::{
    any_breaks, nothing_differs, report_breaks, ExtensionDiffTree, ModuleDiffTree, Status,
    SymbolDiffTree,
};
use crate::report_output::{modules_md, modules_text, report_md, report_text};
use crate::tally::{extensions_tally, report_tally, symbols_tally};
use crate::text::decimal_digits;

verus! {

/// The statuses of entries and of those nested in them.
pub open spec fn entry_statuses(f: Seq<SymbolDiffTree>) -> Seq<Status>
    decreases f,
{
    if f.len() == 0 {
        seq![]
    } else {
        entry_statuses(f.drop_last()) + seq![f.last().status] + entry_statuses(f.last().members)
    }
}

/// The statuses of extension groups and of their entries.
pub open spec fn group_statuses(f: Seq<ExtensionDiffTree>) -> Seq<Status>
    decreases f.len(),
{
    if f.len() == 0 {
        seq![]
    } else {
        group_statuses(f.drop_last()) + seq![f.last().status] + entry_statuses(f.last().symbols)
    }
}

/// All statuses in a report: those of modules, of extension groups and of
/// declarations.
pub open spec fn all_statuses(report: Seq<ModuleDiffTree>) -> Seq<Status>
    decreases report.len(),
{
    if report.len() == 0 {
        seq![]
    } else {
        all_statuses(report.drop_last()) + seq![report.last().status] + entry_statuses(
            report.last().symbols,
        ) + group_statuses(report.last().extensions)
    }
}

/// How many of the statuses say that something was added.
pub open spec fn how_many_added(s: Seq<Status>) -> nat {
    s.filter(|x: Status| x is Added).len()
}

/// How many of the statuses say that something was removed.
pub open spec fn how_many_removed(s: Seq<Status>) -> nat {
    s.filter(|x: Status| x is Removed).len()
}

/// How many of the statuses say that something was changed.
pub open spec fn how_many_changed(s: Seq<Status>) -> nat {
    s.filter(|x: Status| x is Changed).len()
}

proof fn lemma_how_many_add(a: Seq<Status>, b: Seq<Status>)
    ensures
        how_many_added(a + b) == how_many_added(a) + how_many_added(b),
        how_many_removed(a + b) == how_many_removed(a) + how_many_removed(b),
        how_many_changed(a + b) == how_many_changed(a) + how_many_changed(b),
{
    Seq::filter_distributes_over_add(a, b, |x: Status| x is Added);
    Seq::filter_distributes_over_add(a, b, |x: Status| x is Removed);
    Seq::filter_distributes_over_add(a, b, |x: Status| x is Changed);
}

proof fn lemma_how_many_one(s: Status)
    ensures
        how_many_added(seq![s]) == s.tally().added,
        how_many_removed(seq![s]) == s.tally().removed,
        how_many_changed(seq![s]) == s.tally().changed,
{
    reveal(Seq::filter);
    reveal_with_fuel(Seq::filter, 2);
    assert(seq![s].drop_last() =~= Seq::<Status>::empty());
}

proof fn lemma_how_many_none()
    ensures
        how_many_added(seq![]) == 0,
        how_many_removed(seq![]) == 0,
        how_many_changed(seq![]) == 0,
{
    reveal(Seq::filter);
}

proof fn lemma_entries_counted(f: Seq<SymbolDiffTree>)
    ensures
        symbols_tally(f).added == how_many_added(entry_statuses(f)),
        symbols_tally(f).removed == how_many_removed(entry_statuses(f)),
        symbols_tally(f).changed == how_many_changed(entry_statuses(f)),
    decreases f,
{
    if f.len() == 0 {
        lemma_how_many_none();
    } else {
        let h = f.drop_last();
        let x = f.last();
        lemma_entries_counted(h);
        assert(decreases_to!(f => f[f.len() - 1]));
        assert(decreases_to!(f[f.len() - 1] => f[f.len() - 1].members));
        lemma_entries_counted(x.members);
        lemma_how_many_one(x.status);
        lemma_how_many_add(entry_statuses(h), seq![x.status]);
        lemma_how_many_add(entry_statuses(h) + seq![x.status], entry_statuses(x.members));
        assert(x.tally() == x.status.tally().plus(symbols_tally(x.members)));
        assert(symbols_tally(f) == symbols_tally(h).plus(x.tally()));
    }
}

proof fn lemma_groups_counted(f: Seq<ExtensionDiffTree>)
    ensures
        extensions_tally(f).added == how_many_added(group_statuses(f)),
        extensions_tally(f).removed == how_many_removed(group_statuses(f)),
        extensions_tally(f).changed == how_many_changed(group_statuses(f)),
    decreases f.len(),
{
    if f.len() == 0 {
        lemma_how_many_none();
    } else {
        let h = f.drop_last();
        let x = f.last();
        lemma_groups_counted(h);
        lemma_entries_counted(x.symbols);
        lemma_how_many_one(x.status);
        lemma_how_many_add(group_statuses(h), seq![x.status]);
        lemma_how_many_add(group_statuses(h) + seq![x.status], entry_statuses(x.symbols));
    }
}

/// Each module, extension group and declaration in a report counts once, by its
/// status.
pub proof fn law_statuses_counted(report: Seq<ModuleDiffTree>)
    ensures
        report_tally(report).added == how_many_added(all_statuses(report)),
        report_tally(report).removed == how_many_removed(all_statuses(report)),
        report_tally(report).changed == how_many_changed(all_statuses(report)),
    decreases report.len(),
{
    if report.len() == 0 {
        lemma_how_many_none();
    } else {
        let h = report.drop_last();
        let m = report.last();
        law_statuses_counted(h);
        lemma_entries_counted(m.symbols);
        lemma_groups_counted(m.extensions);
        lemma_how_many_one(m.status);
        let a = all_statuses(h);
        lemma_how_many_add(a, seq![m.status]);
        lemma_how_many_add(a + seq![m.status], entry_statuses(m.symbols));
        lemma_how_many_add(
            a + seq![m.status] + entry_statuses(m.symbols),
            group_statuses(m.extensions),
        );
    }
}

/// Whether a module is in a report for nothing: it is the same, and nothing in
/// it is reported.
pub open spec fn idle(m: ModuleDiffTree) -> bool {
    m.status is Same && m.symbols.len() == 0 && m.extensions.len() == 0
}

proof fn lemma_modules_joined(f: Seq<ModuleDiffTree>, color: bool)
    ensures
        modules_text(f, color) == f.map_values(|m: ModuleDiffTree| m.text(color)).flatten(),
        modules_md(f) == f.map_values(|m: ModuleDiffTree| m.md()).flatten(),
    decreases f.len(),
{
    let a = f.map_values(|m: ModuleDiffTree| m.text(color));
    let b = f.map_values(|m: ModuleDiffTree| m.md());
    if f.len() > 0 {
        let h = f.drop_last();
        lemma_modules_joined(h, color);
        let c = h.map_values(|m: ModuleDiffTree| m.text(color));
        let d = h.map_values(|m: ModuleDiffTree| m.md());
        assert(a =~= c.push(f.last().text(color)));
        assert(b =~= d.push(f.last().md()));
        c.lemma_flatten_push(f.last().text(color));
        d.lemma_flatten_push(f.last().md());
    } else {
        assert(a =~= Seq::<Seq<char>>::empty());
        assert(b =~= Seq::<Seq<char>>::empty());
        assert(a.flatten() =~= Seq::<char>::empty());
        assert(b.flatten() =~= Seq::<char>::empty());
    }
}

/// A written report says that there are no differences, or it starts with how
/// many entries say that something was added, removed and changed, and holds
/// the modules one after the other.
pub proof fn law_report_written(report: Seq<ModuleDiffTree>, color: bool)
    requires
        all_statuses(report).len() <= usize::MAX,
    ensures
        ({
            let all = all_statuses(report);
            let added = decimal_digits(how_many_added(all));
            let removed = decimal_digits(how_many_removed(all));
            let changed = decimal_digits(how_many_changed(all));
            let idles = forall|i: int| 0 <= i < report.len() ==> idle(#[trigger] report[i]);
            &&& idles ==> report_text(report, color) == "No API differences.\n"@
            &&& idles ==> report_md(report) == "**No API differences.**\n"@
            &&& !idles ==> report_text(report, color) == "API differences: "@ + added
                + " added, "@ + removed + " removed, "@ + changed + " changed\n\n"@
                + report.map_values(|m: ModuleDiffTree| m.text(color)).flatten()
            &&& !idles ==> report_md(report) == "### API differences\n\n- **Added:** "@ + added
                + "\n- **Removed:** "@ + removed + "\n- **Changed:** "@ + changed + "\n\n"@
                + report.map_values(|m: ModuleDiffTree| m.md()).flatten()
        }),
{
    law_statuses_counted(report);
    lemma_modules_joined(report, color);
    let all = all_statuses(report);
    all.lemma_filter_len(|x: Status| x is Added);
    all.lemma_filter_len(|x: Status| x is Removed);
    all.lemma_filter_len(|x: Status| x is Changed);
    let idles = forall|i: int| 0 <= i < report.len() ==> idle(#[trigger] report[i]);
    if idles {
        assert forall|i: int| 0 <= i < report.len() implies !(#[trigger] report[i]).differs() by {
            assert(idle(report[i]));
        }
    } else {
        let i = choose|i: int| 0 <= i < report.len() && !idle(#[trigger] report[i]);
        assert(report[i].differs());
        assert(!nothing_differs(report));
    }
}

/// Whether one of the statuses says that something was removed or changed.
pub open spec fn lost_something(s: Seq<Status>) -> bool {
    exists|i: int| 0 <= i < s.len() && ((#[trigger] s[i]) is Removed || s[i] is Changed)
}

proof fn lemma_lost_add(a: Seq<Status>, b: Seq<Status>)
    ensures
        lost_something(a + b) <==> lost_something(a) || lost_something(b),
{
    if lost_something(a) {
        let i = choose|i: int| 0 <= i < a.len() && ((#[trigger] a[i]) is Removed || a[i] is Changed);
        assert((a + b)[i] == a[i]);
    }
    if lost_something(b) {
        let i = choose|i: int| 0 <= i < b.len() && ((#[trigger] b[i]) is Removed || b[i] is Changed);
        assert((a + b)[a.len() + i] == b[i]);
    }
    if lost_something(a + b) {
        let i = choose|i: int|
            0 <= i < (a + b).len() && ((#[trigger] (a + b)[i]) is Removed || (a + b)[i] is Changed);
        if i < a.len() {
            assert(a[i] == (a + b)[i]);
        } else {
            assert(b[i - a.len()] == (a + b)[i]);
        }
    }
}

proof fn lemma_lost_one(s: Status)
    ensures
        lost_something(seq![s]) <==> s.breaks(),
{
    if s.breaks() {
        assert(seq![s][0] == s);
    }
}

proof fn lemma_entries_lost(f: Seq<SymbolDiffTree>)
    ensures
        any_breaks(f) <==> lost_something(entry_statuses(f)),
    decreases f,
{
    if f.len() > 0 {
        let h = f.drop_last();
        let x = f.last();
        let last = f.len() - 1;
        lemma_entries_lost(h);
        assert(decreases_to!(f => f[f.len() - 1]));
        assert(decreases_to!(f[f.len() - 1] => f[f.len() - 1].members));
        lemma_entries_lost(x.members);
        lemma_lost_one(x.status);
        lemma_lost_add(entry_statuses(h), seq![x.status]);
        lemma_lost_add(entry_statuses(h) + seq![x.status], entry_statuses(x.members));
        assert(x.breaks() <==> x.status.breaks() || any_breaks(x.members));
        if any_breaks(h) {
            let i = choose|i: int| 0 <= i < h.len() && (#[trigger] h[i]).breaks();
            assert(f[i].breaks());
        }
        if x.breaks() {
            assert(f[last].breaks());
        }
        if any_breaks(f) {
            let i = choose|i: int| 0 <= i < f.len() && (#[trigger] f[i]).breaks();
            if i < h.len() {
                assert(h[i].breaks());
            }
        }
    }
}

proof fn lemma_groups_lost(f: Seq<ExtensionDiffTree>)
    ensures
        (exists|i: int| 0 <= i < f.len() && (#[trigger] f[i]).breaks()) <==> lost_something(
            group_statuses(f),
        ),
    decreases f.len(),
{
    if f.len() > 0 {
        let h = f.drop_last();
        let x = f.last();
        let last = f.len() - 1;
        lemma_groups_lost(h);
        lemma_entries_lost(x.symbols);
        lemma_lost_one(x.status);
        lemma_lost_add(group_statuses(h), seq![x.status]);
        lemma_lost_add(group_statuses(h) + seq![x.status], entry_statuses(x.symbols));
        if exists|i: int| 0 <= i < h.len() && (#[trigger] h[i]).breaks() {
            let i = choose|i: int| 0 <= i < h.len() && (#[trigger] h[i]).breaks();
            assert(f[i].breaks());
        }
        if x.breaks() {
            assert(f[last].breaks());
        }
        if exists|i: int| 0 <= i < f.len() && (#[trigger] f[i]).breaks() {
            let i = choose|i: int| 0 <= i < f.len() && (#[trigger] f[i]).breaks();
            if i < h.len() {
                assert(h[i].breaks());
            }
        }
    }
}

/// A report is breaking if and only if something in it, at any depth, was
/// removed or changed.
pub proof fn law_breaking(report: Seq<ModuleDiffTree>)
    ensures
        report_breaks(report) <==> lost_something(all_statuses(report)),
    decreases report.len(),
{
    if report.len() > 0 {
        let h = report.drop_last();
        let m = report.last();
        let last = report.len() - 1;
        law_breaking(h);
        lemma_entries_lost(m.symbols);
        lemma_groups_lost(m.extensions);
        lemma_lost_one(m.status);
        let a = all_statuses(h);
        lemma_lost_add(a, seq![m.status]);
        lemma_lost_add(a + seq![m.status], entry_statuses(m.symbols));
        lemma_lost_add(
            a + seq![m.status] + entry_statuses(m.symbols),
            group_statuses(m.extensions),
        );
        if report_breaks(h) {
            let i = choose|i: int| 0 <= i < h.len() && (#[trigger] h[i]).breaks();
            assert(report[i].breaks());
        }
        if m.breaks() {
            assert(report[last].breaks());
        }
        if report_breaks(report) {
            let i = choose|i: int| 0 <= i < report.len() && (#[trigger] report[i]).breaks();
            if i < h.len() {
                assert(h[i].breaks());
            }
        }
    }
}

/// The exit code is 0 if nothing is reported, or if additions are accepted and
/// nothing was removed or changed; otherwise it is 1.
pub proof fn law_verdict(report: Seq<ModuleDiffTree>, allow_additive: bool)
    ensures
        ({
            let idles = forall|i: int| 0 <= i < report.len() ==> idle(#[trigger] report[i]);
            let lost = lost_something(all_statuses(report));
            exit_code_for(report, allow_additive) == if idles {
                0
            } else if allow_additive && !lost {
                0
            } else {
                1int
            }
        }),
{
    law_breaking(report);
    let idles = forall|i: int| 0 <= i < report.len() ==> idle(#[trigger] report[i]);
    if idles {
        assert forall|i: int| 0 <= i < report.len() implies !(#[trigger] report[i]).differs() by {
            assert(idle(report[i]));
        }
    } else {
        let i = choose|i: int| 0 <= i < report.len() && !idle(#[trigger] report[i]);
        assert(report[i].differs());
        assert(!nothing_differs(report));
    }
}

/// A report is written in the format asked for. In a text report there are
/// colors on a terminal, or where they are asked for; whoever asks for none
/// gets none.
pub proof fn law_format_and_colors(
    report: Seq<ModuleDiffTree>,
    args: DiffArgs,
    on_terminal: bool,
)
    ensures
        args.format is Markdown ==> report_output(report, args, on_terminal) == report_md(report),
        args.format is Text && args.no_color ==> report_output(report, args, on_terminal)
            == report_text(report, false),
        args.format is Text && !args.no_color && args.color ==> report_output(
            report,
            args,
            on_terminal,
        ) == report_text(report, true),
        args.format is Text && !args.no_color && !args.color ==> report_output(
            report,
            args,
            on_terminal,
        ) == report_text(report, on_terminal),
        args.format is Markdown ==> !colored(args, on_terminal),
{
}

/// The extensions `yaml` and `yml` stand for YAML, `html` and `htm` for HTML,
/// and any other, or none, for Markdown.
pub proof fn law_format(extension: Seq<char>)
    ensures
        format_for(Some("yaml"@)) is Yaml,
        format_for(Some("yml"@)) is Yaml,
        format_for(Some("html"@)) is Html,
        format_for(Some("htm"@)) is Html,
        format_for(None) is Md,
        extension != "yaml"@ && extension != "yml"@ && extension != "html"@ && extension != "htm"@
            ==> format_for(Some(extension)) is Md,
{
    reveal_strlit("yaml");
    reveal_strlit("yml");
    reveal_strlit("html");
    reveal_strlit("htm");
    assert("html"@[0] != "yaml"@[0]);
    assert("htm"@[0] != "yml"@[0]);
    assert("html"@.len() == 4 && "htm"@.len() == 3 && "yaml"@.len() == 4 && "yml"@.len() == 3);
}

} // verus!
