//! Counting what a report holds.

use vstd::prelude::*;

use crate::order::views;
use crate::report::{
    DiffReport, ExtensionDiff, ExtensionDiffTree, ModuleDiff, ModuleDiffTree, NodeStatus, Status,
    SymbolDiff, SymbolDiffTree,
};

verus! {

/// How many nodes were added, removed and changed.
pub struct Tally {
    pub added: nat,
    pub removed: nat,
    pub changed: nat,
}

impl Tally {
    pub open spec fn zero() -> Tally {
        Tally { added: 0, removed: 0, changed: 0 }
    }

    pub open spec fn plus(self, other: Tally) -> Tally {
        Tally {
            added: self.added + other.added,
            removed: self.removed + other.removed,
            changed: self.changed + other.changed,
        }
    }
}

impl Status {
    pub open spec fn tally(self) -> Tally {
        match self {
            Status::Same => Tally::zero(),
            Status::Added => Tally { added: 1, removed: 0, changed: 0 },
            Status::Removed => Tally { added: 0, removed: 1, changed: 0 },
            Status::Changed(_) => Tally { added: 0, removed: 0, changed: 1 },
        }
    }
}

impl SymbolDiffTree {
    /// The tally of a declaration and of those nested in it.
    pub open spec fn tally(self) -> Tally
        decreases self,
    {
        self.status.tally().plus(symbols_tally(self.members))
    }
}

/// The tally of a list of declarations.
pub open spec fn symbols_tally(f: Seq<SymbolDiffTree>) -> Tally
    decreases f,
{
    if f.len() == 0 {
        Tally::zero()
    } else {
        symbols_tally(f.drop_last()).plus(f.last().tally())
    }
}

impl ExtensionDiffTree {
    pub open spec fn tally(self) -> Tally {
        self.status.tally().plus(symbols_tally(self.symbols))
    }
}

/// The tally of a list of extension groups.
pub open spec fn extensions_tally(f: Seq<ExtensionDiffTree>) -> Tally
    decreases f.len(),
{
    if f.len() == 0 {
        Tally::zero()
    } else {
        extensions_tally(f.drop_last()).plus(f.last().tally())
    }
}

impl ModuleDiffTree {
    pub open spec fn tally(self) -> Tally {
        self.status.tally().plus(symbols_tally(self.symbols)).plus(extensions_tally(self.extensions))
    }
}

/// The tally of a report.
pub open spec fn report_tally(report: Seq<ModuleDiffTree>) -> Tally
    decreases report.len(),
{
    if report.len() == 0 {
        Tally::zero()
    } else {
        report_tally(report.drop_last()).plus(report.last().tally())
    }
}

/// A number as far as a `usize` goes.
pub open spec fn capped(n: nat) -> nat {
    if n <= usize::MAX {
        n
    } else {
        usize::MAX as nat
    }
}

/// Three counters. Each stops at the largest `usize`, which no report that
/// fits in memory reaches.
struct Counts {
    added: usize,
    removed: usize,
    changed: usize,
}

impl Counts {
    /// Whether the counters hold `before` and `t` together.
    spec fn holds(self, before: Counts, t: Tally) -> bool {
        &&& self.added == capped(before.added as nat + t.added)
        &&& self.removed == capped(before.removed as nat + t.removed)
        &&& self.changed == capped(before.changed as nat + t.changed)
    }

    fn add_status(&mut self, status: &NodeStatus)
        ensures
            final(self).holds(*old(self), status@.tally()),
    {
        match status {
            NodeStatus::Same => {},
            NodeStatus::Added => {
                self.added = self.added.saturating_add(1);
            },
            NodeStatus::Removed => {
                self.removed = self.removed.saturating_add(1);
            },
            NodeStatus::Changed { .. } => {
                self.changed = self.changed.saturating_add(1);
            },
        }
    }

    fn add_symbol(&mut self, s: &SymbolDiff)
        ensures
            final(self).holds(*old(self), s@.tally()),
        decreases s,
    {
        let ghost before = *self;
        self.add_status(&s.status);
        proof {
            s.lemma_view();
        }
        let ghost f = views(s.members@);
        for i in 0..s.members.len()
            invariant
                f == views(s.members@),
                self.holds(before, s@.status.tally().plus(symbols_tally(f.take(i as int)))),
        {
            assert(f.take(i as int + 1).drop_last() =~= f.take(i as int));
            self.add_symbol(&s.members[i]);
        }
        assert(f.take(s.members@.len() as int) =~= f);
    }

    fn add_symbols(&mut self, symbols: &Vec<SymbolDiff>)
        ensures
            final(self).holds(*old(self), symbols_tally(views(symbols@))),
    {
        let ghost before = *self;
        let ghost f = views(symbols@);
        for i in 0..symbols.len()
            invariant
                f == views(symbols@),
                self.holds(before, symbols_tally(f.take(i as int))),
        {
            assert(f.take(i as int + 1).drop_last() =~= f.take(i as int));
            self.add_symbol(&symbols[i]);
        }
        assert(f.take(symbols@.len() as int) =~= f);
    }

    fn add_extension(&mut self, e: &ExtensionDiff)
        ensures
            final(self).holds(*old(self), e@.tally()),
    {
        self.add_status(&e.status);
        self.add_symbols(&e.symbols);
    }

    fn add_module(&mut self, m: &ModuleDiff)
        ensures
            final(self).holds(*old(self), m@.tally()),
    {
        let ghost before = *self;
        self.add_status(&m.status);
        self.add_symbols(&m.symbols);
        let ghost f = views(m.extensions@);
        let ghost first = m@.status.tally().plus(symbols_tally(m@.symbols));
        for i in 0..m.extensions.len()
            invariant
                f == views(m.extensions@),
                self.holds(before, first.plus(extensions_tally(f.take(i as int)))),
        {
            assert(f.take(i as int + 1).drop_last() =~= f.take(i as int));
            self.add_extension(&m.extensions[i]);
        }
        assert(f.take(m.extensions@.len() as int) =~= f);
    }
}

/// How many nodes were added, removed and changed.
pub fn count(report: &DiffReport) -> (r: (usize, usize, usize))
    ensures
        r.0 == capped(report_tally(report@).added),
        r.1 == capped(report_tally(report@).removed),
        r.2 == capped(report_tally(report@).changed),
{
    let mut counts = Counts { added: 0, removed: 0, changed: 0 };
    let ghost zero = counts;
    let ghost f = report@;
    for i in 0..report.modules.len()
        invariant
            f == views(report.modules@),
            zero.added == 0,
            zero.removed == 0,
            zero.changed == 0,
            counts.holds(zero, report_tally(f.take(i as int))),
    {
        assert(f.take(i as int + 1).drop_last() =~= f.take(i as int));
        counts.add_module(&report.modules[i]);
    }
    assert(f.take(report.modules@.len() as int) =~= f);
    (counts.added, counts.removed, counts.changed)
}

} // verus!
