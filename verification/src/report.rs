//! The report of a comparison: what was added, removed and changed.

use vstd::prelude::*;

use crate::order::views;

verus! {

/// What a comparison found, module by module.
#[derive(Debug)]
pub struct DiffReport {
    pub modules: Vec<ModuleDiff>,
}

/// What a comparison found in one module.
#[derive(Debug)]
pub struct ModuleDiff {
    pub name: String,
    pub status: NodeStatus,
    pub symbols: Vec<SymbolDiff>,
    pub extensions: Vec<ExtensionDiff>,
}

/// What a comparison found in the extensions to one module.
#[derive(Debug)]
pub struct ExtensionDiff {
    pub extended_module: String,
    pub status: NodeStatus,
    pub symbols: Vec<SymbolDiff>,
}

/// What a comparison found in one declaration and in those nested in it.
#[derive(Debug)]
pub struct SymbolDiff {
    pub decl: String,
    pub status: NodeStatus,
    pub members: Vec<SymbolDiff>,
}

/// What happened to a node between the two snapshots.
#[derive(Debug)]
pub enum NodeStatus {
    Same,
    Added,
    Removed,
    /// A declaration with the same identity that reads otherwise now.
    Changed { old_decl: String },
}

/// What a `NodeStatus` stands for.
pub enum Status {
    Same,
    Added,
    Removed,
    Changed(Seq<char>),
}

/// What a `SymbolDiff` stands for.
#[verifier::ext_equal]
pub struct SymbolDiffTree {
    pub decl: Seq<char>,
    pub status: Status,
    pub members: Seq<SymbolDiffTree>,
}

/// What an `ExtensionDiff` stands for.
#[verifier::ext_equal]
pub struct ExtensionDiffTree {
    pub extended_module: Seq<char>,
    pub status: Status,
    pub symbols: Seq<SymbolDiffTree>,
}

/// What a `ModuleDiff` stands for.
#[verifier::ext_equal]
pub struct ModuleDiffTree {
    pub name: Seq<char>,
    pub status: Status,
    pub symbols: Seq<SymbolDiffTree>,
    pub extensions: Seq<ExtensionDiffTree>,
}

impl View for NodeStatus {
    type V = Status;

    open spec fn view(&self) -> Status {
        match self {
            NodeStatus::Same => Status::Same,
            NodeStatus::Added => Status::Added,
            NodeStatus::Removed => Status::Removed,
            NodeStatus::Changed { old_decl } => Status::Changed(old_decl@),
        }
    }
}

impl Clone for NodeStatus {
    fn clone(&self) -> (r: Self)
        ensures
            r@ == self@,
    {
        match self {
            NodeStatus::Same => NodeStatus::Same,
            NodeStatus::Added => NodeStatus::Added,
            NodeStatus::Removed => NodeStatus::Removed,
            NodeStatus::Changed { old_decl } => NodeStatus::Changed { old_decl: old_decl.clone() },
        }
    }
}

impl View for SymbolDiff {
    type V = SymbolDiffTree;

    open spec fn view(&self) -> SymbolDiffTree
        decreases self,
    {
        SymbolDiffTree {
            decl: self.decl@,
            status: self.status@,
            members: Seq::new(
                self.members@.len(),
                |i: int|
                    if 0 <= i < self.members@.len() {
                        self.members@[i].view()
                    } else {
                        arbitrary()
                    },
            ),
        }
    }
}

impl View for ExtensionDiff {
    type V = ExtensionDiffTree;

    open spec fn view(&self) -> ExtensionDiffTree {
        ExtensionDiffTree {
            extended_module: self.extended_module@,
            status: self.status@,
            symbols: views(self.symbols@),
        }
    }
}

impl View for ModuleDiff {
    type V = ModuleDiffTree;

    open spec fn view(&self) -> ModuleDiffTree {
        ModuleDiffTree {
            name: self.name@,
            status: self.status@,
            symbols: views(self.symbols@),
            extensions: views(self.extensions@),
        }
    }
}

impl View for DiffReport {
    type V = Seq<ModuleDiffTree>;

    open spec fn view(&self) -> Seq<ModuleDiffTree> {
        views(self.modules@)
    }
}

impl Default for DiffReport {
    fn default() -> (r: Self)
        ensures
            r@ == Seq::<ModuleDiffTree>::empty(),
    {
        let r = DiffReport { modules: Vec::new() };
        assert(r@ =~= Seq::<ModuleDiffTree>::empty());
        r
    }
}

impl Status {
    /// Whether the status alone breaks users of the old API.
    pub open spec fn breaks(self) -> bool {
        self is Removed || self is Changed
    }
}

impl SymbolDiffTree {
    /// Whether the declaration or one nested in it was removed or changed.
    pub open spec fn breaks(self) -> bool
        decreases self,
    {
        self.status.breaks() || exists|i: int|
            0 <= i < self.members.len() && (#[trigger] self.members[i]).breaks()
    }
}

/// Whether one of the declarations breaks users of the old API.
pub open spec fn any_breaks(symbols: Seq<SymbolDiffTree>) -> bool {
    exists|i: int| 0 <= i < symbols.len() && (#[trigger] symbols[i]).breaks()
}

impl ExtensionDiffTree {
    /// Whether the extension group or a declaration in it was removed or changed.
    pub open spec fn breaks(self) -> bool {
        self.status.breaks() || any_breaks(self.symbols)
    }
}

impl ModuleDiffTree {
    /// Whether anything at all is to be reported of the module.
    pub open spec fn differs(self) -> bool {
        !(self.status is Same) || self.symbols.len() > 0 || self.extensions.len() > 0
    }

    /// Whether the module or anything in it was removed or changed.
    pub open spec fn breaks(self) -> bool {
        ||| self.status.breaks()
        ||| any_breaks(self.symbols)
        ||| exists|i: int| 0 <= i < self.extensions.len() && (#[trigger] self.extensions[i]).breaks()
    }
}

/// Whether a report has nothing to report.
pub open spec fn nothing_differs(report: Seq<ModuleDiffTree>) -> bool {
    forall|i: int| 0 <= i < report.len() ==> !(#[trigger] report[i]).differs()
}

/// Whether a report holds anything that breaks users of the old API.
pub open spec fn report_breaks(report: Seq<ModuleDiffTree>) -> bool {
    exists|i: int| 0 <= i < report.len() && (#[trigger] report[i]).breaks()
}

impl NodeStatus {
    /// Whether the status alone breaks users of the old API.
    fn is_breaking(&self) -> (r: bool)
        ensures
            r == self@.breaks(),
    {
        match self {
            NodeStatus::Removed => true,
            NodeStatus::Changed { .. } => true,
            _ => false,
        }
    }
}

impl SymbolDiff {
    /// The view of a node, one level deep.
    pub proof fn lemma_view(&self)
        ensures
            self@.decl == self.decl@,
            self@.status == self.status@,
            self@.members == views(self.members@),
    {
        reveal_with_fuel(<SymbolDiff as View>::view, 2);
        assert(self@.members =~= views(self.members@));
    }

    /// Whether the declaration or one nested in it was removed or changed.
    pub fn has_breaking(&self) -> (r: bool)
        ensures
            r == self@.breaks(),
        decreases self,
    {
        proof {
            self.lemma_view();
        }
        if self.status.is_breaking() {
            return true;
        }
        for i in 0..self.members.len()
            invariant
                self@.members == views(self.members@),
                self@.status == self.status@,
                !self@.status.breaks(),
                forall|j: int| 0 <= j < i ==> !(#[trigger] self@.members[j]).breaks(),
        {
            if self.members[i].has_breaking() {
                assert(self@.members[i as int].breaks());
                return true;
            }
        }
        false
    }
}

fn any_breaking(symbols: &Vec<SymbolDiff>) -> (r: bool)
    ensures
        r == any_breaks(views(symbols@)),
{
    for i in 0..symbols.len()
        invariant
            forall|j: int| 0 <= j < i ==> !(#[trigger] views(symbols@)[j]).breaks(),
    {
        if symbols[i].has_breaking() {
            assert(views(symbols@)[i as int].breaks());
            return true;
        }
    }
    false
}

impl ExtensionDiff {
    /// Whether the extension group or a declaration in it was removed or changed.
    pub fn has_breaking(&self) -> (r: bool)
        ensures
            r == self@.breaks(),
    {
        self.status.is_breaking() || any_breaking(&self.symbols)
    }
}

impl ModuleDiff {
    /// Whether anything at all is to be reported of the module.
    pub fn any_changes(&self) -> (r: bool)
        ensures
            r == self@.differs(),
    {
        let same = match self.status {
            NodeStatus::Same => true,
            _ => false,
        };
        !same || self.symbols.len() > 0 || self.extensions.len() > 0
    }

    /// Whether the module or anything in it was removed or changed.
    pub fn has_breaking(&self) -> (r: bool)
        ensures
            r == self@.breaks(),
    {
        if self.status.is_breaking() || any_breaking(&self.symbols) {
            return true;
        }
        for i in 0..self.extensions.len()
            invariant
                !self@.status.breaks(),
                !any_breaks(self@.symbols),
                forall|j: int| 0 <= j < i ==> !(#[trigger] self@.extensions[j]).breaks(),
        {
            if self.extensions[i].has_breaking() {
                assert(self@.extensions[i as int].breaks());
                return true;
            }
        }
        false
    }
}

impl DiffReport {
    /// Whether there is nothing to report.
    pub fn is_empty(&self) -> (r: bool)
        ensures
            r == nothing_differs(self@),
    {
        for i in 0..self.modules.len()
            invariant
                forall|j: int| 0 <= j < i ==> !(#[trigger] self@[j]).differs(),
        {
            if self.modules[i].any_changes() {
                assert(self@[i as int].differs());
                return false;
            }
        }
        true
    }

    /// Whether anything was removed or changed.
    pub fn has_breaking(&self) -> (r: bool)
        ensures
            r == report_breaks(self@),
    {
        for i in 0..self.modules.len()
            invariant
                forall|j: int| 0 <= j < i ==> !(#[trigger] self@[j]).breaks(),
        {
            if self.modules[i].has_breaking() {
                assert(self@[i as int].breaks());
                return true;
            }
        }
        false
    }
}

} // verus!
