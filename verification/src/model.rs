//! The API of a package as a tree, independent of any output format.

use vstd::prelude::*;

use crate::order::views;

verus! {

/// A package: its library modules and what they declare.
#[derive(Debug)]
pub struct PackageModel {
    pub package: String,
    pub access_level: String,
    pub modules: Vec<ModuleModel>,
}

/// A module: what it declares itself, and what it adds to other modules.
#[derive(Debug)]
pub struct ModuleModel {
    pub name: String,
    pub symbols: Vec<SymbolNode>,
    pub extensions: Vec<ExtensionGroup>,
}

/// What a module adds to the types of another module.
#[derive(Debug)]
pub struct ExtensionGroup {
    pub extended_module: String,
    pub symbols: Vec<SymbolNode>,
}

/// A declaration and the declarations nested in it.
#[derive(Debug)]
pub struct SymbolNode {
    pub decl: String,
    pub members: Vec<SymbolNode>,
}

/// What a `SymbolNode` stands for.
#[verifier::ext_equal]
pub struct SymbolTree {
    pub decl: Seq<char>,
    pub members: Seq<SymbolTree>,
}

/// What an `ExtensionGroup` stands for.
#[verifier::ext_equal]
pub struct ExtensionTree {
    pub extended_module: Seq<char>,
    pub symbols: Seq<SymbolTree>,
}

/// What a `ModuleModel` stands for.
#[verifier::ext_equal]
pub struct ModuleTree {
    pub name: Seq<char>,
    pub symbols: Seq<SymbolTree>,
    pub extensions: Seq<ExtensionTree>,
}

/// What a `PackageModel` stands for.
#[verifier::ext_equal]
pub struct PackageTree {
    pub package: Seq<char>,
    pub access_level: Seq<char>,
    pub modules: Seq<ModuleTree>,
}

impl View for SymbolNode {
    type V = SymbolTree;

    open spec fn view(&self) -> SymbolTree
        decreases self,
    {
        SymbolTree {
            decl: self.decl@,
            members: Seq::new(
                self.members@.len(),
                |i: int|
                    if 0 <= i < self.members@.len() {
                        self.members@[i].view()
                    } else {
                        arbitrary()
                    },
            ),
        }
    }
}

impl SymbolNode {
    /// The view of a node, one level deep.
    pub proof fn lemma_view(&self)
        ensures
            self@.decl == self.decl@,
            self@.members == views(self.members@),
    {
        reveal_with_fuel(<SymbolNode as View>::view, 2);
        assert(self@.members =~= views(self.members@));
    }
}

impl View for ExtensionGroup {
    type V = ExtensionTree;

    open spec fn view(&self) -> ExtensionTree {
        ExtensionTree { extended_module: self.extended_module@, symbols: views(self.symbols@) }
    }
}

impl View for ModuleModel {
    type V = ModuleTree;

    open spec fn view(&self) -> ModuleTree {
        ModuleTree {
            name: self.name@,
            symbols: views(self.symbols@),
            extensions: views(self.extensions@),
        }
    }
}

impl View for PackageModel {
    type V = PackageTree;

    open spec fn view(&self) -> PackageTree {
        PackageTree {
            package: self.package@,
            access_level: self.access_level@,
            modules: views(self.modules@),
        }
    }
}

} // verus!
