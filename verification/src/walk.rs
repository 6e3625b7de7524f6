//! A walk over a directory tree, apart from the reading of directories.

use vstd::prelude::*;

verus! {

/// The state of a walk: the directories still to be read, the last of which
/// comes next, and the files found so far.
pub struct Walk<P> {
    pending: Vec<P>,
    found: Vec<P>,
}

impl<P> Walk<P> {
    /// The directories still to be read.
    pub closed spec fn pending(&self) -> Seq<P> {
        self.pending@
    }

    /// The files found so far.
    pub closed spec fn found(&self) -> Seq<P> {
        self.found@
    }

    /// A walk that starts at a directory.
    pub fn new(root: P) -> (r: Self)
        ensures
            r.pending() == seq![root],
            r.found() == Seq::<P>::empty(),
    {
        let mut pending: Vec<P> = Vec::new();
        pending.push(root);
        let r = Walk { pending, found: Vec::new() };
        assert(r.pending() =~= seq![root]);
        r
    }

    /// The directory to be read next; `None` when the walk is over.
    pub fn next_directory(&mut self) -> (r: Option<P>)
        ensures
            final(self).found() == old(self).found(),
            match r {
                Some(d) => old(self).pending() == final(self).pending().push(d),
                None => old(self).pending().len() == 0 && final(self).pending() == old(
                    self,
                ).pending(),
            },
    {
        let ghost before = self.pending@;
        let r = self.pending.pop();
        assert(r is Some ==> before =~= self.pending@.push(r->0));
        r
    }

    /// Takes note of an entry of the directory that was read last.
    pub fn visit(&mut self, entry: P, is_directory: bool)
        ensures
            final(self).pending() == if is_directory {
                old(self).pending().push(entry)
            } else {
                old(self).pending()
            },
            final(self).found() == if is_directory {
                old(self).found()
            } else {
                old(self).found().push(entry)
            },
    {
        if is_directory {
            self.pending.push(entry);
        } else {
            self.found.push(entry);
        }
    }

    /// The files found.
    pub fn into_found(self) -> (r: Vec<P>)
        ensures
            r@ == self.found(),
    {
        self.found
    }
}

} // verus!
