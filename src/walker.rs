use vstd::prelude::*;

verus! {

/// One item of a directory walk: a regular file with its length, or a failure
/// to list or classify the entry at `path` (an empty path where the entry
/// itself could not be read).
pub enum Entry<E> {
    File { path: Vec<u8>, len: u64 },
    Error { path: Vec<u8>, err: E },
}

/// What reading one more child of the innermost open listing gave. A child
/// directory arrives together with the result of opening its listing.
pub enum Listed<C, E> {
    Exhausted,
    Directory { path: Vec<u8>, opened: Result<C, E> },
    RegularFile { path: Vec<u8>, len: u64 },
    Other,
    Unclassified { path: Vec<u8>, err: E },
    Unreadable { err: E },
}

/// Depth-first, pre-order traversal state: a stack of open listing cursors,
/// most recently opened on top. The caller reads one child from the cursor
/// that `take_top` hands out and passes the cursor back to `step` with what
/// it read, so no recursion is involved however deep the tree is.
pub struct Walker<C> {
    stack: Vec<C>,
}

impl<C> Walker<C> {
    /// The open cursors, outermost first.
    pub closed spec fn cursors(&self) -> Seq<C> {
        self.stack@
    }

    /// A walk over the listing of the root directory.
    pub fn new(root: C) -> (w: Self)
        ensures
            w.cursors() == seq![root],
    {
        let mut stack = Vec::new();
        stack.push(root);
        Walker { stack }
    }

    /// Whether every listing has been exhausted.
    pub fn is_done(&self) -> (r: bool)
        ensures
            r == (self.cursors().len() == 0),
    {
        self.stack.len() == 0
    }

    /// Removes the innermost cursor, to read its next child.
    pub fn take_top(&mut self) -> (r: Option<C>)
        ensures
            old(self).cursors().len() == 0 ==> r is None && final(self).cursors() == old(
                self,
            ).cursors(),
            old(self).cursors().len() > 0 ==> r == Some(old(self).cursors().last())
                && final(self).cursors() == old(self).cursors().drop_last(),
    {
        self.stack.pop()
    }

    /// Takes back the cursor `top` with what was read from it, and decides:
    /// an exhausted cursor is dropped; an opened child directory is descended
    /// into before the remaining siblings; a regular file is emitted; an
    /// entry that is neither is skipped; a failure is emitted as an error.
    pub fn step<E>(&mut self, top: C, ev: Listed<C, E>) -> (r: Option<Entry<E>>)
        ensures
            match ev {
                Listed::Exhausted => final(self).cursors() == old(self).cursors() && r is None,
                Listed::Directory { path, opened } => match opened {
                    Ok(c) => final(self).cursors() == old(self).cursors().push(top).push(c)
                        && r is None,
                    Err(e) => final(self).cursors() == old(self).cursors().push(top) && r == Some(
                        Entry::Error { path, err: e },
                    ),
                },
                Listed::RegularFile { path, len } => final(self).cursors() == old(
                    self,
                ).cursors().push(top) && r == Some(Entry::<E>::File { path, len }),
                Listed::Other => final(self).cursors() == old(self).cursors().push(top)
                    && r is None,
                Listed::Unclassified { path, err } => final(self).cursors() == old(
                    self,
                ).cursors().push(top) && r == Some(Entry::Error { path, err }),
                Listed::Unreadable { err } => final(self).cursors() == old(self).cursors().push(
                    top,
                ) && (r matches Some(Entry::Error { path, err: e }) && path@.len() == 0 && e
                    == err),
            },
            r matches Some(Entry::File { path, len }) ==> ev == (Listed::<C, E>::RegularFile {
                path,
                len,
            }),
    {
        match ev {
            Listed::Exhausted => None,
            Listed::Directory { path, opened } => {
                self.stack.push(top);
                match opened {
                    Ok(c) => {
                        self.stack.push(c);
                        None
                    },
                    Err(err) => Some(Entry::Error { path, err }),
                }
            },
            Listed::RegularFile { path, len } => {
                self.stack.push(top);
                Some(Entry::File { path, len })
            },
            Listed::Other => {
                self.stack.push(top);
                None
            },
            Listed::Unclassified { path, err } => {
                self.stack.push(top);
                Some(Entry::Error { path, err })
            },
            Listed::Unreadable { err } => {
                self.stack.push(top);
                Some(Entry::Error { path: Vec::new(), err })
            },
        }
    }
}

} // verus!
