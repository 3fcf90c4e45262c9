//! The entry that the user asked for: it is shown under the whole path that was
//! given, and it is never hidden.

use crate::entry::{built, fits, Entry, Listing, Metadata, Node};
use crate::modes::DisplayableEntry;
use crate::utils::{describe_io_error, description, full_name_from_path, marked_name, ErrorKind};
use vstd::prelude::*;

verus! {

/// The tree `node` under the name `name`.
pub open spec fn renamed(node: Node, name: Seq<char>) -> Node {
    Node { name, self_size: node.self_size, is_file: node.is_file, children: node.children }
}

/// A root as a value of mathematics: the name under which it is shown, and the
/// tree of the entry at its path.
pub struct RootView {
    /// The name under which the root is shown: the whole path that was given.
    pub name: Seq<char>,
    /// The tree of the entry at the root's path, under the name of an entry.
    pub entry: Node,
}

impl RootView {
    /// The tree that is shown for the root: that of its entry, under the root's
    /// name.
    pub open spec fn tree(self) -> Node {
        renamed(self.entry, self.name)
    }
}

/// The root that is built for `path` from what the file system told of it and
/// from the listing of its children, or the reason why none is built: the entry
/// at `path`, and the whole path as its name.
pub open spec fn built_root(path: Seq<char>, metadata: Metadata, listing: Listing) -> Result<
    RootView,
    Seq<char>,
> {
    match built(path, metadata, listing) {
        Ok(node) => Ok(
            RootView { name: marked_name(path, metadata.kind is Directory), entry: node },
        ),
        Err(reason) => Err(reason),
    }
}

/// One of the paths that the user asked for, scanned.
#[derive(Debug)]
pub struct Root {
    name: String,
    entry: Entry,
}

impl View for Root {
    type V = RootView;

    closed spec fn view(&self) -> RootView {
        RootView { name: self.name@, entry: self.entry@ }
    }
}

impl Root {
    /// Builds the root for `path` from what reading the path gave: what the file
    /// system told of it, or why it told nothing.
    pub fn for_path(path: &str, metadata: Result<Metadata, ErrorKind>, listing: Listing) -> (root:
        Result<Root, String>)
        requires
            metadata matches Ok(m) ==> fits(m, listing),
        ensures
            match metadata {
                Ok(m) => match built_root(path@, m, listing) {
                    Ok(view) => root matches Ok(r) && r@ == view,
                    Err(reason) => root matches Err(e) && e@ == reason,
                },
                Err(error) => root matches Err(e) && e@ == description(error),
            },
            root matches Ok(r) ==> r@.entry.well_formed(),
    {
        match metadata {
            Ok(metadata) => Root::from_metadata(path, &metadata, listing),
            Err(error) => Err(describe_io_error(error)),
        }
    }

    /// Builds the root for `path` from what the file system told of it and from
    /// the listing of its children.
    pub fn from_metadata(path: &str, metadata: &Metadata, listing: Listing) -> (root: Result<
        Root,
        String,
    >)
        requires
            fits(*metadata, listing),
        ensures
            match built_root(path@, *metadata, listing) {
                Ok(view) => root matches Ok(r) && r@ == view,
                Err(reason) => root matches Err(e) && e@ == reason,
            },
            root matches Ok(r) ==> r@.entry.well_formed(),
    {
        match Entry::from_metadata(path, metadata, listing) {
            Ok(entry) => Ok(Root { name: full_name_from_path(path, metadata.is_dir()), entry }),
            Err(reason) => Err(reason),
        }
    }

    /// The entry at the root's path, under the name of an entry.
    pub fn entry(&self) -> (entry: &Entry)
        ensures
            entry@ == self@.entry,
            entry@.well_formed(),
    {
        proof {
            use_type_invariant(&self.entry);
            self.entry.lemma_well_formed();
        }
        &self.entry
    }
}

impl DisplayableEntry for Root {
    open spec fn tree(&self) -> Node {
        self@.tree()
    }

    fn size(&self) -> (size: u64) {
        self.entry.size()
    }

    fn name(&self) -> (name: &String) {
        &self.name
    }

    fn children(&self) -> (children: &Vec<Entry>) {
        self.entry.children()
    }

    fn is_file(&self) -> (file: bool) {
        self.entry.is_file()
    }

    /// A root is never hidden: the user asked for it, whatever its name.
    open spec fn hidden(&self) -> bool {
        false
    }

    /// A root is never hidden: the user asked for it, whatever its name.
    fn is_hidden(&self) -> (hidden: bool) {
        false
    }
}

} // verus!
