//! The tree of scanned entries: every entry with its own size, the size of all
//! that lies below it, and its children, largest first.

use crate::modes::{is_hidden_name, DisplayableEntry};
use crate::ranking::{
    arranged, descending_order, is_descending_order, lemma_arranged_descends,
    lemma_descending_order_exists, lemma_descending_order_unique, lemma_order_is_permutation,
    lemma_total_of_arranged, naturals, positions, rearrange, sort_descending, total,
};
use crate::text::starts_with_char;
use crate::utils::{
    describe_io_error, description, file_name_of, short_name, short_name_from_path, ErrorKind,
};
use vstd::prelude::*;

verus! {

/// An entry as a value of mathematics: what is known of one file or directory
/// once it has been scanned.
pub struct Node {
    /// The name under which the entry is shown.
    pub name: Seq<char>,
    /// The size of the entry itself, in bytes.
    pub self_size: nat,
    /// Whether the entry is a file.
    pub is_file: bool,
    /// The entries directly below this one.
    pub children: Seq<Node>,
}

/// The sum of the sizes of `nodes`, each with everything below it.
pub open spec fn sizes_sum(nodes: Seq<Node>) -> nat
    decreases nodes,
{
    if nodes.len() == 0 {
        0
    } else {
        sizes_sum(nodes.drop_last()) + nodes.last().size()
    }
}

/// The sizes of `nodes`, each with everything below it.
pub open spec fn sizes_of(nodes: Seq<Node>) -> Seq<nat> {
    Seq::new(nodes.len(), |i: int| nodes[i].size())
}

/// Whether no node of `nodes` is larger than one before it.
pub open spec fn descending(nodes: Seq<Node>) -> bool {
    forall|i: int, j: int|
        0 <= i <= j < nodes.len() ==> (#[trigger] nodes[i]).size() >= (#[trigger] nodes[j]).size()
}

/// `nodes` in the order in which they are shown: larger sizes first, and nodes of
/// equal size in the order in which they came.
pub open spec fn ranked(nodes: Seq<Node>) -> Seq<Node> {
    arranged(nodes, descending_order(sizes_of(nodes)))
}

/// Every node of the trees `nodes`, each tree from its root down.
pub open spec fn subtrees(nodes: Seq<Node>) -> Seq<Node>
    decreases nodes,
{
    if nodes.len() == 0 {
        Seq::empty()
    } else {
        subtrees(nodes.drop_last()) + nodes.last().subtree()
    }
}

/// The sum of the sizes that the nodes of `nodes` have themselves, without what
/// lies below them.
pub open spec fn self_sizes_sum(nodes: Seq<Node>) -> nat
    decreases nodes.len(),
{
    if nodes.len() == 0 {
        0
    } else {
        self_sizes_sum(nodes.drop_last()) + nodes.last().self_size
    }
}

/// The height of the highest of the trees `nodes`; zero where there is none.
pub open spec fn heights_max(nodes: Seq<Node>) -> nat
    decreases nodes,
{
    if nodes.len() == 0 {
        0
    } else {
        let before = heights_max(nodes.drop_last());
        let last = nodes.last().height();
        if before < last {
            last
        } else {
            before
        }
    }
}

impl Node {
    /// The number of levels of the tree: one for an entry without children.
    pub open spec fn height(self) -> nat
        decreases self,
    {
        1 + heights_max(self.children)
    }

    /// The size of the entry with everything below it.
    pub open spec fn size(self) -> nat
        decreases self,
    {
        self.self_size + sizes_sum(self.children)
    }

    /// Every node of the tree, from this one down.
    pub open spec fn subtree(self) -> Seq<Node>
        decreases self,
    {
        seq![self] + subtrees(self.children)
    }

    /// Whether the tree is one that scanning builds: at every node the children
    /// descend in size, and a file has no children.
    pub open spec fn well_formed(self) -> bool
        decreases self,
    {
        &&& descending(self.children)
        &&& self.is_file ==> self.children.len() == 0
        &&& forall|i: int|
            0 <= i < self.children.len() ==> (#[trigger] self.children[i]).well_formed()
    }
}

/// No tree of `nodes` is higher than the highest of them.
pub proof fn lemma_height_of_member(nodes: Seq<Node>, i: int)
    requires
        0 <= i < nodes.len(),
    ensures
        nodes[i].height() <= heights_max(nodes),
    decreases nodes.len(),
{
    if i < nodes.len() - 1 {
        lemma_height_of_member(nodes.drop_last(), i);
    }
}

/// Where every tree of `nodes` is one of the trees `among`, the highest of
/// `nodes` is no higher than the highest of `among`.
pub proof fn lemma_heights_max_of_members(nodes: Seq<Node>, among: Seq<Node>)
    requires
        forall|i: int| 0 <= i < nodes.len() ==> among.contains(#[trigger] nodes[i]),
    ensures
        heights_max(nodes) <= heights_max(among),
    decreases nodes.len(),
{
    if nodes.len() > 0 {
        assert forall|i: int| 0 <= i < nodes.drop_last().len() implies among.contains(
            #[trigger] nodes.drop_last()[i],
        ) by {
            assert(nodes.drop_last()[i] == nodes[i]);
        }
        lemma_heights_max_of_members(nodes.drop_last(), among);
        assert(among.contains(nodes[nodes.len() - 1]));
        let k = choose|k: int| 0 <= k < among.len() && among[k] == nodes.last();
        lemma_height_of_member(among, k);
    }
}

/// The sum of sizes as the sum of a sequence of numbers.
pub proof fn lemma_sizes_sum_is_total(nodes: Seq<Node>)
    ensures
        sizes_sum(nodes) == total(sizes_of(nodes)),
    decreases nodes.len(),
{
    if nodes.len() > 0 {
        lemma_sizes_sum_is_total(nodes.drop_last());
        assert(sizes_of(nodes).drop_last() =~= sizes_of(nodes.drop_last()));
    }
}

/// Nodes taken in the order in which they are shown: they are the same nodes,
/// their sizes descend, and their sizes add up to the same sum.
pub proof fn lemma_ranked(nodes: Seq<Node>, order: Seq<int>)
    requires
        is_descending_order(order, sizes_of(nodes)),
    ensures
        arranged(nodes, order) == ranked(nodes),
        ranked(nodes).len() == nodes.len(),
        descending(ranked(nodes)),
        sizes_sum(ranked(nodes)) == sizes_sum(nodes),
{
    let sizes = sizes_of(nodes);
    lemma_descending_order_unique(order, order, sizes);
    let taken = arranged(nodes, order);
    lemma_arranged_descends(nodes, sizes, order);
    assert forall|i: int, j: int| 0 <= i <= j < taken.len() implies (#[trigger] taken[i]).size()
        >= (#[trigger] taken[j]).size() by {
        assert(sizes[order[i]] >= sizes[order[j]]);
    }
    lemma_order_is_permutation(order, sizes);
    lemma_total_of_arranged(sizes, order);
    assert(sizes_of(taken) =~= arranged(sizes, order));
    lemma_sizes_sum_is_total(taken);
    lemma_sizes_sum_is_total(nodes);
}

/// Nodes in the order in which they are shown are the same nodes, each once;
/// their sizes descend, nodes of equal size stay in the order in which they
/// came, and their sizes add up to the same sum.
pub proof fn lemma_ranked_properties(nodes: Seq<Node>)
    ensures
        is_descending_order(descending_order(sizes_of(nodes)), sizes_of(nodes)),
        ranked(nodes).len() == nodes.len(),
        descending(ranked(nodes)),
        sizes_sum(ranked(nodes)) == sizes_sum(nodes),
        forall|p: int|
            0 <= p < nodes.len() ==> #[trigger] ranked(nodes)[p] == nodes[descending_order(
                sizes_of(nodes),
            )[p]],
{
    lemma_descending_order_exists(sizes_of(nodes));
    lemma_ranked(nodes, descending_order(sizes_of(nodes)));
}

/// The sizes that the nodes have themselves add up over the parts of a sequence.
pub proof fn lemma_self_sizes_sum_of_parts(a: Seq<Node>, b: Seq<Node>)
    ensures
        self_sizes_sum(a + b) == self_sizes_sum(a) + self_sizes_sum(b),
    decreases b.len(),
{
    if b.len() == 0 {
        assert(a + b =~= a);
    } else {
        lemma_self_sizes_sum_of_parts(a, b.drop_last());
        assert((a + b).drop_last() =~= a + b.drop_last());
        assert((a + b).last() == b.last());
    }
}

/// The sizes of trees, each with everything below it, add up to the sum of the
/// sizes that all their nodes have themselves.
pub proof fn lemma_sizes_sum_is_sum_of_subtrees(nodes: Seq<Node>)
    ensures
        sizes_sum(nodes) == self_sizes_sum(subtrees(nodes)),
    decreases nodes,
{
    if nodes.len() > 0 {
        lemma_sizes_sum_is_sum_of_subtrees(nodes.drop_last());
        lemma_size_is_sum_of_subtree(nodes.last());
        lemma_self_sizes_sum_of_parts(subtrees(nodes.drop_last()), nodes.last().subtree());
    }
}

/// The size of an entry with everything below it is its own size and the sizes
/// of its children, each with everything below it; and it is the sum of the
/// sizes that the nodes of its tree have themselves.
pub proof fn lemma_size_is_sum_of_subtree(node: Node)
    ensures
        node.size() == node.self_size + sizes_sum(node.children),
        node.size() == self_sizes_sum(node.subtree()),
    decreases node,
{
    lemma_sizes_sum_is_sum_of_subtrees(node.children);
    lemma_self_sizes_sum_of_parts(seq![node], subtrees(node.children));
    assert(seq![node].drop_last() =~= Seq::<Node>::empty());
    assert(seq![node].last() == node);
    assert(self_sizes_sum(Seq::<Node>::empty()) == 0);
    assert(self_sizes_sum(seq![node]) == node.self_size);
}

/// In a well-formed tree every node is well formed: the children of every node
/// of the tree descend in size.
pub proof fn lemma_subtree_is_well_formed(node: Node)
    requires
        node.well_formed(),
    ensures
        forall|i: int|
            0 <= i < node.subtree().len() ==> (#[trigger] node.subtree()[i]).well_formed()
                && descending(node.subtree()[i].children),
    decreases node,
{
    lemma_subtrees_are_well_formed(node.children);
    let below = subtrees(node.children);
    assert forall|i: int| 0 <= i < node.subtree().len() implies (#[trigger] node.subtree()[
        i
    ]).well_formed() && descending(node.subtree()[i].children) by {
        if i > 0 {
            assert(node.subtree()[i] == below[i - 1]);
        }
    }
}

/// In well-formed trees every node is well formed.
pub proof fn lemma_subtrees_are_well_formed(nodes: Seq<Node>)
    requires
        forall|i: int| 0 <= i < nodes.len() ==> (#[trigger] nodes[i]).well_formed(),
    ensures
        forall|i: int|
            0 <= i < subtrees(nodes).len() ==> (#[trigger] subtrees(nodes)[i]).well_formed()
                && descending(subtrees(nodes)[i].children),
    decreases nodes,
{
    if nodes.len() > 0 {
        assert forall|i: int| 0 <= i < nodes.drop_last().len() implies (
        #[trigger] nodes.drop_last()[i]).well_formed() by {
            assert(nodes.drop_last()[i] == nodes[i]);
        }
        lemma_subtrees_are_well_formed(nodes.drop_last());
        assert(nodes[nodes.len() - 1].well_formed());
        lemma_subtree_is_well_formed(nodes.last());
        let before = subtrees(nodes.drop_last());
        let last = nodes.last().subtree();
        assert forall|i: int| 0 <= i < subtrees(nodes).len() implies (#[trigger] subtrees(nodes)[
            i
        ]).well_formed() && descending(subtrees(nodes)[i].children) by {
            if i < before.len() {
                assert(subtrees(nodes)[i] == before[i]);
            } else {
                assert(subtrees(nodes)[i] == last[i - before.len()]);
            }
        }
    }
}

/// Putting well-formed trees in the order in which they are shown and below a
/// new node makes a well-formed tree, unless the node is a file.
pub proof fn lemma_ranked_children_are_well_formed(node: Node, listed: Seq<Node>)
    requires
        node.children == ranked(listed),
        !node.is_file,
        forall|i: int| 0 <= i < listed.len() ==> (#[trigger] listed[i]).well_formed(),
    ensures
        node.well_formed(),
{
    lemma_ranked_properties(listed);
    let order = descending_order(sizes_of(listed));
    assert forall|i: int| 0 <= i < node.children.len() implies (
    #[trigger] node.children[i]).well_formed() by {
        assert(0 <= order[i] < listed.len());
        assert(ranked(listed)[i] == listed[order[i]]);
    }
}

/// What kind of thing is at a path.
#[derive(Debug, PartialEq, Eq, Clone, Copy, Structural)]
pub enum FileKind {
    /// A directory.
    Directory,
    /// A regular file.
    File,
    /// Anything else.
    Other,
}

/// What the file system tells of one path.
#[derive(Debug, PartialEq, Eq, Clone, Copy, Structural)]
pub struct Metadata {
    /// What kind of thing is at the path.
    pub kind: FileKind,
    /// Its size in bytes.
    pub len: u64,
}

impl Metadata {
    /// Whether a directory is at the path.
    pub fn is_dir(&self) -> (dir: bool)
        ensures
            dir == (self.kind is Directory),
    {
        match self.kind {
            FileKind::Directory => true,
            _ => false,
        }
    }

    /// Whether a regular file is at the path.
    pub fn is_file(&self) -> (file: bool)
        ensures
            file == (self.kind is File),
    {
        match self.kind {
            FileKind::File => true,
            _ => false,
        }
    }

    /// The size in bytes of what is at the path.
    pub fn len(&self) -> (len: u64)
        ensures
            len == self.len,
    {
        self.len
    }
}

/// What listing a directory gave: for each of its children either the scanned
/// child or the reason why it could not be scanned; or the reason why the
/// directory could not be listed.
pub type Listing = Result<Vec<Result<Entry, String>>, ErrorKind>;

/// One scanned file or directory.
#[derive(Debug)]
pub struct Entry {
    name: String,
    self_size: u64,
    total_size: u64,
    is_file: bool,
    children: Vec<Entry>,
}

/// The trees that `entries` stand for.
pub open spec fn views(entries: Seq<Entry>) -> Seq<Node> {
    Seq::new(entries.len(), |i: int| entries[i]@)
}

/// The trees of the children that were scanned, in the order of the listing;
/// those that could not be scanned are left out.
pub open spec fn scanned(results: Seq<Result<Entry, String>>) -> Seq<Node>
    decreases results.len(),
{
    if results.len() == 0 {
        Seq::empty()
    } else {
        match results.last() {
            Ok(entry) => scanned(results.drop_last()).push(entry@),
            Err(_) => scanned(results.drop_last()),
        }
    }
}

/// The trees of the children of a directory: those of its listing that were
/// scanned, and none where the directory could not be listed.
pub open spec fn listed(listing: Listing) -> Seq<Node> {
    match listing {
        Ok(results) => scanned(results@),
        Err(_) => Seq::empty(),
    }
}

/// What is answered for a path that holds neither a file nor a directory.
pub open spec fn neither_file_nor_directory() -> Seq<char> {
    "not a file or directory"@
}

/// The tree that is built for `path` from what the file system told of it and
/// from the listing of its children, or the reason why none is built.
pub open spec fn built(path: Seq<char>, metadata: Metadata, listing: Listing) -> Result<
    Node,
    Seq<char>,
> {
    match metadata.kind {
        FileKind::Directory => Ok(
            Node {
                name: short_name(file_name_of(path), path, true),
                self_size: metadata.len as nat,
                is_file: false,
                children: ranked(listed(listing)),
            },
        ),
        FileKind::File => Ok(
            Node {
                name: short_name(file_name_of(path), path, false),
                self_size: metadata.len as nat,
                is_file: true,
                children: Seq::empty(),
            },
        ),
        FileKind::Other => Err(neither_file_nor_directory()),
    }
}

/// Whether the size of the entry that is built fits the 64 bits of a size.
pub open spec fn fits(metadata: Metadata, listing: Listing) -> bool {
    metadata.kind is Directory ==> metadata.len + sizes_sum(listed(listing)) <= u64::MAX
}

/// The sum of the sizes of a part of a sequence is at most that of the whole.
proof fn lemma_scanned_sum_grows(results: Seq<Result<Entry, String>>, k: int)
    requires
        0 <= k <= results.len(),
    ensures
        sizes_sum(scanned(results.take(k))) <= sizes_sum(scanned(results)),
    decreases results.len() - k,
{
    if k == results.len() {
        assert(results.take(k) =~= results);
    } else {
        lemma_scanned_sum_grows(results.drop_last(), k);
        assert(results.drop_last().take(k) =~= results.take(k));
        let rest = scanned(results.drop_last());
        match results.last() {
            Ok(entry) => {
                assert(rest.push(entry@).drop_last() =~= rest);
            },
            Err(_) => {},
        }
    }
}

impl Entry {
    spec fn models(entries: Seq<Entry>) -> Seq<Node>
        decreases entries,
    {
        if entries.len() == 0 {
            Seq::empty()
        } else {
            Entry::models(entries.drop_last()).push(entries.last().model())
        }
    }

    spec fn model(&self) -> Node
        decreases self,
    {
        Node {
            name: self.name@,
            self_size: self.self_size as nat,
            is_file: self.is_file,
            children: Entry::models(self.children@),
        }
    }

    proof fn lemma_models(entries: Seq<Entry>)
        ensures
            Entry::models(entries) == views(entries),
        decreases entries.len(),
    {
        if entries.len() > 0 {
            Entry::lemma_models(entries.drop_last());
        }
        assert(Entry::models(entries) =~= views(entries));
    }

    /// Whether the entry is one that scanning builds: the size that it holds is
    /// the sum of its own size and of the sizes of its children, and its children
    /// descend in size, at every level.
    #[verifier::type_invariant]
    pub closed spec fn wf(&self) -> bool
        decreases self,
    {
        &&& self.total_size == self.self_size + sizes_sum(views(self.children@))
        &&& descending(views(self.children@))
        &&& self.is_file ==> self.children@.len() == 0
        &&& forall|i: int| 0 <= i < self.children@.len() ==> (#[trigger] self.children@[i]).wf()
    }

    proof fn lemma_view(self)
        ensures
            self@.name == self.name@,
            self@.self_size == self.self_size,
            self@.is_file == self.is_file,
            self@.children == views(self.children@),
    {
        Entry::lemma_models(self.children@);
    }

    /// The tree of a well-formed entry is well formed, and its size fits the 64
    /// bits of a size.
    pub proof fn lemma_well_formed(self)
        requires
            self.wf(),
        ensures
            self@.well_formed(),
            self@.size() <= u64::MAX,
        decreases self,
    {
        self.lemma_view();
        assert forall|i: int| 0 <= i < self@.children.len() implies (
        #[trigger] self@.children[i]).well_formed() by {
            self.children@[i].lemma_well_formed();
        }
    }
}

/// The sum of the sizes of a part of a sequence is at most that of the whole.
proof fn lemma_sizes_sum_grows(nodes: Seq<Node>, k: int)
    requires
        0 <= k <= nodes.len(),
    ensures
        sizes_sum(nodes.take(k)) <= sizes_sum(nodes),
    decreases nodes.len() - k,
{
    if k == nodes.len() {
        assert(nodes.take(k) =~= nodes);
    } else {
        lemma_sizes_sum_grows(nodes.drop_last(), k);
        assert(nodes.drop_last().take(k) =~= nodes.take(k));
    }
}

impl Entry {
    /// Puts an entry together from its parts.
    fn assemble(name: String, self_size: u64, is_file: bool, children: Vec<Entry>) -> (entry:
        Entry)
        requires
            descending(views(children@)),
            is_file ==> children@.len() == 0,
            self_size + sizes_sum(views(children@)) <= u64::MAX,
        ensures
            entry@ == (Node {
                name: name@,
                self_size: self_size as nat,
                is_file,
                children: views(children@),
            }),
    {
        let mut total: u64 = self_size;
        let mut i: usize = 0;
        while i < children.len()
            invariant
                i <= children.len(),
                total == self_size + sizes_sum(views(children@).take(i as int)),
                self_size + sizes_sum(views(children@)) <= u64::MAX,
                forall|k: int| 0 <= k < i ==> (#[trigger] children@[k]).wf(),
            decreases children.len() - i,
        {
            let child = &children[i];
            proof {
                use_type_invariant(child);
                let all = views(children@);
                assert(all.take(i + 1).drop_last() =~= all.take(i as int));
                lemma_sizes_sum_grows(all, i + 1);
            }
            total = total + child.size();
            i = i + 1;
        }
        assert(views(children@).take(i as int) =~= views(children@));
        let entry = Entry { name, self_size, total_size: total, is_file, children };
        proof {
            entry.lemma_view();
        }
        entry
    }

    /// Puts `children` in the order in which they are shown.
    fn sorted(children: Vec<Entry>) -> (sorted: Vec<Entry>)
        ensures
            views(sorted@) == ranked(views(children@)),
            sorted@.len() == children@.len(),
            descending(views(sorted@)),
            sizes_sum(views(sorted@)) == sizes_sum(views(children@)),
    {
        let mut sizes: Vec<u64> = Vec::new();
        let mut i: usize = 0;
        while i < children.len()
            invariant
                i <= children.len(),
                sizes@.len() == i,
                forall|k: int| 0 <= k < i ==> (#[trigger] sizes@[k]) == children@[k]@.size(),
            decreases children.len() - i,
        {
            sizes.push(children[i].size());
            i = i + 1;
        }
        let order = sort_descending(&sizes);
        proof {
            assert(naturals(sizes@) =~= sizes_of(views(children@)));
            lemma_order_is_permutation(positions(order@), naturals(sizes@));
        }
        let sorted = rearrange(children, &order);
        proof {
            assert(views(sorted@) =~= arranged(views(children@), positions(order@)));
            lemma_ranked(views(children@), positions(order@));
        }
        sorted
    }

    /// The children of a directory: those of its listing that were scanned, in
    /// the order of the listing. Children that could not be scanned are left out
    /// without a word, and a directory that could not be listed has none.
    pub fn in_directory(listing: Listing) -> (children: Vec<Entry>)
        ensures
            views(children@) == listed(listing),
    {
        match listing {
            Ok(results) => {
                let ghost given = results@;
                let mut results = results;
                let mut stack: Vec<Result<Entry, String>> = Vec::new();
                while results.len() > 0
                    invariant
                        results@ == given.take(results.len() as int),
                        stack.len() + results.len() == given.len(),
                        forall|k: int|
                            0 <= k < stack.len() ==> #[trigger] stack[k] == given[given.len() - 1
                                - k],
                    decreases results.len(),
                {
                    let result = results.pop().unwrap();
                    assert(results@ =~= given.take(results.len() as int));
                    stack.push(result);
                }
                let mut children: Vec<Entry> = Vec::new();
                while stack.len() > 0
                    invariant
                        stack.len() <= given.len(),
                        forall|k: int|
                            0 <= k < stack.len() ==> #[trigger] stack[k] == given[given.len() - 1
                                - k],
                        views(children@) == scanned(given.take(given.len() - stack.len())),
                    decreases stack.len(),
                {
                    let ghost done = given.take(given.len() - stack.len());
                    let ghost earlier = children@;
                    let result = stack.pop().unwrap();
                    proof {
                        let next = given.take(given.len() - stack.len());
                        assert(next.drop_last() =~= done);
                        assert(next.last() == result);
                    }
                    match result {
                        Ok(entry) => {
                            children.push(entry);
                            assert(views(children@) =~= views(earlier).push(entry@));
                        },
                        Err(_) => {},
                    }
                }
                assert(given.take(given.len() as int) =~= given);
                children
            },
            Err(_) => Vec::new(),
        }
    }

    /// Whether the size of the entry that would be built fits the 64 bits of a
    /// size.
    pub fn size_fits(metadata: &Metadata, listing: &Listing) -> (fitting: bool)
        ensures
            fitting == fits(*metadata, *listing),
    {
        if !metadata.is_dir() {
            return true;
        }
        match listing {
            Ok(results) => {
                let mut sum: u64 = metadata.len();
                let mut i: usize = 0;
                while i < results.len()
                    invariant
                        i <= results.len(),
                        metadata.kind is Directory,
                        listed(*listing) == scanned(results@),
                        sum == metadata.len + sizes_sum(scanned(results@.take(i as int))),
                    decreases results.len() - i,
                {
                    proof {
                        let rest = scanned(results@.take(i as int));
                        let next = results@.take(i + 1);
                        assert(next.drop_last() =~= results@.take(i as int));
                        assert(next.last() == results@[i as int]);
                        lemma_scanned_sum_grows(results@, i + 1);
                        match results@[i as int] {
                            Ok(entry) => {
                                assert(scanned(next) == rest.push(entry@));
                                assert(rest.push(entry@).drop_last() =~= rest);
                                assert(sizes_sum(scanned(next)) == sizes_sum(rest)
                                    + entry@.size());
                            },
                            Err(_) => {
                                assert(scanned(next) == rest);
                            },
                        }
                    }
                    match &results[i] {
                        Ok(entry) => {
                            match sum.checked_add(entry.size()) {
                                Some(more) => {
                                    sum = more;
                                },
                                None => {
                                    return false;
                                },
                            }
                        },
                        Err(_) => {},
                    }
                    i = i + 1;
                }
                assert(results@.take(i as int) =~= results@);
                true
            },
            Err(_) => true,
        }
    }

    /// Builds the entry for `path` from what the file system told of it and from
    /// the listing of its children, which only a directory has.
    ///
    /// Nothing is built for what is neither a file nor a directory.
    pub fn from_metadata(path: &str, metadata: &Metadata, listing: Listing) -> (entry: Result<
        Entry,
        String,
    >)
        requires
            fits(*metadata, listing),
        ensures
            match built(path@, *metadata, listing) {
                Ok(node) => entry matches Ok(e) && e@ == node,
                Err(reason) => entry matches Err(e) && e@ == reason,
            },
            entry matches Ok(e) ==> e@.well_formed(),
    {
        let children = if metadata.is_dir() {
            Entry::in_directory(listing)
        } else if metadata.is_file() {
            Vec::new()
        } else {
            return Err("not a file or directory".to_owned());
        };
        let children = Entry::sorted(children);
        proof {
            if !(metadata.kind is Directory) {
                assert(views(children@) =~= Seq::<Node>::empty());
            }
        }
        let name = short_name_from_path(path, metadata.is_dir());
        let entry = Entry::assemble(name, metadata.len(), metadata.is_file(), children);
        proof {
            use_type_invariant(&entry);
            entry.lemma_well_formed();
        }
        Ok(entry)
    }

    /// Builds the entry for `path` from what reading the path gave: what the file
    /// system told of it, or why it told nothing.
    pub fn for_path(path: &str, metadata: Result<Metadata, ErrorKind>, listing: Listing) -> (entry:
        Result<Entry, String>)
        requires
            metadata matches Ok(m) ==> fits(m, listing),
        ensures
            match metadata {
                Ok(m) => match built(path@, m, listing) {
                    Ok(node) => entry matches Ok(e) && e@ == node,
                    Err(reason) => entry matches Err(e) && e@ == reason,
                },
                Err(error) => entry matches Err(e) && e@ == description(error),
            },
            entry matches Ok(e) ==> e@.well_formed(),
    {
        match metadata {
            Ok(metadata) => Entry::from_metadata(path, &metadata, listing),
            Err(error) => Err(describe_io_error(error)),
        }
    }
}

impl DisplayableEntry for Entry {
    open spec fn tree(&self) -> Node {
        self@
    }

    fn size(&self) -> (size: u64)
        ensures
            self@.well_formed(),
    {
        proof {
            use_type_invariant(self);
            self.lemma_view();
            self.lemma_well_formed();
        }
        self.total_size
    }

    fn name(&self) -> (name: &String) {
        proof {
            self.lemma_view();
        }
        &self.name
    }

    fn children(&self) -> (children: &Vec<Entry>)
        ensures
            self@.well_formed(),
            descending(views(children@)),
    {
        proof {
            use_type_invariant(self);
            self.lemma_view();
            self.lemma_well_formed();
        }
        &self.children
    }

    fn is_file(&self) -> (file: bool) {
        proof {
            self.lemma_view();
        }
        self.is_file
    }

    /// An entry is hidden where its name begins with a dot.
    open spec fn hidden(&self) -> bool {
        is_hidden_name(self@.name)
    }

    fn is_hidden(&self) -> (hidden: bool) {
        starts_with_char(self.name().as_str(), '.')
    }
}

impl View for Entry {
    type V = Node;

    closed spec fn view(&self) -> Node {
        self.model()
    }
}

} // verus!
