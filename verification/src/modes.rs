//! The two ways of rendering a scanned root: as an indented tree, or as a ranking
//! of its largest files.

use crate::arguments::{Limit, Options};
use crate::entry::{
    heights_max, lemma_height_of_member, lemma_heights_max_of_members, lemma_ranked,
    lemma_ranked_properties, ranked, sizes_of, views, Entry, Node,
};
use crate::ranking::{naturals, positions, sort_descending};
use crate::root::{Root, RootView};
use crate::utils::{size_text, SizeDisplay};
use vstd::prelude::*;

verus! {

/// What is printed for each root.
#[derive(Debug, PartialEq, Eq, Clone, Copy, Structural)]
pub enum Mode {
    /// The root and, indented below it, its largest entries.
    Tree,
    /// The root and, below it, the largest files found anywhere in it.
    Files,
}

/// Whether a name is that of a hidden entry: it begins with a dot.
pub open spec fn is_hidden_name(name: Seq<char>) -> bool {
    name.len() > 0 && name[0] == '.'
}

/// The line that shows an entry: its name and its size in words.
pub open spec fn entry_line(node: Node) -> Seq<char> {
    node.name + seq![' '] + size_text(node.size())
}

/// The nodes of `nodes` that are not left out as hidden, in their order: all of
/// them where hidden entries are shown, and otherwise those whose names do not
/// begin with a dot.
pub open spec fn visible(nodes: Seq<Node>, show_hidden: bool) -> Seq<Node>
    decreases nodes.len(),
{
    if nodes.len() == 0 {
        Seq::empty()
    } else {
        let before = visible(nodes.drop_last(), show_hidden);
        if show_hidden || !is_hidden_name(nodes.last().name) {
            before.push(nodes.last())
        } else {
            before
        }
    }
}

/// The children that are shown below an entry: those that are not left out as
/// hidden, as many of them as the limit lets through, first come first shown.
pub open spec fn shown(children: Seq<Node>, options: Options) -> Seq<Node> {
    let candidates = visible(children, options.show_all);
    candidates.take(options.limit.shown_of(candidates.len()) as int)
}

/// The spaces before the line of an entry at `level`: two for each level.
pub open spec fn indentation(level: nat) -> Seq<char> {
    Seq::new(2 * level, |i: int| ' ')
}

/// Every node that is visible is one of the nodes.
pub proof fn lemma_visible_are_members(nodes: Seq<Node>, show_hidden: bool)
    ensures
        visible(nodes, show_hidden).len() <= nodes.len(),
        forall|i: int|
            0 <= i < visible(nodes, show_hidden).len() ==> nodes.contains(
                #[trigger] visible(nodes, show_hidden)[i],
            ),
    decreases nodes.len(),
{
    if nodes.len() > 0 {
        lemma_visible_are_members(nodes.drop_last(), show_hidden);
        let before = visible(nodes.drop_last(), show_hidden);
        assert forall|i: int| 0 <= i < visible(nodes, show_hidden).len() implies nodes.contains(
            #[trigger] visible(nodes, show_hidden)[i],
        ) by {
            if i < before.len() {
                assert(nodes.drop_last().contains(before[i]));
                let k = choose|k: int|
                    0 <= k < nodes.drop_last().len() && nodes.drop_last()[k] == before[i];
                assert(nodes[k] == before[i]);
            } else {
                assert(nodes[nodes.len() - 1] == nodes.last());
            }
        }
    }
}

/// The children that are shown below an entry are children of the entry, so
/// none of their trees is as high as the entry's.
pub proof fn lemma_shown_are_lower(node: Node, options: Options)
    ensures
        shown(node.children, options).len() <= node.children.len(),
        forall|i: int|
            0 <= i < shown(node.children, options).len() ==> node.children.contains(
                #[trigger] shown(node.children, options)[i],
            ),
        heights_max(shown(node.children, options)) < node.height(),
{
    lemma_visible_are_members(node.children, options.show_all);
    let candidates = visible(node.children, options.show_all);
    let kept = shown(node.children, options);
    assert forall|i: int| 0 <= i < kept.len() implies node.children.contains(#[trigger] kept[i]) by {
        assert(kept[i] == candidates[i]);
    }
    lemma_heights_max_of_members(kept, node.children);
}

/// The lines of the tree of `node`, whose own line is at `level`: the line of
/// the node and, where the depth lets its children be explored, the lines of the
/// trees of the children that are shown, one level further in.
pub open spec fn tree_lines(node: Node, options: Options, level: nat) -> Seq<Seq<char>>
    decreases node.height(), 0nat,
{
    let own = seq![indentation(level) + entry_line(node)];
    if options.depth.accepts_spec(level) {
        proof {
            lemma_shown_are_lower(node, options);
        }
        own + forest_lines(shown(node.children, options), options, level + 1)
    } else {
        own
    }
}

/// The lines of the trees of `nodes`, one tree after the other, whose own lines
/// are at `level`.
pub open spec fn forest_lines(nodes: Seq<Node>, options: Options, level: nat) -> Seq<Seq<char>>
    decreases heights_max(nodes), nodes.len(),
{
    if nodes.len() == 0 {
        Seq::empty()
    } else {
        proof {
            lemma_height_of_member(nodes, nodes.len() - 1);
        }
        forest_lines(nodes.drop_last(), options, level) + tree_lines(nodes.last(), options, level)
    }
}

/// Something that is shown on a line of its own: it has a name, a size and
/// children, and may be hidden.
pub trait DisplayableEntry: Sized {
    /// The tree that is shown for this entry.
    spec fn tree(&self) -> Node;

    /// The size of the entry with everything below it.
    fn size(&self) -> (size: u64)
        ensures
            size == self.tree().size(),
    ;

    /// The name under which the entry is shown.
    fn name(&self) -> (name: &String)
        ensures
            name@ == self.tree().name,
    ;

    /// The entries directly below this one, largest first.
    fn children(&self) -> (children: &Vec<Entry>)
        ensures
            views(children@) == self.tree().children,
    ;

    /// Whether the entry is a file.
    fn is_file(&self) -> (file: bool)
        ensures
            file == self.tree().is_file,
    ;

    /// Whether the entry is left out where hidden entries are not shown.
    spec fn hidden(&self) -> bool;

    /// Whether the entry is left out where hidden entries are not shown.
    fn is_hidden(&self) -> (hidden: bool)
        ensures
            hidden == self.hidden(),
    ;

    /// The line that shows the entry.
    fn to_string(&self) -> (line: String)
        ensures
            line@ == entry_line(self.tree()),
    {
        let mut line = self.name().clone();
        proof {
            reveal_strlit(" ");
        }
        line.append(" ");
        line.append(self.size().as_size_display().as_str());
        assert(line@ =~= entry_line(self.tree()));
        line
    }
}

/// What is visible of the first nodes of a sequence is the beginning of what is
/// visible of the whole sequence.
pub proof fn lemma_visible_of_part(nodes: Seq<Node>, show_hidden: bool, k: int)
    requires
        0 <= k <= nodes.len(),
    ensures
        visible(nodes.take(k), show_hidden).len() <= visible(nodes, show_hidden).len(),
        visible(nodes.take(k), show_hidden) == visible(nodes, show_hidden).take(
            visible(nodes.take(k), show_hidden).len() as int,
        ),
    decreases nodes.len() - k,
{
    if k == nodes.len() {
        assert(nodes.take(k) =~= nodes);
        assert(visible(nodes, show_hidden).take(visible(nodes, show_hidden).len() as int)
            =~= visible(nodes, show_hidden));
    } else {
        lemma_visible_of_part(nodes.drop_last(), show_hidden, k);
        assert(nodes.drop_last().take(k) =~= nodes.take(k));
        let part = visible(nodes.take(k), show_hidden);
        let before = visible(nodes.drop_last(), show_hidden);
        assert(before.take(part.len() as int) =~= visible(nodes, show_hidden).take(
            part.len() as int,
        ));
    }
}

/// The spaces before the line of an entry at `level`.
fn indent_of(level: usize) -> (indent: String)
    ensures
        indent@ == indentation(level as nat),
{
    let mut indent = String::new();
    let mut done: usize = 0;
    proof {
        reveal_strlit("  ");
    }
    assert(indent@ =~= indentation(0));
    while done < level
        invariant
            done <= level,
            indent@ == indentation(done as nat),
            "  "@.len() == 2,
            "  "@[0] == ' ',
            "  "@[1] == ' ',
        decreases level - done,
    {
        indent.append("  ");
        done = done + 1;
        assert(indent@ =~= indentation(done as nat));
    }
    indent
}

/// Adds the lines of the tree of `entry` to `lines`. The entry's own line is at
/// the level `depth`, which `level` holds as far as a `usize` holds it, and
/// begins with `indent`.
fn append_tree(
    entry: &Entry,
    options: &Options,
    level: usize,
    Ghost(depth): Ghost<nat>,
    indent: &String,
    lines: &mut Vec<String>,
)
    requires
        level == depth || (level == usize::MAX && depth > level),
        indent@ == indentation(depth),
    ensures
        final(lines).deep_view() == old(lines).deep_view() + tree_lines(entry@, *options, depth),
    decreases entry@.height(), 0nat,
{
    let mut line = indent.clone();
    line.append(entry.to_string().as_str());
    let ghost before = lines.deep_view();
    lines.push(line);
    assert(lines.deep_view() =~= before + seq![indentation(depth) + entry_line(entry@)]);
    if options.depth_accepts(level) {
        proof {
            lemma_shown_are_lower(entry@, *options);
        }
        append_children(entry.children(), options, level, Ghost(depth), indent, lines);
        assert(lines.deep_view() =~= before + tree_lines(entry@, *options, depth));
    }
}

/// Adds the lines of the trees of the children that are shown below an entry to
/// `lines`. The entry's own line is at the level `depth`, which `level` holds as
/// far as a `usize` holds it, and begins with `indent`.
fn append_children(
    children: &Vec<Entry>,
    options: &Options,
    level: usize,
    Ghost(depth): Ghost<nat>,
    indent: &String,
    lines: &mut Vec<String>,
)
    requires
        level == depth || (level == usize::MAX && depth > level),
        indent@ == indentation(depth),
    ensures
        final(lines).deep_view() == old(lines).deep_view() + forest_lines(
            shown(views(children@), *options),
            *options,
            depth + 1,
        ),
    decreases heights_max(views(children@)), 1nat,
{
    let mut deeper = indent.clone();
    proof {
        reveal_strlit("  ");
    }
    deeper.append("  ");
    assert(deeper@ =~= indentation(depth + 1));
    let below: usize = if level < usize::MAX {
        level + 1
    } else {
        level
    };
    let ghost all = views(children@);
    let ghost before = lines.deep_view();
    let mut shown_entries: usize = 0;
    let mut i: usize = 0;
    let mut stop = false;
    assert(all.take(0) =~= Seq::<Node>::empty());
    assert(before + Seq::<Seq<char>>::empty() =~= before);
    while i < children.len() && !stop
        invariant
            i <= children.len(),
            all == views(children@),
            below == depth + 1 || (below == usize::MAX && depth + 1 > below),
            deeper@ == indentation(depth + 1),
            shown_entries == visible(all.take(i as int), options.show_all).len(),
            shown_entries <= i,
            lines.deep_view() == before + forest_lines(
                visible(all.take(i as int), options.show_all),
                *options,
                depth + 1,
            ),
            stop ==> shown_entries > 0 && options.limit.reached_spec(shown_entries as nat),
            !stop && shown_entries > 0 ==> !options.limit.reached_spec(shown_entries as nat),
            shown_entries > 1 ==> !options.limit.reached_spec((shown_entries - 1) as nat),
        decreases children.len() - i,
    {
        let child = &children[i];
        proof {
            assert(all.take(i + 1).drop_last() =~= all.take(i as int));
            assert(all.take(i + 1).last() == child@);
            lemma_height_of_member(all, i as int);
        }
        if options.should_show_hidden() || !child.is_hidden() {
            let ghost part = visible(all.take(i as int), options.show_all);
            append_tree(child, options, below, Ghost(depth + 1), &deeper, lines);
            proof {
                assert(part.push(child@).drop_last() =~= part);
                assert(lines.deep_view() =~= before + forest_lines(
                    part.push(child@),
                    *options,
                    depth + 1,
                ));
            }
            shown_entries = shown_entries + 1;
            if options.limit_reached(shown_entries) {
                stop = true;
            }
        }
        i = i + 1;
    }
    proof {
        lemma_visible_of_part(all, options.show_all, i as int);
        let part = visible(all.take(i as int), options.show_all);
        if !stop {
            assert(all.take(i as int) =~= all);
        }
        assert(part =~= shown(all, *options));
    }
}

/// The lines that show the tree of `entry`, whose own line is at `level`.
pub fn print_indented_tree<T: DisplayableEntry>(entry: &T, options: &Options, level: usize) -> (lines:
    Vec<String>)
    ensures
        lines.deep_view() == tree_lines(entry.tree(), *options, level as nat),
{
    let indent = indent_of(level);
    let mut line = indent.clone();
    line.append(entry.to_string().as_str());
    let mut lines: Vec<String> = Vec::new();
    lines.push(line);
    assert(lines.deep_view() =~= seq![indentation(level as nat) + entry_line(entry.tree())]);
    if options.depth_accepts(level) {
        append_children(entry.children(), options, level, Ghost(level as nat), &indent, &mut lines);
    }
    lines
}

/// The lines that show the tree of `entry`.
pub fn print_tree<T: DisplayableEntry>(entry: T, options: &Options) -> (lines: Vec<String>)
    ensures
        lines.deep_view() == tree_lines(entry.tree(), *options, 0),
{
    print_indented_tree(&entry, options, 0)
}

/// The files of the tree of `node`, in the order of the tree: the node itself
/// where it is a file, and the files of its children where it is not. A hidden
/// file is left out where hidden files are skipped; a hidden directory does not
/// hide the files in it.
pub open spec fn files_of(node: Node, skip_hidden: bool) -> Seq<Node>
    decreases node,
{
    if node.is_file {
        if skip_hidden && is_hidden_name(node.name) {
            Seq::empty()
        } else {
            seq![node]
        }
    } else {
        files_among(node.children, skip_hidden)
    }
}

/// The files of the trees of `nodes`, one tree after the other.
pub open spec fn files_among(nodes: Seq<Node>, skip_hidden: bool) -> Seq<Node>
    decreases nodes,
{
    if nodes.len() == 0 {
        Seq::empty()
    } else {
        files_among(nodes.drop_last(), skip_hidden) + files_of(nodes.last(), skip_hidden)
    }
}

/// The files of a root that are shown in its ranking: the largest first, as many
/// as the limit lets through.
pub open spec fn largest_files(root: RootView, options: Options) -> Seq<Node> {
    let files = ranked(files_of(root.entry, !options.show_all));
    files.take(options.limit.shown_of(files.len()) as int)
}

/// The lines of the ranking of the files of a root: the line of the root, and
/// below it, one level in, the lines of its largest files.
pub open spec fn ranking_lines(root: RootView, options: Options) -> Seq<Seq<char>> {
    let files = largest_files(root, options);
    seq![entry_line(root.tree())] + Seq::new(
        files.len(),
        |i: int| indentation(1) + entry_line(files[i]),
    )
}

/// The lines that are printed for a root where files are ranked: for a root
/// that is a file, its own line and nothing else.
pub open spec fn files_lines(root: RootView, options: Options) -> Seq<Seq<char>> {
    if root.entry.is_file {
        seq![entry_line(root.tree())]
    } else {
        ranking_lines(root, options)
    }
}

/// The lines that are printed for a root.
pub open spec fn root_lines(root: RootView, options: Options) -> Seq<Seq<char>> {
    match options.mode {
        Mode::Tree => tree_lines(root.tree(), options, 0),
        Mode::Files => files_lines(root, options),
    }
}

/// Below every entry as many children are shown as the limit lets through of
/// those that are not left out as hidden, however many are shown elsewhere in
/// the tree: never more than the limit, where the limit is at least one.
pub proof fn lemma_limit_holds_in_every_directory(children: Seq<Node>, options: Options)
    ensures
        shown(children, options).len() == options.limit.shown_of(
            visible(children, options.show_all).len(),
        ),
        options.limit matches Limit::Limited(max) ==> max >= 1 ==> shown(children, options).len()
            <= max,
        options.limit is Unlimited ==> shown(children, options) == visible(
            children,
            options.show_all,
        ),
{
    let candidates = visible(children, options.show_all);
    if options.limit is Unlimited {
        assert(candidates.take(candidates.len() as int) =~= candidates);
    }
}

/// In the ranking of files the limit holds once for all the files of the root,
/// in whatever directories they lie.
pub proof fn lemma_limit_holds_once_in_ranking(root: RootView, options: Options)
    ensures
        largest_files(root, options).len() == options.limit.shown_of(
            files_of(root.entry, !options.show_all).len(),
        ),
        ranking_lines(root, options).len() == 1 + largest_files(root, options).len(),
        options.limit matches Limit::Limited(max) ==> max >= 1 ==> largest_files(
            root,
            options,
        ).len() <= max,
{
    lemma_ranked_properties(files_of(root.entry, !options.show_all));
}

/// Where hidden entries are not shown, no child that is shown is hidden; where
/// they are shown, no child is left out as hidden.
pub proof fn lemma_hidden_children_are_left_out(children: Seq<Node>, options: Options)
    ensures
        !options.show_all ==> forall|i: int|
            0 <= i < shown(children, options).len() ==> !is_hidden_name(
                (#[trigger] shown(children, options)[i]).name,
            ),
        visible(children, true) == children,
{
    lemma_visible_are_not_hidden(children);
    lemma_visible_are_members(children, options.show_all);
    let candidates = visible(children, options.show_all);
    assert forall|i: int| 0 <= i < shown(children, options).len() && !options.show_all implies !is_hidden_name(
        (#[trigger] shown(children, options)[i]).name,
    ) by {
        assert(shown(children, options)[i] == candidates[i]);
    }
}

/// What is visible where hidden entries are not shown is not hidden, and where
/// they are shown everything is visible.
pub proof fn lemma_visible_are_not_hidden(nodes: Seq<Node>)
    ensures
        forall|i: int|
            0 <= i < visible(nodes, false).len() ==> !is_hidden_name(
                (#[trigger] visible(nodes, false)[i]).name,
            ),
        visible(nodes, true) == nodes,
    decreases nodes.len(),
{
    if nodes.len() > 0 {
        lemma_visible_are_not_hidden(nodes.drop_last());
        let before = visible(nodes.drop_last(), false);
        assert forall|i: int| 0 <= i < visible(nodes, false).len() implies !is_hidden_name(
            (#[trigger] visible(nodes, false)[i]).name,
        ) by {
            if i < before.len() {
                assert(visible(nodes, false)[i] == before[i]);
            }
        }
        assert(visible(nodes, true) =~= nodes);
    } else {
        assert(visible(nodes, true) =~= nodes);
    }
}

/// The line of the entry that a tree is printed for comes first, whatever the
/// entry's name and whatever the options: only children are ever left out.
pub proof fn lemma_own_line_comes_first(node: Node, options: Options, level: nat)
    ensures
        tree_lines(node, options, level).len() >= 1,
        tree_lines(node, options, level)[0] == indentation(level) + entry_line(node),
        !options.depth.accepts_spec(level) ==> tree_lines(node, options, level).len() == 1,
{
}

/// Every file of a tree is a file, and where hidden files are skipped none of
/// them is hidden.
pub proof fn lemma_files_of_are_files(node: Node, skip_hidden: bool)
    ensures
        forall|i: int|
            0 <= i < files_of(node, skip_hidden).len() ==> {
                let file = #[trigger] files_of(node, skip_hidden)[i];
                file.is_file && (skip_hidden ==> !is_hidden_name(file.name))
            },
    decreases node,
{
    if !node.is_file {
        lemma_files_among_are_files(node.children, skip_hidden);
        let among = files_among(node.children, skip_hidden);
        assert forall|i: int| 0 <= i < files_of(node, skip_hidden).len() implies {
            let file = #[trigger] files_of(node, skip_hidden)[i];
            file.is_file && (skip_hidden ==> !is_hidden_name(file.name))
        } by {
            assert(files_of(node, skip_hidden)[i] == among[i]);
        }
    }
}

/// Every file of a sequence of trees is a file, and where hidden files are
/// skipped none of them is hidden.
pub proof fn lemma_files_among_are_files(nodes: Seq<Node>, skip_hidden: bool)
    ensures
        forall|i: int|
            0 <= i < files_among(nodes, skip_hidden).len() ==> {
                let file = #[trigger] files_among(nodes, skip_hidden)[i];
                file.is_file && (skip_hidden ==> !is_hidden_name(file.name))
            },
    decreases nodes,
{
    if nodes.len() > 0 {
        lemma_files_among_are_files(nodes.drop_last(), skip_hidden);
        lemma_files_of_are_files(nodes.last(), skip_hidden);
        let before = files_among(nodes.drop_last(), skip_hidden);
        let last = files_of(nodes.last(), skip_hidden);
        assert forall|i: int| 0 <= i < files_among(nodes, skip_hidden).len() implies {
            let file = #[trigger] files_among(nodes, skip_hidden)[i];
            file.is_file && (skip_hidden ==> !is_hidden_name(file.name))
        } by {
            if i < before.len() {
                assert(files_among(nodes, skip_hidden)[i] == before[i]);
            } else {
                assert(files_among(nodes, skip_hidden)[i] == last[i - before.len()]);
            }
        }
    }
}

/// The trees that the entries referred to stand for.
pub open spec fn views_of(entries: Seq<&Entry>) -> Seq<Node> {
    Seq::new(entries.len(), |i: int| entries[i]@)
}

/// Adds the files of the tree of `entry` to `files`.
fn collect_files<'a>(entry: &'a Entry, skip_hidden: bool, files: &mut Vec<&'a Entry>)
    ensures
        views_of(final(files)@) == views_of(old(files)@) + files_of(entry@, skip_hidden),
    decreases entry@,
{
    let ghost before = views_of(files@);
    if entry.is_file() {
        if entry.is_hidden() && skip_hidden {
            assert(before + Seq::<Node>::empty() =~= before);
        } else {
            files.push(entry);
            assert(views_of(files@) =~= before + seq![entry@]);
        }
    } else {
        let children = entry.children();
        let ghost all = views(children@);
        let mut i: usize = 0;
        assert(all.take(0) =~= Seq::<Node>::empty());
        assert(before + Seq::<Node>::empty() =~= before);
        while i < children.len()
            invariant
                i <= children.len(),
                all == views(children@),
                all == entry@.children,
                views_of(files@) == before + files_among(all.take(i as int), skip_hidden),
            decreases children.len() - i,
        {
            let child = &children[i];
            proof {
                assert(all.take(i + 1).drop_last() =~= all.take(i as int));
                assert(all.take(i + 1).last() == child@);
                assert(child@ == entry@.children[i as int]);
            }
            collect_files(child, skip_hidden, files);
            i = i + 1;
        }
        assert(all.take(i as int) =~= all);
    }
}

/// The files of the tree of `entry`, in the order of the tree.
pub fn files_in<'a>(entry: &'a Entry, skip_hidden: bool) -> (files: Vec<&'a Entry>)
    ensures
        views_of(files@) == files_of(entry@, skip_hidden),
{
    let mut files: Vec<&'a Entry> = Vec::new();
    collect_files(entry, skip_hidden, &mut files);
    assert(views_of(Seq::<&Entry>::empty()) + files_of(entry@, skip_hidden) =~= files_of(
        entry@,
        skip_hidden,
    ));
    files
}

/// The lines of the ranking of the files of `root`.
fn ranking_of(root: &Root, options: &Options) -> (lines: Vec<String>)
    ensures
        lines.deep_view() == ranking_lines(root@, *options),
{
    let files = files_in(root.entry(), !options.should_show_hidden());
    let ghost found = views_of(files@);
    let mut sizes: Vec<u64> = Vec::new();
    let mut i: usize = 0;
    while i < files.len()
        invariant
            i <= files.len(),
            sizes@.len() == i,
            forall|k: int| 0 <= k < i ==> (#[trigger] sizes@[k]) == files@[k]@.size(),
        decreases files.len() - i,
    {
        sizes.push(files[i].size());
        i = i + 1;
    }
    let order = sort_descending(&sizes);
    proof {
        assert(naturals(sizes@) =~= sizes_of(found));
        lemma_ranked(found, positions(order@));
    }
    let mut lines: Vec<String> = Vec::new();
    lines.push(root.to_string());
    let ghost head = lines.deep_view();
    assert(head =~= seq![entry_line(root@.tree())]);
    let mut shown_files: usize = 0;
    let mut stop = false;
    while shown_files < order.len() && !stop
        invariant
            shown_files <= order.len(),
            order@.len() == files@.len(),
            found == views_of(files@),
            ranked(found).len() == found.len(),
            forall|k: int| 0 <= k < order@.len() ==> 0 <= #[trigger] positions(order@)[k] < files@.len(),
            forall|k: int|
                0 <= k < order@.len() ==> #[trigger] ranked(found)[k] == found[positions(
                    order@,
                )[k]],
            lines.deep_view() == head + Seq::new(
                shown_files as nat,
                |k: int| indentation(1) + entry_line(ranked(found)[k]),
            ),
            stop ==> shown_files > 0 && options.limit.reached_spec(shown_files as nat),
            !stop && shown_files > 0 ==> !options.limit.reached_spec(shown_files as nat),
            shown_files > 1 ==> !options.limit.reached_spec((shown_files - 1) as nat),
        decreases order.len() - shown_files,
    {
        let position = order[shown_files];
        assert(0 <= positions(order@)[shown_files as int] < files@.len());
        let file = files[position];
        proof {
            reveal_strlit("  ");
        }
        assert("  "@ =~= indentation(1));
        let mut line = "  ".to_owned();
        line.append(file.to_string().as_str());
        let ghost earlier = lines.deep_view();
        assert(found[position as int] == file@);
        assert(positions(order@)[shown_files as int] == position);
        assert(file@ == ranked(found)[shown_files as int]);
        assert(line@ == indentation(1) + entry_line(ranked(found)[shown_files as int]));
        lines.push(line);
        assert(lines.deep_view() =~= earlier.push(line@));
        assert(lines.deep_view() =~= head + Seq::new(
            (shown_files + 1) as nat,
            |k: int| indentation(1) + entry_line(ranked(found)[k]),
        ));
        shown_files = shown_files + 1;
        if options.limit_reached(shown_files) {
            stop = true;
        }
    }
    assert(lines.deep_view() =~= ranking_lines(root@, *options));
    lines
}

/// The lines of the ranking of the files of `root`: the line of the root and
/// the lines of its largest files; for a root that is a file, its own line and
/// nothing else.
fn largest_files_of(root: &Root, options: &Options) -> (lines: Vec<String>)
    ensures
        lines.deep_view() == files_lines(root@, *options),
{
    if root.is_file() {
        let mut lines: Vec<String> = Vec::new();
        lines.push(root.to_string());
        assert(lines.deep_view() =~= seq![entry_line(root@.tree())]);
        lines
    } else {
        ranking_of(root, options)
    }
}

/// The lines of the ranking of the files of `root`: the line of the root, and
/// below it, one level in, the lines of its largest files.
pub fn print_largest_files_in_directory(root: Root, options: &Options) -> (lines: Vec<String>)
    ensures
        lines.deep_view() == ranking_lines(root@, *options),
{
    ranking_of(&root, options)
}

/// The lines of the ranking of the files of `root`.
pub fn print_largest_files(root: Root, options: &Options) -> (lines: Vec<String>)
    ensures
        lines.deep_view() == files_lines(root@, *options),
{
    largest_files_of(&root, options)
}

impl Mode {
    /// The lines that are printed for `root` in this mode.
    pub fn work(&self, root: Root, options: &Options) -> (lines: Vec<String>)
        ensures
            lines.deep_view() == match *self {
                Mode::Tree => tree_lines(root@.tree(), *options, 0),
                Mode::Files => files_lines(root@, *options),
            },
    {
        match self {
            Mode::Tree => print_tree(root, options),
            Mode::Files => print_largest_files(root, options),
        }
    }
}

/// The lines that are printed for `root` in the mode that the options name.
pub fn work(root: &Root, options: &Options) -> (lines: Vec<String>)
    ensures
        lines.deep_view() == root_lines(root@, *options),
{
    match options.mode() {
        Mode::Tree => print_indented_tree(root, options, 0),
        Mode::Files => largest_files_of(root, options),
    }
}

/// The line that tells why the root at `path` could not be scanned.
pub open spec fn failure_line(path: Seq<char>, message: Seq<char>) -> Seq<char> {
    path + seq![':', ' '] + message
}

/// The lines that are printed for the root at `path`, given what scanning it
/// came to: the lines of the root, or one line that tells why there is none.
/// What one root came to has no bearing on the lines of another.
pub fn report(path: &str, scanned: Result<Root, String>, options: &Options) -> (lines: Vec<String>)
    ensures
        lines.deep_view() == match scanned {
            Ok(root) => root_lines(root@, *options),
            Err(message) => seq![failure_line(path@, message@)],
        },
{
    match scanned {
        Ok(root) => work(&root, options),
        Err(message) => {
            let mut line = path.to_owned();
            proof {
                reveal_strlit(": ");
            }
            line.append(": ");
            line.append(message.as_str());
            assert(line@ =~= failure_line(path@, message@));
            let mut lines: Vec<String> = Vec::new();
            lines.push(line);
            assert(lines.deep_view() =~= seq![failure_line(path@, message@)]);
            lines
        },
    }
}

} // verus!
