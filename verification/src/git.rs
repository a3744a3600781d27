//! Building the tree of a new commit on top of the tree of an earlier one.
//!
//! The builder keeps the tree as far as it has been read or changed. A
//! subtree of the base that nothing has touched stays a [`TreeNode::Stored`]
//! leaf that holds only its object id. Reading and storing objects is left to
//! the caller, who hands over what it has read and is told what to store.

use crate::text::{same_text, split, split_from, texts};
use vstd::prelude::*;

verus! {

/// The file mode under which a tree lists a subtree.
pub const MODE_TREE: i32 = 0o040000;

/// The file mode of an ordinary file.
pub const MODE_FILE: i32 = 0o100644;

/// The name of a stored object: the twenty bytes of its content hash.
#[derive(Clone, Copy, Debug, PartialEq, Eq, Hash)]
pub struct ObjectId {
    pub bytes: [u8; 20],
}

/// One node of a tree under construction.
#[derive(Debug, PartialEq, Eq)]
pub enum TreeNode {
    /// A file: the id of its content and its file mode.
    Blob { id: ObjectId, mode: i32 },
    /// A subtree that is in the object store under `id` and has not been read.
    Stored { id: ObjectId },
    /// A subtree that is open: its children are held here.
    Dir { children: Vec<Entry> },
}

/// A named child of an open subtree.
#[derive(Debug, PartialEq, Eq)]
pub struct Entry {
    pub name: String,
    pub node: TreeNode,
}

/// The mathematical value of a [`TreeNode`].
pub enum Tree {
    Blob { id: ObjectId, mode: i32 },
    Stored { id: ObjectId },
    Dir { entries: Seq<(Seq<char>, Tree)> },
}

impl View for TreeNode {
    type V = Tree;

    open spec fn view(&self) -> Tree {
        tree_of(*self)
    }
}

/// The value of a node: its own fields, and for an open subtree the values
/// of its children under their names.
pub open spec fn tree_of(node: TreeNode) -> Tree
    decreases node, 0nat,
{
    match node {
        TreeNode::Blob { id, mode } => Tree::Blob { id, mode },
        TreeNode::Stored { id } => Tree::Stored { id },
        TreeNode::Dir { children } => Tree::Dir { entries: first_entries(children, children@.len()) },
    }
}

/// The values of the first `count` children.
pub open spec fn first_entries(children: Vec<Entry>, count: nat) -> Seq<(Seq<char>, Tree)>
    decreases children, count,
{
    if count == 0 || count > children@.len() {
        Seq::empty()
    } else {
        first_entries(children, (count - 1) as nat).push(
            (children@[count - 1].name@, tree_of(children@[count - 1].node)),
        )
    }
}

/// The entries of a list of children, as the view of an open subtree holds them.
pub open spec fn entries_of(children: Seq<Entry>) -> Seq<(Seq<char>, Tree)> {
    Seq::new(children.len(), |i: int| (children[i].name@, children[i].node@))
}

/// No two entries have the same name.
pub open spec fn distinct(entries: Seq<(Seq<char>, Tree)>) -> bool {
    forall|i: int, j: int|
        0 <= i < entries.len() && 0 <= j < entries.len() && i != j ==> #[trigger] entries[i].0
            != #[trigger] entries[j].0
}

/// Some entry has this name.
pub open spec fn holds(entries: Seq<(Seq<char>, Tree)>, name: Seq<char>) -> bool {
    exists|i: int| 0 <= i < entries.len() && #[trigger] entries[i].0 == name
}

/// The index of an entry with this name, where there is one.
pub open spec fn index_of(entries: Seq<(Seq<char>, Tree)>, name: Seq<char>) -> int {
    choose|i: int| 0 <= i < entries.len() && #[trigger] entries[i].0 == name
}

/// The entries with `node` under `name`: in the place of the entry of that
/// name, or at the end where there was none.
pub open spec fn put(entries: Seq<(Seq<char>, Tree)>, name: Seq<char>, node: Tree) -> Seq<
    (Seq<char>, Tree),
> {
    if holds(entries, name) {
        entries.update(index_of(entries, name), (name, node))
    } else {
        entries.push((name, node))
    }
}

/// The child of that name, where there is one.
pub open spec fn child(entries: Seq<(Seq<char>, Tree)>, name: Seq<char>) -> Option<Tree> {
    if holds(entries, name) {
        Some(entries[index_of(entries, name)].1)
    } else {
        None
    }
}

/// The name uniqueness invariant: in every open subtree the names differ.
/// Besides, no file has the mode of trees.
pub open spec fn well_formed(tree: Tree) -> bool
    decreases tree,
{
    match tree {
        Tree::Dir { entries } => {
            &&& distinct(entries)
            &&& forall|i: int| 0 <= i < entries.len() ==> well_formed(#[trigger] entries[i].1)
        },
        Tree::Blob { mode, .. } => mode != MODE_TREE,
        Tree::Stored { .. } => true,
    }
}

/// With distinct names, an entry's name is found at that entry's index.
pub proof fn lemma_index_of(entries: Seq<(Seq<char>, Tree)>, i: int)
    requires
        distinct(entries),
        0 <= i < entries.len(),
    ensures
        holds(entries, entries[i].0),
        index_of(entries, entries[i].0) == i,
        child(entries, entries[i].0) == Some(entries[i].1),
{
    let name = entries[i].0;
    assert(holds(entries, name));
    let k = index_of(entries, name);
    assert(0 <= k < entries.len() && entries[k].0 == name);
}

/// Putting a node under a name keeps the names distinct, and is seen by
/// `child` under that name and no other.
pub proof fn lemma_put(entries: Seq<(Seq<char>, Tree)>, name: Seq<char>, node: Tree)
    requires
        distinct(entries),
    ensures
        distinct(put(entries, name, node)),
        child(put(entries, name, node), name) == Some(node),
        forall|other: Seq<char>|
            other != name ==> child(put(entries, name, node), other) == child(entries, other),
        holds(entries, name) ==> put(entries, name, node).len() == entries.len(),
        !holds(entries, name) ==> put(entries, name, node).len() == entries.len() + 1,
{
    let after = put(entries, name, node);
    let at = if holds(entries, name) {
        index_of(entries, name)
    } else {
        entries.len() as int
    };
    assert(0 <= at < after.len() && after[at] == (name, node));
    assert forall|i: int| 0 <= i < after.len() && i != at implies after[i] == entries[i]
        && entries[i].0 != name by {}
    assert(distinct(after));
    lemma_index_of(after, at);
    assert forall|other: Seq<char>| other != name implies child(after, other) == child(
        entries,
        other,
    ) by {
        if holds(entries, other) {
            let k = index_of(entries, other);
            assert(after[k] == entries[k]);
            lemma_index_of(after, k);
        } else if holds(after, other) {
            let k = index_of(after, other);
            assert(k != at);
            assert(entries[k].0 == other);
        }
    }
}

/// Why a path could not be written.
#[derive(Clone, Copy, Debug, PartialEq, Eq)]
pub enum BuildError {
    /// The first `depth` segments of the path name a file, and the path goes
    /// on below it.
    PathCollision { depth: usize },
    /// The first `depth` segments of the path name a subtree that is stored
    /// under `id` and has to be read before the path can be written.
    Unread { depth: usize, id: ObjectId },
    /// The tree still has an open subtree, so there is no tree id to commit.
    OpenTree,
}

/// The tree `tree` with `leaf` at the path made of the segments of `path`
/// from index `from` on, or the reason why that path cannot be written.
///
/// A subtree that is missing on the way is made. Whatever stood at the path
/// itself is replaced. A file on the way blocks the path, and so does a
/// subtree that has not been read.
pub open spec fn write_from(tree: Tree, path: Seq<Seq<char>>, from: int, leaf: Tree) -> Result<
    Tree,
    BuildError,
>
    decreases path.len() - from,
{
    if from >= path.len() {
        Ok(leaf)
    } else {
        match tree {
            Tree::Blob { .. } => Err(BuildError::PathCollision { depth: from as usize }),
            Tree::Stored { id } => Err(BuildError::Unread { depth: from as usize, id }),
            Tree::Dir { entries } => {
                let below = match child(entries, path[from]) {
                    Some(node) => node,
                    None => Tree::Dir { entries: Seq::empty() },
                };
                match write_from(below, path, from + 1, leaf) {
                    Ok(node) => Ok(Tree::Dir { entries: put(entries, path[from], node) }),
                    Err(error) => Err(error),
                }
            },
        }
    }
}

/// The tree `tree` with `leaf` at `path`, or the reason why `path` cannot be
/// written.
pub open spec fn write(tree: Tree, path: Seq<Seq<char>>, leaf: Tree) -> Result<Tree, BuildError> {
    write_from(tree, path, 0, leaf)
}

/// The first children of an open subtree, one by one.
pub proof fn lemma_first_entries(children: Vec<Entry>, count: nat)
    requires
        count <= children@.len(),
    ensures
        first_entries(children, count) == entries_of(children@.take(count as int)),
    decreases count,
{
    if count > 0 {
        lemma_first_entries(children, (count - 1) as nat);
    }
    assert(first_entries(children, count) =~= entries_of(children@.take(count as int)));
}

/// The view of an open subtree lists the views of its children.
pub proof fn lemma_view_dir(node: TreeNode)
    requires
        node is Dir,
    ensures
        node@ == (Tree::Dir { entries: entries_of(node->children@) }),
{
    let children = node->children;
    lemma_first_entries(children, children@.len());
    assert(children@.take(children@.len() as int) =~= children@);
}

/// Writing keeps the names in every subtree distinct.
pub proof fn lemma_write_well_formed(tree: Tree, path: Seq<Seq<char>>, from: int, leaf: Tree)
    requires
        well_formed(tree),
        well_formed(leaf),
        0 <= from,
    ensures
        write_from(tree, path, from, leaf) matches Ok(after) ==> well_formed(after),
    decreases path.len() - from,
{
    if from < path.len() {
        if let Tree::Dir { entries } = tree {
            let name = path[from];
            let below = match child(entries, name) {
                Some(node) => node,
                None => Tree::Dir { entries: Seq::empty() },
            };
            lemma_write_well_formed(below, path, from + 1, leaf);
            if let Ok(node) = write_from(below, path, from + 1, leaf) {
                lemma_put(entries, name, node);
                let after = put(entries, name, node);
                assert forall|i: int| 0 <= i < after.len() implies well_formed(
                    #[trigger] after[i].1,
                ) by {
                    if after[i].1 != node {
                        assert(after[i] == entries[i]);
                    }
                }
            }
        }
    }
}

/// Below a subtree that holds nothing, every path can be written.
pub proof fn lemma_write_fresh(path: Seq<Seq<char>>, from: int, leaf: Tree)
    requires
        0 <= from,
    ensures
        write_from(Tree::Dir { entries: Seq::empty() }, path, from, leaf) is Ok,
    decreases path.len() - from,
{
    if from < path.len() {
        let entries = Seq::<(Seq<char>, Tree)>::empty();
        assert(!holds(entries, path[from]));
        lemma_write_fresh(path, from + 1, leaf);
    }
}

/// Finds the child of that name among the children of an open subtree.
fn find_child(children: &Vec<Entry>, name: &str) -> (found: Option<usize>)
    ensures
        found is Some == holds(entries_of(children@), name@),
        found matches Some(i) ==> i < children.len() && children[i as int].name@ == name@,
{
    let mut i: usize = 0;
    while i < children.len()
        invariant
            i <= children.len(),
            forall|j: int| 0 <= j < i ==> children[j].name@ != name@,
        decreases children.len() - i,
    {
        if same_text(children[i].name.as_str(), name) {
            assert(entries_of(children@)[i as int].0 == name@);
            return Some(i);
        }
        i += 1;
    }
    assert forall|j: int| 0 <= j < entries_of(children@).len() implies entries_of(
        children@,
    )[j].0 != name@ by {}
    None
}

/// Writes `leaf` at the path made of the segments from index `from` on,
/// below `node`. Hands back the new node, or `node` as it was with the reason
/// why the path cannot be written.
fn write_node(node: TreeNode, segments: &Vec<String>, from: usize, leaf: TreeNode) -> (out: (
    TreeNode,
    Option<BuildError>,
))
    requires
        well_formed(node@),
        well_formed(leaf@),
        from <= segments.len(),
    ensures
        match write_from(node@, texts(segments@), from as int, leaf@) {
            Ok(tree) => out.1 is None && out.0@ == tree,
            Err(error) => out.1 == Some(error) && out.0@ == node@,
        },
        well_formed(out.0@),
    decreases segments.len() - from,
{
    let ghost path = texts(segments@);
    proof {
        lemma_write_well_formed(node@, path, from as int, leaf@);
    }
    if from >= segments.len() {
        return (leaf, None);
    }
    match node {
        TreeNode::Blob { id: held, mode: held_mode } => (
            TreeNode::Blob { id: held, mode: held_mode },
            Some(BuildError::PathCollision { depth: from }),
        ),
        TreeNode::Stored { id: held } => (
            TreeNode::Stored { id: held },
            Some(BuildError::Unread { depth: from, id: held }),
        ),
        TreeNode::Dir { children } => {
            let mut children = children;
            let ghost before = children;
            let ghost entries = entries_of(before@);
            proof {
                lemma_view_dir(node);
                assert(path[from as int] == segments[from as int]@);
            }
            match find_child(&children, segments[from].as_str()) {
                Some(at) => {
                    proof {
                        lemma_index_of(entries, at as int);
                    }
                    let entry = children.remove(at);
                    let (below, error) = write_node(entry.node, segments, from + 1, leaf);
                    children.insert(at, Entry { name: entry.name, node: below });
                    let after = TreeNode::Dir { children };
                    proof {
                        lemma_view_dir(after);
                        if error is None {
                            assert(entries_of(after->children@) =~= put(
                                entries,
                                path[from as int],
                                below@,
                            ));
                        } else {
                            assert(entries_of(after->children@) =~= entries);
                        }
                    }
                    (after, error)
                },
                None => {
                    let fresh = TreeNode::Dir { children: Vec::new() };
                    proof {
                        lemma_view_dir(fresh);
                        assert(entries_of(fresh->children@) =~= Seq::empty());
                        lemma_write_fresh(path, from as int + 1, leaf@);
                    }
                    let (below, error) = write_node(fresh, segments, from + 1, leaf);
                    children.push(Entry { name: segments[from].clone(), node: below });
                    let after = TreeNode::Dir { children };
                    proof {
                        lemma_view_dir(after);
                        assert(entries_of(after->children@) =~= put(
                            entries,
                            path[from as int],
                            below@,
                        ));
                    }
                    (after, None)
                },
            }
        },
    }
}

/// The node reached from `tree` by the segments of `path` from index `from`
/// up to, not including, index `to`; `None` where a name is missing or the
/// way leads through a node that is not an open subtree.
pub open spec fn node_at(tree: Tree, path: Seq<Seq<char>>, from: int, to: int) -> Option<Tree>
    decreases to - from,
{
    if from >= to {
        Some(tree)
    } else {
        match tree {
            Tree::Dir { entries } => match child(entries, path[from]) {
                Some(node) => node_at(node, path, from + 1, to),
                None => None,
            },
            _ => None,
        }
    }
}

/// The node that `path` names in `tree`.
pub open spec fn lookup(tree: Tree, path: Seq<Seq<char>>) -> Option<Tree> {
    node_at(tree, path, 0, path.len() as int)
}

/// Two paths part at some segment that both have.
pub open spec fn diverge(path: Seq<Seq<char>>, other: Seq<Seq<char>>, from: int) -> bool {
    exists|k: int| from <= k < path.len() && k < other.len() && #[trigger] path[k] != other[k]
}

/// The subtree that a write goes on in below `entries`: the child named
/// `name`, or a subtree that holds nothing.
pub open spec fn below(entries: Seq<(Seq<char>, Tree)>, name: Seq<char>) -> Tree {
    match child(entries, name) {
        Some(node) => node,
        None => Tree::Dir { entries: Seq::empty() },
    }
}

proof fn lemma_below_well_formed(entries: Seq<(Seq<char>, Tree)>, name: Seq<char>)
    requires
        well_formed(Tree::Dir { entries }),
    ensures
        well_formed(below(entries, name)),
{
    if holds(entries, name) {
        assert(well_formed(entries[index_of(entries, name)].1));
    }
}

proof fn lemma_put_twice(entries: Seq<(Seq<char>, Tree)>, name: Seq<char>, first: Tree, second: Tree)
    requires
        distinct(entries),
    ensures
        put(put(entries, name, first), name, second) == put(entries, name, second),
{
    let once = put(entries, name, first);
    let at = if holds(entries, name) {
        index_of(entries, name)
    } else {
        entries.len() as int
    };
    lemma_put(entries, name, first);
    assert(once[at] == (name, first));
    lemma_index_of(once, at);
    assert(put(once, name, second) =~= put(entries, name, second));
}

proof fn lemma_written_is_found(tree: Tree, path: Seq<Seq<char>>, from: int, leaf: Tree)
    requires
        well_formed(tree),
        0 <= from,
        write_from(tree, path, from, leaf) is Ok,
    ensures
        node_at(write_from(tree, path, from, leaf)->Ok_0, path, from, path.len() as int) == Some(
            leaf,
        ),
    decreases path.len() - from,
{
    if from < path.len() {
        let entries = tree->entries;
        let name = path[from];
        lemma_below_well_formed(entries, name);
        lemma_written_is_found(below(entries, name), path, from + 1, leaf);
        lemma_put(entries, name, write_from(below(entries, name), path, from + 1, leaf)->Ok_0);
    }
}

proof fn lemma_last_write_wins(tree: Tree, path: Seq<Seq<char>>, from: int, first: Tree, second: Tree)
    requires
        well_formed(tree),
        0 <= from,
        write_from(tree, path, from, first) is Ok,
    ensures
        write_from(write_from(tree, path, from, first)->Ok_0, path, from, second) == write_from(
            tree,
            path,
            from,
            second,
        ),
    decreases path.len() - from,
{
    if from < path.len() {
        let entries = tree->entries;
        let name = path[from];
        let under = below(entries, name);
        let once = write_from(under, path, from + 1, first)->Ok_0;
        lemma_below_well_formed(entries, name);
        lemma_last_write_wins(under, path, from + 1, first, second);
        lemma_put(entries, name, once);
        if let Ok(twice) = write_from(once, path, from + 1, second) {
            lemma_put_twice(entries, name, once, twice);
        }
    }
}

proof fn lemma_other_paths_kept(
    tree: Tree,
    path: Seq<Seq<char>>,
    from: int,
    leaf: Tree,
    other: Seq<Seq<char>>,
)
    requires
        well_formed(tree),
        0 <= from,
        write_from(tree, path, from, leaf) is Ok,
        diverge(path, other, from),
    ensures
        node_at(write_from(tree, path, from, leaf)->Ok_0, other, from, other.len() as int)
            == node_at(tree, other, from, other.len() as int),
    decreases path.len() - from,
{
    let k = choose|k: int| from <= k < path.len() && k < other.len() && #[trigger] path[k] != other[k];
    let entries = tree->entries;
    let name = path[from];
    let under = below(entries, name);
    let written = write_from(under, path, from + 1, leaf)->Ok_0;
    lemma_put(entries, name, written);
    if other[from] == name {
        assert(k != from);
        assert(diverge(path, other, from + 1));
        lemma_below_well_formed(entries, name);
        lemma_other_paths_kept(under, path, from + 1, leaf, other);
        if !holds(entries, name) {
            let none = Seq::<(Seq<char>, Tree)>::empty();
            assert(!holds(none, other[from + 1]));
        }
    }
}

proof fn lemma_closed_node_blocks(tree: Tree, path: Seq<Seq<char>>, from: int, leaf: Tree, depth: int)
    requires
        0 <= from <= depth < path.len(),
        node_at(tree, path, from, depth) matches Some(node) && !(node is Dir),
    ensures
        write_from(tree, path, from, leaf) == match node_at(tree, path, from, depth)->Some_0 {
            Tree::Stored { id } => Err::<Tree, BuildError>(
                BuildError::Unread { depth: depth as usize, id },
            ),
            _ => Err(BuildError::PathCollision { depth: depth as usize }),
        },
    decreases depth - from,
{
    if from < depth {
        let entries = tree->entries;
        lemma_closed_node_blocks(below(entries, path[from]), path, from + 1, leaf, depth);
    }
}

/// What has been written at a path is found there.
pub proof fn law_written_is_found(tree: Tree, path: Seq<Seq<char>>, leaf: Tree)
    requires
        well_formed(tree),
        write(tree, path, leaf) is Ok,
    ensures
        lookup(write(tree, path, leaf)->Ok_0, path) == Some(leaf),
{
    lemma_written_is_found(tree, path, 0, leaf);
}

/// The last write to a path wins: a second write to the path of a first
/// gives the tree that the second write alone would have given.
pub proof fn law_last_write_wins(tree: Tree, path: Seq<Seq<char>>, first: Tree, second: Tree)
    requires
        well_formed(tree),
        well_formed(first),
        write(tree, path, first) is Ok,
    ensures
        write(write(tree, path, first)->Ok_0, path, second) == write(tree, path, second),
        write(tree, path, second) is Ok,
        lookup(write(write(tree, path, first)->Ok_0, path, second)->Ok_0, path) == Some(second),
{
    lemma_last_write_wins(tree, path, 0, first, second);
    lemma_write_well_formed(tree, path, 0, first);
    lemma_write_succeeds_alike(tree, path, 0, first, second);
    lemma_written_is_found(tree, path, 0, second);
}

/// A write changes nothing at a path that parts from the written one.
pub proof fn law_other_paths_kept(tree: Tree, path: Seq<Seq<char>>, leaf: Tree, other: Seq<Seq<char>>)
    requires
        well_formed(tree),
        write(tree, path, leaf) is Ok,
        diverge(path, other, 0),
    ensures
        lookup(write(tree, path, leaf)->Ok_0, other) == lookup(tree, other),
{
    lemma_other_paths_kept(tree, path, 0, leaf, other);
}

/// A file on the way blocks the write: where the first `depth` segments of
/// the path name a file and the path goes on, the write fails with
/// `PathCollision` at that depth.
pub proof fn law_file_blocks_path(tree: Tree, path: Seq<Seq<char>>, leaf: Tree, depth: usize)
    requires
        depth < path.len(),
        node_at(tree, path, 0, depth as int) matches Some(node) && node is Blob,
    ensures
        write(tree, path, leaf) == Err::<Tree, BuildError>(BuildError::PathCollision { depth }),
{
    lemma_closed_node_blocks(tree, path, 0, leaf, depth as int);
}

/// Whether a write succeeds does not depend on what is written.
pub proof fn lemma_write_succeeds_alike(
    tree: Tree,
    path: Seq<Seq<char>>,
    from: int,
    first: Tree,
    second: Tree,
)
    requires
        0 <= from,
    ensures
        write_from(tree, path, from, first) is Ok == write_from(tree, path, from, second) is Ok,
        write_from(tree, path, from, first) matches Err(error) ==> write_from(
            tree,
            path,
            from,
            second,
        ) == Err::<Tree, BuildError>(error),
    decreases path.len() - from,
{
    if from < path.len() {
        if let Tree::Dir { entries } = tree {
            lemma_write_succeeds_alike(below(entries, path[from]), path, from + 1, first, second);
        }
    }
}

/// One line of a stored tree: a name, the id of the object and its mode.
#[derive(Debug, PartialEq, Eq)]
pub struct Listed {
    pub name: String,
    pub id: ObjectId,
    pub mode: i32,
}

/// The node that an id with a mode stands for: a stored subtree under the
/// mode of trees, a file under any other.
pub open spec fn leaf_of(id: ObjectId, mode: i32) -> Tree {
    if mode == MODE_TREE {
        Tree::Stored { id }
    } else {
        Tree::Blob { id, mode }
    }
}

/// The node that an id with a mode stands for.
fn make_leaf(id: ObjectId, mode: i32) -> (node: TreeNode)
    ensures
        node@ == leaf_of(id, mode),
{
    if mode == MODE_TREE {
        TreeNode::Stored { id }
    } else {
        TreeNode::Blob { id, mode }
    }
}

/// The entries that the first `count` lines of a listing give. Of two lines
/// with one name the later one stays, in the place of the earlier.
pub open spec fn listing_entries(list: Seq<Listed>, count: nat) -> Seq<(Seq<char>, Tree)>
    decreases count,
{
    if count == 0 || count > list.len() {
        Seq::empty()
    } else {
        put(
            listing_entries(list, (count - 1) as nat),
            list[count - 1].name@,
            leaf_of(list[count - 1].id, list[count - 1].mode),
        )
    }
}

/// The open subtree that a listing describes.
pub open spec fn listing_tree(list: Seq<Listed>) -> Tree {
    Tree::Dir { entries: listing_entries(list, list.len()) }
}

/// Makes the open subtree that a listing describes.
fn open_listing(list: &Vec<Listed>) -> (node: TreeNode)
    ensures
        node@ == listing_tree(list@),
        well_formed(node@),
{
    let mut children: Vec<Entry> = Vec::new();
    let mut done: usize = 0;
    assert(entries_of(children@) =~= Seq::empty());
    while done < list.len()
        invariant
            done <= list.len(),
            entries_of(children@) == listing_entries(list@, done as nat),
            distinct(entries_of(children@)),
            forall|i: int| 0 <= i < children.len() ==> well_formed(children[i].node@),
        decreases list.len() - done,
    {
        let line = &list[done];
        let ghost before = entries_of(children@);
        let node = make_leaf(line.id, line.mode);
        let name = line.name.clone();
        proof {
            lemma_put(before, name@, node@);
        }
        match find_child(&children, name.as_str()) {
            Some(at) => {
                proof {
                    lemma_index_of(before, at as int);
                }
                children.set(at, Entry { name, node });
            },
            None => {
                children.push(Entry { name, node });
            },
        }
        assert(entries_of(children@) =~= put(before, name@, node@));
        done += 1;
    }
    let node = TreeNode::Dir { children };
    proof {
        lemma_view_dir(node);
        assert forall|i: int| 0 <= i < node@->entries.len() implies well_formed(
            #[trigger] node@->entries[i].1,
        ) by {
            assert(node@->entries[i].1 == node->children[i].node@);
        }
    }
    node
}

/// Follows the segments from index `from` up to, not including, index `to`.
fn node_ref<'a>(node: &'a TreeNode, segments: &Vec<String>, from: usize, to: usize) -> (found:
    Option<&'a TreeNode>)
    requires
        well_formed(node@),
        from <= to <= segments.len(),
    ensures
        match node_at(node@, texts(segments@), from as int, to as int) {
            Some(tree) => found matches Some(reached) && reached@ == tree,
            None => found is None,
        },
    decreases to - from,
{
    if from >= to {
        return Some(node);
    }
    match node {
        TreeNode::Dir { children } => {
            proof {
                lemma_view_dir(*node);
                assert(texts(segments@)[from as int] == segments[from as int]@);
            }
            match find_child(children, segments[from].as_str()) {
                Some(at) => {
                    proof {
                        assert(decreases_to!(*node => node->children));
                        assert(decreases_to!(node->children => node->children[at as int]));
                        let entries = entries_of(children@);
                        lemma_index_of(entries, at as int);
                        assert(well_formed(entries[at as int].1));
                    }
                    node_ref(&children[at].node, segments, from + 1, to)
                },
                None => None,
            }
        },
        _ => None,
    }
}

/// The tree `tree` with `new` in the place of the node that the segments of
/// `path` from `from` up to `to` lead to; `None` where they lead to none.
pub open spec fn replace_at(tree: Tree, path: Seq<Seq<char>>, from: int, to: int, new: Tree) -> Option<
    Tree,
>
    decreases to - from,
{
    if from >= to {
        Some(new)
    } else {
        match tree {
            Tree::Dir { entries } => match child(entries, path[from]) {
                Some(node) => match replace_at(node, path, from + 1, to, new) {
                    Some(changed) => Some(Tree::Dir { entries: put(entries, path[from], changed) }),
                    None => None,
                },
                None => None,
            },
            _ => None,
        }
    }
}

/// Replacing a node by a well-formed one keeps the tree well-formed, and
/// changes it where `node_at` finds a node and nowhere else.
pub proof fn lemma_replace_at(tree: Tree, path: Seq<Seq<char>>, from: int, to: int, new: Tree)
    requires
        well_formed(tree),
        well_formed(new),
    ensures
        replace_at(tree, path, from, to, new) is Some == node_at(tree, path, from, to) is Some,
        replace_at(tree, path, from, to, new) matches Some(changed) ==> well_formed(changed)
            && node_at(changed, path, from, to) == Some(new),
    decreases to - from,
{
    if from < to {
        if let Tree::Dir { entries } = tree {
            let name = path[from];
            if let Some(node) = child(entries, name) {
                assert(well_formed(entries[index_of(entries, name)].1));
                lemma_replace_at(node, path, from + 1, to, new);
                if let Some(changed) = replace_at(node, path, from + 1, to, new) {
                    lemma_put(entries, name, changed);
                    let after = put(entries, name, changed);
                    assert forall|i: int| 0 <= i < after.len() implies well_formed(
                        #[trigger] after[i].1,
                    ) by {
                        if after[i].1 != changed {
                            assert(after[i] == entries[i]);
                        }
                    }
                }
            }
        }
    }
}

/// Puts `new` in the place of the node that the segments from `from` up to
/// `to` lead to. Where they lead to none, `node` comes back as it was.
fn replace_node(node: TreeNode, segments: &Vec<String>, from: usize, to: usize, new: TreeNode) -> (out:
    TreeNode)
    requires
        well_formed(node@),
        well_formed(new@),
        from <= to <= segments.len(),
    ensures
        out@ == match replace_at(node@, texts(segments@), from as int, to as int, new@) {
            Some(changed) => changed,
            None => node@,
        },
        well_formed(out@),
    decreases to - from,
{
    let ghost path = texts(segments@);
    proof {
        lemma_replace_at(node@, path, from as int, to as int, new@);
    }
    if from >= to {
        return new;
    }
    match node {
        TreeNode::Dir { children } => {
            let mut children = children;
            let ghost entries = entries_of(children@);
            proof {
                lemma_view_dir(node);
                assert(path[from as int] == segments[from as int]@);
            }
            match find_child(&children, segments[from].as_str()) {
                Some(at) => {
                    proof {
                        lemma_index_of(entries, at as int);
                    }
                    let entry = children.remove(at);
                    let ghost held = entry.node@;
                    let below = replace_node(entry.node, segments, from + 1, to, new);
                    children.insert(at, Entry { name: entry.name, node: below });
                    let after = TreeNode::Dir { children };
                    proof {
                        lemma_view_dir(after);
                        if replace_at(held, path, from + 1, to as int, new@) is Some {
                            assert(entries_of(after->children@) =~= put(
                                entries,
                                path[from as int],
                                below@,
                            ));
                        } else {
                            assert(entries_of(after->children@) =~= entries);
                        }
                    }
                    after
                },
                None => TreeNode::Dir { children },
            }
        },
        TreeNode::Blob { id, mode } => TreeNode::Blob { id, mode },
        TreeNode::Stored { id } => TreeNode::Stored { id },
    }
}

/// The tree is an open subtree none of whose children is open: it can be
/// stored as it stands.
pub open spec fn ready(tree: Tree) -> bool {
    tree matches Tree::Dir { entries } && forall|i: int|
        0 <= i < entries.len() ==> !(#[trigger] entries[i].1 is Dir)
}

/// The listing names each entry in turn, with its id and its mode.
pub open spec fn lists(list: Seq<Listed>, entries: Seq<(Seq<char>, Tree)>) -> bool {
    &&& list.len() == entries.len()
    &&& forall|i: int|
        0 <= i < list.len() ==> (#[trigger] list[i]).name@ == entries[i].0 && leaf_of(
            list[i].id,
            list[i].mode,
        ) == entries[i].1
}

/// Goes down from an open subtree to one that can be stored, and adds the
/// names on the way to `path`.
fn reach_open(node: &TreeNode, path: &mut Vec<String>)
    requires
        node is Dir,
        well_formed(node@),
    ensures
        final(path).len() >= old(path).len(),
        final(path)@.take(old(path).len() as int) == old(path)@,
        node_at(node@, texts(final(path)@), old(path).len() as int, final(path).len() as int)
            matches Some(reached) && ready(reached),
    decreases node,
{
    let ghost start = path@;
    if let TreeNode::Dir { children } = node {
        let ghost entries = entries_of(children@);
        proof {
            lemma_view_dir(*node);
        }
        let mut i: usize = 0;
        while i < children.len()
            invariant
                i <= children.len(),
                node is Dir,
                node->children == *children,
                well_formed(node@),
                node@ == (Tree::Dir { entries }),
                entries == entries_of(children@),
                path@ == start,
                start == old(path)@,
                forall|j: int| 0 <= j < i ==> !(children[j].node@ is Dir),
            decreases children.len() - i,
        {
            if let TreeNode::Dir { .. } = &children[i].node {
                proof {
                    assert(decreases_to!(*node => node->children));
                    assert(decreases_to!(node->children => node->children[i as int]));
                    lemma_index_of(entries, i as int);
                    assert(well_formed(entries[i as int].1));
                }
                path.push(children[i].name.clone());
                let ghost middle = path@;
                reach_open(&children[i].node, path);
                proof {
                    assert(path@.take(middle.len() as int)[start.len() as int]
                        == middle[start.len() as int]);
                    assert(texts(path@)[start.len() as int] == entries[i as int].0);
                    assert(path@.take(start.len() as int) =~= path@.take(
                        middle.len() as int,
                    ).take(start.len() as int));
                    assert(middle.take(start.len() as int) =~= start);
                }
                return;
            }
            i += 1;
        }
        assert(path@.take(start.len() as int) =~= start);
    }
}

/// Lists the children of a subtree that can be stored.
fn list_closed(children: &Vec<Entry>) -> (list: Vec<Listed>)
    requires
        forall|i: int| 0 <= i < children.len() ==> !(children[i].node@ is Dir) && well_formed(
            children[i].node@,
        ),
    ensures
        lists(list@, entries_of(children@)),
{
    let mut list: Vec<Listed> = Vec::new();
    let mut i: usize = 0;
    while i < children.len()
        invariant
            i <= children.len(),
            list.len() == i,
            forall|j: int|
                0 <= j < children.len() ==> !(children[j].node@ is Dir) && well_formed(
                    children[j].node@,
                ),
            forall|j: int|
                0 <= j < i ==> (#[trigger] list[j]).name@ == children[j].name@ && leaf_of(
                    list[j].id,
                    list[j].mode,
                ) == children[j].node@,
        decreases children.len() - i,
    {
        let name = children[i].name.clone();
        match &children[i].node {
            TreeNode::Blob { id, mode } => list.push(Listed { name, id: *id, mode: *mode }),
            TreeNode::Stored { id } => list.push(Listed { name, id: *id, mode: MODE_TREE }),
            TreeNode::Dir { .. } => {},
        }
        i += 1;
    }
    list
}

/// Who wrote or recorded a commit.
#[derive(Debug, PartialEq, Eq)]
pub struct Signature {
    pub name: String,
    pub email: String,
}

/// The commit that a builder is based on, with the tree that it records.
#[derive(Clone, Copy, Debug, PartialEq, Eq)]
pub struct Base {
    pub commit: ObjectId,
    pub tree: ObjectId,
}

/// A commit that is ready to be stored.
#[derive(Debug, PartialEq, Eq)]
pub struct Commit {
    pub tree: ObjectId,
    pub parent: Option<ObjectId>,
    pub author: Signature,
    pub committer: Signature,
    pub message: String,
}

/// What `add_to_tree` makes of a tree: the path is split at each separator,
/// and the leaf for `id` and `mode` is written at those segments. A path
/// such as `a/b.txt` names the file `b.txt` in the subtree `a`.
pub open spec fn added(tree: Tree, path: Seq<char>, id: ObjectId, mode: i32) -> Result<
    Tree,
    BuildError,
> {
    write(tree, split(path, '/'), leaf_of(id, mode))
}

/// What `load` makes of a tree: where the first `depth` segments of the path
/// lead to a stored subtree, that subtree is opened with the listing's
/// entries.
pub open spec fn loaded(tree: Tree, path: Seq<char>, depth: int, list: Seq<Listed>) -> Option<Tree> {
    if depth > split(path, '/').len() {
        None
    } else {
        match node_at(tree, split(path, '/'), 0, depth) {
            Some(Tree::Stored { .. }) => replace_at(
                tree,
                split(path, '/'),
                0,
                depth,
                listing_tree(list),
            ),
            _ => None,
        }
    }
}

/// What `close` makes of a tree: where the segments lead to a subtree that
/// can be stored, the stored subtree of that id takes its place.
pub open spec fn closed(tree: Tree, path: Seq<Seq<char>>, id: ObjectId) -> Option<Tree> {
    match node_at(tree, path, 0, path.len() as int) {
        Some(node) => if ready(node) {
            replace_at(tree, path, 0, path.len() as int, Tree::Stored { id })
        } else {
            None
        },
        None => None,
    }
}

/// Accumulates writes against the tree of a base commit and gives the
/// commit that records them.
pub struct CommitBuilder {
    root: TreeNode,
    parent: Option<ObjectId>,
}

impl CommitBuilder {
    #[verifier::type_invariant]
    spec fn inv(self) -> bool {
        well_formed(self.root@) && !(self.root@ is Blob)
    }

    /// The tree as it stands.
    pub closed spec fn tree(&self) -> Tree {
        self.root@
    }

    /// The commit that the new commit will have as its parent.
    pub closed spec fn parent(&self) -> Option<ObjectId> {
        self.parent
    }

    /// Starts from the tree of `base`, or from a tree that holds nothing
    /// where there is no base.
    pub fn new(base: Option<Base>) -> (builder: CommitBuilder)
        ensures
            builder.tree() == match base {
                Some(b) => Tree::Stored { id: b.tree },
                None => Tree::Dir { entries: Seq::empty() },
            },
            builder.parent() == match base {
                Some(b) => Some(b.commit),
                None => None,
            },
            well_formed(builder.tree()),
    {
        match base {
            Some(b) => CommitBuilder { root: TreeNode::Stored { id: b.tree }, parent: Some(b.commit) },
            None => CommitBuilder { root: empty_dir(), parent: None },
        }
    }

    /// Writes the object `oid` with `file_mode` at `path`, which names its
    /// segments with `/` between them, as in `a/b.txt`. On an error the
    /// tree stays as it was. The segments are taken as they come, an empty
    /// one too: whether the store takes a name shows when the tree is
    /// stored.
    pub fn add_to_tree(&mut self, path: &str, oid: ObjectId, file_mode: i32) -> (done: Result<
        (),
        BuildError,
    >)
        ensures
            match added(old(self).tree(), path@, oid, file_mode) {
                Ok(tree) => done is Ok && final(self).tree() == tree,
                Err(error) => done == Err::<(), BuildError>(error) && final(self).tree() == old(
                    self,
                ).tree(),
            },
            final(self).parent() == old(self).parent(),
            well_formed(final(self).tree()),
    {
        proof {
            use_type_invariant(&*self);
        }
        let segments = split_from(path, 0, '/');
        assert(path@.skip(0) =~= path@);
        let mut root = TreeNode::Stored { id: oid };
        core::mem::swap(&mut self.root, &mut root);
        let (after, error) = write_node(root, &segments, 0, make_leaf(oid, file_mode));
        self.root = after;
        match error {
            Some(e) => Err(e),
            None => Ok(()),
        }
    }

    /// Opens the stored subtree that the first `depth` segments of `path`
    /// lead to, with the entries that `list` gives for it. Tells whether it
    /// did; if not, the tree stays as it was.
    pub fn load(&mut self, path: &str, depth: usize, list: &Vec<Listed>) -> (opened: bool)
        ensures
            match loaded(old(self).tree(), path@, depth as int, list@) {
                Some(tree) => opened && final(self).tree() == tree,
                None => !opened && final(self).tree() == old(self).tree(),
            },
            final(self).parent() == old(self).parent(),
            well_formed(final(self).tree()),
    {
        proof {
            use_type_invariant(&*self);
        }
        let segments = split_from(path, 0, '/');
        assert(path@.skip(0) =~= path@);
        if depth > segments.len() {
            return false;
        }
        let is_stored = match node_ref(&self.root, &segments, 0, depth) {
            Some(TreeNode::Stored { .. }) => true,
            _ => false,
        };
        if !is_stored {
            return false;
        }
        let fresh = open_listing(list);
        proof {
            lemma_replace_at(self.root@, texts(segments@), 0, depth as int, fresh@);
        }
        let mut root = empty_dir();
        core::mem::swap(&mut self.root, &mut root);
        let after = replace_node(root, &segments, 0, depth, fresh);
        proof {
            lemma_replace_keeps_kind(root@, texts(segments@), 0, depth as int, fresh@);
        }
        self.root = after;
        true
    }

    /// The next subtree to store, as its path and its listing: an open
    /// subtree none of whose children is open. `None` once the whole tree is
    /// stored.
    pub fn next_open(&self) -> (next: Option<(Vec<String>, Vec<Listed>)>)
        ensures
            next is Some == self.tree() is Dir,
            next matches Some((path, list)) ==> lookup(self.tree(), texts(path@)) matches Some(
                Tree::Dir { entries },
            ) && lists(list@, entries) && ready(Tree::Dir { entries }),
    {
        proof {
            use_type_invariant(self);
        }
        if let TreeNode::Dir { .. } = &self.root {
            let mut path: Vec<String> = Vec::new();
            reach_open(&self.root, &mut path);
            match node_ref(&self.root, &path, 0, path.len()) {
                Some(TreeNode::Dir { children }) => {
                    let ghost reached = TreeNode::Dir { children: *children };
                    proof {
                        lemma_view_dir(reached);
                        assert forall|i: int| 0 <= i < children.len() implies !(
                        children[i].node@ is Dir) && well_formed(children[i].node@) by {
                            assert(reached@->entries[i].1 == children[i].node@);
                            lemma_node_at_well_formed(
                                self.root@,
                                texts(path@),
                                0,
                                path.len() as int,
                            );
                        }
                    }
                    Some((path, list_closed(children)))
                },
                _ => None,
            }
        } else {
            None
        }
    }

    /// Records that the subtree at `path` has been stored under `id`. Tells
    /// whether that subtree could be stored; if not, the tree stays as it
    /// was.
    pub fn close(&mut self, path: &Vec<String>, id: ObjectId) -> (stored: bool)
        ensures
            match closed(old(self).tree(), texts(path@), id) {
                Some(tree) => stored && final(self).tree() == tree,
                None => !stored && final(self).tree() == old(self).tree(),
            },
            final(self).parent() == old(self).parent(),
            well_formed(final(self).tree()),
    {
        proof {
            use_type_invariant(&*self);
        }
        let can = match node_ref(&self.root, path, 0, path.len()) {
            Some(TreeNode::Dir { children }) => {
                let none = none_open(children);
                proof {
                    let reached = TreeNode::Dir { children: *children };
                    lemma_view_dir(reached);
                    let entries = reached@->entries;
                    assert forall|i: int| 0 <= i < entries.len() implies (#[trigger] entries[i].1
                        is Dir) == (children[i].node@ is Dir) by {}
                    if !none {
                        let i = choose|i: int|
                            0 <= i < children.len() && children[i].node@ is Dir;
                        assert(entries[i].1 is Dir);
                    }
                }
                none
            },
            _ => false,
        };
        if !can {
            return false;
        }
        let stored = TreeNode::Stored { id };
        proof {
            lemma_replace_at(self.root@, texts(path@), 0, path.len() as int, stored@);
        }
        let mut root = TreeNode::Stored { id };
        core::mem::swap(&mut self.root, &mut root);
        let after = replace_node(root, path, 0, path.len(), stored);
        proof {
            lemma_replace_keeps_kind(root@, texts(path@), 0, path.len() as int, stored@);
        }
        self.root = after;
        true
    }

    /// The commit of the tree, once all of it is stored: its tree id, the
    /// base commit as its only parent, and the signatures and message given.
    /// The builder is used up: nothing can be written after the commit.
    pub fn commit(self, author: &Signature, committer: &Signature, message: &str) -> (made: Result<
        Commit,
        BuildError,
    >)
        ensures
            match self.tree() {
                Tree::Stored { id } => made matches Ok(commit) && commit.tree == id && commit.parent
                    == self.parent() && commit.author.name@ == author.name@ && commit.author.email@
                    == author.email@ && commit.committer.name@ == committer.name@
                    && commit.committer.email@ == committer.email@ && commit.message@ == message@,
                _ => made == Err::<Commit, BuildError>(BuildError::OpenTree),
            },
    {
        match self.root {
            TreeNode::Stored { id } => Ok(
                Commit {
                    tree: id,
                    parent: self.parent,
                    author: Signature { name: author.name.clone(), email: author.email.clone() },
                    committer: Signature {
                        name: committer.name.clone(),
                        email: committer.email.clone(),
                    },
                    message: String::from_str(message),
                },
            ),
            _ => Err(BuildError::OpenTree),
        }
    }
}

/// An open subtree that holds nothing.
fn empty_dir() -> (node: TreeNode)
    ensures
        node@ == (Tree::Dir { entries: Seq::empty() }),
        well_formed(node@),
{
    let node = TreeNode::Dir { children: Vec::new() };
    proof {
        lemma_view_dir(node);
        assert(entries_of(node->children@) =~= Seq::empty());
    }
    node
}

/// Tells whether none of the children is an open subtree.
fn none_open(children: &Vec<Entry>) -> (none: bool)
    ensures
        none == forall|i: int| 0 <= i < children.len() ==> !(children[i].node@ is Dir),
{
    let mut i: usize = 0;
    while i < children.len()
        invariant
            i <= children.len(),
            forall|j: int| 0 <= j < i ==> !(children[j].node@ is Dir),
        decreases children.len() - i,
    {
        if let TreeNode::Dir { .. } = &children[i].node {
            return false;
        }
        i += 1;
    }
    true
}

/// The nodes of a well-formed tree are well-formed.
pub proof fn lemma_node_at_well_formed(tree: Tree, path: Seq<Seq<char>>, from: int, to: int)
    requires
        well_formed(tree),
    ensures
        node_at(tree, path, from, to) matches Some(node) ==> well_formed(node),
    decreases to - from,
{
    if from < to {
        if let Tree::Dir { entries } = tree {
            if let Some(node) = child(entries, path[from]) {
                assert(well_formed(entries[index_of(entries, path[from])].1));
                lemma_node_at_well_formed(node, path, from + 1, to);
            }
        }
    }
}

/// Replacing a node by one that is no file leaves a tree that is no file.
pub proof fn lemma_replace_keeps_kind(tree: Tree, path: Seq<Seq<char>>, from: int, to: int, new: Tree)
    requires
        !(tree is Blob),
        !(new is Blob),
    ensures
        replace_at(tree, path, from, to, new) matches Some(changed) ==> !(changed is Blob),
{
}

/// The node that the segments of `path` from index `from` on lead to, where
/// a stored subtree on the way is read from `store`: the object store as a
/// map from the id of a tree to its entries.
pub open spec fn resolve(
    tree: Tree,
    store: Map<ObjectId, Seq<(Seq<char>, Tree)>>,
    path: Seq<Seq<char>>,
    from: int,
) -> Option<Tree>
    decreases path.len() - from,
{
    if from >= path.len() {
        Some(tree)
    } else {
        match tree {
            Tree::Blob { .. } => None,
            Tree::Dir { entries } => match child(entries, path[from]) {
                Some(node) => resolve(node, store, path, from + 1),
                None => None,
            },
            Tree::Stored { id } => if store.dom().contains(id) {
                match child(store[id], path[from]) {
                    Some(node) => resolve(node, store, path, from + 1),
                    None => None,
                }
            } else {
                None
            },
        }
    }
}

/// The file that the segments of `path` from index `from` on lead to, as
/// its id and mode; `None` where they lead to no file.
pub open spec fn reads(
    tree: Tree,
    store: Map<ObjectId, Seq<(Seq<char>, Tree)>>,
    path: Seq<Seq<char>>,
    from: int,
) -> Option<(ObjectId, i32)> {
    match resolve(tree, store, path, from) {
        Some(Tree::Blob { id, mode }) => Some((id, mode)),
        _ => None,
    }
}

/// Every path leads to the same file from the one node as from the other.
pub open spec fn same_files(one: Tree, other: Tree, store: Map<ObjectId, Seq<(Seq<char>, Tree)>>) -> bool {
    forall|path: Seq<Seq<char>>, from: int| #[trigger]
        reads(one, store, path, from) == reads(other, store, path, from)
}

proof fn lemma_replace_keeps_files(
    tree: Tree,
    path: Seq<Seq<char>>,
    from: int,
    to: int,
    new: Tree,
    store: Map<ObjectId, Seq<(Seq<char>, Tree)>>,
    other: Seq<Seq<char>>,
)
    requires
        well_formed(tree),
        node_at(tree, path, from, to) matches Some(old) && same_files(old, new, store),
    ensures
        replace_at(tree, path, from, to, new) matches Some(after) && reads(after, store, other, from)
            == reads(tree, store, other, from),
    decreases to - from,
{
    if from < to {
        let entries = tree->entries;
        let name = path[from];
        let node = child(entries, name)->Some_0;
        assert(well_formed(entries[index_of(entries, name)].1));
        lemma_replace_keeps_files(node, path, from + 1, to, new, store, other);
        let changed = replace_at(node, path, from + 1, to, new)->Some_0;
        lemma_put(entries, name, changed);
    }
}

/// A stored subtree and the open subtree with its entries hold the same
/// files.
pub proof fn lemma_stored_is_open(
    id: ObjectId,
    entries: Seq<(Seq<char>, Tree)>,
    store: Map<ObjectId, Seq<(Seq<char>, Tree)>>,
)
    requires
        store.dom().contains(id),
        store[id] == entries,
    ensures
        same_files(Tree::Stored { id }, Tree::Dir { entries }, store),
        same_files(Tree::Dir { entries }, Tree::Stored { id }, store),
{
    assert forall|path: Seq<Seq<char>>, from: int| #[trigger]
        reads(Tree::Stored { id }, store, path, from) == reads(
            Tree::Dir { entries },
            store,
            path,
            from,
        ) by {}
}

/// Reading a stored subtree changes no file: where the subtree is opened
/// with the entries that the store holds for it, every path leads to the
/// file that it led to before.
pub proof fn law_load_keeps_files(
    tree: Tree,
    path: Seq<char>,
    depth: int,
    list: Seq<Listed>,
    store: Map<ObjectId, Seq<(Seq<char>, Tree)>>,
    other: Seq<Seq<char>>,
)
    requires
        well_formed(tree),
        loaded(tree, path, depth, list) is Some,
        node_at(tree, split(path, '/'), 0, depth) matches Some(Tree::Stored { id })
            && store.dom().contains(id) && store[id] == listing_entries(list, list.len()),
    ensures
        reads(loaded(tree, path, depth, list)->Some_0, store, other, 0) == reads(tree, store, other, 0),
{
    let segments = split(path, '/');
    let id = node_at(tree, segments, 0, depth)->Some_0->Stored_id;
    lemma_stored_is_open(id, listing_entries(list, list.len()), store);
    lemma_replace_keeps_files(tree, segments, 0, depth, listing_tree(list), store, other);
}

/// Storing a subtree changes no file: where the store holds the entries of
/// the subtree under the id that takes its place, every path leads to the
/// file that it led to before.
pub proof fn law_close_keeps_files(
    tree: Tree,
    path: Seq<Seq<char>>,
    id: ObjectId,
    store: Map<ObjectId, Seq<(Seq<char>, Tree)>>,
    other: Seq<Seq<char>>,
)
    requires
        well_formed(tree),
        closed(tree, path, id) is Some,
        store.dom().contains(id),
        lookup(tree, path) matches Some(Tree::Dir { entries }) && store[id] == entries,
    ensures
        reads(closed(tree, path, id)->Some_0, store, other, 0) == reads(tree, store, other, 0),
{
    let entries = lookup(tree, path)->Some_0->entries;
    lemma_stored_is_open(id, entries, store);
    lemma_replace_keeps_files(tree, path, 0, path.len() as int, Tree::Stored { id }, store, other);
}

proof fn lemma_write_reads(
    tree: Tree,
    path: Seq<Seq<char>>,
    from: int,
    leaf: Tree,
    store: Map<ObjectId, Seq<(Seq<char>, Tree)>>,
)
    requires
        well_formed(tree),
        0 <= from,
        write_from(tree, path, from, leaf) is Ok,
    ensures
        resolve(write_from(tree, path, from, leaf)->Ok_0, store, path, from) == Some(leaf),
    decreases path.len() - from,
{
    if from < path.len() {
        let entries = tree->entries;
        let name = path[from];
        lemma_below_well_formed(entries, name);
        lemma_write_reads(below(entries, name), path, from + 1, leaf, store);
        lemma_put(entries, name, write_from(below(entries, name), path, from + 1, leaf)->Ok_0);
    }
}

proof fn lemma_write_keeps_files(
    tree: Tree,
    path: Seq<Seq<char>>,
    from: int,
    leaf: Tree,
    store: Map<ObjectId, Seq<(Seq<char>, Tree)>>,
    other: Seq<Seq<char>>,
)
    requires
        well_formed(tree),
        0 <= from,
        write_from(tree, path, from, leaf) is Ok,
        diverge(path, other, from),
    ensures
        resolve(write_from(tree, path, from, leaf)->Ok_0, store, other, from) == resolve(
            tree,
            store,
            other,
            from,
        ),
    decreases path.len() - from,
{
    let k = choose|k: int| from <= k < path.len() && k < other.len() && #[trigger] path[k] != other[k];
    let entries = tree->entries;
    let name = path[from];
    let under = below(entries, name);
    let written = write_from(under, path, from + 1, leaf)->Ok_0;
    lemma_put(entries, name, written);
    if other[from] == name {
        assert(k != from);
        assert(diverge(path, other, from + 1));
        lemma_below_well_formed(entries, name);
        lemma_write_keeps_files(under, path, from + 1, leaf, store, other);
        if !holds(entries, name) {
            let none = Seq::<(Seq<char>, Tree)>::empty();
            assert(!holds(none, other[from + 1]));
        }
    }
}

/// A written file is read at its path, whatever the store holds, and the
/// write changes no file at a path that parts from the written one.
pub proof fn law_write_reads(
    tree: Tree,
    path: Seq<Seq<char>>,
    id: ObjectId,
    mode: i32,
    store: Map<ObjectId, Seq<(Seq<char>, Tree)>>,
    other: Seq<Seq<char>>,
)
    requires
        well_formed(tree),
        write(tree, path, Tree::Blob { id, mode }) is Ok,
    ensures
        reads(write(tree, path, Tree::Blob { id, mode })->Ok_0, store, path, 0) == Some((id, mode)),
        diverge(path, other, 0) ==> reads(
            write(tree, path, Tree::Blob { id, mode })->Ok_0,
            store,
            other,
            0,
        ) == reads(tree, store, other, 0),
{
    lemma_write_reads(tree, path, 0, Tree::Blob { id, mode }, store);
    if diverge(path, other, 0) {
        lemma_write_keeps_files(tree, path, 0, Tree::Blob { id, mode }, store, other);
    }
}

/// What a store holds stays readable when the store grows: a file that a
/// path leads to is still the file that it leads to in a store that holds
/// all that the first holds.
pub proof fn law_store_grows(
    tree: Tree,
    store: Map<ObjectId, Seq<(Seq<char>, Tree)>>,
    larger: Map<ObjectId, Seq<(Seq<char>, Tree)>>,
    path: Seq<Seq<char>>,
    from: int,
)
    requires
        forall|id: ObjectId| #[trigger]
            store.dom().contains(id) ==> larger.dom().contains(id) && larger[id] == store[id],
        reads(tree, store, path, from) is Some,
    ensures
        reads(tree, larger, path, from) == reads(tree, store, path, from),
    decreases path.len() - from,
{
    if from < path.len() {
        match tree {
            Tree::Dir { entries } => {
                law_store_grows(child(entries, path[from])->Some_0, store, larger, path, from + 1);
            },
            Tree::Stored { id } => {
                law_store_grows(child(store[id], path[from])->Some_0, store, larger, path, from + 1);
            },
            Tree::Blob { .. } => {},
        }
    }
}

/// The depth at which a write is held up, where it is.
pub open spec fn held_at(outcome: Result<Tree, BuildError>) -> Option<usize> {
    match outcome {
        Err(BuildError::PathCollision { depth }) => Some(depth),
        Err(BuildError::Unread { depth, .. }) => Some(depth),
        _ => None,
    }
}

proof fn lemma_open_way(tree: Tree, path: Seq<Seq<char>>, from: int, to: int, leaf: Tree)
    requires
        0 <= from <= to,
        path.len() <= usize::MAX,
        node_at(tree, path, from, to) matches Some(node) && node is Dir,
    ensures
        held_at(write_from(tree, path, from, leaf)) matches Some(depth) ==> depth > to,
    decreases path.len() - from,
{
    if from < path.len() {
        let entries = tree->entries;
        if from < to {
            lemma_open_way(child(entries, path[from])->Some_0, path, from + 1, to, leaf);
        } else {
            lemma_held_below(below(entries, path[from]), path, from + 1, leaf);
        }
    }
}

proof fn lemma_held_below(tree: Tree, path: Seq<Seq<char>>, from: int, leaf: Tree)
    requires
        0 <= from,
        path.len() <= usize::MAX,
    ensures
        held_at(write_from(tree, path, from, leaf)) matches Some(depth) ==> depth >= from,
    decreases path.len() - from,
{
    if from < path.len() {
        if let Tree::Dir { entries } = tree {
            lemma_held_below(below(entries, path[from]), path, from + 1, leaf);
        }
    }
}

/// Reading makes way: after the subtree at a depth of the path was opened,
/// a write to that path is held up, if at all, further down.
pub proof fn law_load_makes_way(
    tree: Tree,
    path: Seq<char>,
    depth: usize,
    list: Seq<Listed>,
    id: ObjectId,
    mode: i32,
)
    requires
        well_formed(tree),
        loaded(tree, path, depth as int, list) is Some,
        split(path, '/').len() <= usize::MAX,
    ensures
        held_at(added(loaded(tree, path, depth as int, list)->Some_0, path, id, mode)) matches Some(
            later,
        ) ==> later > depth,
{
    let segments = split(path, '/');
    let fresh = listing_tree(list);
    lemma_listing_well_formed(list, list.len());
    lemma_replace_at(tree, segments, 0, depth as int, fresh);
    lemma_open_way(
        loaded(tree, path, depth as int, list)->Some_0,
        segments,
        0,
        depth as int,
        leaf_of(id, mode),
    );
}

/// The entries of a listing have distinct names and hold no open subtree.
pub proof fn lemma_listing_well_formed(list: Seq<Listed>, count: nat)
    ensures
        well_formed(Tree::Dir { entries: listing_entries(list, count) }),
    decreases count,
{
    if count > 0 && count <= list.len() {
        lemma_listing_well_formed(list, (count - 1) as nat);
        let before = listing_entries(list, (count - 1) as nat);
        let node = leaf_of(list[count - 1].id, list[count - 1].mode);
        lemma_put(before, list[count - 1].name@, node);
        let after = put(before, list[count - 1].name@, node);
        assert forall|i: int| 0 <= i < after.len() implies well_formed(#[trigger] after[i].1) by {
            if after[i].1 != node {
                assert(after[i] == before[i]);
            }
        }
    }
}

/// How many open subtrees a tree holds, itself included.
pub open spec fn open_count(tree: Tree) -> nat
    decreases tree, 0nat,
{
    match tree {
        Tree::Dir { entries } => 1 + open_below(entries, entries.len()),
        _ => 0,
    }
}

/// How many open subtrees the first `count` entries hold.
pub open spec fn open_below(entries: Seq<(Seq<char>, Tree)>, count: nat) -> nat
    decreases entries, count,
{
    if count == 0 || count > entries.len() {
        0
    } else {
        open_below(entries, (count - 1) as nat) + open_count(entries[count - 1].1)
    }
}

proof fn lemma_open_below_update(entries: Seq<(Seq<char>, Tree)>, at: int, entry: (Seq<char>, Tree), count: nat)
    requires
        0 <= at < entries.len(),
        count <= entries.len(),
    ensures
        open_below(entries.update(at, entry), count) + (if at < count {
            open_count(entries[at].1)
        } else {
            0
        }) == open_below(entries, count) + (if at < count {
            open_count(entry.1)
        } else {
            0
        }),
    decreases count,
{
    if count > 0 {
        lemma_open_below_update(entries, at, entry, (count - 1) as nat);
    }
}

proof fn lemma_ready_counts_one(tree: Tree)
    requires
        ready(tree),
    ensures
        open_count(tree) == 1,
{
    lemma_none_open_below(tree->entries, tree->entries.len());
}

proof fn lemma_none_open_below(entries: Seq<(Seq<char>, Tree)>, count: nat)
    requires
        forall|i: int| 0 <= i < entries.len() ==> !(#[trigger] entries[i].1 is Dir),
    ensures
        open_below(entries, count) == 0,
    decreases count,
{
    if count > 0 && count <= entries.len() {
        lemma_none_open_below(entries, (count - 1) as nat);
        assert(!(entries[count - 1].1 is Dir));
        assert(open_count(entries[count - 1].1) == 0);
    }
}

proof fn lemma_replace_counts(tree: Tree, path: Seq<Seq<char>>, from: int, to: int, new: Tree)
    requires
        well_formed(tree),
        node_at(tree, path, from, to) is Some,
    ensures
        replace_at(tree, path, from, to, new) matches Some(after) && open_count(after) + open_count(
            node_at(tree, path, from, to)->Some_0,
        ) == open_count(tree) + open_count(new),
    decreases to - from,
{
    if from < to {
        let entries = tree->entries;
        let name = path[from];
        let at = index_of(entries, name);
        let node = entries[at].1;
        assert(well_formed(node));
        lemma_replace_counts(node, path, from + 1, to, new);
        let changed = replace_at(node, path, from + 1, to, new)->Some_0;
        lemma_open_below_update(entries, at, (name, changed), entries.len());
    }
}

/// Storing goes on to an end: each subtree that is stored leaves one open
/// subtree less.
pub proof fn law_close_shrinks(tree: Tree, path: Seq<Seq<char>>, id: ObjectId)
    requires
        well_formed(tree),
        closed(tree, path, id) is Some,
    ensures
        open_count(closed(tree, path, id)->Some_0) + 1 == open_count(tree),
{
    lemma_ready_counts_one(lookup(tree, path)->Some_0);
    lemma_replace_counts(tree, path, 0, path.len() as int, Tree::Stored { id });
}

/// Two writes to paths that part from each other are both found: the
/// second leaves what the first has written.
pub proof fn law_both_writes_found(
    tree: Tree,
    first: Seq<Seq<char>>,
    one: Tree,
    second: Seq<Seq<char>>,
    other: Tree,
)
    requires
        well_formed(tree),
        well_formed(one),
        write(tree, first, one) matches Ok(between) && write(between, second, other) is Ok,
        diverge(second, first, 0),
    ensures
        lookup(write(write(tree, first, one)->Ok_0, second, other)->Ok_0, first) == Some(one),
        lookup(write(write(tree, first, one)->Ok_0, second, other)->Ok_0, second) == Some(other),
{
    let between = write(tree, first, one)->Ok_0;
    lemma_write_well_formed(tree, first, 0, one);
    law_written_is_found(tree, first, one);
    law_written_is_found(between, second, other);
    law_other_paths_kept(between, second, other, first);
}

/// Two trees hold the same files: every path leads to the same file in the
/// one as in the other, where stored subtrees are read from `store`.
pub open spec fn holds_same(one: Tree, other: Tree, store: Map<ObjectId, Seq<(Seq<char>, Tree)>>) -> bool {
    forall|path: Seq<Seq<char>>| #[trigger] reads(one, store, path, 0) == reads(other, store, path, 0)
}

/// A tree in which a stored subtree was read holds the same files as
/// before, where the subtree was opened with the entries that the store
/// holds for it.
pub proof fn law_load_holds_same(
    tree: Tree,
    path: Seq<char>,
    depth: int,
    list: Seq<Listed>,
    store: Map<ObjectId, Seq<(Seq<char>, Tree)>>,
)
    requires
        well_formed(tree),
        loaded(tree, path, depth, list) is Some,
        node_at(tree, split(path, '/'), 0, depth) matches Some(Tree::Stored { id })
            && store.dom().contains(id) && store[id] == listing_entries(list, list.len()),
    ensures
        holds_same(loaded(tree, path, depth, list)->Some_0, tree, store),
{
    assert forall|other: Seq<Seq<char>>| #[trigger]
        reads(loaded(tree, path, depth, list)->Some_0, store, other, 0) == reads(
            tree,
            store,
            other,
            0,
        ) by {
        law_load_keeps_files(tree, path, depth, list, store, other);
    }
}

/// A tree in which a subtree was stored holds the same files as before,
/// where the store holds the entries of the subtree under its id.
pub proof fn law_close_holds_same(
    tree: Tree,
    path: Seq<Seq<char>>,
    id: ObjectId,
    store: Map<ObjectId, Seq<(Seq<char>, Tree)>>,
)
    requires
        well_formed(tree),
        closed(tree, path, id) is Some,
        store.dom().contains(id),
        lookup(tree, path) matches Some(Tree::Dir { entries }) && store[id] == entries,
    ensures
        holds_same(closed(tree, path, id)->Some_0, tree, store),
{
    assert forall|other: Seq<Seq<char>>| #[trigger]
        reads(closed(tree, path, id)->Some_0, store, other, 0) == reads(tree, store, other, 0) by {
        law_close_keeps_files(tree, path, id, store, other);
    }
}

/// A chain of two commits resolves the files of both. The first commit
/// writes a file at `first` on `base`. The second starts from a tree
/// `second_base` that holds the same files as the tree of the first commit,
/// such as its stored tree, read as far as needed, and writes a file at
/// `second`. Any tree `last` that holds the same files as the result, such
/// as the stored tree of the second commit, leads at `second` to the file of
/// the second commit and, where the two paths part, at `first` to the file
/// of the first.
pub proof fn law_chain_resolves_both(
    base: Tree,
    first: Seq<Seq<char>>,
    one: (ObjectId, i32),
    second_base: Tree,
    second: Seq<Seq<char>>,
    other: (ObjectId, i32),
    last: Tree,
    store: Map<ObjectId, Seq<(Seq<char>, Tree)>>,
)
    requires
        well_formed(base),
        well_formed(second_base),
        write(base, first, Tree::Blob { id: one.0, mode: one.1 }) matches Ok(between) && holds_same(
            second_base,
            between,
            store,
        ),
        write(second_base, second, Tree::Blob { id: other.0, mode: other.1 }) matches Ok(after)
            && holds_same(last, after, store),
    ensures
        reads(last, store, second, 0) == Some(other),
        diverge(second, first, 0) ==> reads(last, store, first, 0) == Some(one),
{
    let file = Tree::Blob { id: one.0, mode: one.1 };
    let later = Tree::Blob { id: other.0, mode: other.1 };
    let between = write(base, first, file)->Ok_0;
    let after = write(second_base, second, later)->Ok_0;
    law_write_reads(base, first, one.0, one.1, store, first);
    law_write_reads(second_base, second, other.0, other.1, store, first);
    assert(reads(last, store, second, 0) == reads(after, store, second, 0));
    if diverge(second, first, 0) {
        assert(reads(last, store, first, 0) == reads(after, store, first, 0));
        assert(reads(second_base, store, first, 0) == reads(between, store, first, 0));
    }
}

/// A tree that holds nothing takes every path: a write to `a/b.txt` makes
/// the subtree `a` on its way.
pub proof fn law_empty_tree_takes_every_path(path: Seq<char>, id: ObjectId, mode: i32)
    ensures
        added(Tree::Dir { entries: Seq::empty() }, path, id, mode) is Ok,
{
    lemma_write_fresh(split(path, '/'), 0, leaf_of(id, mode));
}

/// Of two writes to one path the later wins: after `a/b.txt` was written
/// with a first object, a second write to `a/b.txt` succeeds, and the path
/// then leads to the second object, as if the first write had not been.
pub proof fn law_later_add_wins(
    tree: Tree,
    path: Seq<char>,
    first: (ObjectId, i32),
    second: (ObjectId, i32),
)
    requires
        well_formed(tree),
        added(tree, path, first.0, first.1) is Ok,
    ensures
        added(added(tree, path, first.0, first.1)->Ok_0, path, second.0, second.1) is Ok,
        added(added(tree, path, first.0, first.1)->Ok_0, path, second.0, second.1) == added(
            tree,
            path,
            second.0,
            second.1,
        ),
        lookup(
            added(added(tree, path, first.0, first.1)->Ok_0, path, second.0, second.1)->Ok_0,
            split(path, '/'),
        ) == Some(leaf_of(second.0, second.1)),
{
    law_last_write_wins(
        tree,
        split(path, '/'),
        leaf_of(first.0, first.1),
        leaf_of(second.0, second.1),
    );
}

/// A file on the way blocks a write: where the first `depth` segments of
/// the path lead to a file and the path goes on, as `a/b.txt` does where
/// `a` is a file, the write fails with `PathCollision` at that depth. The
/// tree stays as it was, as `add_to_tree` states.
pub proof fn law_file_blocks_add(tree: Tree, path: Seq<char>, id: ObjectId, mode: i32, depth: usize)
    requires
        depth < split(path, '/').len(),
        node_at(tree, split(path, '/'), 0, depth as int) matches Some(node) && node is Blob,
    ensures
        added(tree, path, id, mode) == Err::<Tree, BuildError>(BuildError::PathCollision { depth }),
{
    law_file_blocks_path(tree, split(path, '/'), leaf_of(id, mode), depth);
}

} // verus!
