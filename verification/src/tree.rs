//! The nodes that the scans of one tree fill together.
//!
//! A scan that runs as a task of its own ends after the scan that started
//! it, and still its directory has to show below the directory it was found
//! in. So the nodes of a tree are kept in one place, a [`DirectoryTree`], and
//! a scan holds a [`DirectoryHandle`] to each node it works on. A handle is
//! copied freely: what is added through one copy shows through every other,
//! and in every snapshot of a node above.

use vstd::prelude::*;
use crate::directory::{
    lemma_flatten_holds, lemma_push_idempotent, lemma_push_keeps_well_formed,
    lemma_push_only_adds, Directory, DirectoryView,
};
use crate::file::FileView;

verus! {

/// One node of a tree as mathematics sees it.
pub struct TreeNodeView {
    /// The directory with the files found in it. It has no sub-directories
    /// of its own.
    pub own: DirectoryView,
    /// The places of the nodes attached to it, in the order in which they
    /// came.
    pub attached: Seq<int>,
}

/// A tree as mathematics sees it: its nodes, in the order in which they were
/// made.
pub struct TreeView {
    pub nodes: Seq<TreeNodeView>,
}

impl TreeView {
    /// A tree without nodes.
    pub open spec fn empty() -> TreeView {
        TreeView { nodes: Seq::empty() }
    }

    /// The tree has a node at `node`.
    pub open spec fn holds(self, node: int) -> bool {
        0 <= node < self.nodes.len()
    }

    /// The node at `node` has a node of the path `path` attached.
    pub open spec fn has_attached(self, node: int, path: Seq<char>) -> bool {
        exists|k: int|
            0 <= k < self.nodes[node].attached.len() && self.nodes[
                #[trigger] self.nodes[node].attached[k]].own.path == path
    }

    /// `rank` puts every node above the nodes attached to it.
    pub open spec fn ranked_by(self, rank: spec_fn(int) -> nat) -> bool {
        forall|node: int, k: int|
            0 <= node < self.nodes.len() && 0 <= k < self.nodes[node].attached.len() ==> rank(
                #[trigger] self.nodes[node].attached[k],
            ) < rank(node)
    }

    /// No node lies below itself: the nodes can be ranked so that every node
    /// stands above the nodes attached to it.
    pub open spec fn acyclic(self) -> bool {
        exists|rank: spec_fn(int) -> nat| self.ranked_by(rank)
    }

    /// The rank of the node at `node` in one such ranking.
    pub open spec fn rank_of(self, node: int) -> nat {
        (choose|rank: spec_fn(int) -> nat| self.ranked_by(rank))(node)
    }

    /// What holds of the node at `node`: its directory holds no file twice
    /// and has no sub-directories of its own, the nodes attached to it are
    /// nodes of the tree, and no two of them have the same path.
    pub open spec fn node_well_formed(self, node: int) -> bool {
        &&& self.nodes[node].own.well_formed()
        &&& self.nodes[node].own.sub_directories.len() == 0
        &&& forall|k: int|
            0 <= k < self.nodes[node].attached.len() ==> 0
                <= #[trigger] self.nodes[node].attached[k] < self.nodes.len()
        &&& forall|j: int, k: int|
            0 <= j < k < self.nodes[node].attached.len() ==> self.nodes[
            #[trigger] self.nodes[node].attached[j]].own.path != self.nodes[
            #[trigger] self.nodes[node].attached[k]].own.path
    }

    /// What holds of every tree: each of its nodes is well-formed, and no
    /// node lies below itself.
    pub open spec fn well_formed(self) -> bool {
        &&& forall|node: int|
            #![trigger self.node_well_formed(node)]
            #![trigger self.nodes[node]]
            0 <= node < self.nodes.len() ==> self.node_well_formed(node)
        &&& self.acyclic()
    }

    /// The node at `to` is the node at `from` or lies below it.
    pub open spec fn reaches(self, from: int, to: int) -> bool
        decreases self.rank_of(from),
    {
        from == to || (self.holds(from) && exists|k: int|
            0 <= k < self.nodes[from].attached.len() && self.rank_of(
                #[trigger] self.nodes[from].attached[k],
            ) < self.rank_of(from) && self.reaches(self.nodes[from].attached[k], to))
    }

    /// The tree after a node for the directory at `path` was added.
    pub open spec fn added(self, path: Seq<char>) -> TreeView {
        TreeView {
            nodes: self.nodes.push(
                TreeNodeView { own: DirectoryView::empty(path), attached: Seq::empty() },
            ),
        }
    }

    /// The tree after the file called `name` was pushed onto the node at
    /// `node`.
    pub open spec fn pushed(self, node: int, name: Seq<char>) -> TreeView {
        TreeView {
            nodes: self.nodes.update(
                node,
                TreeNodeView { own: self.nodes[node].own.push(name), ..self.nodes[node] },
            ),
        }
    }

    /// The tree after the node at `other` was attached to the node at
    /// `node`: it comes last among the attached nodes, unless one of its path
    /// was attached already.
    pub open spec fn extended(self, node: int, other: int) -> TreeView {
        if self.has_attached(node, self.nodes[other].own.path) {
            self
        } else {
            TreeView {
                nodes: self.nodes.update(
                    node,
                    TreeNodeView {
                        attached: self.nodes[node].attached.push(other),
                        ..self.nodes[node]
                    },
                ),
            }
        }
    }

    /// The directory at `node` with what lies below the first `count` of its
    /// attached nodes.
    pub open spec fn snapshot_upto(self, node: int, count: int) -> DirectoryView
        decreases self.rank_of(node), count,
    {
        if !self.holds(node) {
            arbitrary()
        } else if count <= 0 {
            self.nodes[node].own
        } else {
            let before = self.snapshot_upto(node, count - 1);
            let child = self.nodes[node].attached[count - 1];
            if self.holds(child) && self.rank_of(child) < self.rank_of(node) {
                before.extend(self.snapshot_of(child))
            } else {
                before
            }
        }
    }

    /// The directory at `node` with all that lies below it, as it is now.
    pub open spec fn snapshot_of(self, node: int) -> DirectoryView
        decreases self.rank_of(node), self.nodes[node].attached.len() + 1,
    {
        if !self.holds(node) {
            arbitrary()
        } else {
            self.snapshot_upto(node, self.nodes[node].attached.len() as int)
        }
    }
}

/// In a tree of which no node lies below itself, every node ranks above the
/// nodes attached to it.
pub proof fn lemma_rank_falls(tree: TreeView)
    requires
        tree.acyclic(),
    ensures
        forall|node: int, k: int|
            0 <= node < tree.nodes.len() && 0 <= k < tree.nodes[node].attached.len()
                ==> tree.rank_of(#[trigger] tree.nodes[node].attached[k]) < tree.rank_of(node),
{
    let rank = choose|rank: spec_fn(int) -> nat| tree.ranked_by(rank);
}

/// What it is to lie below a node, in a tree of which no node lies below
/// itself: to be the node, or to lie below a node attached to it.
pub proof fn lemma_reaches_step_by_step(tree: TreeView, from: int, to: int)
    requires
        tree.acyclic(),
        tree.holds(from),
    ensures
        tree.reaches(from, to) <==> from == to || exists|k: int|
            0 <= k < tree.nodes[from].attached.len() && tree.reaches(
                #[trigger] tree.nodes[from].attached[k],
                to,
            ),
{
    lemma_rank_falls(tree);
}

/// A node ranks no higher than a node that it lies below.
pub proof fn lemma_reached_ranks_below(tree: TreeView, from: int, to: int)
    requires
        tree.reaches(from, to),
    ensures
        tree.rank_of(to) <= tree.rank_of(from),
    decreases tree.rank_of(from),
{
    if from != to {
        let k = choose|k: int|
            0 <= k < tree.nodes[from].attached.len() && tree.rank_of(
                #[trigger] tree.nodes[from].attached[k],
            ) < tree.rank_of(from) && tree.reaches(tree.nodes[from].attached[k], to);
        lemma_reached_ranks_below(tree, tree.nodes[from].attached[k], to);
    }
}

/// What lies below a node of a well-formed tree is a node of the tree.
pub proof fn lemma_reached_is_held(tree: TreeView, from: int, to: int)
    requires
        tree.well_formed(),
        tree.holds(from),
        tree.reaches(from, to),
    ensures
        tree.holds(to),
    decreases tree.rank_of(from),
{
    if from != to {
        let k = choose|k: int|
            0 <= k < tree.nodes[from].attached.len() && tree.rank_of(
                #[trigger] tree.nodes[from].attached[k],
            ) < tree.rank_of(from) && tree.reaches(tree.nodes[from].attached[k], to);
        lemma_reached_is_held(tree, tree.nodes[from].attached[k], to);
    }
}

/// What lies below a node that is attached lies below the node it is
/// attached to.
pub proof fn lemma_reaches_through_attached(tree: TreeView, node: int, k: int, to: int)
    requires
        tree.acyclic(),
        tree.holds(node),
        0 <= k < tree.nodes[node].attached.len(),
        tree.reaches(tree.nodes[node].attached[k], to),
    ensures
        tree.reaches(node, to),
{
    lemma_rank_falls(tree);
}

/// No node lies below a node that is attached to it.
pub proof fn lemma_attached_does_not_reach_back(tree: TreeView, node: int, k: int)
    requires
        tree.acyclic(),
        tree.holds(node),
        0 <= k < tree.nodes[node].attached.len(),
    ensures
        !tree.reaches(tree.nodes[node].attached[k], node),
{
    lemma_rank_falls(tree);
    if tree.reaches(tree.nodes[node].attached[k], node) {
        lemma_reached_ranks_below(tree, tree.nodes[node].attached[k], node);
    }
}

/// Whether a node lies below another does not depend on the ranking: two
/// trees of which no node lies below itself, with the same nodes attached to
/// each node, agree on it.
pub proof fn lemma_reaches_by_attached_alone(one: TreeView, other: TreeView, from: int, to: int)
    requires
        one.acyclic(),
        other.acyclic(),
        one.nodes.len() == other.nodes.len(),
        forall|i: int|
            0 <= i < one.nodes.len() ==> (#[trigger] one.nodes[i]).attached
                == other.nodes[i].attached,
        one.reaches(from, to),
    ensures
        other.reaches(from, to),
    decreases one.rank_of(from),
{
    lemma_rank_falls(other);
    if from != to {
        let k = choose|k: int|
            0 <= k < one.nodes[from].attached.len() && one.rank_of(
                #[trigger] one.nodes[from].attached[k],
            ) < one.rank_of(from) && one.reaches(one.nodes[from].attached[k], to);
        lemma_reaches_by_attached_alone(one, other, one.nodes[from].attached[k], to);
    }
}

/// Lying below is handed on: what lies below a node lies below every node
/// that this node lies below.
pub proof fn lemma_reaches_onward(tree: TreeView, from: int, by: int, to: int)
    requires
        tree.acyclic(),
        tree.reaches(from, by),
        tree.reaches(by, to),
    ensures
        tree.reaches(from, to),
    decreases tree.rank_of(from),
{
    if from != by {
        let k = choose|k: int|
            0 <= k < tree.nodes[from].attached.len() && tree.rank_of(
                #[trigger] tree.nodes[from].attached[k],
            ) < tree.rank_of(from) && tree.reaches(tree.nodes[from].attached[k], by);
        lemma_reaches_onward(tree, tree.nodes[from].attached[k], by, to);
    }
}

/// `later` is `earlier` with nodes added and nodes attached: every node of
/// `earlier` is there with its directory's path, and has attached what it
/// had, in the same places.
pub open spec fn grown_from(later: TreeView, earlier: TreeView) -> bool {
    &&& earlier.nodes.len() <= later.nodes.len()
    &&& forall|node: int|
        0 <= node < earlier.nodes.len() ==> (#[trigger] earlier.nodes[node]).own.path
            == later.nodes[node].own.path
    &&& forall|node: int|
        0 <= node < earlier.nodes.len() ==> (#[trigger] earlier.nodes[node]).attached.is_prefix_of(
            later.nodes[node].attached,
        )
}

/// What lies below a node goes on lying below it when nodes are added and
/// attached.
pub proof fn lemma_reaches_in_grown(earlier: TreeView, later: TreeView, from: int, to: int)
    requires
        earlier.acyclic(),
        later.acyclic(),
        grown_from(later, earlier),
        earlier.reaches(from, to),
    ensures
        later.reaches(from, to),
    decreases earlier.rank_of(from),
{
    lemma_rank_falls(later);
    if from != to {
        let k = choose|k: int|
            0 <= k < earlier.nodes[from].attached.len() && earlier.rank_of(
                #[trigger] earlier.nodes[from].attached[k],
            ) < earlier.rank_of(from) && earlier.reaches(earlier.nodes[from].attached[k], to);
        lemma_reaches_in_grown(earlier, later, earlier.nodes[from].attached[k], to);
    }
}

/// From the node at `first` on, the nodes of `tree` have only such nodes
/// attached.
pub open spec fn closed_from(tree: TreeView, first: int) -> bool {
    forall|node: int, k: int|
        first <= node < tree.nodes.len() && 0 <= k < tree.nodes[node].attached.len() ==> first
            <= #[trigger] tree.nodes[node].attached[k]
}

/// Where the nodes from `first` on have only such nodes attached, only such
/// nodes lie below them.
pub proof fn lemma_reaches_stays_in(tree: TreeView, first: int, from: int, to: int)
    requires
        closed_from(tree, first),
        first <= from,
        tree.reaches(from, to),
    ensures
        first <= to,
    decreases tree.rank_of(from),
{
    if from != to {
        let k = choose|k: int|
            0 <= k < tree.nodes[from].attached.len() && tree.rank_of(
                #[trigger] tree.nodes[from].attached[k],
            ) < tree.rank_of(from) && tree.reaches(tree.nodes[from].attached[k], to);
        lemma_reaches_stays_in(tree, first, tree.nodes[from].attached[k], to);
    }
}

/// The tree without nodes is well-formed.
pub proof fn lemma_empty_well_formed()
    ensures
        TreeView::empty().well_formed(),
{
    let rank = |node: int| 0nat;
    assert(TreeView::empty().ranked_by(rank));
}

/// A well-formed tree stays so when a node is added.
pub proof fn lemma_added_well_formed(tree: TreeView, path: Seq<char>)
    requires
        tree.well_formed(),
    ensures
        tree.added(path).well_formed(),
{
    let after = tree.added(path);
    assert forall|node: int|
        0 <= node < after.nodes.len() implies #[trigger] after.node_well_formed(node) by {}
    let rank = choose|rank: spec_fn(int) -> nat| tree.ranked_by(rank);
    assert(after.ranked_by(rank)) by {
        assert forall|node: int, k: int|
            0 <= node < after.nodes.len() && 0 <= k < after.nodes[node].attached.len() implies rank(
            #[trigger] after.nodes[node].attached[k],
        ) < rank(node) by {}
    }
}

/// A well-formed tree stays so when a file is pushed onto one of its nodes.
pub proof fn lemma_pushed_well_formed(tree: TreeView, node: int, name: Seq<char>)
    requires
        tree.well_formed(),
        tree.holds(node),
    ensures
        tree.pushed(node, name).well_formed(),
{
    let after = tree.pushed(node, name);
    lemma_push_keeps_well_formed(tree.nodes[node].own, name);
    lemma_push_only_adds(tree.nodes[node].own, name, Seq::empty());
    assert forall|n: int| 0 <= n < after.nodes.len() implies #[trigger] after.node_well_formed(
        n,
    ) by {}
    let rank = choose|rank: spec_fn(int) -> nat| tree.ranked_by(rank);
    assert(after.ranked_by(rank)) by {
        assert forall|n: int, k: int|
            0 <= n < after.nodes.len() && 0 <= k < after.nodes[n].attached.len() implies rank(
            #[trigger] after.nodes[n].attached[k],
        ) < rank(n) by {}
    }
}

/// A well-formed tree stays so when a node is attached to a node that does
/// not lie below it.
pub proof fn lemma_extended_well_formed(tree: TreeView, node: int, other: int)
    requires
        tree.well_formed(),
        tree.holds(node),
        tree.holds(other),
        !tree.reaches(other, node),
    ensures
        tree.extended(node, other).well_formed(),
{
    let after = tree.extended(node, other);
    if !tree.has_attached(node, tree.nodes[other].own.path) {
        assert forall|n: int| 0 <= n < after.nodes.len() implies #[trigger] after.node_well_formed(
            n,
        ) by {}
        // The nodes that `node` lies below, and `node` itself, move up past
        // `other`; all others keep their ranks.
        lemma_rank_falls(tree);
        let lift = tree.rank_of(other) + 1;
        let rank = |n: int|
            if tree.reaches(n, node) {
                tree.rank_of(n) + lift
            } else {
                tree.rank_of(n)
            };
        assert(after.ranked_by(rank)) by {
            assert forall|n: int, k: int|
                0 <= n < after.nodes.len() && 0 <= k < after.nodes[n].attached.len() implies rank(
                #[trigger] after.nodes[n].attached[k],
            ) < rank(n) by {
                let child = after.nodes[n].attached[k];
                let added = n == node && k == tree.nodes[node].attached.len();
                if !added && tree.reaches(child, node) {
                    lemma_reaches_through_attached(tree, n, k, node);
                }
            }
        }
    }
}

/// Pushing a file onto a node a second time changes nothing, under the same
/// name or under another that leads to the same path.
pub proof fn lemma_pushed_idempotent(tree: TreeView, node: int, name: Seq<char>, again: Seq<char>)
    requires
        tree.holds(node),
        FileView::located(again, tree.nodes[node].own.path).path() == FileView::located(
            name,
            tree.nodes[node].own.path,
        ).path(),
    ensures
        tree.pushed(node, name).pushed(node, again) == tree.pushed(node, name),
{
    lemma_push_idempotent(tree.nodes[node].own, name, again);
    lemma_push_only_adds(tree.nodes[node].own, name, Seq::empty());
    assert(tree.pushed(node, name).pushed(node, again).nodes =~= tree.pushed(node, name).nodes);
}

/// Attaching a node a second time changes nothing, nor does attaching
/// another node of the same path.
pub proof fn lemma_extended_idempotent(tree: TreeView, node: int, other: int, again: int)
    requires
        tree.holds(node),
        tree.holds(other),
        tree.holds(again),
        tree.nodes[again].own.path == tree.nodes[other].own.path,
    ensures
        tree.extended(node, other).extended(node, again) == tree.extended(node, other),
{
    let once = tree.extended(node, other);
    let path = tree.nodes[other].own.path;
    if !tree.has_attached(node, path) {
        let last = tree.nodes[node].attached.len() as int;
        assert(once.nodes[once.nodes[node].attached[last]].own.path == path);
    }
}

/// What a snapshot is made of: the path and the files of the node itself,
/// and for each attached node, in their order, the snapshot of that node.
pub proof fn lemma_snapshot_parts(tree: TreeView, node: int, count: int)
    requires
        tree.well_formed(),
        tree.holds(node),
        0 <= count <= tree.nodes[node].attached.len(),
    ensures
        tree.snapshot_upto(node, count).path == tree.nodes[node].own.path,
        tree.snapshot_upto(node, count).files == tree.nodes[node].own.files,
        tree.snapshot_upto(node, count).sub_directories.len() == count,
        forall|k: int|
            0 <= k < count ==> #[trigger] tree.snapshot_upto(node, count).sub_directories[k]
                == tree.snapshot_of(tree.nodes[node].attached[k]),
        forall|k: int|
            0 <= k < count ==> (#[trigger] tree.snapshot_upto(node, count).sub_directories[k]).path
                == tree.nodes[tree.nodes[node].attached[k]].own.path,
    decreases tree.rank_of(node), count,
{
    if count > 0 {
        lemma_rank_falls(tree);
        let attached = tree.nodes[node].attached;
        let before = tree.snapshot_upto(node, count - 1);
        let child = attached[count - 1];
        lemma_snapshot_parts(tree, node, count - 1);
        lemma_snapshot_parts(tree, child, tree.nodes[child].attached.len() as int);
        assert(!before.holds_directory(tree.snapshot_of(child).path));
    }
}

/// A snapshot of a node depends on that node and the nodes below it only:
/// two trees that agree on them give the same snapshot.
pub proof fn lemma_snapshot_looks_below(one: TreeView, other: TreeView, node: int)
    requires
        one.well_formed(),
        other.well_formed(),
        one.nodes.len() == other.nodes.len(),
        one.holds(node),
        forall|to: int| #[trigger] one.reaches(node, to) ==> one.nodes[to] == other.nodes[to],
    ensures
        one.snapshot_of(node) == other.snapshot_of(node),
    decreases one.rank_of(node), one.nodes[node].attached.len() + 1,
{
    assert(one.reaches(node, node));
    lemma_snapshot_upto_looks_below(one, other, node, one.nodes[node].attached.len() as int);
}

/// The same for a node with the first `count` of its attached nodes.
pub proof fn lemma_snapshot_upto_looks_below(
    one: TreeView,
    other: TreeView,
    node: int,
    count: int,
)
    requires
        one.well_formed(),
        other.well_formed(),
        one.nodes.len() == other.nodes.len(),
        one.holds(node),
        forall|to: int| #[trigger] one.reaches(node, to) ==> one.nodes[to] == other.nodes[to],
        count <= one.nodes[node].attached.len(),
    ensures
        one.snapshot_upto(node, count) == other.snapshot_upto(node, count),
    decreases one.rank_of(node), count,
{
    assert(one.reaches(node, node));
    if count > 0 {
        lemma_rank_falls(one);
        lemma_rank_falls(other);
        lemma_snapshot_upto_looks_below(one, other, node, count - 1);
        let child = one.nodes[node].attached[count - 1];
        assert forall|to: int| #[trigger] one.reaches(child, to) implies one.nodes[to]
            == other.nodes[to] by {
            lemma_reaches_through_attached(one, node, count - 1, to);
        }
        lemma_snapshot_looks_below(one, other, child);
    }
}

/// The node at `holder` is the node at `node` or lies below it, and holds a
/// file of the path `path`.
pub open spec fn holds_below(tree: TreeView, node: int, holder: int, path: Seq<char>) -> bool {
    tree.reaches(node, holder) && tree.nodes[holder].own.holds_file(path)
}

/// A snapshot lists what the node and the nodes below it hold, no more and
/// no less: its flattened list holds a path exactly where one of these
/// nodes holds a file of that path.
pub proof fn lemma_snapshot_lists_what_lies_below(tree: TreeView, node: int, path: Seq<char>)
    requires
        tree.well_formed(),
        tree.holds(node),
    ensures
        tree.snapshot_of(node).flatten().contains(path) <==> exists|holder: int|
            holds_below(tree, node, holder, path),
    decreases tree.rank_of(node),
{
    let snapshot = tree.snapshot_of(node);
    let attached = tree.nodes[node].attached;
    lemma_rank_falls(tree);
    lemma_snapshot_parts(tree, node, attached.len() as int);
    lemma_flatten_holds(snapshot, path);
    lemma_reaches_step_by_step(tree, node, node);
    if snapshot.flatten().contains(path) {
        if snapshot.holds_file(path) {
            assert(holds_below(tree, node, node, path));
        } else {
            let k = choose|k: int|
                0 <= k < snapshot.sub_directories.len() && (
                #[trigger] snapshot.sub_directories[k]).flatten().contains(path);
            lemma_snapshot_lists_what_lies_below(tree, attached[k], path);
            let holder = choose|holder: int| holds_below(tree, attached[k], holder, path);
            lemma_reaches_through_attached(tree, node, k, holder);
            assert(holds_below(tree, node, holder, path));
        }
    }
    if exists|holder: int| holds_below(tree, node, holder, path) {
        let holder = choose|holder: int| holds_below(tree, node, holder, path);
        if holder != node {
            lemma_reaches_step_by_step(tree, node, holder);
            let k = choose|k: int|
                0 <= k < attached.len() && tree.reaches(
                    #[trigger] tree.nodes[node].attached[k],
                    holder,
                );
            assert(holds_below(tree, attached[k], holder, path));
            lemma_snapshot_lists_what_lies_below(tree, attached[k], path);
            assert(snapshot.sub_directories[k].flatten().contains(path));
        }
    }
}

/// What is pushed through a handle shows through every copy of it and in the
/// snapshots of the nodes above: after a push onto the node at `node`, the
/// snapshot of that node is the former one with the file pushed, and a node
/// that has it attached shows that snapshot in its place.
pub proof fn lemma_push_shows_through_handles(
    tree: TreeView,
    node: int,
    name: Seq<char>,
    parent: int,
    place: int,
)
    requires
        tree.well_formed(),
        tree.holds(node),
        tree.holds(parent),
        0 <= place < tree.nodes[parent].attached.len(),
        tree.nodes[parent].attached[place] == node,
    ensures
        tree.pushed(node, name).snapshot_of(node) == tree.snapshot_of(node).push(name),
        tree.pushed(node, name).snapshot_of(parent).sub_directories[place] == tree.snapshot_of(
            node,
        ).push(name),
{
    let after = tree.pushed(node, name);
    lemma_pushed_well_formed(tree, node, name);
    lemma_push_only_adds(tree.nodes[node].own, name, Seq::empty());
    let count = tree.nodes[node].attached.len() as int;
    lemma_snapshot_parts(tree, node, count);
    lemma_snapshot_parts(after, node, count);
    assert forall|k: int| 0 <= k < count implies after.snapshot_of(
        #[trigger] tree.nodes[node].attached[k],
    ) == tree.snapshot_of(tree.nodes[node].attached[k]) by {
        let child = tree.nodes[node].attached[k];
        lemma_attached_does_not_reach_back(tree, node, k);
        assert forall|to: int| #[trigger] tree.reaches(child, to) implies tree.nodes[to]
            == after.nodes[to] by {
            lemma_reached_is_held(tree, child, to);
        }
        lemma_snapshot_looks_below(tree, after, child);
    }
    assert(after.snapshot_of(node).sub_directories =~= tree.snapshot_of(node).sub_directories);
    lemma_snapshot_parts(after, parent, after.nodes[parent].attached.len() as int);
}

/// What is attached through a handle shows in the snapshot of its node: the
/// snapshot is the former one extended with the snapshot of the node that
/// was attached.
pub proof fn lemma_extend_shows_in_snapshot(tree: TreeView, node: int, other: int)
    requires
        tree.well_formed(),
        tree.holds(node),
        tree.holds(other),
        !tree.reaches(other, node),
    ensures
        tree.extended(node, other).snapshot_of(node) == tree.snapshot_of(node).extend(
            tree.snapshot_of(other),
        ),
{
    let after = tree.extended(node, other);
    let count = tree.nodes[node].attached.len() as int;
    lemma_snapshot_parts(tree, node, count);
    lemma_snapshot_parts(tree, other, tree.nodes[other].attached.len() as int);
    let path = tree.nodes[other].own.path;
    if tree.has_attached(node, path) {
        let k = choose|k: int|
            0 <= k < tree.nodes[node].attached.len() && tree.nodes[
                #[trigger] tree.nodes[node].attached[k]].own.path == path;
        assert(tree.snapshot_of(node).sub_directories[k].path == path);
    } else {
        lemma_extended_well_formed(tree, node, other);
        lemma_snapshot_parts(after, node, count + 1);
        assert forall|to: int| #[trigger] tree.reaches(other, to) implies tree.nodes[to]
            == after.nodes[to] by {
            lemma_reached_is_held(tree, other, to);
        }
        lemma_snapshot_looks_below(tree, after, other);
        assert forall|k: int| 0 <= k < count implies after.snapshot_of(
            #[trigger] tree.nodes[node].attached[k],
        ) == tree.snapshot_of(tree.nodes[node].attached[k]) by {
            let child = tree.nodes[node].attached[k];
            lemma_attached_does_not_reach_back(tree, node, k);
            assert forall|to: int| #[trigger] tree.reaches(child, to) implies tree.nodes[to]
                == after.nodes[to] by {
                lemma_reached_is_held(tree, child, to);
            }
            lemma_snapshot_looks_below(tree, after, child);
        }
        assert(after.snapshot_of(node).sub_directories =~= tree.snapshot_of(
            node,
        ).sub_directories.push(tree.snapshot_of(other)));
    }
}

/// A handle to one node of a tree: the place of the node among the nodes of
/// the tree that gave the handle. It is to be used with that tree; another
/// tree takes it for a handle to the node it has at the same place.
#[derive(Debug, Clone, Copy, PartialEq, Eq, Structural)]
pub struct DirectoryHandle {
    index: usize,
}

impl View for DirectoryHandle {
    type V = int;

    /// The place of the node among the nodes of its tree.
    closed spec fn view(&self) -> int {
        self.index as int
    }
}

/// The place that a handle leads to, where there is a handle.
pub open spec fn place_of(handle: Option<DirectoryHandle>) -> Option<int> {
    match handle {
        Some(node) => Some(node@),
        None => None,
    }
}

/// One node of a tree.
#[derive(Debug)]
struct TreeNode {
    own: Directory,
    attached: Vec<usize>,
}

impl View for TreeNode {
    type V = TreeNodeView;

    closed spec fn view(&self) -> TreeNodeView {
        TreeNodeView { own: self.own@, attached: self.attached@.map_values(|i: usize| i as int) }
    }
}

/// The views of `nodes`.
spec fn node_views(nodes: Seq<TreeNode>) -> Seq<TreeNodeView> {
    nodes.map_values(|node: TreeNode| node@)
}

/// The nodes of one tree.
#[derive(Debug)]
pub struct DirectoryTree {
    nodes: Vec<TreeNode>,
}

impl View for DirectoryTree {
    type V = TreeView;

    closed spec fn view(&self) -> TreeView {
        TreeView { nodes: node_views(self.nodes@) }
    }
}

impl DirectoryTree {
    #[verifier::type_invariant]
    pub(crate) open spec fn inv(self) -> bool {
        self@.well_formed()
    }

    /// A tree without nodes.
    pub fn new() -> (tree: DirectoryTree)
        ensures
            tree@ == TreeView::empty(),
            tree@.well_formed(),
    {
        let nodes: Vec<TreeNode> = Vec::new();
        proof {
            lemma_empty_well_formed();
            assert((DirectoryTree { nodes })@.nodes =~= Seq::empty());
        }
        DirectoryTree { nodes }
    }

    /// Whether the node at `to` is the node at `from` or lies below it.
    pub fn reaches(&self, from: DirectoryHandle, to: DirectoryHandle) -> (found: bool)
        requires
            self@.holds(from@),
        ensures
            found == self@.reaches(from@, to@),
        decreases self@.rank_of(from@),
    {
        proof {
            use_type_invariant(self);
            lemma_rank_falls(self@);
        }
        if from.index == to.index {
            return true;
        }
        let attached = &self.nodes[from.index].attached;
        let mut k: usize = 0;
        while k < attached.len()
            invariant
                k <= attached.len(),
                self@.well_formed(),
                self@.holds(from@),
                from@ != to@,
                attached@.map_values(|i: usize| i as int) == self@.nodes[from@].attached,
                forall|node: int, j: int|
                    0 <= node < self@.nodes.len() && 0 <= j < self@.nodes[node].attached.len()
                        ==> self@.rank_of(#[trigger] self@.nodes[node].attached[j])
                        < self@.rank_of(node),
                forall|j: int|
                    0 <= j < k ==> !self@.reaches(#[trigger] self@.nodes[from@].attached[j], to@),
            decreases attached.len() - k,
        {
            let child = attached[k];
            assert(self@.nodes[from@].attached[k as int] == child);
            if self.reaches(DirectoryHandle { index: child }, to) {
                return true;
            }
            k += 1;
        }
        false
    }

    /// Whether the node at `other` can be attached to the node at `node`:
    /// both are nodes of this tree, and the node at `node` is not the node
    /// at `other` nor lies below it.
    pub fn can_extend(&self, node: DirectoryHandle, other: DirectoryHandle) -> (done: bool)
        ensures
            done == (self@.holds(node@) && self@.holds(other@) && !self@.reaches(other@, node@)),
    {
        self.holds(node) && self.holds(other) && !self.reaches(other, node)
    }

    /// Whether this tree has a node at the place that `node` leads to.
    pub fn holds(&self, node: DirectoryHandle) -> (held: bool)
        ensures
            held == self@.holds(node@),
    {
        node.index < self.nodes.len()
    }

    /// Adds a node for the directory at `path`, with nothing in it and
    /// nothing attached, and returns the handle to it.
    pub fn add(&mut self, path: String) -> (node: DirectoryHandle)
        ensures
            final(self)@ == old(self)@.added(path@),
            node@ == old(self)@.nodes.len(),
            final(self)@.well_formed(),
    {
        proof {
            use_type_invariant(&*self);
            lemma_added_well_formed(self@, path@);
        }
        let index = self.nodes.len();
        // The nodes are taken out while one is added, so that the tree is
        // whole at every step.
        let mut nodes: Vec<TreeNode> = Vec::new();
        proof {
            lemma_empty_well_formed();
            assert((DirectoryTree { nodes })@.nodes =~= Seq::empty());
        }
        std::mem::swap(&mut self.nodes, &mut nodes);
        let node = TreeNode { own: Directory::new(path), attached: Vec::new() };
        proof {
            assert(node@.attached =~= Seq::empty());
        }
        nodes.push(node);
        proof {
            assert((DirectoryTree { nodes })@.nodes =~= old(self)@.added(path@).nodes);
        }
        std::mem::swap(&mut self.nodes, &mut nodes);
        DirectoryHandle { index }
    }

    /// Adds the file called `filepath` to the node at `node`, unless the
    /// node holds a file of that path already.
    pub fn push(&mut self, node: DirectoryHandle, filepath: String)
        requires
            old(self)@.holds(node@),
        ensures
            final(self)@ == old(self)@.pushed(node@, filepath@),
            final(self)@.well_formed(),
    {
        proof {
            use_type_invariant(&*self);
            lemma_pushed_well_formed(self@, node@, filepath@);
        }
        let mut nodes: Vec<TreeNode> = Vec::new();
        proof {
            lemma_empty_well_formed();
            assert((DirectoryTree { nodes })@.nodes =~= Seq::empty());
        }
        std::mem::swap(&mut self.nodes, &mut nodes);
        nodes[node.index].own.push(filepath);
        proof {
            assert((DirectoryTree { nodes })@.nodes =~= old(self)@.pushed(node@, filepath@).nodes);
        }
        std::mem::swap(&mut self.nodes, &mut nodes);
    }

    /// Whether the node at `node` has a node of the same path as the node
    /// at `other` attached.
    fn has_attached(&self, node: DirectoryHandle, other: DirectoryHandle) -> (found: bool)
        requires
            self@.holds(node@),
            self@.holds(other@),
        ensures
            found == self@.has_attached(node@, self@.nodes[other@].own.path),
    {
        proof {
            use_type_invariant(self);
        }
        let attached = &self.nodes[node.index].attached;
        let mut k: usize = 0;
        while k < attached.len()
            invariant
                k <= attached.len(),
                self@.well_formed(),
                self@.holds(node@),
                self@.holds(other@),
                attached@.map_values(|i: usize| i as int) == self@.nodes[node@].attached,
                forall|j: int|
                    0 <= j < k ==> self@.nodes[#[trigger] self@.nodes[node@].attached[j]].own.path
                        != self@.nodes[other@].own.path,
            decreases attached.len() - k,
        {
            let child = attached[k];
            assert(self@.nodes[node@].attached[k as int] == child);
            if self.nodes[child].own == self.nodes[other.index].own {
                return true;
            }
            k += 1;
        }
        false
    }

    /// Attaches the node at `other` to the node at `node`, unless that has a
    /// node of the same path attached already. The node at `node` is not
    /// the node at `other` nor lies below it: no node comes to lie below
    /// itself. Whether the directory of `other` lies below that of `node` is
    /// the caller's business.
    pub fn extend(&mut self, node: DirectoryHandle, other: DirectoryHandle)
        requires
            old(self)@.holds(node@),
            old(self)@.holds(other@),
            !old(self)@.reaches(other@, node@),
        ensures
            final(self)@ == old(self)@.extended(node@, other@),
            final(self)@.well_formed(),
    {
        proof {
            use_type_invariant(&*self);
            lemma_extended_well_formed(self@, node@, other@);
        }
        if !self.has_attached(node, other) {
            let mut nodes: Vec<TreeNode> = Vec::new();
            proof {
                lemma_empty_well_formed();
                assert((DirectoryTree { nodes })@.nodes =~= Seq::empty());
            }
            std::mem::swap(&mut self.nodes, &mut nodes);
            nodes[node.index].attached.push(other.index);
            proof {
                assert(nodes[node@]@.attached =~= old(self)@.nodes[node@].attached.push(other@));
                assert((DirectoryTree { nodes })@.nodes =~= old(self)@.extended(
                    node@,
                    other@,
                ).nodes);
            }
            std::mem::swap(&mut self.nodes, &mut nodes);
        }
    }

    /// The handles to the nodes attached to the node at `node`, in the order
    /// in which they were attached. What is added through one of them shows
    /// in every later snapshot of the node at `node`.
    pub fn attached(&self, node: DirectoryHandle) -> (handles: Vec<DirectoryHandle>)
        requires
            self@.holds(node@),
        ensures
            handles@.len() == self@.nodes[node@].attached.len(),
            forall|k: int|
                0 <= k < handles@.len() ==> (#[trigger] handles@[k])@
                    == self@.nodes[node@].attached[k],
            forall|k: int| 0 <= k < handles@.len() ==> self@.holds((#[trigger] handles@[k])@),
    {
        proof {
            use_type_invariant(self);
        }
        let attached = &self.nodes[node.index].attached;
        let mut handles: Vec<DirectoryHandle> = Vec::new();
        let mut k: usize = 0;
        while k < attached.len()
            invariant
                k <= attached.len(),
                self@.well_formed(),
                self@.holds(node@),
                attached@.map_values(|i: usize| i as int) == self@.nodes[node@].attached,
                handles@.len() == k,
                forall|j: int|
                    0 <= j < k ==> (#[trigger] handles@[j])@ == self@.nodes[node@].attached[j],
                forall|j: int| 0 <= j < k ==> self@.holds((#[trigger] handles@[j])@),
            decreases attached.len() - k,
        {
            let child = attached[k];
            assert(self@.nodes[node@].attached[k as int] == child);
            handles.push(DirectoryHandle { index: child });
            k += 1;
        }
        handles
    }

    /// The path of the directory at `node`.
    pub fn path(&self, node: DirectoryHandle) -> (path: String)
        requires
            self@.holds(node@),
        ensures
            path@ == self@.nodes[node@].own.path,
    {
        self.nodes[node.index].own.path()
    }

    /// The directory at `node` with all that lies below it, as it is now.
    pub fn snapshot(&self, node: DirectoryHandle) -> (directory: Directory)
        requires
            self@.holds(node@),
        ensures
            directory@ == self@.snapshot_of(node@),
        decreases self@.rank_of(node@),
    {
        proof {
            use_type_invariant(self);
            lemma_rank_falls(self@);
        }
        let mut directory = self.nodes[node.index].own.clone();
        let attached = &self.nodes[node.index].attached;
        let mut k: usize = 0;
        while k < attached.len()
            invariant
                k <= attached.len(),
                self@.well_formed(),
                self@.holds(node@),
                attached@.map_values(|i: usize| i as int) == self@.nodes[node@].attached,
                forall|n: int, j: int|
                    0 <= n < self@.nodes.len() && 0 <= j < self@.nodes[n].attached.len()
                        ==> self@.rank_of(#[trigger] self@.nodes[n].attached[j]) < self@.rank_of(
                        n,
                    ),
                directory@ == self@.snapshot_upto(node@, k as int),
            decreases attached.len() - k,
        {
            let child = attached[k];
            assert(self@.nodes[node@].attached[k as int] == child);
            let below = self.snapshot(DirectoryHandle { index: child });
            directory.extend(&below);
            k += 1;
        }
        directory
    }
}

} // verus!
