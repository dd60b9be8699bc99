//! A whole scan of a tree that was listed in advance.
//!
//! Where the listings of a directory tree are at hand before the scan
//! begins, the scanner can run the whole scan itself, on one thread. It goes
//! through the same steps as a scan that lists as it goes: what it does with
//! an entry, and whether a directory is scanned inline or by a task, is
//! decided as ever. A task runs at once, where it is started, and to its
//! end.

use vstd::prelude::*;
use crate::directory::DirectoryView;
use crate::file::{joined, FileView};
use crate::scanner::{
    lemma_limit_decides_only_the_mode, lemma_listing_decides_the_files, lists_file, node_after,
    now_seconds, DirectoryScan, DirectoryScanner, EntryAction, EntryKind, ListingEntry, ScanView,
    ScannerView,
};
use crate::tree::{
    closed_from, grown_from, lemma_added_well_formed, lemma_extended_well_formed,
    lemma_pushed_well_formed, lemma_reaches_in_grown, lemma_reaches_onward,
    lemma_reached_is_held, lemma_reaches_stays_in, lemma_reaches_step_by_step,
    lemma_snapshot_lists_what_lies_below, holds_below, place_of, DirectoryHandle, TreeView,
};

verus! {

/// The number of entries in a listing and in the listings below it.
pub open spec fn weight(entries: Seq<ListingEntry>) -> nat
    decreases entries,
{
    if entries.len() == 0 {
        0
    } else {
        weight(entries.drop_last()) + 1 + weight(entries.last().entries)
    }
}

/// A listing weighs more than the listing of each of its entries.
pub proof fn lemma_entry_weighs_less(entries: Seq<ListingEntry>, i: int)
    requires
        0 <= i < entries.len(),
    ensures
        weight(entries[i].entries) < weight(entries),
    decreases entries.len(),
{
    if i < entries.len() - 1 {
        lemma_entry_weighs_less(entries.drop_last(), i);
    }
}

/// The first entries of a listing weigh no more than all of them.
pub proof fn lemma_weight_grows(entries: Seq<ListingEntry>, count: int)
    requires
        0 <= count <= entries.len(),
    ensures
        weight(entries.take(count)) <= weight(entries),
    decreases entries.len(),
{
    if count == entries.len() {
        assert(entries.take(count) =~= entries);
    } else {
        lemma_weight_grows(entries.drop_last(), count);
        assert(entries.drop_last().take(count) =~= entries.take(count));
    }
}

impl ScannerView {
    /// The scanner after the whole scan of the directory at `path`, whose
    /// listing is `entries`, at second `now`.
    pub open spec fn scanned(
        self,
        path: Seq<char>,
        entries: Seq<ListingEntry>,
        handed_down: Option<int>,
        now: int,
    ) -> ScannerView
        decreases entries, entries.len() + 1,
    {
        let scan = self.next_scan(handed_down);
        self.started(path, handed_down, now).visited_all(
            scan,
            entries,
            entries.len() as int,
            now,
        ).finished(scan.node, now)
    }

    /// The scanner after `scan` dealt with the first `count` entries of its
    /// listing, and with all that lies below them.
    pub open spec fn visited_all(
        self,
        scan: ScanView,
        entries: Seq<ListingEntry>,
        count: int,
        now: int,
    ) -> ScannerView
        decreases entries, count,
    {
        if count <= 0 || count > entries.len() {
            self
        } else {
            let before = self.visited_all(scan, entries, count - 1, now);
            let entry = entries[count - 1];
            let path = joined(before.tree.nodes[scan.node].own.path, entry.name);
            let visited = before.after_visit(scan.node, entry.name, entry.kind, entry.excluded);
            match before.action_for(entry.name, entry.kind, entry.excluded) {
                EntryAction::ScanInline => {
                    let below = visited.next_scan(None);
                    let done = visited.scanned(path, entry.entries, None, now);
                    if done.tree.holds(scan.node) && done.tree.holds(below.node)
                        && !done.tree.reaches(below.node, scan.node) {
                        done.attached(scan.node, below.node)
                    } else {
                        done
                    }
                },
                EntryAction::ScanConcurrently => visited.scanned(
                    path,
                    entry.entries,
                    Some(scan.hands_down),
                    now,
                ).task_finished(),
                _ => visited,
            }
        }
    }
}

/// The entry `entry` of the directory at `dir` is a file that a scan
/// accepts, with the path `path`, or a directory that a scan accepts, with
/// such a file in or below it.
pub open spec fn lists_entry(dir: Seq<char>, entry: ListingEntry, path: Seq<char>) -> bool
    decreases entry,
{
    ||| entry.is_accepted_file() && FileView::located(entry.name, dir).path() == path
    ||| entry.is_accepted_directory() && lists_below(
        joined(dir, entry.name),
        entry.entries,
        path,
    )
}

/// The listing of the directory at `dir`, or a listing below it, holds a
/// file that a scan accepts, with the path `path`: neither the file nor a
/// directory on the way to it is hidden, excluded or anything but a file and
/// directories.
pub open spec fn lists_below(dir: Seq<char>, entries: Seq<ListingEntry>, path: Seq<char>) -> bool
    decreases entries,
{
    exists|i: int| 0 <= i < entries.len() && lists_entry(dir, #[trigger] entries[i], path)
}

/// The entry at place `i` of the listing of the directory at `dir` is a
/// directory that a scan accepts, and the listings in and below it hold a
/// file that a scan accepts, with the path `path`.
pub open spec fn lists_under(dir: Seq<char>, entries: Seq<ListingEntry>, i: int, path: Seq<char>)
    -> bool {
    0 <= i < entries.len() && entries[i].is_accepted_directory() && lists_below(
        joined(dir, entries[i].name),
        entries[i].entries,
        path,
    )
}

/// The entry at place `i` of the listing of the directory at `dir` is a
/// file that a scan accepts, with the path `path`, or a directory that a
/// scan accepts, with such a file in or below it.
pub open spec fn lists_at(dir: Seq<char>, entries: Seq<ListingEntry>, i: int, path: Seq<char>)
    -> bool {
    lists_file(dir, entries, i, path) || lists_under(dir, entries, i, path)
}

/// What it is for a listing to hold a file in or below it: one of its
/// entries is that file, or a directory with that file in or below it.
pub proof fn lemma_lists_below_step_by_step(
    dir: Seq<char>,
    entries: Seq<ListingEntry>,
    path: Seq<char>,
)
    ensures
        lists_below(dir, entries, path) <==> exists|i: int| lists_at(dir, entries, i, path),
{
    reveal_with_fuel(lists_below, 2);
    reveal_with_fuel(lists_entry, 2);
    if lists_below(dir, entries, path) {
        let i = choose|i: int|
            0 <= i < entries.len() && lists_entry(dir, #[trigger] entries[i], path);
        assert(lists_at(dir, entries, i, path));
    }
    if exists|i: int| lists_at(dir, entries, i, path) {
        let i = choose|i: int| lists_at(dir, entries, i, path);
    }
}

/// The node at `holder` is a node of `tree` from the node at `from` on, and
/// holds a file of the path `path`.
pub open spec fn made_holds(tree: TreeView, from: int, holder: int, path: Seq<char>) -> bool {
    from <= holder < tree.nodes.len() && tree.nodes[holder].own.holds_file(path)
}

/// A node of `tree` from the node at `from` on holds a file of the path
/// `path`.
pub open spec fn holds_since(tree: TreeView, from: int, path: Seq<char>) -> bool {
    exists|holder: int| made_holds(tree, from, holder, path)
}

/// One of the first `count` entries of the listing of the directory at `dir`
/// is a directory that a scan accepts, with a file that a scan accepts, of
/// the path `path`, in or below it.
pub open spec fn lists_under_first(
    dir: Seq<char>,
    entries: Seq<ListingEntry>,
    count: int,
    path: Seq<char>,
) -> bool {
    exists|i: int| 0 <= i < count && lists_under(dir, entries, i, path)
}

/// A whole scan neither loses nor invents a file, whatever the limit and
/// the running tasks are: the nodes it makes hold the files that the
/// listings in and below the directory hold and that a scan accepts, and no
/// others. The nodes that were there before keep their files.
pub proof fn lemma_scan_finds_what_is_listed(
    scanner: ScannerView,
    path: Seq<char>,
    entries: Seq<ListingEntry>,
    handed_down: Option<int>,
    now: int,
)
    requires
        handed_down matches Some(parent) ==> scanner.tree.holds(parent),
    ensures
        scanner.scanned(path, entries, handed_down, now).tree.nodes.len()
            > scanner.tree.nodes.len(),
        forall|node: int|
            0 <= node < scanner.tree.nodes.len() ==> (#[trigger] scanner.scanned(
                path,
                entries,
                handed_down,
                now,
            ).tree.nodes[node]).own == scanner.tree.nodes[node].own,
        scanner.scanned(path, entries, handed_down, now).tree.nodes[
            scanner.tree.nodes.len() as int].own.path == path,
        forall|file: Seq<char>|
            #[trigger] holds_since(
                scanner.scanned(path, entries, handed_down, now).tree,
                scanner.tree.nodes.len() as int,
                file,
            ) <==> lists_below(path, entries, file),
    decreases entries, entries.len() + 1,
{
    let node = scanner.tree.nodes.len() as int;
    let next = node + 1;
    let scan = scanner.next_scan(handed_down);
    let begun = scanner.started(path, handed_down, now);
    let visited = begun.visited_all(scan, entries, entries.len() as int, now);
    let done = scanner.scanned(path, entries, handed_down, now);
    assert forall|m: int| 0 <= m < node implies (#[trigger] begun.tree.nodes[m]).own
        == scanner.tree.nodes[m].own by {}
    lemma_visit_finds_what_is_listed(begun, scan, entries, entries.len() as int, now);
    assert(entries.take(entries.len() as int) =~= entries);
    lemma_listing_decides_the_files(DirectoryView::empty(path), entries, Seq::empty());
    assert forall|file: Seq<char>| #[trigger]
        holds_since(done.tree, node, file) <==> lists_below(path, entries, file) by {
        assert(holds_since(visited.tree, next, file) <==> lists_under_first(
            path,
            entries,
            entries.len() as int,
            file,
        ));
        lemma_listing_decides_the_files(DirectoryView::empty(path), entries, file);
        lemma_lists_below_step_by_step(path, entries, file);
        if holds_since(done.tree, node, file) {
            let holder = choose|holder: int| made_holds(done.tree, node, holder, file);
            if holder == node {
                let i = choose|i: int| lists_file(path, entries, i, file);
            } else {
                assert(made_holds(visited.tree, next, holder, file));
                let i = choose|i: int|
                    0 <= i < entries.len() && lists_under(path, entries, i, file);
            }
        }
        if lists_below(path, entries, file) {
            let i = choose|i: int| lists_at(path, entries, i, file);
            if lists_file(path, entries, i, file) {
                assert(made_holds(done.tree, node, node, file));
            } else {
                let holder = choose|holder: int| made_holds(visited.tree, next, holder, file);
                assert(made_holds(done.tree, node, holder, file));
            }
        }
    }
}

/// The same for the first `count` entries of the listing that `scan` goes
/// through: the node of the scan holds the files among them, and the nodes
/// made since hold the files below the directories among them.
pub proof fn lemma_visit_finds_what_is_listed(
    begun: ScannerView,
    scan: ScanView,
    entries: Seq<ListingEntry>,
    count: int,
    now: int,
)
    requires
        begun.tree.holds(scan.node),
        begun.tree.holds(scan.hands_down),
        0 <= count <= entries.len(),
    ensures
        begun.visited_all(scan, entries, count, now).tree.nodes.len() >= begun.tree.nodes.len(),
        forall|node: int|
            0 <= node < begun.tree.nodes.len() && node != scan.node ==> (
            #[trigger] begun.visited_all(scan, entries, count, now).tree.nodes[node]).own
                == begun.tree.nodes[node].own,
        begun.visited_all(scan, entries, count, now).tree.nodes[scan.node].own == node_after(
            begun.tree.nodes[scan.node].own,
            entries.take(count),
        ),
        forall|file: Seq<char>|
            #[trigger] holds_since(
                begun.visited_all(scan, entries, count, now).tree,
                begun.tree.nodes.len() as int,
                file,
            ) <==> lists_under_first(begun.tree.nodes[scan.node].own.path, entries, count, file),
    decreases entries, count,
{
    let first = begun.tree.nodes.len() as int;
    let dir = begun.tree.nodes[scan.node].own.path;
    if count > 0 {
        let before = begun.visited_all(scan, entries, count - 1, now);
        let after = begun.visited_all(scan, entries, count, now);
        let entry = entries[count - 1];
        lemma_visit_finds_what_is_listed(begun, scan, entries, count - 1, now);
        lemma_limit_decides_only_the_mode(before, entry);
        lemma_listing_decides_the_files(
            begun.tree.nodes[scan.node].own,
            entries.take(count - 1),
            Seq::empty(),
        );
        assert(entries.take(count).drop_last() =~= entries.take(count - 1));
        let path = joined(dir, entry.name);
        let visited = before.after_visit(scan.node, entry.name, entry.kind, entry.excluded);
        let last = before.tree.nodes.len() as int;
        if entry.is_accepted_directory() {
            let handed = if before.action_for(entry.name, entry.kind, entry.excluded)
                == EntryAction::ScanInline {
                None
            } else {
                Some(scan.hands_down)
            };
            let done = visited.scanned(path, entry.entries, handed, now);
            lemma_scan_finds_what_is_listed(visited, path, entry.entries, handed, now);
            assert forall|m: int| 0 <= m < after.tree.nodes.len() implies (
            #[trigger] after.tree.nodes[m]).own == done.tree.nodes[m].own by {}
            assert forall|file: Seq<char>| #[trigger]
                holds_since(after.tree, first, file) <==> lists_under_first(
                    dir,
                    entries,
                    count,
                    file,
                ) by {
                assert(holds_since(before.tree, first, file) <==> lists_under_first(
                    dir,
                    entries,
                    count - 1,
                    file,
                ));
                assert(holds_since(done.tree, last, file) <==> lists_below(
                    path,
                    entry.entries,
                    file,
                ));
                if exists|holder: int| made_holds(after.tree, first, holder, file) {
                    let holder = choose|holder: int| made_holds(after.tree, first, holder, file);
                    if holder < last {
                        assert(made_holds(before.tree, first, holder, file));
                        let i = choose|i: int|
                            0 <= i < count - 1 && lists_under(dir, entries, i, file);
                    } else {
                        assert(made_holds(done.tree, last, holder, file));
                        assert(lists_under(dir, entries, count - 1, file));
                    }
                }
                if exists|i: int| 0 <= i < count && lists_under(dir, entries, i, file) {
                    let i = choose|i: int| 0 <= i < count && lists_under(dir, entries, i, file);
                    if i < count - 1 {
                        let holder = choose|holder: int|
                            made_holds(before.tree, first, holder, file);
                        assert(made_holds(after.tree, first, holder, file));
                    } else {
                        let holder = choose|holder: int| made_holds(done.tree, last, holder, file);
                        assert(made_holds(after.tree, first, holder, file));
                    }
                }
            }
        } else {
            assert forall|m: int| 0 <= m < after.tree.nodes.len() && m != scan.node implies (
            #[trigger] after.tree.nodes[m]).own == before.tree.nodes[m].own by {}
            assert forall|file: Seq<char>| #[trigger]
                holds_since(after.tree, first, file) <==> lists_under_first(
                    dir,
                    entries,
                    count,
                    file,
                ) by {
                assert(holds_since(before.tree, first, file) <==> lists_under_first(
                    dir,
                    entries,
                    count - 1,
                    file,
                ));
                if exists|holder: int| made_holds(after.tree, first, holder, file) {
                    let holder = choose|holder: int| made_holds(after.tree, first, holder, file);
                    assert(made_holds(before.tree, first, holder, file));
                    let i = choose|i: int|
                        0 <= i < count - 1 && lists_under(dir, entries, i, file);
                }
                if exists|i: int| 0 <= i < count && lists_under(dir, entries, i, file) {
                    let i = choose|i: int| 0 <= i < count && lists_under(dir, entries, i, file);
                    let holder = choose|holder: int| made_holds(before.tree, first, holder, file);
                    assert(made_holds(after.tree, first, holder, file));
                }
            }
        }
    }
}

/// The paths of the directories that the scan of the directory at `dir`
/// makes nodes for, in the order in which it makes them: the directory
/// itself, then what lies in and below each directory of its listing that a
/// scan accepts.
pub open spec fn directories_of(dir: Seq<char>, entries: Seq<ListingEntry>) -> Seq<Seq<char>>
    decreases entries, entries.len() + 1,
{
    seq![dir] + directories_under(dir, entries, entries.len() as int)
}

/// The same for the first `count` entries of the listing, without the
/// directory itself.
pub open spec fn directories_under(dir: Seq<char>, entries: Seq<ListingEntry>, count: int) -> Seq<
    Seq<char>,
>
    decreases entries, count,
{
    if count <= 0 || count > entries.len() {
        Seq::empty()
    } else if entries[count - 1].is_accepted_directory() {
        directories_under(dir, entries, count - 1) + directories_of(
            joined(dir, entries[count - 1].name),
            entries[count - 1].entries,
        )
    } else {
        directories_under(dir, entries, count - 1)
    }
}

/// The paths of the directories of the nodes of `tree`, in the order in
/// which the nodes were made.
pub open spec fn node_paths(tree: TreeView) -> Seq<Seq<char>> {
    Seq::new(tree.nodes.len(), |node: int| tree.nodes[node].own.path)
}

/// The directories under the first entries of a listing come first among
/// the directories under more of them.
pub proof fn lemma_directories_come_in_turn(
    dir: Seq<char>,
    entries: Seq<ListingEntry>,
    fewer: int,
    more: int,
)
    requires
        0 <= fewer <= more <= entries.len(),
    ensures
        directories_under(dir, entries, fewer).is_prefix_of(directories_under(dir, entries, more)),
    decreases more - fewer,
{
    if fewer < more {
        lemma_directories_come_in_turn(dir, entries, fewer, more - 1);
        let middle = directories_under(dir, entries, more - 1);
        assert(middle.is_prefix_of(directories_under(dir, entries, more)));
    }
}

/// What a scan leaves of a tree. The scan fills the node at `node` and
/// hands the node at `target` down; the nodes from `floor` on were made
/// during the scan. The tree is well-formed and has grown; from `node` on,
/// the nodes have only nodes attached that were made after `node`; of the
/// nodes made before `node`, only the one at `target` has more attached
/// than before, and these were made during the scan; and all that was made
/// during the scan lies below the node at `target`.
pub open spec fn scan_grew(earlier: TreeView, later: TreeView, node: int, target: int, floor: int)
    -> bool {
    &&& later.well_formed()
    &&& grown_from(later, earlier)
    &&& forall|m: int, k: int|
        node <= m < later.nodes.len() && 0 <= k < later.nodes[m].attached.len() ==> node
            < #[trigger] later.nodes[m].attached[k]
    &&& forall|old: int|
        0 <= old < node && old < earlier.nodes.len() && old != target ==> (
        #[trigger] later.nodes[old]).attached == earlier.nodes[old].attached
    &&& forall|k: int|
        target < node && earlier.nodes[target].attached.len() <= k
            < later.nodes[target].attached.len() ==> floor
            <= #[trigger] later.nodes[target].attached[k]
    &&& forall|made: int|
        floor <= made < later.nodes.len() ==> #[trigger] later.reaches(target, made)
}

/// A tree has grown from itself.
pub proof fn lemma_grown_from_itself(tree: TreeView)
    ensures
        grown_from(tree, tree),
{
    assert forall|node: int| 0 <= node < tree.nodes.len() implies (
    #[trigger] tree.nodes[node]).attached.is_prefix_of(tree.nodes[node].attached) by {
        let attached = tree.nodes[node].attached;
    }
}

/// What has grown from a tree that has grown from another has grown from
/// that one.
pub proof fn lemma_grown_onward(later: TreeView, middle: TreeView, earlier: TreeView)
    requires
        grown_from(later, middle),
        grown_from(middle, earlier),
    ensures
        grown_from(later, earlier),
{
    assert forall|node: int| 0 <= node < earlier.nodes.len() implies (
    #[trigger] earlier.nodes[node]).attached.is_prefix_of(later.nodes[node].attached) by {}
    assert forall|node: int| 0 <= node < earlier.nodes.len() implies (
    #[trigger] earlier.nodes[node]).own.path == later.nodes[node].own.path by {}
}

/// A whole scan attaches what it makes: where the directories of the
/// listings have paths that differ from each other and from those of the
/// nodes that are there, every node that the scan makes lies below the node
/// that the scan hands down, which is the node of the scan itself unless
/// another was handed down to it. The nodes are made for the directories of
/// the listings, one for each and in their order.
pub proof fn lemma_scan_grows_the_tree(
    scanner: ScannerView,
    path: Seq<char>,
    entries: Seq<ListingEntry>,
    handed_down: Option<int>,
    now: int,
)
    requires
        scanner.tree.well_formed(),
        handed_down matches Some(parent) ==> scanner.tree.holds(parent),
        (node_paths(scanner.tree) + directories_of(path, entries)).no_duplicates(),
    ensures
        scan_grew(
            scanner.tree,
            scanner.scanned(path, entries, handed_down, now).tree,
            scanner.next_scan(handed_down).node,
            scanner.next_scan(handed_down).hands_down,
            scanner.next_scan(handed_down).node,
        ),
        node_paths(scanner.scanned(path, entries, handed_down, now).tree) == node_paths(
            scanner.tree,
        ) + directories_of(path, entries),
    decreases entries, entries.len() + 1,
{
    let node = scanner.tree.nodes.len() as int;
    let scan = scanner.next_scan(handed_down);
    let target = scan.hands_down;
    let all = node_paths(scanner.tree) + directories_of(path, entries);
    let added = scanner.tree.added(path);
    let begun = scanner.started(path, handed_down, now);
    let done = scanner.scanned(path, entries, handed_down, now);
    lemma_added_well_formed(scanner.tree, path);
    assert(all[node] == path);
    assert forall|m: int| 0 <= m < node implies added.nodes[m] == scanner.tree.nodes[m] by {}
    assert forall|m: int| 0 <= m < node implies (#[trigger] scanner.tree.nodes[m]).own.path
        != path by {
        assert(all[m] == scanner.tree.nodes[m].own.path);
    }
    lemma_grown_from_itself(scanner.tree);
    if let Some(parent) = handed_down {
        lemma_extended_well_formed(added, parent, node);
        assert(!added.has_attached(parent, path)) by {
            if added.has_attached(parent, path) {
                let k = choose|k: int|
                    0 <= k < added.nodes[parent].attached.len() && added.nodes[
                        #[trigger] added.nodes[parent].attached[k]].own.path == path;
            }
        }
        let last = scanner.tree.nodes[parent].attached.len() as int;
        assert(begun.tree.nodes[parent].attached[last] == node);
        lemma_reaches_step_by_step(begun.tree, parent, node);
        assert forall|m: int| 0 <= m < node implies (
        #[trigger] scanner.tree.nodes[m]).attached.is_prefix_of(begun.tree.nodes[m].attached) by {}
    }
    assert(node_paths(begun.tree) + directories_under(path, entries, entries.len() as int)
        =~= all);
    lemma_visit_grows_the_tree(begun, scan, entries, entries.len() as int, now);
    lemma_grown_onward(done.tree, begun.tree, scanner.tree);
    assert forall|made: int|
        node <= made < done.tree.nodes.len() implies #[trigger] done.tree.reaches(target, made) by {
        if made == node {
            lemma_reaches_in_grown(begun.tree, done.tree, target, node);
        }
    }
    assert forall|old: int|
        0 <= old < node && old < scanner.tree.nodes.len() && old != target implies (
    #[trigger] done.tree.nodes[old]).attached == scanner.tree.nodes[old].attached by {}
    assert forall|k: int|
        target < node && scanner.tree.nodes[target].attached.len() <= k
            < done.tree.nodes[target].attached.len() implies node
        <= #[trigger] done.tree.nodes[target].attached[k] by {}
}

/// The same for the first `count` entries of the listing that `scan` goes
/// through.
pub proof fn lemma_visit_grows_the_tree(
    begun: ScannerView,
    scan: ScanView,
    entries: Seq<ListingEntry>,
    count: int,
    now: int,
)
    requires
        begun.tree.well_formed(),
        scan.node == begun.tree.nodes.len() - 1,
        0 <= scan.hands_down <= scan.node,
        begun.tree.nodes[scan.node].attached.len() == 0,
        begun.tree.reaches(scan.hands_down, scan.node),
        0 <= count <= entries.len(),
        (node_paths(begun.tree) + directories_under(
            begun.tree.nodes[scan.node].own.path,
            entries,
            entries.len() as int,
        )).no_duplicates(),
    ensures
        scan_grew(
            begun.tree,
            begun.visited_all(scan, entries, count, now).tree,
            scan.node,
            scan.hands_down,
            begun.tree.nodes.len() as int,
        ),
        node_paths(begun.visited_all(scan, entries, count, now).tree) == node_paths(begun.tree)
            + directories_under(begun.tree.nodes[scan.node].own.path, entries, count),
    decreases entries, count,
{
    let node = scan.node;
    let target = scan.hands_down;
    let floor = begun.tree.nodes.len() as int;
    let dir = begun.tree.nodes[node].own.path;
    let all = node_paths(begun.tree) + directories_under(dir, entries, entries.len() as int);
    if count == 0 {
        lemma_grown_from_itself(begun.tree);
    } else {
        let before = begun.visited_all(scan, entries, count - 1, now);
        let after = begun.visited_all(scan, entries, count, now);
        let entry = entries[count - 1];
        lemma_visit_grows_the_tree(begun, scan, entries, count - 1, now);
        lemma_limit_decides_only_the_mode(before, entry);
        lemma_directories_come_in_turn(dir, entries, count, entries.len() as int);
        let so_far = node_paths(begun.tree) + directories_under(dir, entries, count);
        assert forall|i: int| 0 <= i < so_far.len() implies so_far[i] == all[i] by {}
        let child = before.tree.nodes.len() as int;
        let path = joined(dir, entry.name);
        if entry.is_accepted_directory() {
            let inline = before.action_for(entry.name, entry.kind, entry.excluded)
                == EntryAction::ScanInline;
            let handed = if inline {
                None
            } else {
                Some(target)
            };
            let visited = before.after_visit(node, entry.name, entry.kind, entry.excluded);
            let done = visited.scanned(path, entry.entries, handed, now);
            assert(node_paths(before.tree) + directories_of(path, entry.entries) =~= so_far);
            assert((node_paths(before.tree) + directories_of(path, entry.entries)).no_duplicates())
                by {
                assert forall|i: int, j: int|
                    0 <= i < so_far.len() && 0 <= j < so_far.len() && i != j implies so_far[i]
                    != so_far[j] by {}
            }
            lemma_scan_grows_the_tree(visited, path, entry.entries, handed, now);
            lemma_grown_onward(done.tree, before.tree, begun.tree);
            if inline {
                // The node of the directory is attached, and is not refused.
                assert(!done.tree.reaches(child, node)) by {
                    if done.tree.reaches(child, node) {
                        lemma_reaches_stays_in(done.tree, child, child, node);
                    }
                }
                lemma_extended_well_formed(done.tree, node, child);
                assert(!done.tree.has_attached(node, done.tree.nodes[child].own.path)) by {
                    if done.tree.has_attached(node, done.tree.nodes[child].own.path) {
                        let k = choose|k: int|
                            0 <= k < done.tree.nodes[node].attached.len() && done.tree.nodes[
                                #[trigger] done.tree.nodes[node].attached[k]].own.path
                                == done.tree.nodes[child].own.path;
                        let other = before.tree.nodes[node].attached[k];
                        assert(all[other] != all[child]);
                    }
                }
                let last = done.tree.nodes[node].attached.len() as int;
                assert(after.tree.nodes[node].attached[last] == child);
                assert forall|m: int| 0 <= m < done.tree.nodes.len() implies (
                #[trigger] done.tree.nodes[m]).attached.is_prefix_of(
                    after.tree.nodes[m].attached,
                ) by {}
                lemma_grown_onward(after.tree, done.tree, begun.tree);
                lemma_reaches_step_by_step(after.tree, node, child);
                lemma_reaches_in_grown(begun.tree, after.tree, target, node);
                lemma_reaches_onward(after.tree, target, node, child);
                assert forall|made: int|
                    floor <= made < after.tree.nodes.len() implies #[trigger] after.tree.reaches(
                    target,
                    made,
                ) by {
                    if made < child {
                        lemma_reaches_in_grown(before.tree, after.tree, target, made);
                    } else {
                        lemma_reaches_in_grown(done.tree, after.tree, child, made);
                        lemma_reaches_onward(after.tree, target, child, made);
                    }
                }
                assert forall|m: int, k: int|
                    node <= m < after.tree.nodes.len() && 0 <= k
                        < after.tree.nodes[m].attached.len() implies node
                    < #[trigger] after.tree.nodes[m].attached[k] by {}
                assert forall|old: int|
                    0 <= old < node && old < begun.tree.nodes.len() && old != target implies (
                #[trigger] after.tree.nodes[old]).attached == begun.tree.nodes[old].attached by {}
                assert forall|k: int|
                    target < node && begun.tree.nodes[target].attached.len() <= k
                        < after.tree.nodes[target].attached.len() implies floor
                    <= #[trigger] after.tree.nodes[target].attached[k] by {}
            } else {
                assert forall|made: int|
                    floor <= made < after.tree.nodes.len() implies #[trigger] after.tree.reaches(
                    target,
                    made,
                ) by {
                    if made < child {
                        lemma_reaches_in_grown(before.tree, after.tree, target, made);
                    }
                }
                assert forall|m: int, k: int|
                    node <= m < after.tree.nodes.len() && 0 <= k
                        < after.tree.nodes[m].attached.len() implies node
                    < #[trigger] after.tree.nodes[m].attached[k] by {
                    if m < child && m == target && k < before.tree.nodes[m].attached.len() {
                        assert(node < before.tree.nodes[m].attached[k]);
                    }
                }
                assert forall|old: int|
                    0 <= old < node && old < begun.tree.nodes.len() && old != target implies (
                #[trigger] after.tree.nodes[old]).attached == begun.tree.nodes[old].attached by {}
                assert forall|k: int|
                    target < node && begun.tree.nodes[target].attached.len() <= k
                        < after.tree.nodes[target].attached.len() implies floor
                    <= #[trigger] after.tree.nodes[target].attached[k] by {
                    if k < before.tree.nodes[target].attached.len() {
                        assert(done.tree.nodes[target].attached[k]
                            == before.tree.nodes[target].attached[k]);
                    }
                }
            }
        } else {
            // A file, or an entry that is passed over: no node is made.
            if entry.is_accepted_file() {
                lemma_pushed_well_formed(before.tree, node, entry.name);
                assert forall|m: int| 0 <= m < before.tree.nodes.len() implies (
                #[trigger] after.tree.nodes[m]).attached == before.tree.nodes[m].attached by {}
                lemma_push_keeps_the_path(before.tree.nodes[node].own, entry.name);
                assert forall|m: int| 0 <= m < before.tree.nodes.len() implies (
                #[trigger] before.tree.nodes[m]).own.path == after.tree.nodes[m].own.path by {}
                lemma_grown_from_itself(before.tree);
                assert forall|m: int| 0 <= m < before.tree.nodes.len() implies (
                #[trigger] before.tree.nodes[m]).attached.is_prefix_of(
                    after.tree.nodes[m].attached,
                ) by {}
                lemma_grown_onward(after.tree, before.tree, begun.tree);
                assert forall|made: int|
                    floor <= made < after.tree.nodes.len() implies #[trigger] after.tree.reaches(
                    target,
                    made,
                ) by {
                    lemma_reaches_in_grown(before.tree, after.tree, target, made);
                }
            }
        }
    }
}

/// A push leaves the path of a directory as it is.
pub proof fn lemma_push_keeps_the_path(dir: DirectoryView, name: Seq<char>)
    ensures
        dir.push(name).path == dir.path,
        dir.push(name).sub_directories == dir.sub_directories,
{
}

/// A whole scan from the top lists what is listed, whatever the limit and
/// the running tasks are. Where the directories of the listings have paths
/// that differ from each other and from those of the nodes that are there,
/// the snapshot of the scan's node holds a path exactly where the listings
/// in and below the directory hold a file of that path that a scan accepts:
/// no file is lost and none is invented.
pub proof fn lemma_scan_lists_what_is_listed(
    scanner: ScannerView,
    path: Seq<char>,
    entries: Seq<ListingEntry>,
    now: int,
    file: Seq<char>,
)
    requires
        scanner.tree.well_formed(),
        (node_paths(scanner.tree) + directories_of(path, entries)).no_duplicates(),
    ensures
        scanner.scanned(path, entries, None, now).tree.snapshot_of(
            scanner.tree.nodes.len() as int,
        ).flatten().contains(file) <==> lists_below(path, entries, file),
{
    let node = scanner.tree.nodes.len() as int;
    let done = scanner.scanned(path, entries, None, now).tree;
    lemma_scan_grows_the_tree(scanner, path, entries, None, now);
    lemma_scan_finds_what_is_listed(scanner, path, entries, None, now);
    lemma_snapshot_lists_what_lies_below(done, node, file);
    if exists|holder: int| holds_below(done, node, holder, file) {
        let holder = choose|holder: int| holds_below(done, node, holder, file);
        lemma_reaches_stays_in(done, node, node, holder);
        lemma_reached_is_held(done, node, holder);
        assert(made_holds(done, node, holder, file));
    }
    if holds_since(done, node, file) {
        let holder = choose|holder: int| made_holds(done, node, holder, file);
        assert(holds_below(done, node, holder, file));
    }
}

/// The limit changes nothing of what a whole scan lists: two scanners, with
/// whatever limits and running tasks, that scan the same listings from the
/// top list the same paths.
pub proof fn lemma_every_limit_lists_the_same(
    one: ScannerView,
    other: ScannerView,
    path: Seq<char>,
    entries: Seq<ListingEntry>,
    now: int,
    then: int,
    file: Seq<char>,
)
    requires
        one.tree.well_formed(),
        other.tree.well_formed(),
        (node_paths(one.tree) + directories_of(path, entries)).no_duplicates(),
        (node_paths(other.tree) + directories_of(path, entries)).no_duplicates(),
    ensures
        one.scanned(path, entries, None, now).tree.snapshot_of(
            one.tree.nodes.len() as int,
        ).flatten().contains(file) <==> other.scanned(path, entries, None, then).tree.snapshot_of(
            other.tree.nodes.len() as int,
        ).flatten().contains(file),
{
    lemma_scan_lists_what_is_listed(one, path, entries, now, file);
    lemma_scan_lists_what_is_listed(other, path, entries, then, file);
}

/// One entry of a directory that was listed in advance, with what the
/// ignore rules say of it and, for a directory, its own listing.
#[derive(Debug)]
pub struct ListedEntry {
    name: String,
    kind: EntryKind,
    excluded: bool,
    entries: Vec<ListedEntry>,
}

/// The views of `entries`.
pub open spec fn listing_of(entries: Seq<ListedEntry>) -> Seq<ListingEntry> {
    entries.map_values(|entry: ListedEntry| entry@)
}

impl View for ListedEntry {
    type V = ListingEntry;

    closed spec fn view(&self) -> ListingEntry {
        self.model()
    }
}

impl ListedEntry {
    /// The entry as a value.
    spec fn model(self) -> ListingEntry
        decreases self,
    {
        ListingEntry {
            name: self.name@,
            kind: self.kind,
            excluded: self.excluded,
            entries: Seq::new(
                self.entries@.len(),
                |i: int|
                    if 0 <= i < self.entries.len() {
                        self.entries[i].model()
                    } else {
                        arbitrary()
                    },
            ),
        }
    }

    /// What the view of an entry is, part by part.
    proof fn lemma_view(self)
        ensures
            self@.name == self.name@,
            self@.kind == self.kind,
            self@.excluded == self.excluded,
            self@.entries == listing_of(self.entries@),
    {
    }

    /// The entry `name` of kind `kind`, of which the ignore rules say
    /// `excluded`, with the listing `entries` where it is a directory.
    pub fn new(name: String, kind: EntryKind, excluded: bool, entries: Vec<ListedEntry>) -> (entry:
        ListedEntry)
        ensures
            entry@ == (ListingEntry {
                name: name@,
                kind,
                excluded,
                entries: listing_of(entries@),
            }),
    {
        let entry = ListedEntry { name, kind, excluded, entries };
        proof {
            entry.lemma_view();
        }
        entry
    }
}

/// The number of entries in `entries` and in the listings below them, where
/// a `usize` can hold it, and `None` where it cannot.
pub fn weight_of(entries: &Vec<ListedEntry>) -> (count: Option<usize>)
    ensures
        match count {
            Some(number) => number == weight(listing_of(entries@)),
            None => weight(listing_of(entries@)) > usize::MAX,
        },
    decreases entries,
{
    let ghost listing = listing_of(entries@);
    let mut total: usize = 0;
    let mut i: usize = 0;
    while i < entries.len()
        invariant
            i <= entries.len(),
            listing == listing_of(entries@),
            total == weight(listing.take(i as int)),
        decreases entries.len() - i,
    {
        let entry = &entries[i];
        proof {
            entry.lemma_view();
            lemma_weight_grows(listing, i + 1);
            assert(listing.take(i + 1).drop_last() =~= listing.take(i as int));
            assert(listing.take(i + 1).last() == entry@);
        }
        let below = match weight_of(&entry.entries) {
            Some(below) => below,
            None => {
                return None;
            },
        };
        let with_entry = match below.checked_add(1) {
            Some(sum) => sum,
            None => {
                return None;
            },
        };
        total = match total.checked_add(with_entry) {
            Some(sum) => sum,
            None => {
                return None;
            },
        };
        i += 1;
    }
    assert(listing.take(i as int) =~= listing);
    Some(total)
}

impl DirectoryScanner {
    /// Whether the scanner can count the scans of a whole scan of the
    /// listing `entries`: the scans under way and the entries of the listings
    /// together stay below what a `usize` can hold.
    pub fn can_scan(&self, entries: &Vec<ListedEntry>) -> (room: bool)
        ensures
            room == (self@.running_scanners + weight(listing_of(entries@)) < usize::MAX),
    {
        match weight_of(entries) {
            Some(weight) => match weight.checked_add(self.running_scanners()) {
                Some(sum) => sum < usize::MAX,
                None => false,
            },
            None => false,
        }
    }

    /// Scans the directory at `path`, whose listing is `entries`, and all
    /// that lies below it, at second `now`. A scan that runs as a task is
    /// given the handle that the scan which started it hands down. The
    /// counts of the scans under way and of the running tasks are afterwards
    /// what they were before.
    pub fn scan_at(
        &mut self,
        path: String,
        entries: &Vec<ListedEntry>,
        handed_down: Option<DirectoryHandle>,
        now: i64,
    ) -> (scan: DirectoryScan)
        requires
            old(self)@.running_scanners + weight(listing_of(entries@)) < usize::MAX,
            handed_down matches Some(parent) ==> old(self)@.tree.holds(parent@),
        ensures
            final(self)@ == old(self)@.scanned(
                path@,
                listing_of(entries@),
                place_of(handed_down),
                now as int,
            ),
            scan@ == old(self)@.next_scan(place_of(handed_down)),
            final(self)@.running_scanners == old(self)@.running_scanners,
            final(self)@.current_concurrency == old(self)@.current_concurrency,
            final(self)@.tree.nodes.len() > old(self)@.tree.nodes.len(),
            final(self)@.tree.well_formed(),
        decreases entries,
    {
        let ghost listing = listing_of(entries@);
        let ghost before = self@;
        let scan = self.start_scan_at(path, handed_down, now);
        let ghost begun = self@;
        let mut i: usize = 0;
        while i < entries.len()
            invariant
                i <= entries.len(),
                listing == listing_of(entries@),
                before.running_scanners + weight(listing) < usize::MAX,
                self@ == begun.visited_all(scan@, listing, i as int, now as int),
                self@.running_scanners == before.running_scanners + 1,
                self@.current_concurrency == before.current_concurrency,
                self@.tree.nodes.len() > before.tree.nodes.len(),
                self@.tree.well_formed(),
                scan@.node == before.tree.nodes.len(),
                scan@.hands_down <= before.tree.nodes.len(),
                0 <= scan@.hands_down,
            decreases entries.len() - i,
        {
            let entry = &entries[i];
            proof {
                entry.lemma_view();
                lemma_entry_weighs_less(listing, i as int);
            }
            let ghost earlier = self@;
            let name = entry.name.clone();
            let child = self.child_path(scan, &name);
            let action = self.visit(scan, name, entry.kind, entry.excluded);
            match action {
                EntryAction::ScanInline => {
                    let below = self.scan_at(child, &entry.entries, None, now);
                    if self.can_attach(scan, below) {
                        self.attach(scan, below);
                    }
                },
                EntryAction::ScanConcurrently => {
                    self.scan_at(child, &entry.entries, Some(scan.hands_down()), now);
                    self.finish_task();
                },
                _ => {},
            }
            i += 1;
        }
        self.finish_scan_at(scan, now);
        scan
    }

    /// Scans the directory at `path`, whose listing is `entries`, and all
    /// that lies below it, at the second that this machine's clock shows:
    /// see [`DirectoryScanner::scan_at`].
    pub fn scan(
        &mut self,
        path: String,
        entries: &Vec<ListedEntry>,
        handed_down: Option<DirectoryHandle>,
    ) -> (scan: DirectoryScan)
        requires
            old(self)@.running_scanners + weight(listing_of(entries@)) < usize::MAX,
            handed_down matches Some(parent) ==> old(self)@.tree.holds(parent@),
        ensures
            final(self)@ == old(self)@.scanned(
                path@,
                listing_of(entries@),
                place_of(handed_down),
                final(self)@.last_event,
            ),
            scan@ == old(self)@.next_scan(place_of(handed_down)),
            final(self)@.running_scanners == old(self)@.running_scanners,
            final(self)@.current_concurrency == old(self)@.current_concurrency,
            final(self)@.tree.nodes.len() > old(self)@.tree.nodes.len(),
            final(self)@.tree.well_formed(),
    {
        self.scan_at(path, entries, handed_down, now_seconds())
    }
}

} // verus!
