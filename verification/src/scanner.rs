//! The decisions of a scan.
//!
//! A scan walks a directory tree. For each directory it takes a listing,
//! adds the files it accepts to the directory's node, and scans each
//! sub-directory it accepts either inline or by a task of its own. One
//! [`DirectoryScanner`] holds what all scans of a tree share: the nodes of
//! the tree, the limit on the tasks that run at one time, how many run now,
//! how many scans are under way, when a scan last began or ended, and the
//! broker to which finished scans send the handles to their directories. The caller lists
//! directories, asks the ignore rules and starts tasks; it reports each step
//! to the scanner, which says what to do next. Where scans run on several
//! threads, the caller guards the scanner with a lock.

use vstd::prelude::*;
use vstd::string::*;
use crate::directory::{
    lemma_push_keeps_well_formed, lemma_push_only_adds, Directory, DirectoryView,
};
use crate::event_broker::{BrokerView, DirectoryEventBroker};
use crate::file::{
    begins_at_root, is_absolute, join, joined, normalize_dir, normalized_dir, FileView,
};
use crate::tree::{
    lemma_added_well_formed, lemma_extended_well_formed, lemma_pushed_well_formed, place_of,
    DirectoryHandle, DirectoryTree, TreeView,
};

verus! {

/// `time::now().to_timespec()` of the time crate: the seconds that this
/// machine's clock counts since 1970. Nothing is known of them.
#[verifier::external_body]
pub(crate) fn now_seconds() -> (seconds: i64) {
    time::now().to_timespec().sec
}

/// What a listing says an entry is.
#[derive(Debug, Clone, Copy, PartialEq, Eq, Structural)]
pub enum EntryKind {
    /// A regular file.
    File,
    /// A directory.
    Directory,
    /// A symbolic link, whatever it points to.
    Symlink,
    /// Anything else.
    Other,
}

/// What a scan does with an entry.
#[derive(Debug, Clone, Copy, PartialEq, Eq, Structural)]
pub enum EntryAction {
    /// The entry is passed over.
    Skipped,
    /// The entry is a file, and it was pushed onto the node.
    FileAdded,
    /// The entry is a directory that the scan scans itself, before it goes
    /// on, and then attaches to the node.
    ScanInline,
    /// The entry is a directory for a task of its own, which the scan does
    /// not wait for. The task is counted as running from now on.
    ScanConcurrently,
}

impl EntryAction {
    /// The entry is a directory that gets scanned, one way or the other.
    pub open spec fn descends(self) -> bool {
        self == EntryAction::ScanInline || self == EntryAction::ScanConcurrently
    }
}

/// The name marks a hidden entry: it begins with a dot.
pub open spec fn is_hidden(name: Seq<char>) -> bool {
    name.len() > 0 && name[0] == '.'
}

/// Whether the ignore rules are asked about the entry: only about files and
/// directories that are not hidden.
pub open spec fn consults_ignore_rules(name: Seq<char>, kind: EntryKind) -> bool {
    (kind == EntryKind::File || kind == EntryKind::Directory) && !is_hidden(name)
}

/// A scan accepts the entry: the ignore rules are asked about it and do not
/// exclude it.
pub open spec fn is_accepted(name: Seq<char>, kind: EntryKind, excluded: bool) -> bool {
    consults_ignore_rules(name, kind) && !excluded
}

/// One entry of a listing, with what the ignore rules said of it.
pub struct ListingEntry {
    /// The name of the entry.
    pub name: Seq<char>,
    /// What the listing says the entry is.
    pub kind: EntryKind,
    /// Whether the ignore rules exclude it.
    pub excluded: bool,
    /// The listing of the entry itself, where it is a directory.
    pub entries: Seq<ListingEntry>,
}

impl ListingEntry {
    /// The entry is a file that a scan adds to its node.
    pub open spec fn is_accepted_file(self) -> bool {
        is_accepted(self.name, self.kind, self.excluded) && self.kind == EntryKind::File
    }

    /// The entry is a directory that a scan descends into.
    pub open spec fn is_accepted_directory(self) -> bool {
        is_accepted(self.name, self.kind, self.excluded) && self.kind == EntryKind::Directory
    }
}

/// The entry at place `i` of the listing of the directory at `dir` is a file
/// that a scan accepts, and `path` is its path.
pub open spec fn lists_file(dir: Seq<char>, entries: Seq<ListingEntry>, i: int, path: Seq<char>)
    -> bool {
    &&& 0 <= i < entries.len()
    &&& entries[i].is_accepted_file()
    &&& FileView::located(entries[i].name, dir).path() == path
}

/// The node `node` after a scan dealt with the entries of a listing in turn:
/// each visit adds the entry if it is a file that the scan accepts.
pub open spec fn node_after(node: DirectoryView, entries: Seq<ListingEntry>) -> DirectoryView
    decreases entries.len(),
{
    if entries.len() == 0 {
        node
    } else {
        let before = node_after(node, entries.drop_last());
        if entries.last().is_accepted_file() {
            before.push(entries.last().name)
        } else {
            before
        }
    }
}

/// The two bases of a scan that starts at `dir`, where `working_dir` is the
/// directory that relative paths start from: the base that stands for the
/// root, and the place of the scan relative to it.
pub open spec fn bases_of(dir: Seq<char>, working_dir: Seq<char>) -> (Seq<char>, Seq<char>) {
    if is_absolute(dir) {
        (dir, seq!['.', '/'])
    } else {
        (working_dir, dir)
    }
}

/// The name of the file that holds a directory's ignore rules.
pub open spec fn rules_file_name() -> Seq<char> {
    seq!['.', 'g', 'i', 't', 'i', 'g', 'n', 'o', 'r', 'e']
}

/// A scanner as mathematics sees it.
pub struct ScannerView {
    /// The base that paths handed to the ignore rules start from.
    pub absolute_base: Seq<char>,
    /// The path of the directory at which the scan starts.
    pub relative_base: Seq<char>,
    /// The most tasks that may run at one time.
    pub concurrency_limit: nat,
    /// The most tasks that ever ran at one time.
    pub max_concurrency_reached: nat,
    /// The tasks that run now.
    pub current_concurrency: nat,
    /// The scans under way, inline ones and those of tasks alike.
    pub running_scanners: nat,
    /// The second at which a scan last began or ended.
    pub last_event: int,
    /// The broker to which finished scans send the handles to their nodes.
    pub event_broker: BrokerView,
    /// The nodes that the scans fill.
    pub tree: TreeView,
}

/// One scan of one directory as mathematics sees it.
pub struct ScanView {
    /// The place of the node that the scan fills.
    pub node: int,
    /// The place of the node that a task started by this scan attaches its
    /// own node to.
    pub hands_down: int,
}

impl ScannerView {
    /// The scanner for `root_dir` before anything happened.
    pub open spec fn fresh(root_dir: Seq<char>, working_dir: Seq<char>) -> ScannerView {
        ScannerView {
            absolute_base: bases_of(root_dir, working_dir).0,
            relative_base: bases_of(root_dir, working_dir).1,
            concurrency_limit: 9,
            max_concurrency_reached: 0,
            current_concurrency: 0,
            running_scanners: 0,
            last_event: 0,
            event_broker: BrokerView::fresh(),
            tree: TreeView::empty(),
        }
    }

    /// As many tasks run as may run.
    pub open spec fn limit_reached(self) -> bool {
        self.current_concurrency >= self.concurrency_limit
    }

    /// The scan that begins next. Its node is the next that the tree gets.
    /// A scan that runs as a task, and was handed a node down to attach its
    /// own to, hands the same node down to the tasks it starts; any other
    /// scan hands down its own.
    pub open spec fn next_scan(self, handed_down: Option<int>) -> ScanView {
        let node = self.tree.nodes.len() as int;
        ScanView {
            node,
            hands_down: match handed_down {
                Some(parent) => parent,
                None => node,
            },
        }
    }

    /// The scanner after the scan of the directory at `path` began at second
    /// `now`: the tree has a node for it, attached to the node handed down
    /// where there is one.
    pub open spec fn started(self, path: Seq<char>, handed_down: Option<int>, now: int)
        -> ScannerView {
        let node = self.tree.nodes.len() as int;
        ScannerView {
            running_scanners: self.running_scanners + 1,
            last_event: now,
            tree: match handed_down {
                Some(parent) => self.tree.added(path).extended(parent, node),
                None => self.tree.added(path),
            },
            ..self
        }
    }

    /// The scanner after the node at `child`, which a scan scanned inline,
    /// was attached to the node at `node`.
    pub open spec fn attached(self, node: int, child: int) -> ScannerView {
        ScannerView { tree: self.tree.extended(node, child), ..self }
    }

    /// The scanner after the scan of the node at `node` ended at second
    /// `now`: the handle to the node was sent to the broker.
    pub open spec fn finished(self, node: int, now: int) -> ScannerView {
        ScannerView {
            running_scanners: if self.running_scanners > 0 {
                (self.running_scanners - 1) as nat
            } else {
                0
            },
            last_event: now,
            event_broker: self.event_broker.send(node),
            ..self
        }
    }

    /// The scanner after one more task was counted as running.
    pub open spec fn task_started(self) -> ScannerView {
        let running = self.current_concurrency + 1;
        ScannerView {
            current_concurrency: running,
            max_concurrency_reached: if running > self.max_concurrency_reached {
                running
            } else {
                self.max_concurrency_reached
            },
            ..self
        }
    }

    /// The scanner after a task ended.
    pub open spec fn task_finished(self) -> ScannerView {
        ScannerView {
            current_concurrency: if self.current_concurrency > 0 {
                (self.current_concurrency - 1) as nat
            } else {
                0
            },
            ..self
        }
    }

    /// What a scan does with the entry `name` of kind `kind`, of which the
    /// ignore rules said `excluded`.
    pub open spec fn action_for(self, name: Seq<char>, kind: EntryKind, excluded: bool)
        -> EntryAction {
        if !is_accepted(name, kind, excluded) {
            EntryAction::Skipped
        } else if kind == EntryKind::File {
            EntryAction::FileAdded
        } else if self.limit_reached() {
            EntryAction::ScanInline
        } else {
            EntryAction::ScanConcurrently
        }
    }

    /// The scanner after the scan of the node at `node` dealt with that
    /// entry: a file it accepts was pushed onto the node, and a task it
    /// starts counts as running.
    pub open spec fn after_visit(
        self,
        node: int,
        name: Seq<char>,
        kind: EntryKind,
        excluded: bool,
    ) -> ScannerView {
        match self.action_for(name, kind, excluded) {
            EntryAction::ScanConcurrently => self.task_started(),
            EntryAction::FileAdded => ScannerView { tree: self.tree.pushed(node, name), ..self },
            _ => self,
        }
    }

    /// The whole scan is over, as far as can be told at second `now`: no
    /// scan is under way, no task runs, and the last scan began or ended
    /// more than a second ago.
    pub open spec fn complete_at(self, now: int) -> bool {
        &&& self.running_scanners == 0
        &&& self.current_concurrency == 0
        &&& now - self.last_event > 1
    }

    /// `answer` is what the question whether the whole scan is over gets at
    /// some second that a clock can show.
    pub open spec fn may_answer(self, answer: bool) -> bool {
        exists|now: int|
            i64::MIN <= now <= i64::MAX && #[trigger] self.complete_at(now) == answer
    }

    /// No more tasks run, and no more ever ran, than the limit allows.
    pub open spec fn within_limit(self) -> bool {
        &&& self.current_concurrency <= self.concurrency_limit
        &&& self.max_concurrency_reached <= self.concurrency_limit
    }

    /// Where the ignore rules of the directory at `dir` are kept.
    pub open spec fn rules_file_of(self, dir: Seq<char>) -> Seq<char> {
        joined(joined(self.absolute_base, normalized_dir(dir)), rules_file_name())
    }

    /// The path under which the ignore rules know the entry at `path`.
    pub open spec fn rooted(self, path: Seq<char>) -> Seq<char> {
        joined(self.absolute_base, normalized_dir(path))
    }
}

/// No step of a scan lets more tasks run than the limit allows, nor lets the
/// most that ever ran pass it: what holds before a scan begins or ends,
/// before an entry is dealt with and before a task ends, holds after it.
pub proof fn lemma_steps_keep_within_limit(
    scanner: ScannerView,
    path: Seq<char>,
    handed_down: Option<int>,
    node: int,
    child: int,
    now: int,
    name: Seq<char>,
    kind: EntryKind,
    excluded: bool,
)
    requires
        scanner.within_limit(),
    ensures
        scanner.started(path, handed_down, now).within_limit(),
        scanner.after_visit(node, name, kind, excluded).within_limit(),
        scanner.attached(node, child).within_limit(),
        scanner.finished(node, now).within_limit(),
        scanner.task_finished().within_limit(),
{
}

/// No step of a scan takes a node away or spoils the tree: a handle that
/// leads to a node goes on doing so, and a tree in which nothing is attached
/// twice, and no node lies below itself, stays that way.
pub proof fn lemma_steps_keep_the_nodes(
    scanner: ScannerView,
    path: Seq<char>,
    handed_down: Option<int>,
    node: int,
    child: int,
    now: int,
    name: Seq<char>,
    kind: EntryKind,
    excluded: bool,
    known: int,
)
    requires
        scanner.tree.well_formed(),
        scanner.tree.holds(known),
        scanner.tree.holds(node),
        handed_down matches Some(parent) ==> scanner.tree.holds(parent),
        scanner.tree.holds(child),
        !scanner.tree.reaches(child, node),
    ensures
        scanner.started(path, handed_down, now).tree.holds(known),
        scanner.started(path, handed_down, now).tree.well_formed(),
        scanner.after_visit(node, name, kind, excluded).tree.holds(known),
        scanner.after_visit(node, name, kind, excluded).tree.well_formed(),
        scanner.attached(node, child).tree.holds(known),
        scanner.attached(node, child).tree.well_formed(),
        scanner.finished(node, now).tree == scanner.tree,
        scanner.task_finished().tree == scanner.tree,
{
    lemma_added_well_formed(scanner.tree, path);
    if let Some(parent) = handed_down {
        let node = scanner.tree.nodes.len() as int;
        assert(!scanner.tree.added(path).reaches(node, parent));
        lemma_extended_well_formed(scanner.tree.added(path), parent, node);
    }
    lemma_pushed_well_formed(scanner.tree, node, name);
    lemma_extended_well_formed(scanner.tree, node, child);
}

/// A scanner to which nothing happened yet is within every limit it is
/// given.
pub proof fn lemma_fresh_within_limit(root_dir: Seq<char>, working_dir: Seq<char>, limit: nat)
    ensures
        ScannerView::fresh(root_dir, working_dir).within_limit(),
        (ScannerView { concurrency_limit: limit, ..ScannerView::fresh(root_dir, working_dir) })
            .within_limit(),
{
}

/// What the limit and the running tasks decide is how a directory is
/// scanned, nothing else: whatever they are, a scan passes over the entries
/// it does not accept, adds the files it accepts and descends into the
/// directories it accepts.
pub proof fn lemma_limit_decides_only_the_mode(scanner: ScannerView, entry: ListingEntry)
    ensures
        scanner.action_for(entry.name, entry.kind, entry.excluded) == EntryAction::Skipped
            <==> !is_accepted(entry.name, entry.kind, entry.excluded),
        scanner.action_for(entry.name, entry.kind, entry.excluded) == EntryAction::FileAdded
            <==> entry.is_accepted_file(),
        scanner.action_for(entry.name, entry.kind, entry.excluded).descends()
            <==> entry.is_accepted_directory(),
{
}

/// A scan neither loses nor invents nor doubles a file: after it dealt with
/// a listing, its node holds the files it held before and the files of the
/// listing that it accepts, no others and none twice. Neither the limit nor
/// the running tasks play a part.
pub proof fn lemma_listing_decides_the_files(
    node: DirectoryView,
    entries: Seq<ListingEntry>,
    path: Seq<char>,
)
    ensures
        node_after(node, entries).holds_file(path) <==> node.holds_file(path) || exists|i: int|
            lists_file(node.path, entries, i, path),
        node.well_formed() ==> node_after(node, entries).well_formed(),
        node_after(node, entries).path == node.path,
        node_after(node, entries).sub_directories == node.sub_directories,
    decreases entries.len(),
{
    if entries.len() > 0 {
        let earlier = entries.drop_last();
        let last = entries.last();
        let before = node_after(node, earlier);
        lemma_listing_decides_the_files(node, earlier, path);
        if last.is_accepted_file() {
            lemma_push_only_adds(before, last.name, path);
            if node.well_formed() {
                lemma_push_keeps_well_formed(before, last.name);
            }
        }
        if exists|i: int| lists_file(node.path, earlier, i, path) {
            let i = choose|i: int| lists_file(node.path, earlier, i, path);
            assert(lists_file(node.path, entries, i, path));
        }
        if last.is_accepted_file() && FileView::located(last.name, node.path).path() == path {
            assert(lists_file(node.path, entries, entries.len() - 1, path));
        }
        if exists|i: int| lists_file(node.path, entries, i, path) {
            let i = choose|i: int| lists_file(node.path, entries, i, path);
            if i < earlier.len() {
                assert(lists_file(node.path, earlier, i, path));
            }
        }
    }
}

/// With a limit of zero a scan starts no task: every directory is scanned
/// inline.
pub proof fn lemma_no_tasks_without_allowance(
    scanner: ScannerView,
    node: int,
    name: Seq<char>,
    kind: EntryKind,
    excluded: bool,
)
    requires
        scanner.concurrency_limit == 0,
    ensures
        scanner.action_for(name, kind, excluded) != EntryAction::ScanConcurrently,
        scanner.after_visit(node, name, kind, excluded).current_concurrency
            == scanner.current_concurrency,
        scanner.after_visit(node, name, kind, excluded).max_concurrency_reached
            == scanner.max_concurrency_reached,
{
}

/// A scan that began and ended leaves the count of scans under way as it
/// was, and a task that was started and ended the count of running tasks.
pub proof fn lemma_counts_balance(
    scanner: ScannerView,
    path: Seq<char>,
    handed_down: Option<int>,
    node: int,
    begin: int,
    end: int,
)
    ensures
        scanner.started(path, handed_down, begin).finished(node, end).running_scanners
            == scanner.running_scanners,
        scanner.task_started().task_finished().current_concurrency
            == scanner.current_concurrency,
{
}

/// Once no scan is under way and no task runs, the scan counts as complete
/// at every second later than the one after the last event, and at none
/// before.
pub proof fn lemma_idle_scanner_completes(scanner: ScannerView, now: int)
    requires
        scanner.running_scanners == 0,
        scanner.current_concurrency == 0,
    ensures
        scanner.complete_at(now) <==> now >= scanner.last_event + 2,
{
}

/// What a clock can make of the question whether the whole scan is over: the
/// answer can be yes only where no scan is under way, no task runs and a
/// second exists that lies more than one after the last event; it can be no
/// for every scanner, at the earliest second that a clock can show.
pub proof fn lemma_answers_that_a_clock_allows(scanner: ScannerView)
    requires
        i64::MIN <= scanner.last_event <= i64::MAX,
    ensures
        scanner.may_answer(true) <==> {
            &&& scanner.running_scanners == 0
            &&& scanner.current_concurrency == 0
            &&& scanner.last_event + 2 <= i64::MAX
        },
        scanner.may_answer(false),
{
    assert(!scanner.complete_at(i64::MIN as int));
    if scanner.running_scanners == 0 && scanner.current_concurrency == 0 && scanner.last_event
        + 2 <= i64::MAX {
        assert(scanner.complete_at(scanner.last_event + 2));
    }
}

/// The two bases of a scan that starts at `dir`: see [`bases_of`].
pub fn breakdown_dir_parts(dir: String, working_dir: String) -> (bases: (String, String))
    ensures
        (bases.0@, bases.1@) == bases_of(dir@, working_dir@),
{
    if begins_at_root(&dir) {
        proof {
            reveal_strlit("./");
        }
        (dir, "./".to_owned())
    } else {
        (working_dir, dir)
    }
}

/// Whether `name` marks a hidden entry.
pub fn hidden(name: &String) -> (found: bool)
    ensures
        found == is_hidden(name@),
{
    let text = name.as_str();
    text.unicode_len() > 0 && text.get_char(0) == '.'
}

/// One scan of one directory: the node it fills, and the node that the tasks
/// it starts attach their own nodes to.
#[derive(Debug, Clone, Copy, PartialEq, Eq, Structural)]
pub struct DirectoryScan {
    node: DirectoryHandle,
    hands_down: DirectoryHandle,
}

impl View for DirectoryScan {
    type V = ScanView;

    closed spec fn view(&self) -> ScanView {
        ScanView { node: self.node@, hands_down: self.hands_down@ }
    }
}

impl DirectoryScan {
    /// The handle to the node that the scan fills.
    pub fn node(&self) -> (node: DirectoryHandle)
        ensures
            node@ == self@.node,
    {
        self.node
    }

    /// The handle that the scan hands down to the tasks it starts: each
    /// attaches its own node to the node that this handle leads to.
    pub fn hands_down(&self) -> (node: DirectoryHandle)
        ensures
            node@ == self@.hands_down,
    {
        self.hands_down
    }
}

/// What all scans of one tree share.
#[derive(Debug)]
pub struct DirectoryScanner {
    absolute_base: String,
    relative_base: String,
    concurrency_limit: usize,
    max_concurrency_reached: usize,
    current_concurrency: usize,
    running_scanners: usize,
    last_event: i64,
    event_broker: DirectoryEventBroker,
    tree: DirectoryTree,
}

impl View for DirectoryScanner {
    type V = ScannerView;

    closed spec fn view(&self) -> ScannerView {
        ScannerView {
            absolute_base: self.absolute_base@,
            relative_base: self.relative_base@,
            concurrency_limit: self.concurrency_limit as nat,
            max_concurrency_reached: self.max_concurrency_reached as nat,
            current_concurrency: self.current_concurrency as nat,
            running_scanners: self.running_scanners as nat,
            last_event: self.last_event as int,
            event_broker: self.event_broker@,
            tree: self.tree@,
        }
    }
}

impl DirectoryScanner {
    /// The scanner for a scan that starts at `root_dir`. Relative paths
    /// start from `working_dir`. At most nine tasks may run at one time.
    pub fn new(root_dir: String, working_dir: String) -> (scanner: DirectoryScanner)
        ensures
            scanner@ == ScannerView::fresh(root_dir@, working_dir@),
    {
        let (absolute_base, relative_base) = breakdown_dir_parts(root_dir, working_dir);
        DirectoryScanner {
            absolute_base,
            relative_base,
            concurrency_limit: 9,
            max_concurrency_reached: 0,
            current_concurrency: 0,
            running_scanners: 0,
            last_event: 0,
            event_broker: DirectoryEventBroker::new(),
            tree: DirectoryTree::new(),
        }
    }

    /// Sets the most tasks that may run at one time. Zero makes every scan
    /// inline.
    pub fn set_concurrency_limit(&mut self, limit: usize)
        ensures
            final(self)@ == (ScannerView { concurrency_limit: limit as nat, ..old(self)@ }),
    {
        self.concurrency_limit = limit;
    }

    /// Whether as many tasks run as may run.
    pub fn concurrency_limit_reached(&self) -> (reached: bool)
        ensures
            reached == self@.limit_reached(),
    {
        self.current_concurrency >= self.concurrency_limit
    }

    /// Whether the ignore rules are to be asked about the entry `name` of
    /// kind `kind`, before it is visited.
    pub fn asks_ignore_rules(name: &String, kind: EntryKind) -> (asks: bool)
        ensures
            asks == consults_ignore_rules(name@, kind),
    {
        match kind {
            EntryKind::File | EntryKind::Directory => !hidden(name),
            EntryKind::Symlink | EntryKind::Other => false,
        }
    }

    /// What the ignore rules say of an entry, from what came of asking them:
    /// `rules_found` tells whether the entry's directory has a file of rules,
    /// and `verdict` is their answer, `None` where they could not be read or
    /// applied. Without rules, and without an answer, the entry is not
    /// excluded.
    pub fn is_ignored_by_git(rules_found: bool, verdict: Option<bool>) -> (excluded: bool)
        ensures
            excluded == (rules_found && verdict == Some(true)),
    {
        if rules_found {
            match verdict {
                Some(result) => result,
                None => false,
            }
        } else {
            false
        }
    }

    /// Whether this scanner's tree has a node at the place that `node`
    /// leads to.
    pub fn knows(&self, node: DirectoryHandle) -> (known: bool)
        ensures
            known == self@.tree.holds(node@),
    {
        self.tree.holds(node)
    }

    /// Records that the scan of the directory at `path` begins at second
    /// `now`. The tree gets a node for the directory, with nothing in it
    /// yet. A scan that runs as a task is given the handle that the scan
    /// which started it hands down, and its node is attached to the node
    /// that the handle leads to, unless that has a node of the same path
    /// attached already.
    pub fn start_scan_at(
        &mut self,
        path: String,
        handed_down: Option<DirectoryHandle>,
        now: i64,
    ) -> (scan: DirectoryScan)
        requires
            old(self)@.running_scanners < usize::MAX,
            handed_down matches Some(parent) ==> old(self)@.tree.holds(parent@),
        ensures
            final(self)@ == old(self)@.started(path@, place_of(handed_down), now as int),
            scan@ == old(self)@.next_scan(place_of(handed_down)),
            final(self)@.tree.holds(scan@.node),
            final(self)@.tree.holds(scan@.hands_down),
            final(self)@.tree.well_formed(),
    {
        self.last_event = now;
        self.running_scanners = self.running_scanners + 1;
        let node = self.tree.add(path);
        match handed_down {
            Some(parent) => {
                self.tree.extend(parent, node);
                DirectoryScan { node, hands_down: parent }
            },
            None => DirectoryScan { node, hands_down: node },
        }
    }

    /// Records that the scan of the directory at `path` begins now, by this
    /// machine's clock: see [`DirectoryScanner::start_scan_at`].
    pub fn start_scan(
        &mut self,
        path: String,
        handed_down: Option<DirectoryHandle>,
    ) -> (scan: DirectoryScan)
        requires
            old(self)@.running_scanners < usize::MAX,
            handed_down matches Some(parent) ==> old(self)@.tree.holds(parent@),
        ensures
            final(self)@ == old(self)@.started(
                path@,
                place_of(handed_down),
                final(self)@.last_event,
            ),
            scan@ == old(self)@.next_scan(place_of(handed_down)),
            final(self)@.tree.holds(scan@.node),
            final(self)@.tree.holds(scan@.hands_down),
            final(self)@.tree.well_formed(),
    {
        self.start_scan_at(path, handed_down, now_seconds())
    }

    /// Deals with one entry of the listing of the directory that `scan`
    /// scans: `name` is of kind `kind`, and `excluded` is what the ignore
    /// rules said of it (`false` where they were not asked). A file that is
    /// accepted is pushed onto the node of the scan. For a directory that is
    /// accepted the result says how to scan it; where that is by a task of
    /// its own, the task counts as running from now on.
    pub fn visit(&mut self, scan: DirectoryScan, name: String, kind: EntryKind, excluded: bool)
        -> (action: EntryAction)
        requires
            old(self)@.tree.holds(scan@.node),
        ensures
            action == old(self)@.action_for(name@, kind, excluded),
            final(self)@ == old(self)@.after_visit(scan@.node, name@, kind, excluded),
            final(self)@.tree.well_formed(),
    {
        proof {
            use_type_invariant(&self.tree);
        }
        if !Self::asks_ignore_rules(&name, kind) || excluded {
            return EntryAction::Skipped;
        }
        match kind {
            EntryKind::File => {
                self.tree.push(scan.node, name);
                EntryAction::FileAdded
            },
            _ => {
                if self.concurrency_limit_reached() {
                    EntryAction::ScanInline
                } else {
                    self.current_concurrency = self.current_concurrency + 1;
                    if self.current_concurrency > self.max_concurrency_reached {
                        self.max_concurrency_reached = self.current_concurrency;
                    }
                    EntryAction::ScanConcurrently
                }
            },
        }
    }

    /// The path of the entry `name` in the directory that `scan` scans.
    pub fn child_path(&self, scan: DirectoryScan, name: &String) -> (path: String)
        requires
            self@.tree.holds(scan@.node),
        ensures
            path@ == joined(self@.tree.nodes[scan@.node].own.path, name@),
    {
        join(&self.tree.path(scan.node), name)
    }

    /// Whether the node of the scan `child` can be attached to the node of
    /// `scan`: both are nodes of the tree, and the node of `scan` is not the
    /// node of `child` nor lies below it.
    pub fn can_attach(&self, scan: DirectoryScan, child: DirectoryScan) -> (done: bool)
        ensures
            done == (self@.tree.holds(scan@.node) && self@.tree.holds(child@.node)
                && !self@.tree.reaches(child@.node, scan@.node)),
    {
        self.tree.can_extend(scan.node, child.node)
    }

    /// Attaches the node of `child`, a scan that `scan` ran inline, to the
    /// node of `scan`, unless that has a node of the same path attached
    /// already. The node of `scan` does not lie below the node of `child`,
    /// nor is it that node.
    pub fn attach(&mut self, scan: DirectoryScan, child: DirectoryScan)
        requires
            old(self)@.tree.holds(scan@.node),
            old(self)@.tree.holds(child@.node),
            !old(self)@.tree.reaches(child@.node, scan@.node),
        ensures
            final(self)@ == old(self)@.attached(scan@.node, child@.node),
            final(self)@.tree.well_formed(),
    {
        self.tree.extend(scan.node, child.node);
    }

    /// Where the ignore rules of the directory at `dir` are kept.
    pub fn rules_file(&self, dir: String) -> (path: String)
        ensures
            path@ == self@.rules_file_of(dir@),
    {
        proof {
            reveal_strlit(".gitignore");
        }
        let place = join(&self.absolute_base, &normalize_dir(dir));
        join(&place, &".gitignore".to_owned())
    }

    /// The path under which the ignore rules know the entry at `path`.
    pub fn rooted_path(&self, path: String) -> (rooted: String)
        ensures
            rooted@ == self@.rooted(path@),
    {
        join(&self.absolute_base, &normalize_dir(path))
    }

    /// The handles to the nodes attached to the node at `node`, in the order
    /// in which they were attached.
    pub fn sub_directories(&self, node: DirectoryHandle) -> (handles: Vec<DirectoryHandle>)
        requires
            self@.tree.holds(node@),
        ensures
            handles@.len() == self@.tree.nodes[node@].attached.len(),
            forall|k: int|
                0 <= k < handles@.len() ==> (#[trigger] handles@[k])@
                    == self@.tree.nodes[node@].attached[k],
            forall|k: int| 0 <= k < handles@.len() ==> self@.tree.holds((#[trigger] handles@[k])@),
    {
        self.tree.attached(node)
    }

    /// The directory at `node` with all that lies below it, as it is now:
    /// what its own scan found, and what the scans of the nodes attached to
    /// it have found so far.
    pub fn snapshot(&self, node: DirectoryHandle) -> (directory: Directory)
        requires
            self@.tree.holds(node@),
        ensures
            directory@ == self@.tree.snapshot_of(node@),
            self@.tree.well_formed(),
    {
        proof {
            use_type_invariant(&self.tree);
        }
        self.tree.snapshot(node)
    }

    /// Records that `scan` ends at second `now`, and sends the handle to its
    /// node to the broker. A receiver reads the node with
    /// [`DirectoryScanner::snapshot`], and finds in it what was added since.
    pub fn finish_scan_at(&mut self, scan: DirectoryScan, now: i64)
        requires
            old(self)@.running_scanners > 0,
            old(self)@.tree.holds(scan@.node),
        ensures
            final(self)@ == old(self)@.finished(scan@.node, now as int),
    {
        self.event_broker.send(scan.node);
        self.running_scanners = self.running_scanners - 1;
        self.last_event = now;
    }

    /// Records that `scan` ends now, by this machine's clock, and sends the
    /// handle to its node to the broker.
    pub fn finish_scan(&mut self, scan: DirectoryScan)
        requires
            old(self)@.running_scanners > 0,
            old(self)@.tree.holds(scan@.node),
        ensures
            final(self)@ == old(self)@.finished(scan@.node, final(self)@.last_event),
    {
        self.finish_scan_at(scan, now_seconds());
    }

    /// The broker to which finished scans send the handles to their nodes,
    /// for those who receive from it and for closing it.
    pub fn event_broker(&mut self) -> (broker: &mut DirectoryEventBroker)
        ensures
            broker@ == old(self)@.event_broker,
            final(self)@ == (ScannerView { event_broker: final(broker)@, ..old(self)@ }),
    {
        &mut self.event_broker
    }

    /// Records that a task ended.
    pub fn finish_task(&mut self)
        requires
            old(self)@.current_concurrency > 0,
        ensures
            final(self)@ == old(self)@.task_finished(),
    {
        self.current_concurrency = self.current_concurrency - 1;
    }

    /// Whether the whole scan is over, as far as can be told at second
    /// `now`.
    pub fn is_complete_at(&self, now: i64) -> (complete: bool)
        ensures
            complete == self@.complete_at(now as int),
    {
        self.running_scanners == 0 && self.current_concurrency == 0 && self.last_event
            < i64::MAX - 1 && now > self.last_event + 1
    }

    /// Whether the whole scan is over, as far as can be told now: the answer
    /// of [`DirectoryScanner::is_complete_at`] for the second that this
    /// machine's clock shows. While a scan is under way or a task runs the
    /// answer is `false`; a caller asks again until it is `true`.
    pub fn is_complete(&self) -> (complete: bool)
        ensures
            self@.may_answer(complete),
            complete ==> self@.running_scanners == 0 && self@.current_concurrency == 0,
    {
        let now = now_seconds();
        let complete = self.is_complete_at(now);
        assert(self@.complete_at(now as int) == complete);
        complete
    }

    /// The base that paths handed to the ignore rules start from.
    pub fn absolute_base(&self) -> (path: String)
        ensures
            path@ == self@.absolute_base,
    {
        self.absolute_base.clone()
    }

    /// The path of the directory at which the scan starts.
    pub fn relative_base(&self) -> (path: String)
        ensures
            path@ == self@.relative_base,
    {
        self.relative_base.clone()
    }

    /// The most tasks that may run at one time.
    pub fn concurrency_limit(&self) -> (limit: usize)
        ensures
            limit == self@.concurrency_limit,
    {
        self.concurrency_limit
    }

    /// The most tasks that ever ran at one time.
    pub fn max_concurrency_reached(&self) -> (most: usize)
        ensures
            most == self@.max_concurrency_reached,
    {
        self.max_concurrency_reached
    }

    /// The tasks that run now.
    pub fn current_concurrency(&self) -> (tasks: usize)
        ensures
            tasks == self@.current_concurrency,
    {
        self.current_concurrency
    }

    /// The scans under way.
    pub fn running_scanners(&self) -> (scans: usize)
        ensures
            scans == self@.running_scanners,
    {
        self.running_scanners
    }

    /// The second at which a scan last began or ended.
    pub fn last_event(&self) -> (second: i64)
        ensures
            second == self@.last_event,
    {
        self.last_event
    }
}

} // verus!
