//! The tree that a scan fills: a directory with its files and sub-directories.

use vstd::prelude::*;
use vstd::std_specs::cmp::PartialEqSpecImpl;
use crate::file::{File, FileView, normalized_dir};

verus! {

/// A directory as mathematics sees it.
pub struct DirectoryView {
    /// The path of the directory, as it was given.
    pub path: Seq<char>,
    /// Its files, in the order in which they came.
    pub files: Seq<FileView>,
    /// Its sub-directories, in the order in which they came.
    pub sub_directories: Seq<DirectoryView>,
}

/// The paths of all files in and below the directories of `dirs`, one
/// directory after the other.
pub open spec fn flatten_all(dirs: Seq<DirectoryView>) -> Seq<Seq<char>>
    decreases dirs,
{
    if dirs.len() == 0 {
        Seq::empty()
    } else {
        flatten_all(dirs.drop_last()) + dirs.last().flatten()
    }
}

/// All files in and below the directories of `dirs`, one directory after the
/// other.
pub open spec fn files_of_all(dirs: Seq<DirectoryView>) -> Seq<FileView>
    decreases dirs,
{
    if dirs.len() == 0 {
        Seq::empty()
    } else {
        files_of_all(dirs.drop_last()) + dirs.last().all_files()
    }
}

/// The number of files in and below the directories of `dirs`.
pub open spec fn count_all(dirs: Seq<DirectoryView>) -> nat
    decreases dirs,
{
    if dirs.len() == 0 {
        0
    } else {
        count_all(dirs.drop_last()) + dirs.last().total_files()
    }
}

impl DirectoryView {
    /// The directory at `path` before anything was found in it.
    pub open spec fn empty(path: Seq<char>) -> DirectoryView {
        DirectoryView { path, files: Seq::empty(), sub_directories: Seq::empty() }
    }

    /// The directory holds a file whose path is `path`.
    pub open spec fn holds_file(self, path: Seq<char>) -> bool {
        exists|i: int| 0 <= i < self.files.len() && (#[trigger] self.files[i]).path() == path
    }

    /// The directory holds a sub-directory whose path is `path`.
    pub open spec fn holds_directory(self, path: Seq<char>) -> bool {
        exists|i: int|
            0 <= i < self.sub_directories.len() && (#[trigger] self.sub_directories[i]).path
                == path
    }

    /// The directory after the file called `name` was pushed: the file comes
    /// last, unless the directory held a file of that path already.
    pub open spec fn push(self, name: Seq<char>) -> DirectoryView {
        let file = FileView::located(name, self.path);
        if self.holds_file(file.path()) {
            self
        } else {
            DirectoryView { files: self.files.push(file), ..self }
        }
    }

    /// The directory after it was extended with `other`: `other` comes last
    /// among the sub-directories, unless one of that path was there already.
    pub open spec fn extend(self, other: DirectoryView) -> DirectoryView {
        if self.holds_directory(other.path) {
            self
        } else {
            DirectoryView { sub_directories: self.sub_directories.push(other), ..self }
        }
    }

    /// The paths of the directory's own files.
    pub open spec fn own_paths(self) -> Seq<Seq<char>> {
        self.files.map_values(|file: FileView| file.path())
    }

    /// The paths of all files in and below the directory: its own files
    /// first, then those of each sub-directory in turn.
    pub open spec fn flatten(self) -> Seq<Seq<char>>
        decreases self,
    {
        self.own_paths() + flatten_all(self.sub_directories)
    }

    /// All files in and below the directory, in the order of `flatten`.
    pub open spec fn all_files(self) -> Seq<FileView>
        decreases self,
    {
        self.files + files_of_all(self.sub_directories)
    }

    /// The number of files in and below the directory.
    pub open spec fn total_files(self) -> nat
        decreases self,
    {
        self.files.len() + count_all(self.sub_directories)
    }

    /// No two files of the directory have the same path, and each lies in
    /// the directory.
    pub open spec fn files_distinct(self) -> bool {
        &&& forall|i: int, j: int|
            0 <= i < j < self.files.len() ==> (#[trigger] self.files[i]).path() != (
            #[trigger] self.files[j]).path()
        &&& forall|i: int|
            0 <= i < self.files.len() ==> (#[trigger] self.files[i]).dirname == normalized_dir(
                self.path,
            )
    }

    /// No two sub-directories of the directory have the same path.
    pub open spec fn sub_directories_distinct(self) -> bool {
        forall|i: int, j: int|
            0 <= i < j < self.sub_directories.len() ==> (#[trigger] self.sub_directories[i]).path
                != (#[trigger] self.sub_directories[j]).path
    }

    /// What holds of every directory, at every depth: nothing occurs twice.
    pub open spec fn well_formed(self) -> bool
        decreases self,
    {
        &&& self.files_distinct()
        &&& self.sub_directories_distinct()
        &&& forall|i: int|
            0 <= i < self.sub_directories.len() ==> (
            #[trigger] self.sub_directories[i]).well_formed()
    }
}

/// A directory that holds nothing twice still does so after a push.
pub proof fn lemma_push_keeps_well_formed(dir: DirectoryView, name: Seq<char>)
    requires
        dir.well_formed(),
    ensures
        dir.push(name).well_formed(),
{
}

/// A directory that holds nothing twice still does so after it was extended
/// with another such directory.
pub proof fn lemma_extend_keeps_well_formed(dir: DirectoryView, other: DirectoryView)
    requires
        dir.well_formed(),
        other.well_formed(),
    ensures
        dir.extend(other).well_formed(),
{
}

/// A push only adds: afterwards the directory holds the file that was
/// pushed, every file it held before, and no other.
pub proof fn lemma_push_only_adds(dir: DirectoryView, name: Seq<char>, path: Seq<char>)
    ensures
        dir.push(name).holds_file(FileView::located(name, dir.path).path()),
        dir.push(name).holds_file(path) <==> dir.holds_file(path) || path == FileView::located(
            name,
            dir.path,
        ).path(),
        dir.push(name).sub_directories == dir.sub_directories,
        dir.push(name).path == dir.path,
{
    let file = FileView::located(name, dir.path);
    let after = dir.push(name);
    if !dir.holds_file(file.path()) {
        assert(after.files[dir.files.len() as int] == file);
        if dir.holds_file(path) {
            let i = choose|i: int|
                0 <= i < dir.files.len() && (#[trigger] dir.files[i]).path() == path;
            assert(after.files[i] == dir.files[i]);
        }
    }
}

/// Extending only adds: afterwards the directory holds a sub-directory of
/// the other's path, every sub-directory it held before, and no other.
pub proof fn lemma_extend_only_adds(dir: DirectoryView, other: DirectoryView, path: Seq<char>)
    ensures
        dir.extend(other).holds_directory(other.path),
        dir.extend(other).holds_directory(path) <==> dir.holds_directory(path) || path
            == other.path,
        dir.extend(other).files == dir.files,
        dir.extend(other).path == dir.path,
{
    let after = dir.extend(other);
    if !dir.holds_directory(other.path) {
        assert(after.sub_directories[dir.sub_directories.len() as int] == other);
        if dir.holds_directory(path) {
            let i = choose|i: int|
                0 <= i < dir.sub_directories.len() && (#[trigger] dir.sub_directories[i]).path
                    == path;
            assert(after.sub_directories[i] == dir.sub_directories[i]);
        }
    }
}

/// Pushing a file a second time changes nothing, under the same name or
/// under another that leads to the same path.
pub proof fn lemma_push_idempotent(dir: DirectoryView, name: Seq<char>, again: Seq<char>)
    requires
        FileView::located(again, dir.path).path() == FileView::located(name, dir.path).path(),
    ensures
        dir.push(name).push(again) == dir.push(name),
{
    let file = FileView::located(name, dir.path);
    let once = dir.push(name);
    if !dir.holds_file(file.path()) {
        assert(once.files[dir.files.len() as int] == file);
    }
}

/// Extending a directory a second time with a directory of the same path
/// changes nothing.
pub proof fn lemma_extend_idempotent(dir: DirectoryView, other: DirectoryView, again: DirectoryView)
    requires
        again.path == other.path,
    ensures
        dir.extend(other).extend(again) == dir.extend(other),
{
    let once = dir.extend(other);
    if !dir.holds_directory(other.path) {
        assert(once.sub_directories[dir.sub_directories.len() as int] == other);
    }
}

/// A directory counts as many files as its flattened list has paths.
pub proof fn lemma_len_is_flatten_len(dir: DirectoryView)
    ensures
        dir.total_files() == dir.flatten().len(),
    decreases dir,
{
    lemma_count_all_is_flatten_all_len(dir.sub_directories);
}

/// Directories count as many files as their flattened lists have paths.
pub proof fn lemma_count_all_is_flatten_all_len(dirs: Seq<DirectoryView>)
    ensures
        count_all(dirs) == flatten_all(dirs).len(),
    decreases dirs,
{
    if dirs.len() > 0 {
        lemma_count_all_is_flatten_all_len(dirs.drop_last());
        lemma_len_is_flatten_len(dirs.last());
    }
}

/// The flattened list of a directory holds the paths of all its files, in
/// their order.
pub proof fn lemma_flatten_is_paths_of_all_files(dir: DirectoryView)
    ensures
        dir.flatten() == dir.all_files().map_values(|file: FileView| file.path()),
    decreases dir,
{
    lemma_flatten_all_is_paths_of_files_of_all(dir.sub_directories);
}

/// The flattened list of directories holds the paths of all their files, in
/// their order.
pub proof fn lemma_flatten_all_is_paths_of_files_of_all(dirs: Seq<DirectoryView>)
    ensures
        flatten_all(dirs) == files_of_all(dirs).map_values(|file: FileView| file.path()),
    decreases dirs,
{
    if dirs.len() > 0 {
        lemma_flatten_all_is_paths_of_files_of_all(dirs.drop_last());
        lemma_flatten_is_paths_of_all_files(dirs.last());
    }
}

/// The flattened list of a directory holds a path exactly where the
/// directory holds a file of that path or the flattened list of one of its
/// sub-directories holds it.
pub proof fn lemma_flatten_holds(dir: DirectoryView, path: Seq<char>)
    ensures
        dir.flatten().contains(path) <==> dir.holds_file(path) || exists|k: int|
            0 <= k < dir.sub_directories.len() && (
            #[trigger] dir.sub_directories[k]).flatten().contains(path),
{
    let own = dir.own_paths();
    let below = flatten_all(dir.sub_directories);
    lemma_flatten_all_holds(dir.sub_directories, path);
    if dir.holds_file(path) {
        let i = choose|i: int| 0 <= i < dir.files.len() && (#[trigger] dir.files[i]).path() == path;
        assert(own[i] == path);
        assert((own + below)[i] == path);
    }
    if below.contains(path) {
        let i = choose|i: int| 0 <= i < below.len() && below[i] == path;
        assert((own + below)[own.len() + i] == path);
    }
    if dir.flatten().contains(path) {
        let i = choose|i: int| 0 <= i < dir.flatten().len() && dir.flatten()[i] == path;
        if i < own.len() {
            assert(dir.files[i].path() == path);
        } else {
            assert(below[i - own.len()] == path);
        }
    }
}

/// The flattened list of directories holds a path exactly where the
/// flattened list of one of them holds it.
pub proof fn lemma_flatten_all_holds(dirs: Seq<DirectoryView>, path: Seq<char>)
    ensures
        flatten_all(dirs).contains(path) <==> exists|k: int|
            0 <= k < dirs.len() && (#[trigger] dirs[k]).flatten().contains(path),
    decreases dirs.len(),
{
    if dirs.len() > 0 {
        let earlier = dirs.drop_last();
        let before = flatten_all(earlier);
        let last = dirs.last().flatten();
        lemma_flatten_all_holds(earlier, path);
        if before.contains(path) {
            let i = choose|i: int| 0 <= i < before.len() && before[i] == path;
            assert((before + last)[i] == path);
            let k = choose|k: int|
                0 <= k < earlier.len() && (#[trigger] earlier[k]).flatten().contains(path);
            assert(dirs[k] == earlier[k]);
        }
        if last.contains(path) {
            let i = choose|i: int| 0 <= i < last.len() && last[i] == path;
            assert((before + last)[before.len() + i] == path);
            assert(dirs[dirs.len() - 1].flatten().contains(path));
        }
        if flatten_all(dirs).contains(path) {
            let i = choose|i: int| 0 <= i < flatten_all(dirs).len() && flatten_all(dirs)[i] == path;
            if i < before.len() {
                assert(before[i] == path);
            } else {
                assert(last[i - before.len()] == path);
            }
        }
        if exists|k: int| 0 <= k < dirs.len() && (#[trigger] dirs[k]).flatten().contains(path) {
            let k = choose|k: int|
                0 <= k < dirs.len() && (#[trigger] dirs[k]).flatten().contains(path);
            if k < earlier.len() {
                assert(earlier[k] == dirs[k]);
            }
        }
    }
}

/// The first directories of a list count no more files than all of them.
pub proof fn lemma_count_all_grows(dirs: Seq<DirectoryView>, n: int)
    requires
        0 <= n <= dirs.len(),
    ensures
        count_all(dirs.take(n)) <= count_all(dirs),
    decreases dirs.len(),
{
    if n == dirs.len() {
        assert(dirs.take(n) =~= dirs);
    } else {
        lemma_count_all_grows(dirs.drop_last(), n);
        assert(dirs.drop_last().take(n) =~= dirs.take(n));
    }
}

/// What each of `strings` holds.
pub open spec fn texts(strings: Seq<String>) -> Seq<Seq<char>> {
    strings.map_values(|text: String| text@)
}

/// The views of `files`.
pub open spec fn file_views(files: Seq<File>) -> Seq<FileView> {
    files.map_values(|file: File| file@)
}

/// One scanned directory: its path, the files found in it and the
/// sub-directories attached to it. It holds no file and no sub-directory
/// twice.
///
/// A directory is a value. A copy of it is a directory of its own, and what
/// is added to the one does not show in the other. The nodes that several
/// scans fill together are kept in a `DirectoryTree`, behind handles; a
/// directory is what a snapshot of such a node gives.
#[derive(Debug)]
pub struct Directory {
    path: String,
    files: Vec<File>,
    sub_directories: Vec<Directory>,
}

impl View for Directory {
    type V = DirectoryView;

    closed spec fn view(&self) -> DirectoryView {
        self.model()
    }
}

impl Directory {
    /// The directory as a value: the texts of its path and files, and the
    /// values of its sub-directories.
    spec fn model(self) -> DirectoryView
        decreases self,
    {
        DirectoryView {
            path: self.path@,
            files: file_views(self.files@),
            sub_directories: Seq::new(
                self.sub_directories@.len(),
                |i: int|
                    if 0 <= i < self.sub_directories.len() {
                        self.sub_directories[i].model()
                    } else {
                        arbitrary()
                    },
            ),
        }
    }
}

impl Directory {
    #[verifier::type_invariant]
    spec fn inv(self) -> bool {
        self@.well_formed()
    }

    /// What the view of a directory is, part by part.
    proof fn lemma_view(self)
        ensures
            self@.path == self.path@,
            self@.files == file_views(self.files@),
            self@.sub_directories.len() == self.sub_directories.len(),
            forall|i: int|
                0 <= i < self.sub_directories.len() ==> #[trigger] self@.sub_directories[i]
                    == self.sub_directories[i]@,
    {
    }

    /// The directory at `path`, with nothing in it.
    pub fn new(path: String) -> (dir: Directory)
        ensures
            dir@ == DirectoryView::empty(path@),
            dir@.well_formed(),
    {
        let dir = Directory { path, files: Vec::new(), sub_directories: Vec::new() };
        assert(dir@.files =~= Seq::empty());
        assert(dir@.sub_directories =~= Seq::empty());
        dir
    }

    /// The path of the directory.
    pub fn path(&self) -> (path: String)
        ensures
            path@ == self@.path,
    {
        self.path.clone()
    }

    /// The path of the directory as text.
    pub fn path_string(&self) -> (text: String)
        ensures
            text@ == self@.path,
    {
        self.path.clone()
    }

    /// Whether the directory holds a file of the same path as `file`.
    fn contains_file(&self, file: &File) -> (found: bool)
        ensures
            found == self@.holds_file(file@.path()),
    {
        proof {
            self.lemma_view();
        }
        let mut i: usize = 0;
        while i < self.files.len()
            invariant
                i <= self.files.len(),
                self@.files == file_views(self.files@),
                forall|k: int| 0 <= k < i ==> (#[trigger] self@.files[k]).path() != file@.path(),
            decreases self.files.len() - i,
        {
            if self.files[i] == *file {
                assert(self@.files[i as int].path() == file@.path());
                return true;
            }
            i += 1;
        }
        false
    }

    /// Whether the directory holds a sub-directory of the same path as
    /// `other`.
    fn contains_directory(&self, other: &Directory) -> (found: bool)
        ensures
            found == self@.holds_directory(other@.path),
    {
        proof {
            self.lemma_view();
        }
        let mut i: usize = 0;
        while i < self.sub_directories.len()
            invariant
                i <= self.sub_directories.len(),
                self@.sub_directories.len() == self.sub_directories.len(),
                forall|k: int|
                    0 <= k < self.sub_directories.len() ==> #[trigger] self@.sub_directories[k]
                        == self.sub_directories[k]@,
                forall|k: int|
                    0 <= k < i ==> (#[trigger] self@.sub_directories[k]).path != other@.path,
            decreases self.sub_directories.len() - i,
        {
            if self.sub_directories[i] == *other {
                assert(self@.sub_directories[i as int].path == other@.path);
                return true;
            }
            i += 1;
        }
        false
    }

    /// Adds the file called `filepath` to the directory, unless it holds a
    /// file of that path already.
    pub fn push(&mut self, filepath: String)
        ensures
            final(self)@ == old(self)@.push(filepath@),
            final(self)@.well_formed(),
    {
        proof {
            use_type_invariant(&*self);
        }
        let file = File::new(filepath, self.path.clone());
        if !self.contains_file(&file) {
            // The files are taken out while one is added, so that the
            // directory holds nothing twice at every step.
            let mut files: Vec<File> = Vec::new();
            proof {
                let emptied = Directory {
                    path: self.path,
                    files,
                    sub_directories: self.sub_directories,
                };
                self.lemma_view();
                emptied.lemma_view();
            }
            std::mem::swap(&mut self.files, &mut files);
            files.push(file);
            proof {
                let filled = Directory {
                    path: self.path,
                    files,
                    sub_directories: self.sub_directories,
                };
                filled.lemma_view();
                old(self).lemma_view();
                assert(filled@.files =~= old(self)@.files.push(file@));
                lemma_push_keeps_well_formed(old(self)@, filepath@);
            }
            std::mem::swap(&mut self.files, &mut files);
        }
    }

    /// Attaches a copy of `other` to the directory as a sub-directory, unless
    /// it holds one of that path already. Whether `other` lies below the
    /// directory is the caller's business.
    pub fn extend(&mut self, other: &Directory)
        ensures
            final(self)@ == old(self)@.extend(other@),
            final(self)@.well_formed(),
    {
        proof {
            use_type_invariant(&*self);
            use_type_invariant(other);
        }
        if !self.contains_directory(other) {
            let copy = other.clone();
            // The sub-directories are taken out while one is added, as the
            // files are in `push`.
            let mut sub_directories: Vec<Directory> = Vec::new();
            proof {
                let emptied = Directory {
                    path: self.path,
                    files: self.files,
                    sub_directories,
                };
                self.lemma_view();
                emptied.lemma_view();
            }
            std::mem::swap(&mut self.sub_directories, &mut sub_directories);
            sub_directories.push(copy);
            proof {
                let filled = Directory {
                    path: self.path,
                    files: self.files,
                    sub_directories,
                };
                filled.lemma_view();
                old(self).lemma_view();
                assert(filled@.sub_directories =~= old(self)@.sub_directories.push(other@));
                lemma_extend_keeps_well_formed(old(self)@, other@);
            }
            std::mem::swap(&mut self.sub_directories, &mut sub_directories);
        }
    }

    /// A walk over the directory's sub-directories, from the first.
    pub fn each_sub_directory(&self) -> (walk: SubDirectoryIterator<'_>)
        ensures
            walk.directories() == self@.sub_directories,
            walk.position() == 0,
    {
        proof {
            self.lemma_view();
        }
        SubDirectoryIterator::new(&self.sub_directories)
    }

    /// A walk over the directory's own files, from the first.
    pub fn each_file(&self) -> (walk: FileIterator<'_>)
        ensures
            walk.files() == self@.files,
            walk.position() == 0,
    {
        proof {
            self.lemma_view();
        }
        FileIterator::new(&self.files)
    }

    /// The number of files in and below the directory.
    pub fn len(&self) -> (count: usize)
        requires
            self@.total_files() <= usize::MAX,
        ensures
            count == self@.total_files(),
            count == self@.flatten().len(),
        decreases self,
    {
        proof {
            self.lemma_view();
            lemma_len_is_flatten_len(self@);
        }
        let mut total: usize = self.files.len();
        let mut i: usize = 0;
        while i < self.sub_directories.len()
            invariant
                i <= self.sub_directories.len(),
                self@.total_files() <= usize::MAX,
                self@.files == file_views(self.files@),
                self@.sub_directories.len() == self.sub_directories.len(),
                forall|k: int|
                    0 <= k < self.sub_directories.len() ==> #[trigger] self@.sub_directories[k]
                        == self.sub_directories[k]@,
                total == self.files.len() + count_all(self@.sub_directories.take(i as int)),
            decreases self.sub_directories.len() - i,
        {
            proof {
                lemma_count_all_grows(self@.sub_directories, i + 1);
                assert(self@.sub_directories.take(i + 1).drop_last()
                    =~= self@.sub_directories.take(i as int));
            }
            total = total + self.sub_directories[i].len();
            i += 1;
        }
        assert(self@.sub_directories.take(i as int) =~= self@.sub_directories);
        total
    }

    /// The number of files in and below the directory, where a `usize` can
    /// hold it, and `None` where it cannot.
    pub fn checked_len(&self) -> (count: Option<usize>)
        ensures
            match count {
                Some(number) => number == self@.total_files(),
                None => self@.total_files() > usize::MAX,
            },
        decreases self,
    {
        proof {
            self.lemma_view();
        }
        let mut total: usize = self.files.len();
        let mut i: usize = 0;
        while i < self.sub_directories.len()
            invariant
                i <= self.sub_directories.len(),
                self@.files == file_views(self.files@),
                self@.sub_directories.len() == self.sub_directories.len(),
                forall|k: int|
                    0 <= k < self.sub_directories.len() ==> #[trigger] self@.sub_directories[k]
                        == self.sub_directories[k]@,
                total == self.files.len() + count_all(self@.sub_directories.take(i as int)),
            decreases self.sub_directories.len() - i,
        {
            proof {
                lemma_count_all_grows(self@.sub_directories, i + 1);
                assert(self@.sub_directories.take(i + 1).drop_last()
                    =~= self@.sub_directories.take(i as int));
            }
            let below = match self.sub_directories[i].checked_len() {
                Some(below) => below,
                None => {
                    return None;
                },
            };
            total = match total.checked_add(below) {
                Some(sum) => sum,
                None => {
                    return None;
                },
            };
            i += 1;
        }
        assert(self@.sub_directories.take(i as int) =~= self@.sub_directories);
        Some(total)
    }

    /// The directory's own files.
    pub fn files(&self) -> (files: Vec<File>)
        ensures
            file_views(files@) == self@.files,
            self@.files_distinct(),
    {
        proof {
            self.lemma_view();
            use_type_invariant(self);
        }
        clone_files(&self.files)
    }

    /// The paths of all files in and below the directory: its own files
    /// first, then those of each sub-directory in turn.
    pub fn flatten(&self) -> (paths: Vec<String>)
        ensures
            texts(paths@) == self@.flatten(),
            paths@.len() == self@.total_files(),
            self@.well_formed(),
        decreases self,
    {
        proof {
            self.lemma_view();
            use_type_invariant(self);
            lemma_len_is_flatten_len(self@);
        }
        let mut result: Vec<String> = Vec::new();
        let mut i: usize = 0;
        while i < self.files.len()
            invariant
                i <= self.files.len(),
                self@.files == file_views(self.files@),
                texts(result@) == self@.own_paths().take(i as int),
            decreases self.files.len() - i,
        {
            let text = self.files[i].as_string();
            result.push(text);
            proof {
                assert(self@.own_paths().take(i + 1) =~= self@.own_paths().take(i as int).push(
                    text@,
                ));
            }
            i += 1;
        }
        let mut j: usize = 0;
        while j < self.sub_directories.len()
            invariant
                j <= self.sub_directories.len(),
                self@.sub_directories.len() == self.sub_directories.len(),
                forall|k: int|
                    0 <= k < self.sub_directories.len() ==> #[trigger] self@.sub_directories[k]
                        == self.sub_directories[k]@,
                texts(result@) == self@.own_paths() + flatten_all(
                    self@.sub_directories.take(j as int),
                ),
            decreases self.sub_directories.len() - j,
        {
            let mut below = self.sub_directories[j].flatten();
            let ghost before = result@;
            result.append(&mut below);
            proof {
                assert(self@.sub_directories.take(j + 1).drop_last()
                    =~= self@.sub_directories.take(j as int));
                assert(texts(result@) =~= texts(before)
                    + self.sub_directories[j as int]@.flatten());
            }
            j += 1;
        }
        assert(self@.sub_directories.take(j as int) =~= self@.sub_directories);
        result
    }

    /// The paths of all files in and below the directory, as `flatten` gives
    /// them.
    pub fn contents(&self) -> (paths: Vec<String>)
        ensures
            texts(paths@) == self@.flatten(),
            paths@.len() == self@.total_files(),
    {
        self.flatten()
    }

    /// All files in and below the directory, in the order of `flatten`.
    pub fn file_contents(&self) -> (files: Vec<File>)
        ensures
            file_views(files@) == self@.all_files(),
            self@.flatten() == self@.all_files().map_values(|file: FileView| file.path()),
        decreases self,
    {
        proof {
            self.lemma_view();
            lemma_flatten_is_paths_of_all_files(self@);
        }
        let mut result: Vec<File> = clone_files(&self.files);
        let mut j: usize = 0;
        while j < self.sub_directories.len()
            invariant
                j <= self.sub_directories.len(),
                self@.sub_directories.len() == self.sub_directories.len(),
                forall|k: int|
                    0 <= k < self.sub_directories.len() ==> #[trigger] self@.sub_directories[k]
                        == self.sub_directories[k]@,
                file_views(result@) == self@.files + files_of_all(
                    self@.sub_directories.take(j as int),
                ),
            decreases self.sub_directories.len() - j,
        {
            let mut below = self.sub_directories[j].file_contents();
            let ghost before = result@;
            result.append(&mut below);
            proof {
                assert(self@.sub_directories.take(j + 1).drop_last()
                    =~= self@.sub_directories.take(j as int));
                assert(file_views(result@) =~= file_views(before)
                    + self.sub_directories[j as int]@.all_files());
            }
            j += 1;
        }
        assert(self@.sub_directories.take(j as int) =~= self@.sub_directories);
        result
    }
}

/// A copy of `files`.
fn clone_files(files: &Vec<File>) -> (copy: Vec<File>)
    ensures
        copy@ == files@,
{
    let mut copy: Vec<File> = Vec::new();
    let mut i: usize = 0;
    while i < files.len()
        invariant
            i <= files.len(),
            copy@ == files@.take(i as int),
        decreases files.len() - i,
    {
        copy.push(files[i].clone());
        i += 1;
    }
    copy
}

impl Clone for Directory {
    /// A copy of the directory and of all that lies below it.
    fn clone(&self) -> (copy: Directory)
        ensures
            copy@ == self@,
            copy@.well_formed(),
        decreases self,
    {
        proof {
            use_type_invariant(self);
        }
        let files = clone_files(&self.files);
        let mut sub_directories: Vec<Directory> = Vec::new();
        let mut j: usize = 0;
        while j < self.sub_directories.len()
            invariant
                j <= self.sub_directories.len(),
                sub_directories.len() == j,
                forall|k: int|
                    0 <= k < j ==> (#[trigger] sub_directories[k])@ == self.sub_directories[k]@,
            decreases self.sub_directories.len() - j,
        {
            let below = self.sub_directories[j].clone();
            sub_directories.push(below);
            j += 1;
        }
        let path = self.path.clone();
        proof {
            let copy = Directory { path, files, sub_directories };
            copy.lemma_view();
            self.lemma_view();
            assert(copy@.sub_directories =~= self@.sub_directories);
        }
        Directory { path, files, sub_directories }
    }
}

/// The views of `directories`.
pub open spec fn directory_views(directories: Seq<Directory>) -> Seq<DirectoryView> {
    directories.map_values(|directory: Directory| directory@)
}

/// A walk over directories that hands out a copy of one at each step. What
/// is added to a copy does not show in the directory it was copied from: to
/// add to what lies below a node, take the handles that a `DirectoryTree`
/// gives for the nodes attached to it.
pub struct SubDirectoryIterator<'a> {
    sub_directories: &'a Vec<Directory>,
    index: usize,
}

impl<'a> SubDirectoryIterator<'a> {
    /// The directories that the walk goes over.
    pub closed spec fn directories(&self) -> Seq<DirectoryView> {
        directory_views(self.sub_directories@)
    }

    /// How many directories the walk has handed out.
    pub closed spec fn position(&self) -> nat {
        self.index as nat
    }

    /// A walk over `sub_directories`, from the first.
    pub fn new(sub_directories: &'a Vec<Directory>) -> (walk: Self)
        ensures
            walk.directories() == directory_views(sub_directories@),
            walk.position() == 0,
    {
        SubDirectoryIterator { sub_directories, index: 0 }
    }

    /// A copy of the next directory, or `None` when all were handed out.
    pub fn next(&mut self) -> (item: Option<Directory>)
        ensures
            final(self).directories() == old(self).directories(),
            old(self).position() < old(self).directories().len() ==> {
                &&& item matches Some(directory)
                &&& directory@ == old(self).directories()[old(self).position() as int]
                &&& final(self).position() == old(self).position() + 1
            },
            old(self).position() >= old(self).directories().len() ==> {
                &&& item is None
                &&& final(self).position() == old(self).position()
            },
    {
        if self.index < self.sub_directories.len() {
            let directory = self.sub_directories[self.index].clone();
            self.index += 1;
            Some(directory)
        } else {
            None
        }
    }
}

/// A walk over files that hands out a copy of one at each step.
pub struct FileIterator<'a> {
    files: &'a Vec<File>,
    index: usize,
}

impl<'a> FileIterator<'a> {
    /// The files that the walk goes over.
    pub closed spec fn files(&self) -> Seq<FileView> {
        file_views(self.files@)
    }

    /// How many files the walk has handed out.
    pub closed spec fn position(&self) -> nat {
        self.index as nat
    }

    /// A walk over `files`, from the first.
    pub fn new(files: &'a Vec<File>) -> (walk: Self)
        ensures
            walk.files() == file_views(files@),
            walk.position() == 0,
    {
        FileIterator { files, index: 0 }
    }

    /// A copy of the next file, or `None` when all were handed out.
    pub fn next(&mut self) -> (item: Option<File>)
        ensures
            final(self).files() == old(self).files(),
            old(self).position() < old(self).files().len() ==> {
                &&& item matches Some(file)
                &&& file@ == old(self).files()[old(self).position() as int]
                &&& final(self).position() == old(self).position() + 1
            },
            old(self).position() >= old(self).files().len() ==> {
                &&& item is None
                &&& final(self).position() == old(self).position()
            },
    {
        if self.index < self.files.len() {
            let file = self.files[self.index].clone();
            self.index += 1;
            Some(file)
        } else {
            None
        }
    }
}

impl PartialEq for Directory {
    /// Two directories are equal when their paths are.
    fn eq(&self, other: &Directory) -> (equal: bool) {
        self.path == other.path
    }
}

impl PartialEqSpecImpl for Directory {
    open spec fn obeys_eq_spec() -> bool {
        true
    }

    open spec fn eq_spec(&self, other: &Directory) -> bool {
        self@.path == other@.path
    }
}

} // verus!
