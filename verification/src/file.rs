//! Regular files, and the text of the paths that lead to them.

use vstd::prelude::*;
use vstd::string::*;
use vstd::std_specs::cmp::PartialEqSpecImpl;

verus! {

/// `i` is the place of the first `/` in `text`.
pub open spec fn is_first_separator(text: Seq<char>, i: int) -> bool {
    &&& 0 <= i < text.len()
    &&& text[i] == '/'
    &&& forall|j: int| 0 <= j < i ==> text[j] != '/'
}

/// `text` without its first component: what follows the first `/`, or all of
/// `text` where it holds no `/`.
pub open spec fn unshifted(text: Seq<char>) -> Seq<char> {
    if exists|i: int| is_first_separator(text, i) {
        let i = choose|i: int| is_first_separator(text, i);
        text.subrange(i + 1, text.len() as int)
    } else {
        text
    }
}

/// `text` begins with the marker of the current directory, `./`.
pub open spec fn has_current_dir_prefix(text: Seq<char>) -> bool {
    text.len() >= 2 && text[0] == '.' && text[1] == '/'
}

/// `text` is the marker of the current directory and nothing else, `.`.
pub open spec fn is_current_dir(text: Seq<char>) -> bool {
    text.len() == 1 && text[0] == '.'
}

/// The directory `dir` as a file keeps it, without the marker of the current
/// directory: empty where `dir` is `.`, what follows the `./` where `dir`
/// begins with it, else `dir`.
pub open spec fn normalized_dir(dir: Seq<char>) -> Seq<char> {
    if is_current_dir(dir) {
        Seq::empty()
    } else if has_current_dir_prefix(dir) {
        dir.subrange(2, dir.len() as int)
    } else {
        dir
    }
}

/// `path` begins at the root.
pub open spec fn is_absolute(path: Seq<char>) -> bool {
    path.len() > 0 && path[0] == '/'
}

/// The path of `name` below `dir`. A `name` that begins at the root stands
/// for itself; otherwise one `/` separates the two unless `dir` is empty or
/// ends in one already.
pub open spec fn joined(dir: Seq<char>, name: Seq<char>) -> Seq<char> {
    if is_absolute(name) {
        name
    } else if dir.len() > 0 && dir.last() != '/' {
        dir + seq!['/'] + name
    } else {
        dir + name
    }
}

/// The first `/` of a text stands at one place only.
pub proof fn lemma_first_separator_unique(text: Seq<char>, i: int, j: int)
    requires
        is_first_separator(text, i),
        is_first_separator(text, j),
    ensures
        i == j,
{
}

/// Dropping the first component of a directory that begins with `./` drops
/// exactly that marker.
pub proof fn lemma_unshift_current_dir(dir: Seq<char>)
    requires
        has_current_dir_prefix(dir),
    ensures
        unshifted(dir) == normalized_dir(dir),
{
    assert(is_first_separator(dir, 1));
    let i = choose|i: int| is_first_separator(dir, i);
    lemma_first_separator_unique(dir, i, 1);
}

/// The spellings of the current directory give the same file: `.` and `./`
/// both leave a file with its name alone.
pub proof fn lemma_current_dir_spellings_agree(basename: Seq<char>)
    ensures
        FileView::located(basename, seq!['.']) == FileView::located(basename, seq!['.', '/']),
        FileView::located(basename, seq!['.']) == FileView::located(basename, Seq::empty()),
        FileView::located(basename, seq!['.']).path() == basename,
{
    let marked = seq!['.', '/'];
    assert(marked.subrange(2, marked.len() as int) =~= Seq::<char>::empty());
    assert(Seq::<char>::empty() + basename =~= basename);
}

/// A directory written with a leading `./` and the same directory written
/// without it give the same file. The directory without the marker must not
/// itself be `.` or begin with `./`: of two markers only the first is
/// dropped.
pub proof fn lemma_current_dir_marker_is_dropped(basename: Seq<char>, dir: Seq<char>)
    requires
        !has_current_dir_prefix(dir),
        !is_current_dir(dir),
    ensures
        FileView::located(basename, seq!['.', '/'] + dir) == FileView::located(basename, dir),
        FileView::located(basename, seq!['.', '/'] + dir).path() == FileView::located(
            basename,
            dir,
        ).path(),
{
    let marked = seq!['.', '/'] + dir;
    assert(marked.subrange(2, marked.len() as int) =~= dir);
}

/// A regular file as mathematics sees it.
pub struct FileView {
    /// The file's own name.
    pub basename: Seq<char>,
    /// The directory that holds it, without the marker of the current
    /// directory.
    pub dirname: Seq<char>,
}

impl FileView {
    /// The file called `basename` in the directory written as `dirname`.
    pub open spec fn located(basename: Seq<char>, dirname: Seq<char>) -> FileView {
        FileView { basename, dirname: normalized_dir(dirname) }
    }

    /// The path of the file: its directory joined with its name.
    pub open spec fn path(self) -> Seq<char> {
        joined(self.dirname, self.basename)
    }
}

/// One regular file: a name and the directory that holds it.
#[derive(Debug)]
pub struct File {
    basename: String,
    dirname: String,
}

impl View for File {
    type V = FileView;

    closed spec fn view(&self) -> FileView {
        FileView { basename: self.basename@, dirname: self.dirname@ }
    }
}

impl File {
    /// The file `basename` in `dirname`. The marker of the current directory
    /// is dropped from `dirname`, be it `.` alone or a leading `./`, so that
    /// the spellings of one directory give the same file.
    pub fn new(basename: String, dirname: String) -> (file: File)
        ensures
            file@ == FileView::located(basename@, dirname@),
    {
        File { basename, dirname: normalize_dir(dirname) }
    }

    /// The path of the file.
    pub fn path(&self) -> (path: String)
        ensures
            path@ == self@.path(),
    {
        join(&self.dirname, &self.basename)
    }

    /// The file's own name.
    pub fn file_name(&self) -> (name: String)
        ensures
            name@ == self@.basename,
    {
        self.basename.clone()
    }

    /// The path of the file as text.
    pub fn as_string(&self) -> (text: String)
        ensures
            text@ == self@.path(),
    {
        self.path()
    }
}

impl Clone for File {
    fn clone(&self) -> (copy: File)
        ensures
            copy == *self,
    {
        File { basename: self.basename.clone(), dirname: self.dirname.clone() }
    }
}

impl PartialEq for File {
    /// Two files are equal when their paths are.
    fn eq(&self, other: &File) -> (equal: bool) {
        let mine = self.path();
        let theirs = other.path();
        mine == theirs
    }
}

impl PartialEqSpecImpl for File {
    open spec fn obeys_eq_spec() -> bool {
        true
    }

    open spec fn eq_spec(&self, other: &File) -> bool {
        self@.path() == other@.path()
    }
}

/// Drops the first component of `path`: returns what follows its first `/`,
/// and `path` itself where it holds none.
pub fn unshift(path: String) -> (rest: String)
    ensures
        rest@ == unshifted(path@),
{
    let text = path.as_str();
    let len = text.unicode_len();
    let mut i: usize = 0;
    while i < len
        invariant
            i <= len,
            len == path@.len(),
            text@ == path@,
            forall|j: int| 0 <= j < i ==> path@[j] != '/',
        decreases len - i,
    {
        if text.get_char(i) == '/' {
            assert(is_first_separator(path@, i as int));
            return text.substring_char(i + 1, len).to_owned();
        }
        i += 1;
    }
    path
}

/// The directory `dirname` without the marker of the current directory:
/// empty for `.`, and without a leading `./`.
pub fn normalize_dir(dirname: String) -> (dir: String)
    ensures
        dir@ == normalized_dir(dirname@),
{
    if names_current_dir(&dirname) {
        String::new()
    } else if starts_with_current_dir(&dirname) {
        proof {
            lemma_unshift_current_dir(dirname@);
        }
        unshift(dirname)
    } else {
        dirname
    }
}

/// Whether `path` begins at the root.
pub fn begins_at_root(path: &String) -> (found: bool)
    ensures
        found == is_absolute(path@),
{
    let text = path.as_str();
    text.unicode_len() > 0 && text.get_char(0) == '/'
}

/// Whether `text` is `.` and nothing else.
pub fn names_current_dir(text: &String) -> (found: bool)
    ensures
        found == is_current_dir(text@),
{
    let text = text.as_str();
    text.unicode_len() == 1 && text.get_char(0) == '.'
}

/// Whether `text` begins with `./`.
pub fn starts_with_current_dir(text: &String) -> (found: bool)
    ensures
        found == has_current_dir_prefix(text@),
{
    let text = text.as_str();
    text.unicode_len() >= 2 && text.get_char(0) == '.' && text.get_char(1) == '/'
}

/// The path of `name` below `dir`.
pub fn join(dir: &String, name: &String) -> (path: String)
    ensures
        path@ == joined(dir@, name@),
{
    let dir_len = dir.as_str().unicode_len();
    if begins_at_root(name) {
        return name.clone();
    }
    let mut path = dir.clone();
    if dir_len > 0 && dir.as_str().get_char(dir_len - 1) != '/' {
        proof {
            reveal_strlit("/");
        }
        path.append("/");
    }
    path.append(name.as_str());
    path
}

} // verus!
