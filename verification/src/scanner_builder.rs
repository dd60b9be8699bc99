//! Assembling a scanner from a root path and a limit on threads.

use vstd::prelude::*;
use crate::scanner::{DirectoryScanner, ScannerView};

verus! {

/// A builder as mathematics sees it.
pub struct BuilderView {
    /// The path at which the scan starts.
    pub path: Seq<char>,
    /// The most threads that the scan keeps busy, the caller's included.
    pub max_threads: nat,
}

impl BuilderView {
    /// The scanner that the builder builds, where relative paths start from
    /// `working_dir`: the caller's thread is one of the threads, so one task
    /// fewer may run.
    pub open spec fn built(self, working_dir: Seq<char>) -> ScannerView {
        ScannerView {
            concurrency_limit: (self.max_threads - 1) as nat,
            ..ScannerView::fresh(self.path, working_dir)
        }
    }
}

/// Collects what a scanner is made of.
#[derive(Debug)]
pub struct ScannerBuilder {
    path: String,
    max_threads: usize,
}

impl View for ScannerBuilder {
    type V = BuilderView;

    closed spec fn view(&self) -> BuilderView {
        BuilderView { path: self.path@, max_threads: self.max_threads as nat }
    }
}

impl ScannerBuilder {
    #[verifier::type_invariant]
    spec fn inv(self) -> bool {
        self.max_threads >= 1
    }

    /// A builder with an empty path and ten threads.
    pub fn new() -> (builder: ScannerBuilder)
        ensures
            builder@ == (BuilderView { path: Seq::empty(), max_threads: 10 }),
    {
        ScannerBuilder { path: String::new(), max_threads: 10 }
    }

    /// The builder with `path` as the place where the scan starts.
    pub fn start_from_path(self, path: &str) -> (builder: ScannerBuilder)
        ensures
            builder@ == (BuilderView { path: path@, ..self@ }),
    {
        proof {
            use_type_invariant(&self);
        }
        ScannerBuilder { path: path.to_owned(), max_threads: self.max_threads }
    }

    /// The builder with `thread_limit` threads, of which the caller's is
    /// one: there is at least one.
    pub fn max_threads(self, thread_limit: usize) -> (builder: ScannerBuilder)
        requires
            thread_limit >= 1,
        ensures
            builder@ == (BuilderView { max_threads: thread_limit as nat, ..self@ }),
    {
        ScannerBuilder { path: self.path, max_threads: thread_limit }
    }

    /// The scanner for what was collected. Relative paths start from
    /// `working_dir`.
    pub fn build(&self, working_dir: String) -> (scanner: DirectoryScanner)
        ensures
            self@.max_threads >= 1,
            scanner@ == self@.built(working_dir@),
    {
        proof {
            use_type_invariant(self);
        }
        let mut scanner = DirectoryScanner::new(self.path.clone(), working_dir);
        scanner.set_concurrency_limit(self.max_threads - 1);
        scanner
    }
}

} // verus!
