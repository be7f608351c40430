//! Options for walking the file tree. The walk itself reads directories
//! and files, so it lives with the program, not in this library.
use vstd::prelude::*;

verus! {

/// How to walk the roots.
pub struct WalkOptions {
    /// Worker threads; 0 picks a number itself.
    pub threads: usize,
    pub follow_links: bool,
    pub respect_gitignore: bool,
    pub include_hidden: bool,
}

impl Default for WalkOptions {
    /// Automatic threads, no symlinks followed, `.gitignore` respected,
    /// hidden files skipped.
    fn default() -> (o: Self)
        ensures
            o.threads == 0,
            !o.follow_links,
            o.respect_gitignore,
            !o.include_hidden,
    {
        WalkOptions { threads: 0, follow_links: false, respect_gitignore: true, include_hidden: false }
    }
}

} // verus!
