//! The traversal state machine.
//!
//! A [`Walker`] holds the frontier of a depth-first directory walk: the stack
//! of directories that were discovered but not yet visited, together with the
//! optional name filter. A caller drives it against a live filesystem: it
//! repeatedly takes the next pending directory with [`Walker::next_dir`],
//! lists that directory itself, and reports each child through
//! [`Walker::on_entry`], which decides whether the child's path is printed
//! and queues the child when it is itself a directory. Traversal is
//! independent of filtering: a directory is queued whether or not its own
//! name matches.

use vstd::prelude::*;

use crate::pattern::Matcher;
use crate::pattern::entry_matches;
use crate::pattern::matcher_view;
use crate::pattern::name_view;
use crate::pattern::should_print;

verus! {

/// The state of a depth-first walk: the optional filter and the frontier of
/// pending directory paths.
pub struct Walker {
    pattern: Option<Matcher>,
    stack: Vec<String>,
}

impl Walker {
    /// The pattern text the walker filters with, if any.
    pub closed spec fn pattern_view(self) -> Option<Seq<char>> {
        matcher_view(self.pattern)
    }

    /// The pending directory paths, most recently discovered last.
    pub closed spec fn stack_view(self) -> Seq<Seq<char>> {
        self.stack@.map_values(|s: String| s@)
    }

    /// Start a walk: the frontier holds exactly the root path.
    pub fn new(root: String, pattern: Option<Matcher>) -> (w: Walker)
        ensures
            w.stack_view() == seq![root@],
            w.pattern_view() == matcher_view(pattern),
    {
        let mut stack: Vec<String> = Vec::new();
        stack.push(root);
        let w = Walker { pattern, stack };
        proof {
            assert(w.stack_view() =~= seq![root@]);
        }
        w
    }

    /// Remove and return the most recently discovered pending directory, or
    /// `None` when the walk is complete.
    pub fn next_dir(&mut self) -> (r: Option<String>)
        ensures
            final(self).pattern_view() == old(self).pattern_view(),
            old(self).stack_view().len() == 0 ==> r is None && final(self).stack_view()
                == old(self).stack_view(),
            old(self).stack_view().len() > 0 ==> r is Some && (r->0)@ == old(
                self,
            ).stack_view().last() && final(self).stack_view() == old(
                self,
            ).stack_view().drop_last(),
    {
        let r = self.stack.pop();
        proof {
            if old(self).stack@.len() > 0 {
                assert(self.stack_view() =~= old(self).stack_view().drop_last());
            }
        }
        r
    }

    /// Record one child listed under the directory being visited: `path` is
    /// the child's full path, `name` its base name (`None` when the name is
    /// not readable as text), and `is_dir` whether it is itself a directory.
    /// Returns whether the path is to be printed; a directory is queued on
    /// the frontier whether or not it matched.
    pub fn on_entry(&mut self, path: String, name: Option<&str>, is_dir: bool) -> (print: bool)
        ensures
            print == entry_matches(old(self).pattern_view(), name_view(name)),
            final(self).pattern_view() == old(self).pattern_view(),
            is_dir ==> final(self).stack_view() == old(self).stack_view().push(path@),
            !is_dir ==> final(self).stack_view() == old(self).stack_view(),
    {
        let print = should_print(&self.pattern, name);
        if is_dir {
            let ghost before = self.stack_view();
            self.stack.push(path);
            proof {
                assert(self.stack_view() =~= before.push(path@));
            }
        }
        print
    }
}

} // verus!
