//! The local side of the browser: the working directory it shows on this
//! machine and the path arithmetic of navigating it.
//!
//! Listing directories and testing what a path points at are filesystem
//! work and happen outside this crate; the functions here compute the
//! paths those calls are made with and fold their answers back in.

use crate::text::{count_char, last_index_of, lemma_last_index_is, lemma_last_index_none};
use vstd::prelude::*;

verus! {

/// The display entry for one directory item: its name, marked with a
/// trailing slash exactly when the item is a directory.
pub fn format_entry(name: &str, is_dir: bool) -> (entry: String)
    ensures
        is_dir ==> entry@ == name@ + "/"@,
        !is_dir ==> entry@ == name@,
{
    let mut entry = String::from_str(name);
    if is_dir {
        entry.append("/");
    }
    entry
}

/// The browser's view of the local filesystem: just a working directory.
pub struct Local {
    pub working_directory: String,
}

impl Local {
    /// Starts at the given directory, normally the process's current one.
    pub fn new(working_directory: String) -> (local: Local)
        ensures
            local.working_directory@ == working_directory@,
    {
        Local { working_directory }
    }

    /// The path of `path` inside the working directory: the two joined
    /// with a slash.  This is the path the caller tests on the filesystem
    /// before asking to change into it.
    pub fn candidate_path(&self, path: &str) -> (r: String)
        ensures
            r@ == self.working_directory@ + "/"@ + path@,
    {
        let mut r = self.working_directory.clone();
        r.append("/");
        r.append(path);
        r
    }

    /// Moves into `path` below the working directory, but only when the
    /// caller found the joined path to be a directory (`is_dir`); any other
    /// path leaves the working directory untouched.
    pub fn change_directory_rel(&mut self, path: &str, is_dir: bool)
        ensures
            is_dir ==> final(self).working_directory@ == old(self).working_directory@ + "/"@
                + path@,
            !is_dir ==> final(self).working_directory@ == old(self).working_directory@,
    {
        if is_dir {
            let joined = self.candidate_path(path);
            self.working_directory = joined;
        }
    }

    /// Drops the last `/`-separated component of the working directory,
    /// but never climbs above the filesystem root: a directory with fewer
    /// than two slashes becomes the root itself.
    pub fn level_up(&mut self)
        ensures
            final(self).working_directory@ == (if count_char(old(self).working_directory@, '/')
                >= 2 {
                old(self).working_directory@.subrange(
                    0,
                    last_index_of(old(self).working_directory@, '/'),
                )
            } else {
                "/"@
            }),
    {
        let n = self.working_directory.as_str().unicode_len();
        let mut slashes: usize = 0;
        let mut last: usize = n;
        let mut i: usize = 0;
        while i < n
            invariant
                i <= n,
                n == self.working_directory@.len(),
                self == old(self),
                slashes <= i,
                slashes == count_char(self.working_directory@.subrange(0, i as int), '/'),
                last <= n,
                last == n ==> slashes == 0 && (forall|k: int|
                    0 <= k < i ==> self.working_directory@[k] != '/'),
                last < n ==> last < i && slashes >= 1 && self.working_directory@[last as int]
                    == '/' && (forall|k: int|
                    last < k < i ==> self.working_directory@[k] != '/'),
            decreases n - i,
        {
            proof {
                let wd = self.working_directory@;
                assert(wd.subrange(0, i as int + 1).drop_last() =~= wd.subrange(0, i as int));
                assert(wd.subrange(0, i as int + 1).last() == wd[i as int]);
            }
            if self.working_directory.as_str().get_char(i) == '/' {
                slashes = slashes + 1;
                last = i;
            }
            i += 1;
        }
        proof {
            assert(self.working_directory@.subrange(0, n as int) =~= self.working_directory@);
        }
        if slashes >= 2 {
            proof {
                lemma_last_index_is(self.working_directory@, '/', last as int);
            }
            let cut = String::from_str(self.working_directory.as_str().substring_char(0, last));
            self.working_directory = cut;
        } else {
            proof {
                if last < n {
                    lemma_last_index_is(self.working_directory@, '/', last as int);
                } else {
                    lemma_last_index_none(self.working_directory@, '/');
                }
            }
            self.working_directory = String::from_str("/");
        }
    }

    /// The directory the browser currently shows on this machine.
    pub fn get_working_directory(&self) -> (r: &str)
        ensures
            r@ == self.working_directory@,
    {
        self.working_directory.as_str()
    }
}

} // verus!
