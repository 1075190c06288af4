//! The filesystem adapter: the one capability the tree model pulls on.
//!
//! The model never touches the filesystem itself. Whenever it needs the
//! entries of a directory it asks a [`FilesystemAdapter`] for them, naming the
//! directory by its chain of path components relative to the root that the
//! adapter was made for. [`FixedAdapter`] is a deterministic in-memory
//! implementation that serves one fixed listing (or one fixed failure) and
//! counts how often it was asked, so that callers can be held to the promise
//! that cached subtrees are never re-read.

use vstd::prelude::*;

verus! {

/// One filesystem entry as reported by an adapter: a name and whether the
/// entry is itself a directory.
#[derive(Clone, Debug)]
pub struct DirEntry {
    pub name: String,
    pub is_directory: bool,
}

/// The one error kind of this library: a directory could not be listed.
/// `path` names the directory the adapter failed on and `cause` says why.
#[derive(Clone, Debug)]
pub struct IoError {
    pub path: String,
    pub cause: String,
}

/// The capability the tree model depends on: list the entries of one
/// directory, named by its path components relative to the adapter's root
/// (an empty chain names the root itself).
///
/// Nothing is assumed about the listing itself — a real filesystem may
/// return anything, in any order, or fail — but every call must advance
/// `call_count` by exactly one, so that contracts can state when the
/// filesystem was *not* consulted.
pub trait FilesystemAdapter: Sized {
    /// How many times `list_entries` has been called on this adapter. The
    /// default is a placeholder for implementations outside the verifier's
    /// sight; an implementation that is verified must override it with its
    /// own accounting, since `list_entries` promises to advance it.
    open spec fn call_count(&self) -> nat {
        0
    }

    /// Lists the entries of the directory named by `path`, or fails with an
    /// [`IoError`].
    fn list_entries(&mut self, path: &Vec<String>) -> (r: Result<Vec<DirEntry>, IoError>)
        ensures
            final(self).call_count() == old(self).call_count() + 1,
    ;
}

/// A deterministic adapter for driving the model without a filesystem: it
/// answers every listing request with clones of the same fixed entries, or
/// always fails when `fail` is set.
pub struct FixedAdapter {
    entries: Vec<DirEntry>,
    fail: bool,
    n_calls: u64,
    history: Ghost<nat>,
}

impl FixedAdapter {
    /// Makes an adapter that serves `entries` on every request, or fails
    /// every request when `fail` is true. No request has been counted yet.
    pub fn new(entries: Vec<DirEntry>, fail: bool) -> (r: FixedAdapter)
        ensures
            r.call_count() == 0,
    {
        FixedAdapter { entries, fail, n_calls: 0, history: Ghost(0) }
    }

    /// The run-time observation counter: how many listing requests this
    /// adapter has answered, saturating at `u64::MAX`. Contracts speak of
    /// the exact ghost [`FilesystemAdapter::call_count`] instead.
    pub closed spec fn recorded_calls(&self) -> u64 {
        self.n_calls
    }

    /// How many listing requests this adapter has answered, for observation
    /// at run time (saturating at `u64::MAX`).
    pub fn calls(&self) -> (r: u64)
        ensures
            r == self.recorded_calls(),
    {
        self.n_calls
    }

    /// Flips whether further requests fail.
    pub fn set_fail(&mut self, fail: bool)
        ensures
            final(self).call_count() == old(self).call_count(),
    {
        self.fail = fail;
    }
}

impl FilesystemAdapter for FixedAdapter {
    closed spec fn call_count(&self) -> nat {
        self.history@
    }

    fn list_entries(&mut self, path: &Vec<String>) -> (r: Result<Vec<DirEntry>, IoError>) {
        self.history = Ghost(self.history@ + 1);
        if self.n_calls < u64::MAX {
            self.n_calls = self.n_calls + 1;
        }
        if self.fail {
            let path_name = if path.len() > 0 {
                path[path.len() - 1].clone()
            } else {
                String::new()
            };
            Err(IoError { path: path_name, cause: "listing refused".to_owned() })
        } else {
            Ok(self.entries.clone())
        }
    }
}

} // verus!
