//! The shared, append-only list of discovered paths, and the cooperative
//! stop flag.
//!
//! The collector's workers append discovered paths while queries read
//! point-in-time copies; a reader/writer lock serializes the two. What a
//! snapshot holds depends on how far the concurrent walk has come when the
//! read lock is taken, so no contract here can pin the contents down; the
//! query contracts of the finder hold for whatever snapshot was observed.
//! The lock's invariant does pin one thing: every path in the list stays
//! within the digit-run bound of the natural comparison (asked of the
//! transliterated stream the comparison walks), so that ranking a snapshot
//! never outruns the comparator. A discovered path over that bound is left
//! out of the index — a deliberate narrowing of "every regular file is
//! appended", forced by the comparator's machine-word digit fold. The stop
//! flag is set once at teardown and checked by the workers between
//! entries; stopping is cooperative and best-effort.

use vstd::prelude::*;

use vstd::rwlock::RwLock;

use crate::matching::rankable_string;
use crate::matching::rankable_text;

verus! {

/// A lock predicate that admits every value: the stop flag carries no
/// invariant of its own.
pub struct AnyValue<T> {
    marker: core::marker::PhantomData<T>,
}

impl<T> vstd::rwlock::RwLockPredicate<T> for AnyValue<T> {
    open spec fn inv(self, v: T) -> bool {
        true
    }
}

/// The path list's lock predicate: every path stays within the digit-run
/// bound of the natural comparison.
pub struct RankablePaths {
    marker: core::marker::PhantomData<int>,
}

impl vstd::rwlock::RwLockPredicate<Vec<String>> for RankablePaths {
    open spec fn inv(self, v: Vec<String>) -> bool {
        forall|k: int| 0 <= k < v.len() ==> rankable_string((#[trigger] v@[k])@)
    }
}

/// A handle to the shared path list and the stop flag. Clones share the
/// same list and the same flag.
#[derive(Clone)]
pub struct SharedPathList {
    paths: std::sync::Arc<RwLock<Vec<String>, RankablePaths>>,
    stop: std::sync::Arc<RwLock<bool, AnyValue<bool>>>,
}

impl SharedPathList {
    /// An empty list with the stop flag clear.
    pub fn new() -> SharedPathList {
        SharedPathList {
            paths: std::sync::Arc::new(
                RwLock::new(
                    Vec::new(),
                    Ghost(RankablePaths { marker: core::marker::PhantomData }),
                ),
            ),
            stop: std::sync::Arc::new(
                RwLock::new(false, Ghost(AnyValue { marker: core::marker::PhantomData })),
            ),
        }
    }

    /// Appends one discovered path at the end of the list. Paths are never
    /// removed or reordered once appended. The caller keeps the digit-run
    /// bound; `append_if_rankable` checks it first.
    pub fn append(&self, path: String)
        requires
            rankable_string(path@),
    {
        let (mut v, handle) = self.paths.acquire_write();
        v.push(path);
        handle.release_write(v);
    }

    /// Appends the path if its text stays within the digit-run bound of
    /// the natural comparison, and says whether it did; a path over the
    /// bound is left out of the index, like one that is not valid text.
    pub fn append_if_rankable(&self, path: String) -> (r: bool)
        ensures
            r == rankable_string(path@),
    {
        if rankable_text(path.as_str()) {
            self.append(path);
            true
        } else {
            false
        }
    }

    /// A point-in-time copy of the list: every append completed before the
    /// read lock was taken is reflected; the list may grow again as soon as
    /// the lock is released. Every copied path is within the digit-run
    /// bound, since every appended path was.
    pub fn snapshot(&self) -> (r: Vec<String>)
        ensures
            forall|k: int|
                0 <= k < r.deep_view().len() ==> rankable_string(#[trigger] r.deep_view()[k]),
    {
        let handle = self.paths.acquire_read();
        let v = handle.borrow();
        let mut out: Vec<String> = Vec::new();
        let mut i: usize = 0;
        while i < v.len()
            invariant
                i <= v.len(),
                forall|k: int| 0 <= k < v.len() ==> rankable_string((#[trigger] v@[k])@),
                out.len() == i,
                forall|k: int| 0 <= k < i ==> (#[trigger] out@[k])@ == v@[k]@,
            decreases v.len() - i,
        {
            out.push(v[i].clone());
            i = i + 1;
        }
        handle.release_read();
        proof {
            assert forall|k: int|
                0 <= k < out.deep_view().len() implies rankable_string(
                #[trigger] out.deep_view()[k],
            ) by {
                assert(out.deep_view()[k] == out@[k]@);
            }
        }
        out
    }

    /// Raises the stop flag. The flag never goes down again.
    pub fn request_stop(&self) {
        let (_was, handle) = self.stop.acquire_write();
        handle.release_write(true);
    }

    /// Whether a stop was requested. Checked by the collector's workers
    /// between entries.
    pub fn stop_requested(&self) -> bool {
        let handle = self.stop.acquire_read();
        let b = *handle.borrow();
        handle.release_read();
        b
    }
}

} // verus!
