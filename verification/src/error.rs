use vstd::prelude::*;

verus! {

/// The closed set of failures the library reports.
#[derive(Debug)]
pub enum Error {
    /// A filesystem operation failed at `path`; `message` carries the cause.
    Io { path: String, message: String },
    /// A destination is already occupied, blocking the whole batch.
    Collision { existing: String },
    /// Access was denied.
    Permission { path: String },
    /// A symlink would definitively break (advisory; never raised by the scanner).
    BrokenSymlink { link: String, target: String },
    /// A rename would span filesystems, which is unsupported.
    CrossDevice { path: String },
    /// Journal data was malformed or another unclassified failure occurred.
    Other(String),
}

} // verus!
