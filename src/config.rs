//! The settings the service runs with.

use vstd::prelude::*;

verus! {

/// The settings of the service.
#[derive(Debug)]
pub struct Args {
    /// The address the server listens on.
    pub bind_address: String,
    /// The file the document is kept in.
    pub db_path: String,
    /// The directory that uploads go to and static files are served from.
    pub public_path: String,
    /// The name of the id field of collection items.
    pub id: String,
    /// The largest request body, in MiB.
    pub max_body_limit_m: usize,
    /// Whether to log at debug level.
    pub debug: bool,
}

impl Args {
    /// The largest request body in bytes, or `usize::MAX` if that is more.
    pub fn body_limit_bytes(&self) -> (r: usize)
        ensures
            r == if self.max_body_limit_m * 1048576 <= usize::MAX {
                self.max_body_limit_m * 1048576
            } else {
                usize::MAX as int
            },
    {
        match self.max_body_limit_m.checked_mul(1048576) {
            Some(b) => b,
            None => usize::MAX,
        }
    }

    /// The temporary file a flush writes before it replaces the document file.
    pub fn temp_db_path(&self) -> (r: String)
        ensures
            r@ == self.db_path@ + ".tmp"@,
    {
        crate::persist::temp_path(self.db_path.as_str())
    }
}

} // verus!
