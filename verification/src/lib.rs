pub mod analyzer;
pub mod error;
pub mod journal;
pub mod mover;
pub mod paths;
pub mod scanner;

pub use analyzer::{detect_nesting, NestingCandidate};
pub use error::Error;
pub use journal::Journal;
pub use mover::{flatten, MoveRecord, MoveResult};
pub use paths::{file_name, join, path_starts_with, sort_strings, str_le};
pub use scanner::{detect_collisions, detect_symlink_risks, scan, Collision, ScanReport, SymlinkRisk};
