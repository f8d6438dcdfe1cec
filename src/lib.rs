//! Incremental directory-tree patches: the data model, a versioned binary
//! codec, the rules that build a package from two snapshots, and the checks
//! that make applying one safe. Beside them, the decisions of the launcher
//! that installs game versions: version names, download tasks and retries.

use vstd::prelude::*;

pub mod apply;
pub mod builder;
pub mod codec;
pub mod config;
pub mod delta;
pub mod downloader;
pub mod package;
pub mod paths;
pub mod scan;
pub mod text;
