//! Verified core of Weight Folders: the tree of a disk scan, paths,
//! search, snapshots, comparisons and the decisions of the application.

pub mod model;
pub mod check;
pub mod counts;
pub mod paths;
pub mod resolve;
pub mod subtree;
pub mod edit;
pub mod diff;
pub mod search;
pub mod glob;
pub mod snapshot;
pub mod start;
pub mod scan;
pub mod session;
pub mod sizes;
pub mod survivors;
pub mod text;
pub mod treemap;
