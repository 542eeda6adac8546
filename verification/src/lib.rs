//! Disk-usage analyzer core: scans of a directory tree are assembled into an
//! immutable size tree whose directories aggregate their children's sizes and
//! keep them sorted by on-disk size, largest first; a navigation cursor walks
//! the tree, and a projection turns any node into flat, display-ready rows.
pub mod node;
pub mod probe;
pub mod readable;
pub mod rows;
pub mod state;
