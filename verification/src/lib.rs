//! Core logic of a dual-pane terminal file browser.
//!
//! The centrepiece is the layout engine: an arena-stored tree of nodes that
//! recursively partitions a rectangular terminal region into child regions,
//! splitting space equally along a per-node direction.  Around it stand the
//! pure parts of the browser: parsing the device bridge's line-oriented
//! output, directory-path navigation, list scrolling and pagination, and the
//! geometry of the modal dialog.  Everything that touches a terminal, a
//! process or the filesystem lives outside this crate.

pub mod adb;
pub mod arena;
pub mod device_filelist;
pub mod file_operations;
pub mod layout;
pub mod layout_laws;
pub mod listbox;
pub mod modal;
pub mod text;
