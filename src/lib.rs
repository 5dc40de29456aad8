//! Locates a named file or directory by walking upward through the ancestors
//! of one or more start directories, one directory level at a time.

pub mod matcher;
pub mod path;
pub mod walk;
pub mod search;
