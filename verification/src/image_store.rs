//! Where the files of an image go.

pub mod fs_parallel;
