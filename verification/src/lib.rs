//! Compile-time configuration for dependency crates, driven by a single
//! shared configuration file owned by the top-level project.
//!
//! The library covers the two steps of the pipeline that compute:
//!
//! - locating the shared configuration file from the package's private
//!   build-output directory (module [`locate`]), and
//! - parsing the file's namespaced `owner:key=value` lines and planning
//!   which artifact files to write for one target package
//!   (modules [`parse`] and [`plan`]).
//!
//! Reading the file and writing the artifact files is left to the build
//! script that calls into this library; every function here is pure.
//! All text is handled as raw bytes: the delimiters of the grammar are
//! ASCII, so byte-level processing is compatible with UTF-8 input, and
//! artifact contents are specified byte-for-byte.

pub mod bytes;
pub mod lines;
pub mod parse;
pub mod locate;
pub mod plan;
