//! Bundles a list of images into one tar-like archive of sequentially numbered
//! entries, converting the images that need it along the way.
//!
//! The crate holds the rules of that job and leaves every effect to the caller:
//! it never opens a file, starts a process or writes to a sink. The caller hands
//! it inputs and the outcomes of the work it was asked to do, and is told what to
//! do next and which bytes to send.

pub mod bytes;
pub mod cbt;
pub mod converter;
pub mod model;
pub mod names;
pub mod order;
pub mod radix;
pub mod tar;
pub mod whole_run;
pub mod workdir;
