//! Packing a host directory tree into a disk image and unpacking it again:
//! the size grammar, the flattening of input paths into image destinations,
//! and the decisions of the build and extract walks.
//!
//! Nothing here touches a file or an image. The caller reads and writes; the
//! functions below decide what is read and written, and in which order.
use vstd::prelude::*;

pub mod error;
pub mod extract;
pub mod generate;
pub mod names;
pub mod roundtrip;
pub mod size;
pub mod unpack;

verus! {

/// What the program is asked to do: one of its two operations, with the
/// arguments of that operation.
pub struct Cli {
    pub args: CliArgs,
    pub subcommand: CliSubcommand,
}

/// The arguments that every operation takes. There are none.
pub struct CliArgs {}

/// The two operations.
pub enum CliSubcommand {
    /// Pack host paths into a new image.
    Generate(generate::CliArgs),
    /// Unpack an image into a host directory.
    Extract(extract::CliArgs),
}

} // verus!
