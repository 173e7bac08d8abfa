//! The verified core of a `nix-shell` accelerator: the trace of what a
//! `nix-shell` evaluation read from the filesystem, the content-addressed
//! cache keyed by a fingerprint of the inputs, and the decisions of the
//! invocation driver — argument classification, working-directory
//! normalisation, environment merging and exec planning.  All values are
//! raw byte strings; the process work around them lives outside this
//! crate.

pub mod args;
pub mod bash;
pub mod bytemap;
pub mod bytes;
pub mod codec;
pub mod drv;
pub mod env;
pub mod fingerprint;
pub mod lit;
pub mod nix_path;
pub mod path_clean;
pub mod run;
pub mod shebang;
pub mod trace;
