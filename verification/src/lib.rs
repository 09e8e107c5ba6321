//! A command-line front-end for a compiler toolchain.
//!
//! The library decides, from a snapshot of the process arguments and
//! environment, whether an invocation is forwarded to the real compiler,
//! run as a wrapped analysis, or answered by an early exit; it computes the
//! final argument vector (with an optional injected sysroot pair) and
//! records which files and environment variables the decision depended on.

pub mod deps;
pub mod dispatch;
pub mod scan;
