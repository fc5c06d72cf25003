//! Detection and resolution of backslash escape sequences in byte strings.
//!
//! The library has two components. The detector (`find`) decides whether a
//! byte sequence contains a backslash at all, so that callers can skip the
//! resolver on lines that need no work. The resolver (`unescape`) rewrites a
//! byte sequence, decoding `\\` to a single backslash and `\n` to a newline
//! byte, and passing every other byte (including unrecognized escapes and a
//! trailing backslash) through unchanged.
//!
//! Each component offers several interchangeable strategies that differ only
//! in mechanism. Every strategy is verified against the same specification
//! (`model::unescaped` for the resolver, `model::has_backslash` for the
//! detector), so their pairwise equivalence on all inputs is a consequence of
//! their contracts.

pub mod find;
pub mod model;
pub mod unescape;
