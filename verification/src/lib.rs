//! Build-time symbol generation: a directive rewriter over nested token
//! trees, a canonical content hasher behind it, and the bidirectional
//! string-interning table that generated symbol types resolve through.

pub mod chars;
pub mod hasher;
pub mod literal;
pub mod rewrite;
pub mod table;
pub mod token;
