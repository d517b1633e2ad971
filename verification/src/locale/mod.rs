//! Locale layer — CJK punctuation and full-width mapping. Pure
//! functions; the host decides when to apply them.

pub mod punct;
pub mod width;
