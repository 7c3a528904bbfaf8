//! What the library does, said of the texts themselves.
//!
//! A text is written as its parts, one behind the other, and each law says what becomes
//! of such a text.

pub mod cuts;
pub mod items;
pub mod lexicons;
pub mod lists;
pub mod markers;
pub mod marks;
pub mod orphans;
pub mod parts;
pub mod quotes;
pub mod runs;
pub mod sentences;
pub mod special;
pub mod texts;
