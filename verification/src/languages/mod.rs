//! Languages, and how they end their sentences.

pub mod am;
pub mod ar;
pub mod bg;
pub mod boundary;
pub mod cuts;
pub mod en;
pub mod ja;
pub mod kn;
pub mod language;
pub mod lexicon;
pub mod list_markers;
pub mod pa;
pub mod phrases;
pub mod pl;
pub mod pt;
pub mod ranges;
pub mod rules;
pub mod ta;
pub mod terminators;

pub use am::Amharic;
pub use ar::Arabic;
pub use bg::Bulgarian;
pub use en::English;
pub use ja::Japanese;
pub use kn::Kannada;
pub use language::Language;
pub use pa::Punjabi;
pub use pl::Polish;
pub use pt::Portuguese;
pub use ta::Tamil;
