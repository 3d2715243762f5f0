//! Renames an identifier across naming conventions in one pass over a text.
//!
//! The core is an Aho-Corasick automaton that replaces, line by line, the
//! longest pattern ending at each position, without overlap and without
//! reading replaced text again.
mod automaton;
pub mod name;
pub mod replace;
pub mod style;
pub mod text;
pub mod transform;

pub use name::{Name, ParsingError, Token};
pub use replace::{default_replacer, Replacer, SimpleReplacer};
pub use style::{Case, NamingStyle, SimpleNamingStyle};
pub use transform::{default_transformer, Transform, TransformError, Transformer};
