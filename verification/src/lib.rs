//! A recursive-descent JSON parser that turns a text buffer into a tagged
//! value tree.
//!
//! The grammar is stated once, mathematically, as spec functions over
//! `Seq<char>` (module [`grammar`]); every executable parser in [`parser`]
//! is proved to return exactly what the corresponding spec function says.
//! The value tree itself lives in [`value`].
//!
//! Every parser follows one backtracking contract: it returns the advanced
//! cursor and a decoded value on success, and the *unchanged* cursor and no
//! value on failure.  Floating-point literals are kept exactly as parsed
//! (whole digits, fractional digits, fractional digit count) so that no
//! rounding ever happens inside the library; turning such a literal into a
//! machine float is left to callers.

pub mod grammar;
pub mod parser;
pub mod render;
pub mod value;

pub use parser::JsonError;
pub use value::JsonFloat;
pub use value::JsonValue;
pub use value::JsonView;
