//! Tools for a nested key-value text format: parsing to a
//! position-annotated tree, reformatting to a canonical layout, and
//! linting for duplicate keys and syntax errors, with editor-style
//! line/column diagnostics.

mod common;
mod formatter;
mod lexer;
mod linter;
mod parser;
mod serializer;

pub use common::Position;
pub use common::Range;
pub use formatter::format_keyvalue;
pub use formatter::FormatterConfig;
pub use linter::lint_keyvalue;
pub use linter::KvError;
pub use linter::KvErrorKind;
pub use parser::KeyValueParser;
pub use parser::ParseError;
pub use serializer::serialize_keyvalue;
pub use serializer::KeyValue;
pub use serializer::Value;
