//! Turns parsed source files into token-bounded, content-addressed chunk records.
//!
//! - `syntax`: a parsed file as plain nodes in pre-order.
//! - `lang_driver`: what each language's grammar calls declarations, scopes and
//!   comments, and how a node's name is found.
//! - `files`: one logical chunk per declaration (breadcrumb, comment block,
//!   signature), and the records of a whole file.
//! - `tokens`: token counting and the line-aligned splitter.
//! - `hash`: content addresses of the records.
//! - `text`: operations on texts as sequences of chars.
//! - `types`: the record type.
pub mod files;
pub mod hash;
pub mod lang_driver;
pub mod syntax;
pub mod text;
pub mod tokens;
pub mod types;
