use vstd::prelude::*;
use crate::syntax::{Span, SyntaxNode};
use crate::text::{chars_of, same_chars, slice_chars, strip_suffix, strip_suffix_chars};

verus! {

#[verifier::external_type_specification]
#[verifier::external_body]
pub struct ExLanguage(tree_sitter::Language);

/// Relies on `tree_sitter_rust::language`: the grammar of Rust.
#[verifier::external_body]
fn rust_grammar() -> tree_sitter::Language {
    tree_sitter_rust::language()
}

/// Relies on `tree_sitter_python::language`: the grammar of Python.
#[verifier::external_body]
fn python_grammar() -> tree_sitter::Language {
    tree_sitter_python::language()
}

/// A name for the lowercase form of a text.
pub uninterp spec fn lower_of(s: Seq<char>) -> Seq<char>;

/// Relies on `str::to_lowercase`: the result depends on the text alone.
#[verifier::external_body]
fn lowercase(s: &str) -> (r: String)
    ensures
        r@ == lower_of(s@),
{
    s.to_lowercase()
}

/// What the chunker knows of one language: its grammar, which nodes are
/// declarations, scopes and comments, and how a node's name is found.
#[derive(Clone, Copy, Debug, PartialEq, Eq, Structural)]
pub enum LanguageDriver {
    Rust,
    Python,
}

/// The driver for a file extension, as written (already lowercase).
pub open spec fn driver_of(ext: Seq<char>) -> Option<LanguageDriver> {
    if ext == "rs"@ {
        Some(LanguageDriver::Rust)
    } else if ext == "py"@ {
        Some(LanguageDriver::Python)
    } else {
        None
    }
}

/// Whether the text of `k` is `lit`.
fn kind_is(k: &String, lit: &str) -> (r: bool)
    ensures
        r == (k@ == lit@),
{
    same_chars(&chars_of(k.as_str()), &chars_of(lit))
}

/// The driver for an extension written in lowercase, or `None` where no language
/// uses it.
pub fn get_driver(extension: &str) -> (r: Option<LanguageDriver>)
    ensures
        r == driver_of(extension@),
{
    let e = chars_of(extension);
    if same_chars(&e, &chars_of("rs")) {
        Some(LanguageDriver::Rust)
    } else if same_chars(&e, &chars_of("py")) {
        Some(LanguageDriver::Python)
    } else {
        None
    }
}

/// The driver for an extension in any case (`RS` as `rs`).
pub fn driver_for_extension(extension: &str) -> (r: Option<LanguageDriver>)
    ensures
        r == driver_of(lower_of(extension@)),
{
    let lower = lowercase(extension);
    get_driver(lower.as_str())
}

/// The text of `span` in `content`.
pub open spec fn span_text(content: Seq<char>, span: Span) -> Seq<char> {
    content.subrange(span.start as int, span.end as int)
}

/// A node's kind, without the grammar's `_item` or `_definition` suffix.
pub open spec fn clean_kind(k: Seq<char>) -> Seq<char> {
    strip_suffix(strip_suffix(k, "_item"@), "_definition"@)
}

impl LanguageDriver {
    pub open spec fn label(self) -> Seq<char> {
        match self {
            LanguageDriver::Rust => "Rust"@,
            LanguageDriver::Python => "Python"@,
        }
    }

    /// The kinds of node that become chunks.
    pub open spec fn is_declaration_kind(self, k: Seq<char>) -> bool {
        match self {
            LanguageDriver::Rust => k == "function_item"@ || k == "struct_item"@ || k
                == "enum_item"@ || k == "impl_item"@ || k == "mod_item"@,
            LanguageDriver::Python => k == "function_definition"@ || k == "class_definition"@,
        }
    }

    /// The kinds of node that open a named scope.
    pub open spec fn is_scope_kind(self, k: Seq<char>) -> bool {
        match self {
            LanguageDriver::Rust => k == "function_item"@ || k == "struct_item"@ || k
                == "enum_item"@ || k == "impl_item"@ || k == "mod_item"@ || k == "trait_item"@,
            LanguageDriver::Python => k == "function_definition"@ || k == "class_definition"@,
        }
    }

    /// The kinds of node that are comments.
    pub open spec fn is_comment_kind(self, k: Seq<char>) -> bool {
        match self {
            LanguageDriver::Rust => k == "line_comment"@ || k == "block_comment"@,
            LanguageDriver::Python => k == "comment"@,
        }
    }

    /// A node's name: its `name` field, or for a Rust `impl` block its `type` field.
    pub open spec fn name_of(self, node: SyntaxNode, content: Seq<char>) -> Option<Seq<char>> {
        if node.name_field is Some {
            Some(span_text(content, node.name_field->0))
        } else if self == LanguageDriver::Rust && node.kind@ == "impl_item"@
            && node.type_field is Some {
            Some(span_text(content, node.type_field->0))
        } else {
            None
        }
    }

    /// The grammar that files of this language are parsed with.
    pub fn get_language(&self) -> tree_sitter::Language {
        match self {
            LanguageDriver::Rust => rust_grammar(),
            LanguageDriver::Python => python_grammar(),
        }
    }

    pub fn get_name(&self) -> (r: &'static str)
        ensures
            r@ == self.label(),
    {
        match self {
            LanguageDriver::Rust => "Rust",
            LanguageDriver::Python => "Python",
        }
    }

    pub fn is_declaration(&self, kind: &String) -> (r: bool)
        ensures
            r == self.is_declaration_kind(kind@),
    {
        match self {
            LanguageDriver::Rust => kind_is(kind, "function_item") || kind_is(kind, "struct_item")
                || kind_is(kind, "enum_item") || kind_is(kind, "impl_item") || kind_is(
                kind,
                "mod_item",
            ),
            LanguageDriver::Python => kind_is(kind, "function_definition") || kind_is(
                kind,
                "class_definition",
            ),
        }
    }

    pub fn is_scope(&self, kind: &String) -> (r: bool)
        ensures
            r == self.is_scope_kind(kind@),
    {
        match self {
            LanguageDriver::Rust => kind_is(kind, "function_item") || kind_is(kind, "struct_item")
                || kind_is(kind, "enum_item") || kind_is(kind, "impl_item") || kind_is(
                kind,
                "mod_item",
            ) || kind_is(kind, "trait_item"),
            LanguageDriver::Python => kind_is(kind, "function_definition") || kind_is(
                kind,
                "class_definition",
            ),
        }
    }

    pub fn is_comment(&self, kind: &String) -> (r: bool)
        ensures
            r == self.is_comment_kind(kind@),
    {
        match self {
            LanguageDriver::Rust => kind_is(kind, "line_comment") || kind_is(kind, "block_comment"),
            LanguageDriver::Python => kind_is(kind, "comment"),
        }
    }

    /// The name of `node` in `content`, where it has one.
    pub fn extract_name(&self, node: &SyntaxNode, content: &Vec<char>) -> (r: Option<Vec<char>>)
        requires
            node.name_field is Some ==> node.name_field->0.start <= node.name_field->0.end
                <= content@.len(),
            node.type_field is Some ==> node.type_field->0.start <= node.type_field->0.end
                <= content@.len(),
        ensures
            r is Some == self.name_of(*node, content@) is Some,
            r is Some ==> r->0@ == self.name_of(*node, content@)->0,
    {
        match node.name_field {
            Some(span) => {
                return Some(slice_chars(content, span.start, span.end));
            },
            None => {},
        }
        if *self == LanguageDriver::Rust && kind_is(&node.kind, "impl_item") {
            match node.type_field {
                Some(span) => {
                    return Some(slice_chars(content, span.start, span.end));
                },
                None => {},
            }
        }
        None
    }
}

/// A node's kind, without the grammar's `_item` or `_definition` suffix.
pub fn clean_kind_chars(kind: &String) -> (r: Vec<char>)
    ensures
        r@ == clean_kind(kind@),
{
    let k = chars_of(kind.as_str());
    let a = strip_suffix_chars(&k, &chars_of("_item"));
    strip_suffix_chars(&a, &chars_of("_definition"))
}

} // verus!
