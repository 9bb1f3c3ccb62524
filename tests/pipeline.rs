use smart_chunker::files::{breadcrumb, find_chunks, get_preceding_comments, process_file};
use smart_chunker::hash::compute_hash;
use smart_chunker::lang_driver::{driver_for_extension, get_driver, LanguageDriver};
use smart_chunker::syntax::{Span, SyntaxNode, SyntaxTree};
use smart_chunker::tokens::count_tokens;

/// Where `needle` first stands in `src`, from `from` on, in chars (the sources here are ASCII).
fn span_of(src: &str, needle: &str, from: usize) -> Span {
    let start = from + src[from..].find(needle).expect("needle is in the source");
    Span { start, end: start + needle.len() }
}

fn node(
    kind: &str,
    span: Span,
    parent: Option<usize>,
    prev_sibling: Option<usize>,
    name_field: Option<Span>,
    type_field: Option<Span>,
) -> SyntaxNode {
    SyntaxNode {
        kind: kind.to_string(),
        start: span.start,
        end: span.end,
        parent,
        prev_sibling,
        name_field,
        type_field,
    }
}

fn build(src: &str, nodes: Vec<SyntaxNode>) -> SyntaxTree {
    let mut tree = SyntaxTree::new();
    for n in nodes {
        assert!(tree.push_node(n, src.chars().count()));
    }
    tree
}

const DOCUMENTED: &str = "/// A container.\nmod outer {\n    /// Adds one.\n    fn add_one(x: u32) -> u32 { x + 1 }\n}\n";

fn documented_tree() -> SyntaxTree {
    let src = DOCUMENTED;
    let all = Span { start: 0, end: src.len() };
    let c1 = span_of(src, "/// A container.", 0);
    let m = span_of(src, "mod outer {\n    /// Adds one.\n    fn add_one(x: u32) -> u32 { x + 1 }\n}", 0);
    let m_name = span_of(src, "outer", 0);
    let body = span_of(src, "{\n    ///", 0);
    let body = Span { start: body.start, end: m.end };
    let open = Span { start: body.start, end: body.start + 1 };
    let c2 = span_of(src, "/// Adds one.", 0);
    let f = span_of(src, "fn add_one(x: u32) -> u32 { x + 1 }", 0);
    let f_name = span_of(src, "add_one", 0);
    let close = Span { start: m.end - 1, end: m.end };
    build(
        src,
        vec![
            node("source_file", all, None, None, None, None),
            node("line_comment", c1, Some(0), None, None, None),
            node("mod_item", m, Some(0), Some(1), Some(m_name), None),
            node("declaration_list", body, Some(2), None, None, None),
            node("{", open, Some(3), None, None, None),
            node("line_comment", c2, Some(3), Some(4), None, None),
            node("function_item", f, Some(3), Some(5), Some(f_name), None),
            node("}", close, Some(3), Some(6), None, None),
        ],
    )
}

#[test]
fn documented_container_and_function_give_two_records() {
    let tree = documented_tree();
    let records = process_file("lib.rs", "rs", DOCUMENTED, &tree, 800).expect("the encoder counts these texts");
    assert_eq!(records.len(), 2);

    let m = &records[0];
    assert_eq!(m.chunk_type, "mod_item");
    assert_eq!(m.chunk_name, "outer");
    assert_eq!(m.context, "root");
    assert_eq!(m.comment, "/// A container.");
    assert_eq!(m.signature, "mod outer {");
    assert_eq!(m.language, "Rust");
    assert_eq!(m.file_path, "lib.rs");
    assert_eq!(m.start_line, 1);
    assert_eq!(m.end_line, 5);

    let f = &records[1];
    assert_eq!(f.chunk_type, "function_item");
    assert_eq!(f.chunk_name, "add_one");
    assert_eq!(f.context, "mod(outer)");
    assert_eq!(f.comment, "/// Adds one.");
    assert_eq!(f.signature, "fn add_one(x: u32) -> u32 { x + 1 }");
    assert_eq!(f.code, "/// Adds one.\nfn add_one(x: u32) -> u32 { x + 1 }");
    assert_eq!(f.token_count, count_tokens(&f.code).unwrap());
    assert!(f.token_count > 0);
    assert_eq!(f.start_line, 3);
    assert_eq!(f.end_line, 4);
    assert_eq!(f.id, compute_hash(&format!("{}-{}", f.code, 0)));
    assert_eq!(f.id.len(), 64);
}

#[test]
fn two_runs_give_the_same_ids() {
    let tree = documented_tree();
    let a = process_file("lib.rs", "rs", DOCUMENTED, &tree, 5).expect("the encoder counts these texts");
    let b = process_file("lib.rs", "rs", DOCUMENTED, &tree, 5).expect("the encoder counts these texts");
    assert!(a.len() >= 2);
    let ids_a: Vec<String> = a.iter().map(|r| r.id.clone()).collect();
    let ids_b: Vec<String> = b.iter().map(|r| r.id.clone()).collect();
    assert_eq!(ids_a, ids_b);
}

#[test]
fn changed_text_changes_the_id() {
    let tree = documented_tree();
    let a = process_file("lib.rs", "rs", DOCUMENTED, &tree, 800).expect("the encoder counts these texts");
    let changed = DOCUMENTED.replace("x + 1", "x + 2");
    let b = process_file("lib.rs", "rs", &changed, &tree, 800).expect("the encoder counts these texts");
    assert_ne!(a[1].id, b[1].id);
}

#[test]
fn unsupported_extension_gives_no_records() {
    let tree = documented_tree();
    let records = process_file("notes.txt", "txt", DOCUMENTED, &tree, 800).expect("the encoder counts these texts");
    assert!(records.is_empty());
}

#[test]
fn extension_case_does_not_matter() {
    let tree = documented_tree();
    let records = process_file("LIB.RS", "RS", DOCUMENTED, &tree, 800).expect("the encoder counts these texts");
    assert_eq!(records.len(), 2);
    assert_eq!(driver_for_extension("Py"), Some(LanguageDriver::Python));
}

#[test]
fn drivers_by_extension() {
    assert_eq!(get_driver("rs"), Some(LanguageDriver::Rust));
    assert_eq!(get_driver("py"), Some(LanguageDriver::Python));
    assert_eq!(get_driver("txt"), None);
    assert_eq!(get_driver(""), None);
    assert_eq!(LanguageDriver::Rust.get_name(), "Rust");
    assert_eq!(LanguageDriver::Python.get_name(), "Python");
}

const NESTED: &str = "mod a {\n    impl B {\n        fn c() {}\n    }\n}\n";

#[test]
fn nested_scopes_give_a_breadcrumb() {
    let src = NESTED;
    let all = Span { start: 0, end: src.len() };
    let m = Span { start: 0, end: src.len() - 1 };
    let m_name = span_of(src, "a", 4);
    let m_body = span_of(src, "{", 0);
    let m_body = Span { start: m_body.start, end: m.end };
    let imp = span_of(src, "impl B {\n        fn c() {}\n    }", 0);
    let imp_ty = span_of(src, "B", 0);
    let imp_body = Span { start: imp_ty.end + 1, end: imp.end };
    let f = span_of(src, "fn c() {}", 0);
    let f_name = span_of(src, "c", f.start + 3);
    let tree = build(
        src,
        vec![
            node("source_file", all, None, None, None, None),
            node("mod_item", m, Some(0), None, Some(m_name), None),
            node("declaration_list", m_body, Some(1), None, None, None),
            node("impl_item", imp, Some(2), None, None, Some(imp_ty)),
            node("declaration_list", imp_body, Some(3), None, None, None),
            node("function_item", f, Some(4), None, Some(f_name), None),
        ],
    );
    let content: Vec<char> = src.chars().collect();
    let crumb: String = breadcrumb(LanguageDriver::Rust, &tree, &content, 5).into_iter().collect();
    assert_eq!(crumb, "mod(a) > impl(B)");
    let top: String = breadcrumb(LanguageDriver::Rust, &tree, &content, 1).into_iter().collect();
    assert_eq!(top, "root");

    let records = process_file("n.rs", "rs", src, &tree, 800).expect("the encoder counts these texts");
    assert_eq!(records.len(), 3);
    assert_eq!(records[0].context, "root");
    assert_eq!(records[1].chunk_name, "B");
    assert_eq!(records[1].context, "mod(a)");
    assert_eq!(records[2].context, "mod(a) > impl(B)");
}

const COMMENTED: &str = "fn first() {}\n\n// one\n// two\nfn second() {}\n";

fn commented_tree() -> SyntaxTree {
    let src = COMMENTED;
    let all = Span { start: 0, end: src.len() };
    let f1 = span_of(src, "fn first() {}", 0);
    let c1 = span_of(src, "// one", 0);
    let c2 = span_of(src, "// two", 0);
    let f2 = span_of(src, "fn second() {}", 0);
    build(
        src,
        vec![
            node("source_file", all, None, None, None, None),
            node("function_item", f1, Some(0), None, Some(span_of(src, "first", 0)), None),
            node("line_comment", c1, Some(0), Some(1), None, None),
            node("line_comment", c2, Some(0), Some(2), None, None),
            node("function_item", f2, Some(0), Some(3), Some(span_of(src, "second", 0)), None),
        ],
    )
}

#[test]
fn two_comment_lines_attach_to_the_next_declaration() {
    let tree = commented_tree();
    let content: Vec<char> = COMMENTED.chars().collect();
    let block: String =
        get_preceding_comments(LanguageDriver::Rust, &tree, &content, 4).into_iter().collect();
    assert_eq!(block, "// one\n// two");
    let none: String =
        get_preceding_comments(LanguageDriver::Rust, &tree, &content, 1).into_iter().collect();
    assert_eq!(none, "");

    let records = process_file("c.rs", "rs", COMMENTED, &tree, 800).expect("the encoder counts these texts");
    assert_eq!(records.len(), 2);
    assert_eq!(records[0].comment, "");
    assert_eq!(records[0].code, "\nfn first() {}");
    assert_eq!(records[0].start_line, 1);
    assert_eq!(records[0].end_line, 2);
    assert_eq!(records[1].comment, "// one\n// two");
    assert_eq!(records[1].code, "// one\n// two\nfn second() {}");
    assert_eq!(records[1].start_line, 3);
    assert_eq!(records[1].end_line, 5);
}

#[test]
fn unnamed_declaration_is_anonymous() {
    let src = "struct;\n";
    let all = Span { start: 0, end: src.len() };
    let s = Span { start: 0, end: 7 };
    let tree = build(
        src,
        vec![
            node("source_file", all, None, None, None, None),
            node("struct_item", s, Some(0), None, None, None),
        ],
    );
    let chunks = find_chunks(LanguageDriver::Rust, &tree, src);
    assert_eq!(chunks.len(), 1);
    let name: String = chunks[0].chunk_name.iter().collect();
    assert_eq!(name, "anonymous");
}

#[test]
fn python_class_and_method() {
    let src = "class Foo:\n    # says hi\n    def hi(self):\n        return 1\n";
    let all = Span { start: 0, end: src.len() };
    let class = Span { start: 0, end: src.len() - 1 };
    let block = span_of(src, "# says hi", 0);
    let block = Span { start: block.start, end: class.end };
    let comment = span_of(src, "# says hi", 0);
    let def = span_of(src, "def hi(self):\n        return 1", 0);
    let def_name = span_of(src, "hi(self)", 0);
    let def_name = Span { start: def_name.start, end: def_name.start + 2 };
    let tree = build(
        src,
        vec![
            node("module", all, None, None, None, None),
            node("class_definition", class, Some(0), None, Some(span_of(src, "Foo", 0)), None),
            node("block", block, Some(1), None, None, None),
            node("comment", comment, Some(2), None, None, None),
            node("function_definition", def, Some(2), Some(3), Some(def_name), None),
        ],
    );
    let records = process_file("foo.py", "py", src, &tree, 800).expect("the encoder counts these texts");
    assert_eq!(records.len(), 2);
    assert_eq!(records[0].language, "Python");
    assert_eq!(records[0].chunk_name, "Foo");
    assert_eq!(records[1].chunk_name, "hi");
    assert_eq!(records[1].context, "class(Foo)");
    assert_eq!(records[1].comment, "# says hi");
    assert_eq!(records[1].signature, "def hi(self):");
}

#[test]
fn push_node_refuses_a_forward_parent() {
    let mut tree = SyntaxTree::new();
    let bad = node("function_item", Span { start: 0, end: 9 }, Some(0), None, None, None);
    assert!(!tree.push_node(bad, 9));
    assert!(tree.nodes.is_empty());
    let outside = node("function_item", Span { start: 0, end: 10 }, None, None, None, None);
    assert!(!tree.push_node(outside, 9));
    let good = node("function_item", Span { start: 0, end: 9 }, None, None, None, None);
    assert!(tree.push_node(good, 9));
    assert_eq!(tree.nodes.len(), 1);
}
