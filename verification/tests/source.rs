use norg_pandoc_ast::syntax::SyntaxNode;
use norg_pandoc_ast::tree::{node_from, slice_bytes, syntax_tree, TreeError};

fn count(node: &SyntaxNode) -> usize {
    1 + node.children.iter().map(count).sum::<usize>()
}

fn spans_source(node: &SyntaxNode, source: &str) -> bool {
    source.get(node.position..node.position + node.text.len()) == Some(node.text.as_str())
        && node.children.iter().all(|child| spans_source(child, source))
}

#[test]
fn tree_spans_the_source() {
    let source = "* Title\n  Some *bold* text.\n\n  - item\n  -- nested\n";
    let root = syntax_tree(source).unwrap();
    assert_eq!(root.label, "document");
    assert_eq!(root.position, 0);
    assert!(count(&root) > 5);
    assert!(spans_source(&root, source));
}

#[test]
fn every_node_has_the_kind_of_its_name() {
    fn classified(node: &SyntaxNode) -> bool {
        node.kind == norg_pandoc_ast::syntax::classify(&node.label)
            && node.children.iter().all(classified)
    }
    let root = syntax_tree("Some /text/ here.\n").unwrap();
    assert!(classified(&root));
}

#[test]
fn empty_source_has_a_tree() {
    let root = syntax_tree("").unwrap();
    assert_eq!(root.text, "");
    assert_eq!(root.position, 0);
}

#[test]
fn source_is_lowered_for_the_given_version() {
    let lowering = norg_pandoc_ast::parse("Hello world\n", vec![1, 23], ".html").unwrap();
    assert_eq!(lowering.document.version, vec![1, 23]);
    assert_eq!(lowering.document.metadata, Vec::new());
    let empty = norg_pandoc_ast::parse("", vec![1, 22, 2], ".html").unwrap();
    assert_eq!(empty.document.blocks, Vec::new());
    assert_eq!(empty.diagnostics, Vec::new());
    assert_eq!(empty.document.version, vec![1, 22, 2]);
}

#[test]
fn fault_of_the_tree_is_reported_with_its_node() {
    assert_eq!(
        norg_pandoc_ast::parse("{https://x.org}[here]\n", vec![1, 23], ".html"),
        Err(norg_pandoc_ast::ParseError::Fault(norg_pandoc_ast::model::Diagnostic {
            kind: "{".to_string(),
            position: 0,
        }))
    );
}

#[test]
fn table_requests_of_a_parsed_source() {
    let root = syntax_tree("Some text.\n").unwrap();
    assert_eq!(
        norg_pandoc_ast::block::tags::verbatim::table_requests(&root),
        Vec::<String>::new()
    );
}

#[test]
fn context_keeps_extension_and_tables() {
    let answer = || norg_pandoc_ast::model::Answer {
        content: "| a |".to_string(),
        outcome: norg_pandoc_ast::model::Outcome::Blocks(1, true),
    };
    let ctx = norg_pandoc_ast::context(".md", vec![answer()]);
    assert_eq!(ctx.extension, ".md");
    assert_eq!(ctx.tables, vec![answer()]);
}

#[test]
fn text_between_byte_offsets() {
    assert_eq!(slice_bytes("añb", 1, 3), Some("ñ".to_string()));
    assert_eq!(slice_bytes("añb", 0, 4), Some("añb".to_string()));
    assert_eq!(slice_bytes("añb", 4, 4), Some(String::new()));
    assert_eq!(slice_bytes("añb", 2, 3), None);
    assert_eq!(slice_bytes("añb", 1, 2), None);
    assert_eq!(slice_bytes("añb", 0, 5), None);
    assert_eq!(slice_bytes("añb", 3, 1), None);
}

#[test]
fn node_is_made_of_what_the_parser_says() {
    let child = SyntaxNode::leaf("word", "ñ", 1);
    let node = node_from("bold", "añb", 1, 3, vec![SyntaxNode::leaf("word", "ñ", 1)]).unwrap();
    assert_eq!(node.kind, norg_pandoc_ast::syntax::classify("bold"));
    assert_eq!(node.label, "bold");
    assert_eq!(node.text, "ñ");
    assert_eq!(node.position, 1);
    assert_eq!(node.children, vec![child]);
}

#[test]
fn node_that_does_not_span_text_is_a_fault() {
    assert_eq!(node_from("word", "añb", 2, 3, Vec::new()), Err(TreeError::Span));
    assert_eq!(node_from("word", "añb", 3, 1, Vec::new()), Err(TreeError::Span));
    assert_eq!(node_from("word", "añb", 0, 9, Vec::new()), Err(TreeError::Span));
}
