//! Reading a source text into a syntax tree with the tree-sitter parser for Neorg.

use vstd::prelude::*;
use vstd::string::StringSliceAdditionalSpecFns;
use crate::syntax::{kind_of, SyntaxNode};

verus! {

/// A grammar of tree-sitter.
#[verifier::external_type_specification]
#[verifier::external_body]
pub struct ExLanguage(tree_sitter::Language);

/// The fault of a grammar that the parser cannot use.
#[verifier::external_type_specification]
#[verifier::external_body]
pub struct ExLanguageError(tree_sitter::LanguageError);

/// A parser of tree-sitter.
#[verifier::external_type_specification]
#[verifier::external_body]
pub struct ExParser(tree_sitter::Parser);

/// A parsed tree of tree-sitter.
#[verifier::external_type_specification]
#[verifier::external_body]
pub struct ExTree(tree_sitter::Tree);

/// A position in a parsed tree of tree-sitter.
#[verifier::external_type_specification]
#[verifier::external_body]
pub struct ExTreeCursor<'a>(tree_sitter::TreeCursor<'a>);

/// A node of a parsed tree of tree-sitter.
#[verifier::external_type_specification]
#[verifier::external_body]
pub struct ExNode<'a>(tree_sitter::Node<'a>);

/// `tree_sitter_norg::language` gives the grammar of Neorg. Nothing is claimed of it.
pub assume_specification[ tree_sitter_norg::language ]() -> (language: tree_sitter::Language)
;

/// `Parser::new` makes a parser without a grammar. Nothing is claimed of it.
pub assume_specification[ tree_sitter::Parser::new ]() -> (parser: tree_sitter::Parser)
;

/// `Parser::set_language` gives the parser its grammar, or refuses a grammar
/// of a version it cannot use. Nothing is claimed of it.
pub assume_specification[ tree_sitter::Parser::set_language ](
    parser: &mut tree_sitter::Parser,
    language: tree_sitter::Language,
) -> (set: Result<(), tree_sitter::LanguageError>)
;

/// `Tree::walk` gives a cursor on the root of the tree. Nothing is claimed of it.
pub assume_specification[ tree_sitter::Tree::walk ](tree: &tree_sitter::Tree) -> (cursor:
    tree_sitter::TreeCursor<'_>)
;

/// `TreeCursor::goto_first_child` moves the cursor to the first child of its
/// node and says whether there was one. Nothing is claimed of it.
pub assume_specification<'a>[ tree_sitter::TreeCursor::<'a>::goto_first_child ](
    cursor: &mut tree_sitter::TreeCursor<'a>,
) -> (moved: bool)
;

/// `TreeCursor::goto_next_sibling` moves the cursor to the next sibling of
/// its node and says whether there was one. Nothing is claimed of it.
pub assume_specification<'a>[ tree_sitter::TreeCursor::<'a>::goto_next_sibling ](
    cursor: &mut tree_sitter::TreeCursor<'a>,
) -> (moved: bool)
;

/// `TreeCursor::goto_parent` moves the cursor to the parent of its node and
/// says whether there was one. Nothing is claimed of it.
pub assume_specification<'a>[ tree_sitter::TreeCursor::<'a>::goto_parent ](
    cursor: &mut tree_sitter::TreeCursor<'a>,
) -> (moved: bool)
;

/// `TreeCursor::node` gives the node under the cursor. Nothing is claimed of it.
pub assume_specification<'a>[ tree_sitter::TreeCursor::<'a>::node ](
    cursor: &tree_sitter::TreeCursor<'a>,
) -> (node: tree_sitter::Node<'a>)
;

/// `Node::kind` gives the grammar's name for the node. Nothing is claimed of it.
pub assume_specification<'tree>[ tree_sitter::Node::<'tree>::kind ](
    node: &tree_sitter::Node<'tree>,
) -> (kind: &'static str)
;

/// `Node::start_byte` gives the offset in the source at which the node
/// starts. Nothing is claimed of it.
pub assume_specification<'tree>[ tree_sitter::Node::<'tree>::start_byte ](
    node: &tree_sitter::Node<'tree>,
) -> (offset: usize)
;

/// `Node::end_byte` gives the offset in the source at which the node ends.
/// Nothing is claimed of it.
pub assume_specification<'tree>[ tree_sitter::Node::<'tree>::end_byte ](
    node: &tree_sitter::Node<'tree>,
) -> (offset: usize)
;

/// Calls `Parser::parse` on a text, without an earlier tree. The parser
/// gives no tree where it has no grammar or was stopped. Nothing is claimed
/// of the tree.
#[verifier::external_body]
fn parse_text(parser: &mut tree_sitter::Parser, text: &str) -> (tree: Option<tree_sitter::Tree>)
{
    parser.parse(text, None)
}

/// Why no syntax tree could be read.
#[derive(Clone, Copy, Debug, PartialEq, Eq, Structural)]
pub enum TreeError {
    /// The parser refused the grammar.
    Grammar,
    /// The parser gave no tree.
    Parser,
    /// A node spans something that is not text of the source.
    Span,
    /// The tree has more nodes than can be counted.
    Size,
}

/// The bytes that a text is stored as.
pub open spec fn bytes_of(text: Seq<char>) -> Seq<u8> {
    vstd::utf8::encode_utf8(text)
}

/// Whether two byte offsets enclose text of `source`: they lie in order,
/// within the source, and each where a character starts or the text ends.
pub open spec fn encloses_text(source: Seq<char>, start: int, end: int) -> bool {
    &&& 0 <= start <= end <= bytes_of(source).len()
    &&& vstd::utf8::is_char_boundary(bytes_of(source), start)
    &&& vstd::utf8::is_char_boundary(bytes_of(source), end)
}

/// A boundary lies within the bytes, and what is a boundary in the bytes
/// before it is a boundary in the whole.
proof fn lemma_boundary_before(bytes: Seq<u8>, start: int, end: int)
    requires
        vstd::utf8::valid_utf8(bytes),
        0 <= start <= end,
        vstd::utf8::is_char_boundary(bytes, end),
    ensures
        end <= bytes.len(),
        vstd::utf8::is_char_boundary(bytes.subrange(0, end), start) == vstd::utf8::is_char_boundary(
            bytes,
            start,
        ),
{
    let head = bytes.subrange(0, end);
    vstd::utf8::valid_utf8_split(bytes, end);
    if start < end {
        assert(head[start] == bytes[start]);
        vstd::utf8::is_char_boundary_iff_not_is_continuation_byte(head, start);
        vstd::utf8::is_char_boundary_iff_not_is_continuation_byte(bytes, start);
    } else {
        vstd::utf8::is_char_boundary_start_end_of_seq(head);
    }
}

/// Copies the text that lies between two byte offsets of `text`, where the
/// offsets enclose text.
pub fn slice_bytes(text: &str, start: usize, end: usize) -> (r: Option<String>)
    ensures
        r is Some <==> encloses_text(text@, start as int, end as int),
        r matches Some(s) ==> bytes_of(s@) == bytes_of(text@).subrange(start as int, end as int),
{
    proof {
        vstd::utf8::encode_utf8_valid_utf8(text@);
    }
    if start <= end && text.is_char_boundary(end) {
        proof {
            lemma_boundary_before(text.spec_bytes(), start as int, end as int);
        }
        let (head, _) = text.split_at(end);
        assert(head.spec_bytes() == text.spec_bytes().subrange(0, end as int));
        if head.is_char_boundary(start) {
            let (_, body) = head.split_at(start);
            assert(body.spec_bytes() =~= text.spec_bytes().subrange(start as int, end as int));
            Some(String::from_str(body))
        } else {
            None
        }
    } else {
        None
    }
}

/// Every node of the tree has the kind that its name stands for, and spans
/// the text that the source holds from its position on.
pub open spec fn faithful(node: SyntaxNode, source: Seq<char>) -> bool
    decreases node,
{
    &&& node.kind == kind_of(node.label@)
    &&& node.position + bytes_of(node.text@).len() <= bytes_of(source).len()
    &&& bytes_of(node.text@) == bytes_of(source).subrange(
        node.position as int,
        node.position + bytes_of(node.text@).len(),
    )
    &&& forall|i: int|
        0 <= i < node.children@.len() ==> faithful(#[trigger] node.children@[i], source)
}

/// Reads the node under the cursor and all nodes below it, and leaves the cursor where it was.
/// A tree is read whole and takes as many from `budget` as it has nodes; with none left it fails.
fn read_node<'a>(cursor: &mut tree_sitter::TreeCursor<'a>, source: &str, budget: &mut usize) -> (r:
    Result<SyntaxNode, TreeError>)
    ensures
        *old(budget) == 0 ==> r == Err::<SyntaxNode, TreeError>(TreeError::Size),
        match r {
            Ok(node) => faithful(node, source@) && *final(budget) + tree_size(node) == *old(budget),
            // the budget ran out, or a node does not span text of the source
            Err(e) => (e == TreeError::Size && *final(budget) == 0) || (e == TreeError::Span
                && *final(budget) < *old(budget)),
        },
    decreases *old(budget),
{
    if *budget == 0 {
        return Err(TreeError::Size);
    }
    *budget = *budget - 1;
    let node = cursor.node();
    let mut children: Vec<SyntaxNode> = Vec::new();
    if cursor.goto_first_child() {
        loop
            invariant
                *budget + 1 + forest_size(children@, children@.len() as int) == *old(budget),
                forall|i: int| 0 <= i < children@.len() ==> faithful(#[trigger] children@[i], source@),
            decreases *budget,
        {
            match read_node(cursor, source, budget) {
                Ok(child) => {
                    proof { lemma_forest_grows(children@, child); }
                    children.push(child);
                },
                Err(e) => {
                    return Err(e);
                },
            }
            if !cursor.goto_next_sibling() {
                break;
            }
        }
        cursor.goto_parent();
    }
    node_from(node.kind(), source, node.start_byte(), node.end_byte(), children)
}

/// Parses a source text with the grammar of Neorg and reads the whole tree.
pub fn syntax_tree(text: &str) -> (r: Result<SyntaxNode, TreeError>)
    ensures
        r matches Ok(root) ==> faithful(root, text@),
{
    let mut parser = tree_sitter::Parser::new();
    match parser.set_language(tree_sitter_norg::language()) {
        Ok(_) => {},
        Err(_) => {
            return Err(TreeError::Grammar);
        },
    }
    let tree = match parse_text(&mut parser, text) {
        Some(tree) => tree,
        None => {
            return Err(TreeError::Parser);
        },
    };
    let mut cursor = tree.walk();
    let mut budget: usize = usize::MAX;
    read_node(&mut cursor, text, &mut budget)
}

/// The number of nodes of a tree.
pub open spec fn tree_size(node: SyntaxNode) -> nat
    decreases node,
{
    1 + forest_size(node.children@, node.children@.len() as int)
}

/// The number of nodes of the first `upto` of the given trees.
pub open spec fn forest_size(nodes: Seq<SyntaxNode>, upto: int) -> nat
    decreases nodes, upto,
{
    if upto <= 0 || upto > nodes.len() {
        0
    } else {
        forest_size(nodes, upto - 1) + tree_size(nodes[upto - 1])
    }
}

proof fn lemma_forest_keeps(nodes: Seq<SyntaxNode>, more: SyntaxNode, upto: int)
    requires
        upto <= nodes.len(),
    ensures
        forest_size(nodes.push(more), upto) == forest_size(nodes, upto),
    decreases upto,
{
    if upto > 0 {
        lemma_forest_keeps(nodes, more, upto - 1);
        assert(nodes.push(more)[upto - 1] == nodes[upto - 1]);
    }
}

/// One more tree adds its nodes to those of the trees before it.
proof fn lemma_forest_grows(nodes: Seq<SyntaxNode>, more: SyntaxNode)
    ensures
        forest_size(nodes.push(more), nodes.len() as int + 1) == forest_size(nodes, nodes.len() as int)
            + tree_size(more),
{
    lemma_forest_keeps(nodes, more, nodes.len() as int);
    assert(nodes.push(more)[nodes.len() as int] == more);
}

/// Makes a node of what the parser says of it: the grammar's name for the
/// node, the byte offsets at which it starts and ends, and the nodes below
/// it. The node has the kind of its name and the text that the source holds
/// between the offsets. Offsets that do not enclose text of the source are
/// a fault.
pub fn node_from(
    label: &str,
    source: &str,
    start: usize,
    end: usize,
    children: Vec<SyntaxNode>,
) -> (r: Result<SyntaxNode, TreeError>)
    ensures
        match r {
            Ok(node) => {
                &&& encloses_text(source@, start as int, end as int)
                &&& node.kind == kind_of(label@)
                &&& node.label@ == label@
                &&& bytes_of(node.text@) == bytes_of(source@).subrange(start as int, end as int)
                &&& node.position == start
                &&& node.children == children
            },
            Err(e) => e == TreeError::Span && !encloses_text(source@, start as int, end as int),
        },
{
    match slice_bytes(source, start, end) {
        Some(text) => Ok(SyntaxNode::new(label, text.as_str(), start, children)),
        None => Err(TreeError::Span),
    }
}

} // verus!
