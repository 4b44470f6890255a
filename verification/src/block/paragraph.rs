//! Paragraphs.

use vstd::prelude::*;
use crate::block::lower_paragraph;
use crate::model::{Block, Context, Diagnostic, lowered_section, Section};
use crate::syntax::SyntaxNode;

verus! {

/// Lowers a paragraph node into a paragraph of the inlines that its
/// children stand for.
pub fn parse(node: &SyntaxNode, ctx: &Context) -> (r: Result<Section, Diagnostic>)
    ensures
        lowered_section(r) == lower_paragraph(*node, *ctx),
{
    match crate::inline::parse(&node.children, ctx) {
        Ok(f) => Ok(Section::single(Block::Paragraph(f.inlines), f.diagnostics)),
        Err(e) => Err(e),
    }
}

} // verus!
