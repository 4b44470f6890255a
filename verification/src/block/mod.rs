//! Lowering of block-level nodes: a chain of sibling nodes becomes a run of
//! blocks, together with the metadata that tags declare on the way.

pub mod heading;
pub mod list;
pub mod paragraph;
pub mod quote;
pub mod tags;

use vstd::prelude::*;
use crate::block::list::{lemma_normal_list_present, lower_list};
use crate::block::quote::{lemma_normal_quote_present, lower_quote};
use crate::block::tags::infirm::lower_infirm;
use crate::block::tags::verbatim::{lower_verbatim, Tag, TagModel};
use crate::inline::{heading_id, lower_chain, lower_children, lower_extension, note, note_of};
use crate::model::{
    Block, block_present, BlockModel, blocks_model, blocks_present, Context, Diagnostic,
    DiagnosticModel, diagnostics_model, Inline, InlineModel, inlines_model, join_sections,
    lowered_section, no_section, plain, Section, section_of, SectionModel,
};
use crate::syntax::{NodeKind, SyntaxNode};

verus! {

/// The section that a tag stands for: its block, unless it stands for none,
/// and the metadata it declares.
pub open spec fn tag_section(tag: TagModel) -> SectionModel {
    SectionModel {
        blocks: if tag.block is Null {
            Seq::empty()
        } else {
            seq![tag.block]
        },
        metadata: tag.metadata,
        diagnostics: Seq::empty(),
    }
}

/// The paragraph that a paragraph node stands for: the lowering of its children.
pub open spec fn lower_paragraph(node: SyntaxNode, ctx: Context) -> Result<
    SectionModel,
    DiagnosticModel,
> {
    match lower_chain(node.children@, ctx) {
        Ok(f) => Ok(section_of(seq![BlockModel::Paragraph(f.inlines)], f.diagnostics)),
        Err(e) => Err(e),
    }
}

/// The first index from `p` on that holds a heading of `level` or of a
/// level above it, that is, of a number not greater; the length of `nodes`
/// if there is none.
pub open spec fn section_end(nodes: Seq<SyntaxNode>, p: int, level: u64) -> int
    decreases nodes.len() - p,
{
    if 0 <= p < nodes.len() && !closes_section(nodes[p].kind, level) {
        section_end(nodes, p + 1, level)
    } else {
        p
    }
}

/// Whether a node of `kind` ends the section of a heading of `level`.
pub open spec fn closes_section(kind: NodeKind, level: u64) -> bool {
    match kind {
        NodeKind::Heading(other) => other <= level,
        _ => false,
    }
}

/// The blocks that one node stands for.
///
/// A paragraph, a list, a quote, a heading, a tag and a horizontal rule
/// stand for what their own lowering gives. Delimiters between paragraphs
/// and lines stand for nothing. A kind that should carry a nesting level and
/// carries none is a fault of the tree. A node of any other kind becomes its
/// raw text, with a note.
pub open spec fn lower_block(node: SyntaxNode, ctx: Context) -> Result<SectionModel, DiagnosticModel>
    decreases node, 1nat,
{
    match node.kind {
        NodeKind::Paragraph => lower_paragraph(node, ctx),
        NodeKind::List => lower_list(node, ctx),
        NodeKind::Quote => lower_quote(node, ctx),
        NodeKind::Heading(_) => lower_heading(node, ctx),
        NodeKind::VerbatimTag => match lower_verbatim(node, ctx) {
            Ok(tag) => Ok(tag_section(tag)),
            Err(e) => Err(e),
        },
        NodeKind::InfirmTag => lower_infirm(node),
        NodeKind::HorizontalRule => Ok(section_of(seq![BlockModel::HorizontalRule], Seq::empty())),
        NodeKind::WeakDelimiter | NodeKind::LineBreak | NodeKind::ParagraphBreak => Ok(
            no_section(),
        ),
        NodeKind::Malformed => Err(note(node)),
        _ => Ok(
            section_of(
                seq![BlockModel::Plain(seq![InlineModel::Str(node.text@)])],
                seq![note(node)],
            ),
        ),
    }
}

/// The blocks that the nodes `nodes[from..upto]` stand for, one after the
/// other; the first fault ends it.
pub open spec fn lower_range(nodes: Seq<SyntaxNode>, from: int, upto: int, ctx: Context) -> Result<
    SectionModel,
    DiagnosticModel,
>
    decreases nodes, upto,
{
    if from < 0 || upto <= from || upto > nodes.len() {
        Ok(no_section())
    } else {
        match lower_range(nodes, from, upto - 1, ctx) {
            Err(e) => Err(e),
            Ok(before) => match lower_block(nodes[upto - 1], ctx) {
                Err(e) => Err(e),
                Ok(found) => Ok(join_sections(before, found)),
            },
        }
    }
}

/// The blocks that a whole chain of sibling nodes stands for.
pub open spec fn lower_blocks(nodes: Seq<SyntaxNode>, ctx: Context) -> Result<
    SectionModel,
    DiagnosticModel,
> {
    lower_range(nodes, 0, nodes.len() as int, ctx)
}

/// The blocks that a heading node stands for.
///
/// The node's first child is its prefix. An extension may follow, which
/// gives the marker that stands before the title. The next child holds the
/// title. The identifier is made of the title alone, without the marker.
/// The children behind the title, up to the first heading that is not
/// deeper than this one, are the content of the section: heading and
/// content stand together in one container. What is left behind that
/// follows the container.
pub open spec fn lower_heading(node: SyntaxNode, ctx: Context) -> Result<
    SectionModel,
    DiagnosticModel,
>
    decreases node, 0nat,
{
    let c = node.children@;
    match node.kind {
        NodeKind::Heading(level) => if c.len() == 0 {
            Err(note(node))
        } else if c.len() == 1 {
            Err(note(c[0]))
        } else {
            let marked = c[1].kind is Extension;
            let at: int = if marked {
                2
            } else {
                1
            };
            let marker = if marked {
                lower_extension(c[1])
            } else {
                Ok(plain(Seq::empty()))
            };
            match marker {
                Err(e) => Err(e),
                Ok(marker) => if at >= c.len() {
                    Err(note(c[1]))
                } else {
                    match lower_children(c[at], ctx) {
                        Err(e) => Err(e),
                        Ok(title) => {
                            let end = section_end(c, at + 1, level);
                            match lower_range(c, at + 1, end, ctx) {
                                Err(e) => Err(e),
                                Ok(inside) => match lower_range(c, end, c.len() as int, ctx) {
                                    Err(e) => Err(e),
                                    Ok(after) => Ok(
                                        SectionModel {
                                            blocks: seq![
                                                BlockModel::Div(
                                                    Seq::empty(),
                                                    seq![
                                                        BlockModel::Heading(
                                                            level,
                                                            heading_id(title.inlines, level),
                                                            marker.inlines + title.inlines,
                                                        ),
                                                    ] + inside.blocks,
                                                ),
                                            ] + after.blocks,
                                            metadata: inside.metadata + after.metadata,
                                            diagnostics: marker.diagnostics + title.diagnostics
                                                + inside.diagnostics + after.diagnostics,
                                        },
                                    ),
                                },
                            }
                        },
                    }
                },
            }
        },
        _ => Err(note(node)),
    }
}

/// Once the lowering of a stretch has met a fault, that of every longer stretch meets it.
pub proof fn lemma_range_fault(nodes: Seq<SyntaxNode>, from: int, k: int, m: int, ctx: Context)
    requires
        0 <= from <= k <= m <= nodes.len(),
        lower_range(nodes, from, k, ctx) is Err,
    ensures
        lower_range(nodes, from, m, ctx) == lower_range(nodes, from, k, ctx),
    decreases m - k,
{
    if k < m {
        lemma_range_fault(nodes, from, k, m - 1, ctx);
    }
}

proof fn lemma_join_present(a: Seq<BlockModel>, b: Seq<BlockModel>)
    requires
        blocks_present(a),
        blocks_present(b),
    ensures
        blocks_present(a + b),
{
    assert forall|k: int| 0 <= k < (a + b).len() implies block_present(#[trigger] (a + b)[k]) by {
        if k < a.len() {
            assert((a + b)[k] == a[k]);
        } else {
            assert((a + b)[k] == b[k - a.len()]);
        }
    }
}

proof fn lemma_block_present(node: SyntaxNode, ctx: Context)
    ensures
        lower_block(node, ctx) matches Ok(section) ==> blocks_present(section.blocks),
    decreases node, 1nat,
{
    match node.kind {
        NodeKind::List => {
            if lower_list(node, ctx) is Ok {
                lemma_normal_list_present(
                    list::collect_items(
                        node.children@,
                        0,
                        node.children@.len() as int,
                        ctx,
                    )->Ok_0.items,
                );
            }
        },
        NodeKind::Quote => {
            if lower_quote(node, ctx) is Ok {
                lemma_normal_quote_present(
                    quote::collect_items(
                        node.children@,
                        0,
                        node.children@.len() as int,
                        ctx,
                    )->Ok_0.items,
                );
            }
        },
        NodeKind::Heading(_) => lemma_heading_present(node, ctx),
        NodeKind::VerbatimTag => {
            match lower_verbatim(node, ctx) {
                Ok(tag) => match tag.block {
                    BlockModel::Div(_, inner) => {
                        assert(blocks_present(inner));
                    },
                    _ => {},
                },
                Err(_) => {},
            }
        },
        _ => {},
    }
}

proof fn lemma_range_present(nodes: Seq<SyntaxNode>, from: int, upto: int, ctx: Context)
    ensures
        lower_range(nodes, from, upto, ctx) matches Ok(section) ==> blocks_present(section.blocks),
    decreases nodes, upto,
{
    if !(from < 0 || upto <= from || upto > nodes.len()) {
        lemma_range_present(nodes, from, upto - 1, ctx);
        lemma_block_present(nodes[upto - 1], ctx);
        if lower_range(nodes, from, upto, ctx) is Ok {
            let before = lower_range(nodes, from, upto - 1, ctx)->Ok_0;
            let found = lower_block(nodes[upto - 1], ctx)->Ok_0;
            lemma_join_present(before.blocks, found.blocks);
        }
    }
}

proof fn lemma_heading_present(node: SyntaxNode, ctx: Context)
    ensures
        lower_heading(node, ctx) matches Ok(section) ==> blocks_present(section.blocks),
    decreases node, 0nat,
{
    if lower_heading(node, ctx) is Ok {
        let section = lower_heading(node, ctx)->Ok_0;
        let c = node.children@;
        let level = node.kind->Heading_0;
        let at: int = if c[1].kind is Extension {
            2
        } else {
            1
        };
        let end = section_end(c, at + 1, level);
        lemma_range_present(c, at + 1, end, ctx);
        lemma_range_present(c, end, c.len() as int, ctx);
        let inside = lower_range(c, at + 1, end, ctx)->Ok_0;
        let after = lower_range(c, end, c.len() as int, ctx)->Ok_0;
        let head = section.blocks[0]->Div_1[0];
        assert(block_present(head));
        lemma_join_present(seq![head], inside.blocks);
        assert(block_present(section.blocks[0]));
        lemma_join_present(seq![section.blocks[0]], after.blocks);
    }
}

/// Lowering leaves no block that stands for nothing: not among the blocks
/// of a chain, and not inside any of them.
pub proof fn law_lowering_leaves_no_null(nodes: Seq<SyntaxNode>, ctx: Context)
    ensures
        lower_blocks(nodes, ctx) matches Ok(section) ==> blocks_present(section.blocks),
{
    lemma_range_present(nodes, 0, nodes.len() as int, ctx);
}

/// The section that a tag stands for.
fn section_of_tag(tag: Tag) -> (r: Section)
    ensures
        r@ == tag_section(tag@),
{
    let mut r = Section::new();
    match tag.block {
        Block::Null => {},
        block => {
            r.blocks.push(block);
            assert(blocks_model(r.blocks@) =~= seq![block@]);
        },
    }
    r.metadata = tag.metadata;
    r
}

/// Lowers one block-level node.
pub fn parse_node(node: &SyntaxNode, ctx: &Context) -> (r: Result<Section, Diagnostic>)
    ensures
        lowered_section(r) == lower_block(*node, *ctx),
    decreases node, 1nat,
{
    match node.kind {
        NodeKind::Paragraph => paragraph::parse(node, ctx),
        NodeKind::List => list::parse(node, ctx),
        NodeKind::Quote => quote::parse(node, ctx),
        NodeKind::Heading(_) => heading::parse(node, ctx),
        NodeKind::VerbatimTag => match tags::verbatim::parse(node, ctx) {
            Ok(tag) => Ok(section_of_tag(tag)),
            Err(e) => Err(e),
        },
        NodeKind::InfirmTag => tags::infirm::parse(node),
        NodeKind::HorizontalRule => {
            let r = Section::single(Block::HorizontalRule, Vec::new());
            assert(r@.diagnostics =~= Seq::empty());
            Ok(r)
        },
        NodeKind::WeakDelimiter | NodeKind::LineBreak | NodeKind::ParagraphBreak => Ok(
            Section::new(),
        ),
        NodeKind::Malformed => Err(note_of(node)),
        _ => {
            let mut inlines: Vec<Inline> = Vec::new();
            inlines.push(Inline::Str(node.text.clone()));
            let mut diagnostics: Vec<Diagnostic> = Vec::new();
            diagnostics.push(note_of(node));
            assert(inlines_model(inlines@) =~= seq![InlineModel::Str(node.text@)]);
            assert(diagnostics_model(diagnostics@) =~= seq![note(*node)]);
            Ok(Section::single(Block::Plain(inlines), diagnostics))
        },
    }
}

/// Lowers the nodes `nodes[from..upto]`.
pub(crate) fn parse_range(nodes: &Vec<SyntaxNode>, from: usize, upto: usize, ctx: &Context) -> (r: Result<
    Section,
    Diagnostic,
>)
    requires
        from <= upto <= nodes.len(),
    ensures
        lowered_section(r) == lower_range(nodes@, from as int, upto as int, *ctx),
    decreases nodes, 0nat,
{
    let mut out = Section::new();
    let mut i: usize = from;
    while i < upto
        invariant
            from <= i <= upto <= nodes.len(),
            lower_range(nodes@, from as int, i as int, *ctx) == Ok::<SectionModel, DiagnosticModel>(
                out@,
            ),
        decreases upto - i,
    {
        match parse_node(&nodes[i], ctx) {
            Err(e) => {
                proof {
                    lemma_range_fault(nodes@, from as int, i + 1, upto as int, *ctx);
                }
                return Err(e);
            },
            Ok(found) => {
                out.append(found);
            },
        }
        i += 1;
    }
    Ok(out)
}

/// Lowers a chain of sibling block-level nodes into one run of blocks.
///
/// A fault of the tree ends the lowering and is returned with the node at
/// which it showed.
pub fn parse(nodes: &Vec<SyntaxNode>, ctx: &Context) -> (r: Result<Section, Diagnostic>)
    ensures
        lowered_section(r) == lower_blocks(nodes@, *ctx),
    decreases nodes, 1nat,
{
    parse_range(nodes, 0, nodes.len(), ctx)
}

} // verus!
