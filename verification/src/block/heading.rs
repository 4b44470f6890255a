//! Headings and the sections they open.

use vstd::prelude::*;
use crate::block::{lower_heading, parse_range, section_end};
use crate::inline::detached_extension;
use crate::inline::{note_of, parse_children, to_string};
use crate::model::{
    Block, blocks_model, Context, Diagnostic, entries_model, Fragment, lemma_blocks_add,
    lemma_diagnostics_add, lemma_inlines_add, lowered_section, Section,
};
use crate::syntax::{NodeKind, SyntaxNode};
use crate::text::{decimal, texts};

verus! {

/// Finds where the section of a heading of `level` ends among `nodes[p..]`.
fn find_end(nodes: &Vec<SyntaxNode>, p: usize, level: u64) -> (r: usize)
    requires
        p <= nodes.len(),
    ensures
        r == section_end(nodes@, p as int, level),
        p <= r <= nodes.len(),
    decreases nodes.len() - p,
{
    if p < nodes.len() {
        let closes = match nodes[p].kind {
            NodeKind::Heading(other) => other <= level,
            _ => false,
        };
        if closes {
            p
        } else {
            find_end(nodes, p + 1, level)
        }
    } else {
        p
    }
}

/// Lowers a heading node into the container of its section, followed by
/// what the node holds behind that section.
pub fn parse(node: &SyntaxNode, ctx: &Context) -> (r: Result<Section, Diagnostic>)
    ensures
        lowered_section(r) == lower_heading(*node, *ctx),
    decreases node, 0nat,
{
    let level = match node.kind {
        NodeKind::Heading(level) => level,
        _ => {
            return Err(note_of(node));
        },
    };
    let c = &node.children;
    let n: usize = c.len();
    if n == 0 {
        return Err(note_of(node));
    }
    if n == 1 {
        return Err(note_of(&c[0]));
    }
    let marked = match c[1].kind {
        NodeKind::Extension => true,
        _ => false,
    };
    let at: usize = if marked {
        2
    } else {
        1
    };
    let mut marker = if marked {
        match detached_extension::parse(&c[1]) {
            Err(e) => {
                return Err(e);
            },
            Ok(marker) => marker,
        }
    } else {
        Fragment::new()
    };
    if at >= n {
        return Err(note_of(&c[1]));
    }
    let mut title = match parse_children(&c[at], ctx) {
        Err(e) => {
            return Err(e);
        },
        Ok(title) => title,
    };
    let end: usize = find_end(c, at + 1, level);
    let mut inside = match parse_range(c, at + 1, end, ctx) {
        Err(e) => {
            return Err(e);
        },
        Ok(inside) => inside,
    };
    let mut after = match parse_range(c, end, n, ctx) {
        Err(e) => {
            return Err(e);
        },
        Ok(after) => after,
    };
    let ghost marker_model = marker@;
    let ghost title_model = title@;
    let ghost inside_model = inside@;
    let ghost after_model = after@;
    let mut id = to_string(&title.inlines);
    id.append(decimal(level).as_str());
    let mut text = marker.inlines;
    proof {
        lemma_inlines_add(text@, title.inlines@);
    }
    text.append(&mut title.inlines);
    let heading = Block::Heading(level, id, text);
    let mut content: Vec<Block> = Vec::new();
    content.push(heading);
    assert(blocks_model(content@) =~= seq![heading@]);
    proof {
        lemma_blocks_add(content@, inside.blocks@);
    }
    content.append(&mut inside.blocks);
    let container = Block::Div(Vec::new(), content);
    assert(texts(Seq::<String>::empty()) =~= Seq::<Seq<char>>::empty());
    let mut blocks: Vec<Block> = Vec::new();
    blocks.push(container);
    assert(blocks_model(blocks@) =~= seq![container@]);
    proof {
        lemma_blocks_add(blocks@, after.blocks@);
    }
    blocks.append(&mut after.blocks);
    let mut metadata = inside.metadata;
    assert(entries_model(metadata@ + after.metadata@) =~= inside_model.metadata
        + after_model.metadata);
    metadata.append(&mut after.metadata);
    let mut diagnostics = marker.diagnostics;
    proof {
        lemma_diagnostics_add(diagnostics@, title.diagnostics@);
        lemma_diagnostics_add(diagnostics@ + title.diagnostics@, inside.diagnostics@);
        lemma_diagnostics_add(
            diagnostics@ + title.diagnostics@ + inside.diagnostics@,
            after.diagnostics@,
        );
    }
    diagnostics.append(&mut title.diagnostics);
    diagnostics.append(&mut inside.diagnostics);
    diagnostics.append(&mut after.diagnostics);
    Ok(Section { blocks, metadata, diagnostics })
}

} // verus!
