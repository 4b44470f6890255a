//! Extensions of detached modifiers, such as the state of a todo item.

use vstd::prelude::*;
use crate::inline::{lower_extension, note, note_of, urgent_marker};
use crate::model::{
    Diagnostic, Fragment, Inline, InlineModel, inlines_model, lemma_inlines_push, lowered,
};
use crate::syntax::{NodeKind, Style, SyntaxNode};
use crate::text::texts;

verus! {

/// Lowers the extension of a detached modifier into the marker that stands
/// before the text it belongs to.
pub fn parse(node: &SyntaxNode) -> (r: Result<Fragment, Diagnostic>)
    ensures
        lowered(r) == lower_extension(*node),
{
    if node.children.len() == 0 {
        return Err(note_of(node));
    }
    if node.children.len() == 1 {
        return Err(note_of(&node.children[0]));
    }
    let state = &node.children[1];
    match state.kind {
        NodeKind::TodoUrgent => {
            let mut classes: Vec<String> = Vec::new();
            classes.push(String::from_str("todo"));
            classes.push(String::from_str("urgent"));
            assert(texts(classes@) =~= seq!["todo"@, "urgent"@]);
            let mut sign: Vec<Inline> = Vec::new();
            sign.push(Inline::Str(String::from_str("(!)")));
            assert(inlines_model(sign@) =~= seq![InlineModel::Str("(!)"@)]);
            let mut span: Vec<Inline> = Vec::new();
            span.push(Inline::Span(String::new(), classes, sign));
            assert(inlines_model(span@) =~= seq![
                InlineModel::Span(Seq::empty(), seq!["todo"@, "urgent"@], seq![InlineModel::Str("(!)"@)]),
            ]);
            let mut r = Fragment::single(Inline::Styled(Style::Strong, span));
            proof {
                lemma_inlines_push(r.inlines@, Inline::Space);
            }
            r.inlines.push(Inline::Space);
            assert(r@.inlines =~= urgent_marker());
            Ok(r)
        },
        _ => {
            let mut r = Fragment::new();
            r.diagnostics.push(note_of(state));
            assert(r@.diagnostics =~= seq![note(*state)]);
            Ok(r)
        },
    }
}

} // verus!
