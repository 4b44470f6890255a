//! Attached modifiers: styled text, spoilers and inline verbatim text.

use vstd::prelude::*;
use crate::inline::{lower_node, parse_children};
use crate::model::{Context, Diagnostic, Fragment, Inline, lowered};
use crate::syntax::{NodeKind, SyntaxNode};
use crate::text::{strip_delimiters, texts};

verus! {

/// Lowers an attached modifier. Styled text and spoilers wrap the lowering
/// of their children; verbatim text is taken as it stands, without the
/// delimiter on each side.
pub(crate) fn parse(node: &SyntaxNode, ctx: &Context) -> (r: Result<Fragment, Diagnostic>)
    requires
        node.kind is Styled || node.kind is Spoiler || node.kind is Verbatim,
    ensures
        lowered(r) == lower_node(*node, *ctx),
    decreases node, 1nat,
{
    match node.kind {
        NodeKind::Styled(style) => match parse_children(node, ctx) {
            Ok(inner) => {
                let mut r = Fragment::single(Inline::Styled(style, inner.inlines));
                r.diagnostics = inner.diagnostics;
                Ok(r)
            },
            Err(e) => Err(e),
        },
        NodeKind::Spoiler => match parse_children(node, ctx) {
            Ok(inner) => {
                let mut classes: Vec<String> = Vec::new();
                classes.push(String::from_str("spoiler"));
                assert(texts(classes@) =~= seq!["spoiler"@]);
                let mut r = Fragment::single(Inline::Span(String::new(), classes, inner.inlines));
                r.diagnostics = inner.diagnostics;
                Ok(r)
            },
            Err(e) => Err(e),
        },
        _ => Ok(Fragment::single(Inline::Code(strip_delimiters(node.text.as_str())))),
    }
}

} // verus!
