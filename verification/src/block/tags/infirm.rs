//! Infirm tags: tags of a single line, such as an image.

use vstd::prelude::*;
use crate::inline::{note, note_of};
use crate::model::{
    Block, BlockModel, Diagnostic, DiagnosticModel, diagnostics_model, Inline, InlineModel,
    inlines_model, lowered_section, Section, section_of, SectionModel,
};
use crate::syntax::SyntaxNode;
use crate::text::same_text;

verus! {

/// What an infirm tag stands for. Its second child holds its name. An
/// `image` tag stands for an image whose target is the tag's fourth child,
/// the token behind the blank that follows the name. A tag of another name
/// stands for its raw text, with a note.
pub open spec fn lower_infirm(node: SyntaxNode) -> Result<SectionModel, DiagnosticModel> {
    let c = node.children@;
    if c.len() == 0 {
        Err(note(node))
    } else if c.len() == 1 {
        Err(note(c[0]))
    } else if c[1].text@ == "image"@ {
        if c.len() >= 4 {
            Ok(
                section_of(
                    seq![BlockModel::Plain(seq![InlineModel::Image(c[3].text@)])],
                    Seq::empty(),
                ),
            )
        } else {
            Err(note(c.last()))
        }
    } else {
        Ok(
            section_of(
                seq![BlockModel::Plain(seq![InlineModel::Str(node.text@)])],
                seq![note(node)],
            ),
        )
    }
}

/// Lowers an infirm tag.
pub fn parse(node: &SyntaxNode) -> (r: Result<Section, Diagnostic>)
    ensures
        lowered_section(r) == lower_infirm(*node),
{
    let c = &node.children;
    if c.len() == 0 {
        return Err(note_of(node));
    }
    if c.len() == 1 {
        return Err(note_of(&c[0]));
    }
    let mut inlines: Vec<Inline> = Vec::new();
    let mut diagnostics: Vec<Diagnostic> = Vec::new();
    if same_text(c[1].text.as_str(), "image") {
        if c.len() < 4 {
            return Err(note_of(&c[c.len() - 1]));
        }
        inlines.push(Inline::Image(c[3].text.clone()));
        assert(inlines_model(inlines@) =~= seq![InlineModel::Image(c@[3].text@)]);
        assert(diagnostics_model(diagnostics@) =~= Seq::empty());
    } else {
        inlines.push(Inline::Str(node.text.clone()));
        diagnostics.push(note_of(node));
        assert(inlines_model(inlines@) =~= seq![InlineModel::Str(node.text@)]);
        assert(diagnostics_model(diagnostics@) =~= seq![note(*node)]);
    }
    Ok(Section::single(Block::Plain(inlines), diagnostics))
}

} // verus!
