//! The document: what lowering and resolution hand to the renderer.

use vstd::prelude::*;
use crate::block::{law_lowering_leaves_no_null, lower_blocks};
use crate::model::{
    Block, BlockModel, blocks_model, blocks_present, Context, Diagnostic, DiagnosticModel,
    diagnostics_model, entries_model,
};
use crate::resolve::{
    blocks_settled, find, law_resolution_keeps_blocks, law_resolution_settles, resolve_links,
    resolved, table_of,
};
use crate::syntax::SyntaxNode;

verus! {

/// A lowered document: its blocks, its metadata and the version of the
/// renderer's interface that it is written for.
#[derive(Debug, PartialEq, Eq)]
pub struct Document {
    pub blocks: Vec<Block>,
    /// The metadata entries in the order in which the source declares them;
    /// of two entries with one key the later one counts.
    pub metadata: Vec<(String, String)>,
    pub version: Vec<u32>,
}

/// What a document is, as a value.
pub ghost struct DocumentModel {
    pub blocks: Seq<BlockModel>,
    pub metadata: Map<Seq<char>, Seq<char>>,
    pub version: Seq<u32>,
}

impl View for Document {
    type V = DocumentModel;

    open spec fn view(&self) -> DocumentModel {
        DocumentModel {
            blocks: blocks_model(self.blocks@),
            metadata: table_of(self.metadata@),
            version: self.version@,
        }
    }
}

/// A document and the notes made while lowering it.
#[derive(Debug, PartialEq, Eq)]
pub struct Lowering {
    pub document: Document,
    pub diagnostics: Vec<Diagnostic>,
}

/// What a lowering is, as a value.
pub ghost struct LoweringModel {
    pub document: DocumentModel,
    pub diagnostics: Seq<DiagnosticModel>,
}

impl View for Lowering {
    type V = LoweringModel;

    open spec fn view(&self) -> LoweringModel {
        LoweringModel {
            document: self.document@,
            diagnostics: diagnostics_model(self.diagnostics@),
        }
    }
}

/// The metadata that a sequence of entries declares: each entry overwrites
/// what was declared for its key before.
pub open spec fn metadata_of(entries: Seq<(Seq<char>, Seq<char>)>) -> Map<Seq<char>, Seq<char>>
    decreases entries.len(),
{
    if entries.len() == 0 {
        Map::empty()
    } else {
        metadata_of(entries.drop_last()).insert(entries.last().0, entries.last().1)
    }
}

/// The document that a syntax tree stands for: the blocks of the root's
/// children with their links resolved, the metadata that the tags among
/// them declare, and the version as it was given.
pub open spec fn lower_document(root: SyntaxNode, ctx: Context, version: Seq<u32>) -> Result<
    LoweringModel,
    DiagnosticModel,
> {
    match lower_blocks(root.children@, ctx) {
        Err(e) => Err(e),
        Ok(section) => Ok(
            LoweringModel {
                document: DocumentModel {
                    blocks: resolved(section.blocks),
                    metadata: metadata_of(section.metadata),
                    version,
                },
                diagnostics: section.diagnostics,
            },
        ),
    }
}

/// What a fallible lowering of a document gave, as a value.
pub open spec fn lowered_document(r: Result<Lowering, Diagnostic>) -> Result<
    LoweringModel,
    DiagnosticModel,
> {
    match r {
        Ok(lowering) => Ok(lowering@),
        Err(diagnostic) => Err(diagnostic@),
    }
}

/// A document that lowering has assembled holds no block that stands for
/// nothing, and no link that is left to resolve.
pub proof fn law_document_is_finished(root: SyntaxNode, ctx: Context, version: Seq<u32>)
    ensures
        lower_document(root, ctx, version) matches Ok(lowering) ==> blocks_present(
            lowering.document.blocks,
        ) && blocks_settled(lowering.document.blocks),
{
    match lower_blocks(root.children@, ctx) {
        Ok(section) => {
            law_lowering_leaves_no_null(root.children@, ctx);
            law_resolution_keeps_blocks(section.blocks);
            law_resolution_settles(section.blocks);
        },
        Err(_) => {},
    }
}

proof fn lemma_metadata_of_entries(entries: Seq<(String, String)>)
    ensures
        table_of(entries) == metadata_of(entries_model(entries)),
    decreases entries.len(),
{
    if entries.len() > 0 {
        lemma_metadata_of_entries(entries.drop_last());
        assert(entries_model(entries).drop_last() =~= entries_model(entries.drop_last()));
    }
}

impl Document {
    /// Looks up the metadata value that counts for `key`.
    pub fn metadata_value(&self, key: &str) -> (r: Option<String>)
        ensures
            match r {
                Some(value) => self@.metadata.dom().contains(key@) && self@.metadata[key@]
                    == value@,
                None => !self@.metadata.dom().contains(key@),
            },
    {
        let key = String::from_str(key);
        match find(&self.metadata, &key) {
            Some(value) => Some(value.clone()),
            None => None,
        }
    }
}

/// Lowers a syntax tree into a document and resolves its links.
///
/// A fault of the tree ends the lowering and is returned with the node at
/// which it showed.
pub fn parse(root: &SyntaxNode, ctx: &Context, version: Vec<u32>) -> (r: Result<
    Lowering,
    Diagnostic,
>)
    ensures
        lowered_document(r) == lower_document(*root, *ctx, version@),
{
    match crate::block::parse(&root.children, ctx) {
        Err(e) => Err(e),
        Ok(section) => {
            let mut blocks = section.blocks;
            resolve_links(&mut blocks);
            proof {
                lemma_metadata_of_entries(section.metadata@);
            }
            Ok(
                Lowering {
                    document: Document { blocks, metadata: section.metadata, version },
                    diagnostics: section.diagnostics,
                },
            )
        },
    }
}

} // verus!
