//! Lowering of a parsed Neorg syntax tree into a document model of blocks and
//! inlines, followed by a whole-document pass that resolves links and anchors.
//!
//! - [`tree`] reads a source text into a [`syntax::SyntaxNode`] tree with the
//!   tree-sitter parser; [`syntax`] decides the kind of every node from the
//!   grammar's name for it.
//! - [`inline`] lowers chains of inline nodes, [`block`] chains of block
//!   nodes: paragraphs, headings and their sections, lists and quotes, whose
//!   nesting is rebuilt from the depths of their items, and tags.
//! - [`resolve`] gives every link its final destination.
//! - [`document`] puts blocks, metadata and version together.
//!
//! Every function says what it returns over the values in [`model`]; what the
//! library promises of several functions together is stated, and proved, in
//! the proof functions whose names begin with `law_`.

pub mod block;
pub mod document;
pub mod inline;
pub mod model;
pub mod resolve;
pub mod syntax;
pub mod text;
pub mod tree;

use vstd::prelude::*;
use crate::document::{lower_document, Lowering, LoweringModel};
use crate::model::{Answer, Context, Diagnostic, DiagnosticModel};
use crate::syntax::SyntaxNode;
use crate::tree::{faithful, syntax_tree, TreeError};

verus! {

/// Why a source text could not be lowered.
#[derive(Debug, PartialEq, Eq)]
pub enum ParseError {
    /// No syntax tree could be read.
    Tree(TreeError),
    /// The syntax tree is not what lowering expects, at the node named.
    Fault(Diagnostic),
}

/// Calls `dirs::home_dir` and gives the home directory of the user as a
/// string, where there is one and its path is Unicode. It depends on the
/// machine and the user; nothing is claimed of it.
#[verifier::external_body]
fn home_directory() -> (home: Option<String>)
{
    match dirs::home_dir() {
        Some(path) => path.into_os_string().into_string().ok(),
        None => None,
    }
}

/// Makes the context of a lowering: links to other files get `extension`,
/// `tables` holds the renderer's answers to the requests for tables, and
/// `~` stands for the home directory of the user, if there is one.
pub fn context(extension: &str, tables: Vec<Answer>) -> (ctx: Context)
    ensures
        ctx.extension@ == extension@,
        ctx.tables == tables,
{
    Context { extension: String::from_str(extension), home: home_directory(), tables }
}

/// A context without answers of the renderer, in which links to other files
/// get `extension`.
pub open spec fn plain_context(ctx: Context, extension: Seq<char>) -> bool {
    ctx.extension@ == extension && ctx.tables@.len() == 0
}

/// Parses a source text and lowers it into a document for the given
/// version of the renderer's interface. Links to other files get
/// `extension`. No tables are converted: a `table` tag stays a code block.
///
/// What comes back is the lowering of some syntax tree that spans the text,
/// whatever the parser made of it.
pub fn parse(text: &str, api_version: Vec<u32>, extension: &str) -> (r: Result<Lowering, ParseError>)
    ensures
        match r {
            Ok(lowering) => exists|root: SyntaxNode, ctx: Context|
                faithful(root, text@) && plain_context(ctx, extension@) && lower_document(
                    root,
                    ctx,
                    api_version@,
                ) == Ok::<LoweringModel, DiagnosticModel>(lowering@),
            Err(ParseError::Fault(fault)) => exists|root: SyntaxNode, ctx: Context|
                faithful(root, text@) && plain_context(ctx, extension@) && lower_document(
                    root,
                    ctx,
                    api_version@,
                ) == Err::<LoweringModel, DiagnosticModel>(fault@),
            Err(ParseError::Tree(_)) => true,
        },
{
    let root = match syntax_tree(text) {
        Ok(root) => root,
        Err(e) => {
            return Err(ParseError::Tree(e));
        },
    };
    let ctx = context(extension, Vec::new());
    match crate::document::parse(&root, &ctx, api_version) {
        Ok(lowering) => Ok(lowering),
        Err(fault) => Err(ParseError::Fault(fault)),
    }
}

} // verus!
