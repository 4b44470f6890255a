//! The document model that lowering produces, and the mathematical values
//! that the contracts of this crate speak of.

use vstd::prelude::*;
use crate::syntax::{ListKind, Style};
use crate::text::texts;

verus! {

/// The state of a link target between lowering and resolution.
#[derive(Clone, Copy, Debug, PartialEq, Eq, Structural)]
pub enum Classifier {
    /// Nothing is left to resolve.
    Resolved,
    /// A bare word, to be looked up among spans and headings.
    Magic,
    /// A wiki reference, to be looked up among headings.
    Wiki,
    /// An anchor: a declaration while its destination is empty, a definition otherwise.
    Anchor,
}

/// Where a link leads.
#[derive(Debug, PartialEq, Eq)]
pub struct LinkTarget {
    pub destination: String,
    pub classifier: Classifier,
}

/// An inline element.
#[derive(Debug, PartialEq, Eq)]
pub enum Inline {
    Str(String),
    Space,
    SoftBreak,
    /// Emphasised, strong, underlined, struck out, raised or lowered inlines.
    Styled(Style, Vec<Inline>),
    /// An identifier, classifiers and the inlines they mark.
    Span(String, Vec<String>, Vec<Inline>),
    Code(String),
    /// Classifiers, the description and the target.
    Link(Vec<String>, Vec<Inline>, LinkTarget),
    /// An image with an empty caption, by its target.
    Image(String),
}

/// What a link target is, as a value.
pub ghost struct TargetModel {
    pub destination: Seq<char>,
    pub classifier: Classifier,
}

/// What an inline is, as a value.
pub ghost enum InlineModel {
    Str(Seq<char>),
    Space,
    SoftBreak,
    Styled(Style, Seq<InlineModel>),
    Span(Seq<char>, Seq<Seq<char>>, Seq<InlineModel>),
    Code(Seq<char>),
    Link(Seq<Seq<char>>, Seq<InlineModel>, TargetModel),
    Image(Seq<char>),
}

impl View for LinkTarget {
    type V = TargetModel;

    open spec fn view(&self) -> TargetModel {
        TargetModel { destination: self.destination@, classifier: self.classifier }
    }
}

/// The value of an inline.
pub open spec fn inline_model(x: Inline) -> InlineModel
    decreases x,
{
    match x {
        Inline::Str(s) => InlineModel::Str(s@),
        Inline::Space => InlineModel::Space,
        Inline::SoftBreak => InlineModel::SoftBreak,
        Inline::Styled(style, v) => InlineModel::Styled(style, inlines_model(v@)),
        Inline::Span(id, classes, v) => InlineModel::Span(id@, texts(classes@), inlines_model(v@)),
        Inline::Code(s) => InlineModel::Code(s@),
        Inline::Link(classes, v, target) => InlineModel::Link(
            texts(classes@),
            inlines_model(v@),
            target@,
        ),
        Inline::Image(s) => InlineModel::Image(s@),
    }
}

/// The values of a sequence of inlines.
pub open spec fn inlines_model(s: Seq<Inline>) -> Seq<InlineModel>
    decreases s,
{
    Seq::new(
        s.len(),
        |i: int|
            if 0 <= i < s.len() {
                inline_model(s[i])
            } else {
                InlineModel::Space
            },
    )
}

impl View for Inline {
    type V = InlineModel;

    open spec fn view(&self) -> InlineModel {
        inline_model(*self)
    }
}

/// A block element.
#[derive(Debug, PartialEq, Eq)]
pub enum Block {
    Paragraph(Vec<Inline>),
    /// Inlines that are not a paragraph.
    Plain(Vec<Inline>),
    /// The level, the identifier and the title.
    Heading(u64, String, Vec<Inline>),
    /// A bullet list or an ordered list, by its items.
    List(ListKind, Vec<Vec<Block>>),
    BlockQuote(Vec<Block>),
    /// Classifiers and literal text.
    CodeBlock(Vec<String>, String),
    /// Classifiers and the blocks they mark.
    Div(Vec<String>, Vec<Block>),
    HorizontalRule,
    /// The table that the renderer made of a content, by the place of its
    /// answer among the answers that the context holds.
    Table(usize),
    /// Stands for a node that yields no block; never part of a document.
    Null,
}

/// What a block is, as a value.
pub ghost enum BlockModel {
    Paragraph(Seq<InlineModel>),
    Plain(Seq<InlineModel>),
    Heading(u64, Seq<char>, Seq<InlineModel>),
    List(ListKind, Seq<Seq<BlockModel>>),
    BlockQuote(Seq<BlockModel>),
    CodeBlock(Seq<Seq<char>>, Seq<char>),
    Div(Seq<Seq<char>>, Seq<BlockModel>),
    HorizontalRule,
    Table(nat),
    Null,
}

/// The value of a block.
pub open spec fn block_model(b: Block) -> BlockModel
    decreases b,
{
    match b {
        Block::Paragraph(v) => BlockModel::Paragraph(inlines_model(v@)),
        Block::Plain(v) => BlockModel::Plain(inlines_model(v@)),
        Block::Heading(level, id, v) => BlockModel::Heading(level, id@, inlines_model(v@)),
        Block::List(kind, items) => BlockModel::List(kind, items_model(items@)),
        Block::BlockQuote(v) => BlockModel::BlockQuote(blocks_model(v@)),
        Block::CodeBlock(classes, text) => BlockModel::CodeBlock(texts(classes@), text@),
        Block::Div(classes, v) => BlockModel::Div(texts(classes@), blocks_model(v@)),
        Block::HorizontalRule => BlockModel::HorizontalRule,
        Block::Table(t) => BlockModel::Table(t as nat),
        Block::Null => BlockModel::Null,
    }
}

/// The values of a sequence of blocks.
pub open spec fn blocks_model(s: Seq<Block>) -> Seq<BlockModel>
    decreases s,
{
    Seq::new(
        s.len(),
        |i: int|
            if 0 <= i < s.len() {
                block_model(s[i])
            } else {
                BlockModel::Null
            },
    )
}

/// The values of the items of a list.
pub open spec fn items_model(s: Seq<Vec<Block>>) -> Seq<Seq<BlockModel>>
    decreases s,
{
    Seq::new(
        s.len(),
        |i: int|
            if 0 <= i < s.len() {
                blocks_model(s[i]@)
            } else {
                Seq::empty()
            },
    )
}

/// The block is not the block that stands for nothing, and holds no such
/// block at any depth.
pub open spec fn block_present(b: BlockModel) -> bool
    decreases b,
{
    match b {
        BlockModel::Null => false,
        BlockModel::List(_, items) => items_present(items),
        BlockModel::BlockQuote(v) => blocks_present(v),
        BlockModel::Div(_, v) => blocks_present(v),
        _ => true,
    }
}

/// None of the blocks stands for nothing or holds a block that does.
pub open spec fn blocks_present(v: Seq<BlockModel>) -> bool
    decreases v,
{
    forall|i: int| 0 <= i < v.len() ==> block_present(#[trigger] v[i])
}

/// No item of a list holds a block that stands for nothing.
pub open spec fn items_present(items: Seq<Seq<BlockModel>>) -> bool
    decreases items,
{
    forall|i: int| 0 <= i < items.len() ==> blocks_present(#[trigger] items[i])
}

impl View for Block {
    type V = BlockModel;

    open spec fn view(&self) -> BlockModel {
        block_model(*self)
    }
}

/// A note on a node: the grammar's name for it and where it starts.
#[derive(Debug, PartialEq, Eq)]
pub struct Diagnostic {
    pub kind: String,
    pub position: usize,
}

/// What a diagnostic is, as a value.
pub ghost struct DiagnosticModel {
    pub kind: Seq<char>,
    pub position: nat,
}

impl View for Diagnostic {
    type V = DiagnosticModel;

    open spec fn view(&self) -> DiagnosticModel {
        DiagnosticModel { kind: self.kind@, position: self.position as nat }
    }
}

/// The values of a sequence of diagnostics.
pub open spec fn diagnostics_model(s: Seq<Diagnostic>) -> Seq<DiagnosticModel> {
    Seq::new(s.len(), |i: int| s[i]@)
}

/// A run of inlines and the notes made while lowering it.
#[derive(Debug, PartialEq, Eq)]
pub struct Fragment {
    pub inlines: Vec<Inline>,
    pub diagnostics: Vec<Diagnostic>,
}

/// What a fragment is, as a value.
pub ghost struct FragmentModel {
    pub inlines: Seq<InlineModel>,
    pub diagnostics: Seq<DiagnosticModel>,
}

impl View for Fragment {
    type V = FragmentModel;

    open spec fn view(&self) -> FragmentModel {
        FragmentModel {
            inlines: inlines_model(self.inlines@),
            diagnostics: diagnostics_model(self.diagnostics@),
        }
    }
}

/// A fragment without notes.
pub open spec fn plain(inlines: Seq<InlineModel>) -> FragmentModel {
    FragmentModel { inlines, diagnostics: Seq::empty() }
}

/// One fragment after the other.
pub open spec fn join(a: FragmentModel, b: FragmentModel) -> FragmentModel {
    FragmentModel { inlines: a.inlines + b.inlines, diagnostics: a.diagnostics + b.diagnostics }
}

/// What a fallible lowering of inlines gave, as a value.
pub open spec fn lowered(r: Result<Fragment, Diagnostic>) -> Result<FragmentModel, DiagnosticModel> {
    match r {
        Ok(fragment) => Ok(fragment@),
        Err(diagnostic) => Err(diagnostic@),
    }
}

/// The views of a sequence of metadata entries.
pub open spec fn entries_model(s: Seq<(String, String)>) -> Seq<(Seq<char>, Seq<char>)> {
    Seq::new(s.len(), |i: int| (s[i].0@, s[i].1@))
}

/// A run of blocks, with the metadata entries and the notes that lowering
/// made on the way.
#[derive(Debug, PartialEq, Eq)]
pub struct Section {
    pub blocks: Vec<Block>,
    pub metadata: Vec<(String, String)>,
    pub diagnostics: Vec<Diagnostic>,
}

/// What a section is, as a value.
pub ghost struct SectionModel {
    pub blocks: Seq<BlockModel>,
    pub metadata: Seq<(Seq<char>, Seq<char>)>,
    pub diagnostics: Seq<DiagnosticModel>,
}

impl View for Section {
    type V = SectionModel;

    open spec fn view(&self) -> SectionModel {
        SectionModel {
            blocks: blocks_model(self.blocks@),
            metadata: entries_model(self.metadata@),
            diagnostics: diagnostics_model(self.diagnostics@),
        }
    }
}

/// The section without blocks, entries and notes.
pub open spec fn no_section() -> SectionModel {
    SectionModel { blocks: Seq::empty(), metadata: Seq::empty(), diagnostics: Seq::empty() }
}

/// The section of the given blocks, with the given notes.
pub open spec fn section_of(blocks: Seq<BlockModel>, diagnostics: Seq<DiagnosticModel>) -> SectionModel {
    SectionModel { blocks, metadata: Seq::empty(), diagnostics }
}

/// One section after the other.
pub open spec fn join_sections(a: SectionModel, b: SectionModel) -> SectionModel {
    SectionModel {
        blocks: a.blocks + b.blocks,
        metadata: a.metadata + b.metadata,
        diagnostics: a.diagnostics + b.diagnostics,
    }
}

/// What a fallible lowering of blocks gave, as a value.
pub open spec fn lowered_section(r: Result<Section, Diagnostic>) -> Result<
    SectionModel,
    DiagnosticModel,
> {
    match r {
        Ok(section) => Ok(section@),
        Err(diagnostic) => Err(diagnostic@),
    }
}

impl Section {
    /// The empty section.
    pub fn new() -> (r: Section)
        ensures
            r@ == no_section(),
    {
        let r = Section { blocks: Vec::new(), metadata: Vec::new(), diagnostics: Vec::new() };
        assert(r@.blocks =~= Seq::empty());
        assert(r@.metadata =~= Seq::empty());
        assert(r@.diagnostics =~= Seq::empty());
        r
    }

    /// The section of one block, with the given notes.
    pub fn single(block: Block, diagnostics: Vec<Diagnostic>) -> (r: Section)
        ensures
            r@ == section_of(seq![block@], diagnostics_model(diagnostics@)),
    {
        let mut blocks: Vec<Block> = Vec::new();
        blocks.push(block);
        let r = Section { blocks, metadata: Vec::new(), diagnostics };
        assert(r@.blocks =~= seq![block@]);
        assert(r@.metadata =~= Seq::empty());
        r
    }

    /// Puts `other` behind this section.
    pub fn append(&mut self, other: Section)
        ensures
            final(self)@ == join_sections(old(self)@, other@),
    {
        let mut other = other;
        proof {
            lemma_blocks_add(self.blocks@, other.blocks@);
            lemma_diagnostics_add(self.diagnostics@, other.diagnostics@);
            assert(entries_model(self.metadata@ + other.metadata@) =~= entries_model(self.metadata@)
                + entries_model(other.metadata@));
        }
        self.blocks.append(&mut other.blocks);
        self.metadata.append(&mut other.metadata);
        self.diagnostics.append(&mut other.diagnostics);
    }
}

/// What the renderer gave when it was asked to make a table of a content.
#[derive(Clone, Copy, Debug, PartialEq, Eq, Structural)]
pub enum Outcome {
    /// The renderer could not be run, took too long, or gave nothing that
    /// can be read.
    Failed,
    /// The renderer gave a document of so many blocks, whose first block is
    /// a table or is none.
    Blocks(usize, bool),
}

/// The renderer's answer to the request for a table.
#[derive(Debug, PartialEq, Eq)]
pub struct Answer {
    /// The content that the renderer was given.
    pub content: String,
    pub outcome: Outcome,
}

/// Whether an outcome is a table: a document of a single block, which is a table.
pub open spec fn is_table(outcome: Outcome) -> bool {
    outcome == Outcome::Blocks(1, true)
}

impl Outcome {
    /// Whether the renderer gave exactly one table.
    pub fn is_single_table(&self) -> (r: bool)
        ensures
            r == is_table(*self),
    {
        match self {
            Outcome::Blocks(count, table) => *count == 1 && *table,
            Outcome::Failed => false,
        }
    }
}

/// What lowering needs to know besides the syntax tree.
#[derive(Debug, PartialEq, Eq)]
pub struct Context {
    /// The extension that a link to another file gets, with its dot.
    pub extension: String,
    /// The home directory, which stands for `~` in a link to an outside
    /// file, where one is known.
    pub home: Option<String>,
    /// The renderer's answers to the requests for tables.
    pub tables: Vec<Answer>,
}

impl Fragment {
    /// The empty fragment.
    pub fn new() -> (r: Fragment)
        ensures
            r@ == plain(Seq::empty()),
    {
        let r = Fragment { inlines: Vec::new(), diagnostics: Vec::new() };
        assert(r@.inlines =~= Seq::empty());
        assert(r@.diagnostics =~= Seq::empty());
        r
    }

    /// The fragment of one inline.
    pub fn single(inline: Inline) -> (r: Fragment)
        ensures
            r@ == plain(seq![inline@]),
    {
        let mut inlines: Vec<Inline> = Vec::new();
        inlines.push(inline);
        let r = Fragment { inlines, diagnostics: Vec::new() };
        assert(r@.inlines =~= seq![inline@]);
        assert(r@.diagnostics =~= Seq::empty());
        r
    }

    /// Puts `other` behind this fragment.
    pub fn append(&mut self, other: Fragment)
        ensures
            final(self)@ == join(old(self)@, other@),
    {
        let mut other = other;
        proof {
            lemma_inlines_add(self.inlines@, other.inlines@);
            lemma_diagnostics_add(self.diagnostics@, other.diagnostics@);
        }
        self.inlines.append(&mut other.inlines);
        self.diagnostics.append(&mut other.diagnostics);
    }
}

/// The values of a run of inlines with one more inline behind it.
pub proof fn lemma_inlines_push(s: Seq<Inline>, x: Inline)
    ensures
        inlines_model(s.push(x)) == inlines_model(s).push(x@),
{
    assert(inlines_model(s.push(x)) =~= inlines_model(s).push(x@));
}

/// The values of two runs of inlines, one behind the other.
pub proof fn lemma_inlines_add(s: Seq<Inline>, t: Seq<Inline>)
    ensures
        inlines_model(s + t) == inlines_model(s) + inlines_model(t),
{
    assert(inlines_model(s + t) =~= inlines_model(s) + inlines_model(t));
}

/// The values of two runs of blocks, one behind the other.
pub proof fn lemma_blocks_add(s: Seq<Block>, t: Seq<Block>)
    ensures
        blocks_model(s + t) == blocks_model(s) + blocks_model(t),
{
    assert(blocks_model(s + t) =~= blocks_model(s) + blocks_model(t));
}

/// The values of two runs of list items, one behind the other.
pub proof fn lemma_items_add(s: Seq<Vec<Block>>, t: Seq<Vec<Block>>)
    ensures
        items_model(s + t) == items_model(s) + items_model(t),
{
    assert(items_model(s + t) =~= items_model(s) + items_model(t));
}

/// The values of two runs of diagnostics, one behind the other.
pub proof fn lemma_diagnostics_add(s: Seq<Diagnostic>, t: Seq<Diagnostic>)
    ensures
        diagnostics_model(s + t) == diagnostics_model(s) + diagnostics_model(t),
{
    assert(diagnostics_model(s + t) =~= diagnostics_model(s) + diagnostics_model(t));
}

/// The views of a sequence of strings with one more string behind it.
pub proof fn lemma_texts_push(s: Seq<String>, x: String)
    ensures
        texts(s.push(x)) == texts(s).push(x@),
{
    assert(texts(s.push(x)) =~= texts(s).push(x@));
}

/// Copies a sequence of strings.
pub fn duplicate_texts(v: &Vec<String>) -> (r: Vec<String>)
    ensures
        texts(r@) == texts(v@),
{
    let mut r: Vec<String> = Vec::new();
    let mut i: usize = 0;
    while i < v.len()
        invariant
            i <= v.len(),
            r@.len() == i,
            forall|k: int| 0 <= k < i ==> r@[k]@ == v@[k]@,
        decreases v.len() - i,
    {
        r.push(v[i].clone());
        i += 1;
    }
    assert(texts(r@) =~= texts(v@));
    r
}

impl LinkTarget {
    /// Copies the target.
    pub fn duplicate(&self) -> (r: LinkTarget)
        ensures
            r@ == self@,
    {
        LinkTarget { destination: self.destination.clone(), classifier: self.classifier }
    }
}

impl Inline {
    /// Copies the inline and everything below it.
    pub fn duplicate(&self) -> (r: Inline)
        ensures
            r@ == self@,
        decreases self,
    {
        match self {
            Inline::Str(s) => Inline::Str(s.clone()),
            Inline::Space => Inline::Space,
            Inline::SoftBreak => Inline::SoftBreak,
            Inline::Styled(style, v) => Inline::Styled(*style, duplicate_inlines(v)),
            Inline::Span(id, classes, v) => Inline::Span(
                id.clone(),
                duplicate_texts(classes),
                duplicate_inlines(v),
            ),
            Inline::Code(s) => Inline::Code(s.clone()),
            Inline::Link(classes, v, target) => Inline::Link(
                duplicate_texts(classes),
                duplicate_inlines(v),
                target.duplicate(),
            ),
            Inline::Image(s) => Inline::Image(s.clone()),
        }
    }
}

/// Copies a sequence of inlines and everything below them.
pub fn duplicate_inlines(v: &Vec<Inline>) -> (r: Vec<Inline>)
    ensures
        inlines_model(r@) == inlines_model(v@),
    decreases v,
{
    let mut r: Vec<Inline> = Vec::new();
    let mut i: usize = 0;
    while i < v.len()
        invariant
            i <= v.len(),
            r@.len() == i,
            forall|k: int| 0 <= k < i ==> r@[k]@ == v@[k]@,
        decreases v.len() - i,
    {
        r.push(v[i].duplicate());
        i += 1;
    }
    assert(inlines_model(r@) =~= inlines_model(v@));
    r
}

} // verus!
