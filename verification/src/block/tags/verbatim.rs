//! Ranged verbatim tags: code, document metadata and tables.

use vstd::prelude::*;
use crate::inline::{note, note_of, skip_kind};
use crate::model::{
    Answer, Block, BlockModel, blocks_model, Context, Diagnostic, DiagnosticModel, entries_model,
    is_table, lemma_texts_push,
};
use crate::syntax::{NodeKind, SyntaxNode};
use crate::text::{entry_of, lines_of, same_text, split_entry, split_lines, texts, trim, trimmed};

verus! {

/// What a tag stands for: a block, and the metadata entries it declares.
#[derive(Debug, PartialEq, Eq)]
pub struct Tag {
    pub block: Block,
    pub metadata: Vec<(String, String)>,
}

/// What a tag stands for, as a value.
pub ghost struct TagModel {
    pub block: BlockModel,
    pub metadata: Seq<(Seq<char>, Seq<char>)>,
}

impl View for Tag {
    type V = TagModel;

    open spec fn view(&self) -> TagModel {
        TagModel { block: self.block@, metadata: entries_model(self.metadata@) }
    }
}

/// What a fallible lowering of a tag gave, as a value.
pub open spec fn lowered_tag(r: Result<Tag, Diagnostic>) -> Result<TagModel, DiagnosticModel> {
    match r {
        Ok(tag) => Ok(tag@),
        Err(diagnostic) => Err(diagnostic@),
    }
}

/// A tag that stands for a block and declares nothing.
pub open spec fn block_tag(block: BlockModel) -> TagModel {
    TagModel { block, metadata: Seq::empty() }
}

/// The first index from `p` on whose node is of `kind`; the length of
/// `nodes` if there is none.
pub open spec fn find_kind(nodes: Seq<SyntaxNode>, p: int, kind: NodeKind) -> int
    decreases nodes.len() - p,
{
    if 0 <= p < nodes.len() && nodes[p].kind != kind {
        find_kind(nodes, p + 1, kind)
    } else {
        p
    }
}

/// The node that follows the name of a tag and the blanks behind it: the
/// children of a tag are a marker, the name, blanks, and then the parameters
/// if there are any. Where nothing follows, this is the last child.
pub open spec fn after_name(c: Seq<SyntaxNode>) -> int {
    let p = skip_kind(c, 2, NodeKind::Space);
    if p < c.len() {
        p
    } else {
        c.len() - 1
    }
}

/// The texts of the parameters among the first `upto` of the given nodes.
pub open spec fn parameter_texts(nodes: Seq<SyntaxNode>, upto: int) -> Seq<Seq<char>>
    decreases upto,
{
    if upto <= 0 || upto > nodes.len() {
        Seq::empty()
    } else if nodes[upto - 1].kind is TagParameter {
        parameter_texts(nodes, upto - 1).push(nodes[upto - 1].text@)
    } else {
        parameter_texts(nodes, upto - 1)
    }
}

/// The parameters of a tag whose children are `c`: those that the node
/// behind the name holds, if it is a parameter list. A parameter list
/// without children is a fault of the tree.
pub open spec fn parameters(c: Seq<SyntaxNode>) -> Result<Seq<Seq<char>>, DiagnosticModel> {
    let holder = c[after_name(c)];
    if holder.kind is TagParameters {
        if holder.children@.len() == 0 {
            Err(note(holder))
        } else {
            Ok(parameter_texts(holder.children@, holder.children@.len() as int))
        }
    } else {
        Ok(Seq::empty())
    }
}

/// The key under which a metadata entry is kept: `authors` is kept as `author`.
pub open spec fn meta_key(key: Seq<char>) -> Seq<char> {
    if key == "authors"@ {
        "author"@
    } else {
        key
    }
}

/// The metadata entries that the first `upto` of the given lines declare.
/// A blank line declares nothing.
pub open spec fn entries_upto(lines: Seq<Seq<char>>, upto: int) -> Seq<(Seq<char>, Seq<char>)>
    decreases upto,
{
    if upto <= 0 || upto > lines.len() {
        Seq::empty()
    } else if trimmed(lines[upto - 1]).len() == 0 {
        entries_upto(lines, upto - 1)
    } else {
        entries_upto(lines, upto - 1).push(
            (meta_key(entry_of(lines[upto - 1]).0), entry_of(lines[upto - 1]).1),
        )
    }
}

/// The metadata entries that a text declares, one for each line that is not
/// blank: the key before the first colon and the value behind it.
pub open spec fn meta_entries(text: Seq<char>) -> Seq<(Seq<char>, Seq<char>)> {
    entries_upto(lines_of(text), lines_of(text).len() as int)
}

/// Whether an answer holds a table made of `content`.
pub open spec fn answers(answer: Answer, content: Seq<char>) -> bool {
    answer.content@ == content && is_table(answer.outcome)
}

/// The first index from `p` on at which `tables` holds a table made of
/// `content`; the length of `tables` if it holds none.
pub open spec fn table_index(tables: Seq<Answer>, p: int, content: Seq<char>) -> int
    decreases tables.len() - p,
{
    if 0 <= p < tables.len() && !answers(tables[p], content) {
        table_index(tables, p + 1, content)
    } else {
        p
    }
}

/// The code block that a `code` tag stands for: its parameters are the
/// classifiers, its content is the text.
pub open spec fn lower_code(node: SyntaxNode) -> Result<TagModel, DiagnosticModel> {
    let c = node.children@;
    if c.len() == 0 {
        Err(note(node))
    } else if c.len() == 1 {
        Err(note(c[0]))
    } else {
        match parameters(c) {
            Err(e) => Err(e),
            Ok(classes) => {
                let q = find_kind(c, after_name(c), NodeKind::TagContent);
                if 0 <= q < c.len() {
                    Ok(block_tag(BlockModel::CodeBlock(classes, c[q].text@)))
                } else {
                    Err(note(c.last()))
                }
            },
        }
    }
}

/// What a `document.meta` tag stands for: no block, and the metadata entries
/// that its content declares.
pub open spec fn lower_meta(node: SyntaxNode) -> Result<TagModel, DiagnosticModel> {
    let c = node.children@;
    if c.len() == 0 {
        Err(note(node))
    } else if c.len() == 1 {
        Err(note(c[0]))
    } else {
        let q = find_kind(c, 1, NodeKind::TagContent);
        if 0 <= q < c.len() {
            Ok(TagModel { block: BlockModel::Null, metadata: meta_entries(c[q].text@) })
        } else {
            Err(note(c.last()))
        }
    }
}

/// What a tag of any other name stands for. Its classifiers are its name
/// and its parameters. A tag named `table` of whose content the renderer
/// has made a table, and nothing but a table, stands for that table, in a
/// container that carries the parameters; every other tag stands for a code
/// block of its content.
pub open spec fn lower_general(node: SyntaxNode, ctx: Context) -> Result<TagModel, DiagnosticModel> {
    let c = node.children@;
    if c.len() == 0 {
        Err(note(node))
    } else if c.len() == 1 {
        Err(note(c[0]))
    } else {
        match parameters(c) {
            Err(e) => Err(e),
            Ok(rest) => {
                let q = find_kind(c, after_name(c), NodeKind::TagContent);
                if 0 <= q < c.len() {
                    let name = c[1].text@;
                    let k = table_index(ctx.tables@, 0, c[q].text@);
                    if name == "table"@ && 0 <= k < ctx.tables@.len() {
                        Ok(block_tag(BlockModel::Div(rest, seq![BlockModel::Table(k as nat)])))
                    } else {
                        Ok(block_tag(BlockModel::CodeBlock(seq![name] + rest, c[q].text@)))
                    }
                } else {
                    Err(note(c.last()))
                }
            },
        }
    }
}

/// What a ranged verbatim tag stands for, by its name, which its second
/// child holds.
pub open spec fn lower_verbatim(node: SyntaxNode, ctx: Context) -> Result<TagModel, DiagnosticModel> {
    let c = node.children@;
    if c.len() == 0 {
        Err(note(node))
    } else if c.len() == 1 {
        Err(note(c[0]))
    } else if c[1].text@ == "code"@ {
        lower_code(node)
    } else if c[1].text@ == "document.meta"@ {
        lower_meta(node)
    } else {
        lower_general(node, ctx)
    }
}

/// The content that a node asks the renderer to make a table of: that of a
/// ranged verbatim tag named `table`.
pub open spec fn own_request(node: SyntaxNode) -> Seq<Seq<char>> {
    let c = node.children@;
    let q = find_kind(c, after_name(c), NodeKind::TagContent);
    if node.kind is VerbatimTag && c.len() >= 2 && c[1].text@ == "table"@ && 0 <= q < c.len() {
        seq![c[q].text@]
    } else {
        Seq::empty()
    }
}

/// The contents that a tree asks the renderer to make tables of, in source order.
pub open spec fn requests(node: SyntaxNode) -> Seq<Seq<char>>
    decreases node, 0nat,
{
    own_request(node) + requests_upto(node.children@, node.children@.len() as int)
}

/// The contents that the first `upto` of the given trees ask the renderer to
/// make tables of.
pub open spec fn requests_upto(nodes: Seq<SyntaxNode>, upto: int) -> Seq<Seq<char>>
    decreases nodes, upto,
{
    if upto <= 0 || upto > nodes.len() {
        Seq::empty()
    } else {
        requests_upto(nodes, upto - 1) + requests(nodes[upto - 1])
    }
}

/// Collects the contents that a tree asks the renderer to make tables of,
/// behind those already in `out`.
fn gather_requests(node: &SyntaxNode, out: &mut Vec<String>)
    ensures
        texts(final(out)@) == texts(old(out)@) + requests(*node),
    decreases node,
{
    let c = &node.children;
    let is_tag = match node.kind {
        NodeKind::VerbatimTag => true,
        _ => false,
    };
    let ghost before = texts(out@);
    if is_tag && c.len() >= 2 && same_text(c[1].text.as_str(), "table") {
        let q: usize = find(c, node_after_name(c), NodeKind::TagContent);
        if q < c.len() {
            proof {
                lemma_texts_push(out@, c@[q as int].text);
            }
            out.push(c[q].text.clone());
        }
    }
    assert(texts(out@) =~= before + own_request(*node));
    let mut i: usize = 0;
    assert(texts(out@) =~= before + (own_request(*node) + requests_upto(c@, 0)));
    while i < c.len()
        invariant
            i <= c.len(),
            c == &node.children,
            before == texts(old(out)@),
            texts(out@) == before + (own_request(*node) + requests_upto(c@, i as int)),
        decreases c.len() - i,
    {
        let ghost so_far = requests_upto(c@, i as int);
        gather_requests(&c[i], out);
        assert((before + (own_request(*node) + so_far)) + requests(c@[i as int]) =~= before + (
        own_request(*node) + (so_far + requests(c@[i as int]))));
        i += 1;
    }
}

/// Lists the contents of the `table` tags of a tree, in source order: what
/// the renderer is to make tables of before the tree is lowered.
pub fn table_requests(root: &SyntaxNode) -> (r: Vec<String>)
    ensures
        texts(r@) == requests(*root),
{
    let mut out: Vec<String> = Vec::new();
    assert(texts(out@) =~= Seq::<Seq<char>>::empty());
    gather_requests(root, &mut out);
    assert(Seq::<Seq<char>>::empty() + requests(*root) =~= requests(*root));
    out
}

/// Finds the first node of `kind` from index `p` on.
fn find(nodes: &Vec<SyntaxNode>, p: usize, kind: NodeKind) -> (r: usize)
    requires
        p <= nodes.len(),
    ensures
        r == find_kind(nodes@, p as int, kind),
        p <= r <= nodes.len(),
    decreases nodes.len() - p,
{
    if p < nodes.len() && nodes[p].kind != kind {
        find(nodes, p + 1, kind)
    } else {
        p
    }
}

/// Finds the node that follows the name of a tag and the blanks behind it.
fn node_after_name(c: &Vec<SyntaxNode>) -> (r: usize)
    requires
        c.len() >= 2,
    ensures
        r == after_name(c@),
        1 <= r < c.len(),
{
    let mut p: usize = 2;
    while p < c.len() && c[p].kind == NodeKind::Space
        invariant
            2 <= p <= c.len(),
            skip_kind(c@, 2, NodeKind::Space) == skip_kind(c@, p as int, NodeKind::Space),
        decreases c.len() - p,
    {
        p += 1;
    }
    if p < c.len() {
        p
    } else {
        c.len() - 1
    }
}

/// Reads the parameters of a tag whose children are `c`.
fn read_parameters(c: &Vec<SyntaxNode>) -> (r: Result<Vec<String>, Diagnostic>)
    requires
        c.len() >= 2,
    ensures
        match r {
            Ok(classes) => parameters(c@) == Ok::<Seq<Seq<char>>, DiagnosticModel>(texts(classes@)),
            Err(e) => parameters(c@) == Err::<Seq<Seq<char>>, DiagnosticModel>(e@),
        },
{
    let holder = &c[node_after_name(c)];
    let mut classes: Vec<String> = Vec::new();
    assert(texts(classes@) =~= Seq::<Seq<char>>::empty());
    match holder.kind {
        NodeKind::TagParameters => {
            let n: usize = holder.children.len();
            if n == 0 {
                return Err(note_of(holder));
            }
            let mut i: usize = 0;
            while i < n
                invariant
                    n == holder.children.len(),
                    i <= n,
                    texts(classes@) == parameter_texts(holder.children@, i as int),
                decreases n - i,
            {
                let is_parameter = match holder.children[i].kind {
                    NodeKind::TagParameter => true,
                    _ => false,
                };
                if is_parameter {
                    proof {
                        lemma_texts_push(classes@, holder.children@[i as int].text);
                    }
                    classes.push(holder.children[i].text.clone());
                }
                i += 1;
            }
            Ok(classes)
        },
        _ => Ok(classes),
    }
}

/// Lowers a `code` tag.
pub fn code(node: &SyntaxNode) -> (r: Result<Tag, Diagnostic>)
    ensures
        lowered_tag(r) == lower_code(*node),
{
    let c = &node.children;
    if c.len() == 0 {
        return Err(note_of(node));
    }
    if c.len() == 1 {
        return Err(note_of(&c[0]));
    }
    match read_parameters(c) {
        Err(e) => Err(e),
        Ok(classes) => {
            let q: usize = find(c, node_after_name(c), NodeKind::TagContent);
            if q < c.len() {
                let tag = Tag {
                    block: Block::CodeBlock(classes, c[q].text.clone()),
                    metadata: Vec::new(),
                };
                assert(tag@.metadata =~= Seq::empty());
                Ok(tag)
            } else {
                Err(note_of(&c[c.len() - 1]))
            }
        },
    }
}

/// Reads the metadata entries that a text declares.
pub fn read_entries(text: &str) -> (r: Vec<(String, String)>)
    ensures
        entries_model(r@) == meta_entries(text@),
{
    let lines = split_lines(text);
    let ghost all = lines_of(text@);
    let mut out: Vec<(String, String)> = Vec::new();
    let mut i: usize = 0;
    assert(entries_model(out@) =~= entries_upto(all, 0));
    while i < lines.len()
        invariant
            i <= lines.len(),
            texts(lines@) == all,
            entries_model(out@) == entries_upto(all, i as int),
        decreases lines.len() - i,
    {
        let line = lines[i].as_str();
        assert(line@ == all[i as int]);
        if trim(line).as_str().unicode_len() > 0 {
            let (key, value) = split_entry(line);
            let key = if same_text(key.as_str(), "authors") {
                String::from_str("author")
            } else {
                key
            };
            let ghost before = entries_model(out@);
            out.push((key, value));
            assert(entries_model(out@) =~= before.push((key@, value@)));
        }
        i += 1;
    }
    out
}

/// Lowers a `document.meta` tag.
pub fn meta(node: &SyntaxNode) -> (r: Result<Tag, Diagnostic>)
    ensures
        lowered_tag(r) == lower_meta(*node),
{
    let c = &node.children;
    if c.len() == 0 {
        return Err(note_of(node));
    }
    if c.len() == 1 {
        return Err(note_of(&c[0]));
    }
    let q: usize = find(c, 1, NodeKind::TagContent);
    if q < c.len() {
        Ok(Tag { block: Block::Null, metadata: read_entries(c[q].text.as_str()) })
    } else {
        Err(note_of(&c[c.len() - 1]))
    }
}

/// Finds the table that the renderer made of `content`.
fn find_table(tables: &Vec<Answer>, content: &String) -> (r: usize)
    ensures
        r == table_index(tables@, 0, content@),
        r <= tables.len(),
{
    let mut k: usize = 0;
    while k < tables.len() && !(tables[k].content == *content && tables[k].outcome.is_single_table())
        invariant
            k <= tables.len(),
            table_index(tables@, 0, content@) == table_index(tables@, k as int, content@),
        decreases tables.len() - k,
    {
        k += 1;
    }
    k
}

/// Lowers a tag that is neither code nor metadata.
pub fn general(node: &SyntaxNode, ctx: &Context) -> (r: Result<Tag, Diagnostic>)
    ensures
        lowered_tag(r) == lower_general(*node, *ctx),
{
    let c = &node.children;
    if c.len() == 0 {
        return Err(note_of(node));
    }
    if c.len() == 1 {
        return Err(note_of(&c[0]));
    }
    match read_parameters(c) {
        Err(e) => Err(e),
        Ok(rest) => {
            let q: usize = find(c, node_after_name(c), NodeKind::TagContent);
            if q >= c.len() {
                return Err(note_of(&c[c.len() - 1]));
            }
            let name = &c[1].text;
            let content = &c[q].text;
            let k: usize = find_table(&ctx.tables, content);
            if same_text(name.as_str(), "table") && k < ctx.tables.len() {
                let mut inner: Vec<Block> = Vec::new();
                inner.push(Block::Table(k));
                assert(blocks_model(inner@) =~= seq![BlockModel::Table(k as nat)]);
                let tag = Tag { block: Block::Div(rest, inner), metadata: Vec::new() };
                assert(tag@.metadata =~= Seq::empty());
                Ok(tag)
            } else {
                let mut classes: Vec<String> = Vec::new();
                classes.push(name.clone());
                let mut rest = rest;
                assert(texts(classes@ + rest@) =~= seq![name@] + texts(rest@));
                classes.append(&mut rest);
                let tag = Tag {
                    block: Block::CodeBlock(classes, content.clone()),
                    metadata: Vec::new(),
                };
                assert(tag@.metadata =~= Seq::empty());
                Ok(tag)
            }
        },
    }
}

/// Lowers a ranged verbatim tag.
pub fn parse(node: &SyntaxNode, ctx: &Context) -> (r: Result<Tag, Diagnostic>)
    ensures
        lowered_tag(r) == lower_verbatim(*node, *ctx),
{
    let c = &node.children;
    if c.len() == 0 {
        return Err(note_of(node));
    }
    if c.len() == 1 {
        return Err(note_of(&c[0]));
    }
    if same_text(c[1].text.as_str(), "code") {
        code(node)
    } else if same_text(c[1].text.as_str(), "document.meta") {
        meta(node)
    } else {
        general(node, ctx)
    }
}

} // verus!
