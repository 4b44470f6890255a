//! Quotes: rebuilding the nesting of a quote from the depths of its items.

use vstd::prelude::*;
use crate::block::list::gap;
use crate::inline::{lower_children, note, note_of, parse_children};
use crate::model::{
    Block, block_present, BlockModel, blocks_model, blocks_present, Context, Diagnostic,
    DiagnosticModel, diagnostics_model, duplicate_inlines, Inline, InlineModel, inlines_model,
    lemma_blocks_add, lemma_diagnostics_add, lowered_section, Section, section_of, SectionModel,
};
use crate::syntax::{NodeKind, SyntaxNode};

verus! {

/// One item of a quote as the source gives it: how deep it stands, and its text.
#[derive(Debug, PartialEq, Eq)]
pub struct QuoteItem {
    pub depth: u64,
    pub content: Vec<Inline>,
}

/// What a quote item is, as a value.
pub ghost struct QuoteItemModel {
    pub depth: nat,
    pub content: Seq<InlineModel>,
}

impl View for QuoteItem {
    type V = QuoteItemModel;

    open spec fn view(&self) -> QuoteItemModel {
        QuoteItemModel { depth: self.depth as nat, content: inlines_model(self.content@) }
    }
}

/// The values of a sequence of quote items.
pub open spec fn quote_items_model(s: Seq<QuoteItem>) -> Seq<QuoteItemModel> {
    Seq::new(s.len(), |i: int| s[i]@)
}

/// A sequence of items that can be normalized: it is not empty and no depth
/// is below one.
pub open spec fn valid_quote(s: Seq<QuoteItemModel>) -> bool {
    s.len() > 0 && forall|i: int| 0 <= i < s.len() ==> (#[trigger] s[i]).depth >= 1
}

/// `blocks` inside `n` quotes.
pub open spec fn enclose(blocks: Seq<BlockModel>, n: nat) -> Seq<BlockModel>
    decreases n,
{
    if n == 0 {
        blocks
    } else {
        seq![BlockModel::BlockQuote(enclose(blocks, (n - 1) as nat))]
    }
}

/// What normalizing a stretch of quote items gives: the blocks of one quote,
/// the shallowest depth met, and the index of the first item that was not taken.
pub ghost struct QuoteRun {
    pub blocks: Seq<BlockModel>,
    pub depth: nat,
    pub next: int,
}

/// Normalizes the quote items from `s[i]` up to the first item that is not
/// deeper than `bound`.
///
/// The item at `i` becomes a paragraph. The deeper items that follow it become
/// a quote after that paragraph, inside as many more quotes as their
/// shallowest depth skips. The items after those, while deeper than `bound`,
/// follow in the same quote; where they are shallower than `s[i]`, what was
/// built so far is first put inside the quotes between the two depths.
pub open spec fn quote_from(s: Seq<QuoteItemModel>, i: int, bound: nat) -> QuoteRun
    decreases s.len() - i,
{
    if i < 0 || i >= s.len() {
        QuoteRun { blocks: Seq::empty(), depth: 0, next: i }
    } else {
        let head = s[i];
        let paragraph = BlockModel::Paragraph(head.content);
        let sub = quote_from(s, i + 1, head.depth);
        let nested = i + 1 < s.len() && s[i + 1].depth > head.depth;
        let content = if nested {
            seq![
                paragraph,
                BlockModel::BlockQuote(enclose(sub.blocks, gap(sub.depth, head.depth + 1))),
            ]
        } else {
            seq![paragraph]
        };
        let j = if nested {
            sub.next
        } else {
            i + 1
        };
        if i < j && j < s.len() && s[j].depth > bound {
            let sib = quote_from(s, j, bound);
            QuoteRun {
                blocks: enclose(content, gap(head.depth, sib.depth)) + sib.blocks,
                depth: sib.depth,
                next: sib.next,
            }
        } else {
            QuoteRun { blocks: content, depth: head.depth, next: j }
        }
    }
}

/// The quote that a flat sequence of quote items stands for: an item of
/// depth `d` lies inside `d` quotes.
pub open spec fn normal_quote(s: Seq<QuoteItemModel>) -> BlockModel {
    let run = quote_from(s, 0, 0);
    BlockModel::BlockQuote(enclose(run.blocks, gap(run.depth, 1)))
}

/// Where a run of quote items ends and how deep it reaches.
pub proof fn lemma_quote_bounds(s: Seq<QuoteItemModel>, i: int, bound: nat)
    requires
        0 <= i < s.len(),
        s[i].depth > bound,
    ensures
        i < quote_from(s, i, bound).next <= s.len(),
        bound < quote_from(s, i, bound).depth <= s[i].depth,
        quote_from(s, i, bound).next < s.len() ==> s[quote_from(s, i, bound).next].depth <= bound,
    decreases s.len() - i,
{
    let head = s[i];
    let nested = i + 1 < s.len() && s[i + 1].depth > head.depth;
    if nested {
        lemma_quote_bounds(s, i + 1, head.depth);
    }
    let sub = quote_from(s, i + 1, head.depth);
    let j = if nested {
        sub.next
    } else {
        i + 1
    };
    if j < s.len() && s[j].depth > bound {
        lemma_quote_bounds(s, j, bound);
    }
}

proof fn lemma_enclose_present(blocks: Seq<BlockModel>, n: nat)
    requires
        blocks_present(blocks),
    ensures
        blocks_present(enclose(blocks, n)),
    decreases n,
{
    if n > 0 {
        lemma_enclose_present(blocks, (n - 1) as nat);
        assert(block_present(BlockModel::BlockQuote(enclose(blocks, (n - 1) as nat))));
    }
}

proof fn lemma_quote_run_present(s: Seq<QuoteItemModel>, i: int, bound: nat)
    ensures
        blocks_present(quote_from(s, i, bound).blocks),
    decreases s.len() - i,
{
    if !(i < 0 || i >= s.len()) {
        let head = s[i];
        let paragraph = BlockModel::Paragraph(head.content);
        let sub = quote_from(s, i + 1, head.depth);
        let nested = i + 1 < s.len() && s[i + 1].depth > head.depth;
        lemma_quote_run_present(s, i + 1, head.depth);
        lemma_enclose_present(sub.blocks, gap(sub.depth, head.depth + 1));
        let below = BlockModel::BlockQuote(enclose(sub.blocks, gap(sub.depth, head.depth + 1)));
        let content = if nested {
            seq![paragraph, below]
        } else {
            seq![paragraph]
        };
        assert(block_present(paragraph));
        assert(block_present(below));
        assert(blocks_present(content));
        let j = if nested {
            sub.next
        } else {
            i + 1
        };
        if i < j && j < s.len() && s[j].depth > bound {
            let sib = quote_from(s, j, bound);
            lemma_quote_run_present(s, j, bound);
            let front = enclose(content, gap(head.depth, sib.depth));
            lemma_enclose_present(content, gap(head.depth, sib.depth));
            assert forall|k: int| 0 <= k < (front + sib.blocks).len() implies block_present(
                #[trigger] (front + sib.blocks)[k],
            ) by {
                if k < front.len() {
                    assert((front + sib.blocks)[k] == front[k]);
                } else {
                    assert((front + sib.blocks)[k] == sib.blocks[k - front.len()]);
                }
            }
        }
    }
}

/// A normalized quote holds no block that stands for nothing.
pub proof fn lemma_normal_quote_present(s: Seq<QuoteItemModel>)
    ensures
        block_present(normal_quote(s)),
{
    let run = quote_from(s, 0, 0);
    lemma_quote_run_present(s, 0, 0);
    lemma_enclose_present(run.blocks, gap(run.depth, 1));
}

proof fn lemma_enclose_inside(blocks: Seq<BlockModel>, n: nat)
    ensures
        enclose(blocks, n + 1) == enclose(seq![BlockModel::BlockQuote(blocks)], n),
    decreases n,
{
    let inner = seq![BlockModel::BlockQuote(blocks)];
    if n > 0 {
        lemma_enclose_inside(blocks, (n - 1) as nat);
        assert(enclose(blocks, n + 1) == seq![BlockModel::BlockQuote(enclose(blocks, n))]);
        assert(enclose(inner, n) == seq![BlockModel::BlockQuote(enclose(inner, (n - 1) as nat))]);
    } else {
        assert(enclose(blocks, 0) == blocks);
        assert(enclose(blocks, 1) == seq![BlockModel::BlockQuote(enclose(blocks, 0))]);
        assert(enclose(inner, 0) == inner);
    }
}

/// Puts `blocks` inside `n` quotes.
fn enclose_blocks(blocks: Vec<Block>, n: u64) -> (r: Vec<Block>)
    ensures
        blocks_model(r@) == enclose(blocks_model(blocks@), n as nat),
{
    let ghost whole = enclose(blocks_model(blocks@), n as nat);
    let mut cur = blocks;
    let mut t: u64 = 0;
    while t < n
        invariant
            t <= n,
            enclose(blocks_model(cur@), (n - t) as nat) == whole,
        decreases n - t,
    {
        proof {
            lemma_enclose_inside(blocks_model(cur@), (n - t - 1) as nat);
        }
        let ghost before = blocks_model(cur@);
        let mut outer: Vec<Block> = Vec::new();
        outer.push(Block::BlockQuote(cur));
        cur = outer;
        assert(blocks_model(cur@) =~= seq![BlockModel::BlockQuote(before)]);
        t += 1;
    }
    cur
}

/// The outcome of normalizing a stretch of quote items.
struct Run {
    blocks: Vec<Block>,
    depth: u64,
    next: usize,
}

impl View for Run {
    type V = QuoteRun;

    closed spec fn view(&self) -> QuoteRun {
        QuoteRun {
            blocks: blocks_model(self.blocks@),
            depth: self.depth as nat,
            next: self.next as int,
        }
    }
}

fn run(items: &Vec<QuoteItem>, i: usize, bound: u64) -> (r: Run)
    requires
        i < items.len(),
        items[i as int].depth > bound,
    ensures
        r@ == quote_from(quote_items_model(items@), i as int, bound as nat),
    decreases items.len() - i,
{
    let ghost s = quote_items_model(items@);
    proof {
        lemma_quote_bounds(s, i as int, bound as nat);
    }
    let head = &items[i];
    let mut content: Vec<Block> = Vec::new();
    content.push(Block::Paragraph(duplicate_inlines(&head.content)));
    let ghost paragraph = BlockModel::Paragraph(s[i as int].content);
    assert(blocks_model(content@) =~= seq![paragraph]);
    let mut j: usize = i + 1;
    if j < items.len() && items[j].depth > head.depth {
        proof {
            lemma_quote_bounds(s, i + 1, head.depth as nat);
        }
        let sub = run(items, j, head.depth);
        let nested = Block::BlockQuote(enclose_blocks(sub.blocks, sub.depth - head.depth - 1));
        content.push(nested);
        assert(blocks_model(content@) =~= seq![paragraph, nested@]);
        j = sub.next;
    }
    if j < items.len() && items[j].depth > bound {
        proof {
            lemma_quote_bounds(s, j as int, bound as nat);
        }
        let sib = run(items, j, bound);
        let mut blocks = enclose_blocks(content, head.depth - sib.depth);
        let mut rest = sib.blocks;
        proof {
            lemma_blocks_add(blocks@, rest@);
        }
        blocks.append(&mut rest);
        Run { blocks, depth: sib.depth, next: sib.next }
    } else {
        Run { blocks: content, depth: head.depth, next: j }
    }
}

/// Whether the items can be normalized.
fn check_items(items: &Vec<QuoteItem>) -> (r: bool)
    ensures
        r == valid_quote(quote_items_model(items@)),
{
    if items.len() == 0 {
        return false;
    }
    let mut i: usize = 0;
    while i < items.len()
        invariant
            i <= items.len(),
            forall|k: int| 0 <= k < i ==> (#[trigger] quote_items_model(items@)[k]).depth >= 1,
        decreases items.len() - i,
    {
        if items[i].depth < 1 {
            assert(quote_items_model(items@)[i as int].depth < 1);
            return false;
        }
        i += 1;
    }
    true
}

/// Rebuilds the nested quote that a flat sequence of quote items stands for.
///
/// Gives nothing where the sequence is empty or holds a depth below one.
pub fn normalize(items: &Vec<QuoteItem>) -> (r: Option<Block>)
    ensures
        match r {
            Some(quote) => valid_quote(quote_items_model(items@)) && quote@ == normal_quote(
                quote_items_model(items@),
            ),
            None => !valid_quote(quote_items_model(items@)),
        },
{
    if !check_items(items) {
        return None;
    }
    assert(quote_items_model(items@)[0].depth >= 1);
    let whole = run(items, 0, 0);
    proof {
        lemma_quote_bounds(quote_items_model(items@), 0, 0);
    }
    Some(Block::BlockQuote(enclose_blocks(whole.blocks, whole.depth - 1)))
}

/// The flat items that the first `upto` blocks of a quote at `depth` stand
/// for, in order: a paragraph is an item of that depth, and a quote among
/// the blocks holds items one level deeper.
pub open spec fn derive_blocks(blocks: Seq<BlockModel>, upto: int, depth: nat) -> Seq<QuoteItemModel>
    decreases blocks, upto,
{
    if upto <= 0 || upto > blocks.len() {
        Seq::empty()
    } else {
        derive_blocks(blocks, upto - 1, depth) + match blocks[upto - 1] {
            BlockModel::Paragraph(content) => seq![QuoteItemModel { depth, content }],
            BlockModel::BlockQuote(inner) => derive_blocks(inner, inner.len() as int, depth + 1),
            _ => Seq::empty(),
        }
    }
}

/// The depths and texts that a nested quote stands for: what normalizing
/// took in, read back out of the nesting.
pub open spec fn derive_quote(quote: BlockModel) -> Seq<QuoteItemModel> {
    match quote {
        BlockModel::BlockQuote(blocks) => derive_blocks(blocks, blocks.len() as int, 1),
        _ => Seq::empty(),
    }
}

proof fn lemma_derive_prefix(a: Seq<BlockModel>, b: Seq<BlockModel>, m: int, depth: nat)
    requires
        0 <= m <= a.len(),
    ensures
        derive_blocks(a + b, m, depth) == derive_blocks(a, m, depth),
    decreases m,
{
    if m > 0 {
        lemma_derive_prefix(a, b, m - 1, depth);
        assert((a + b)[m - 1] == a[m - 1]);
    }
}

proof fn lemma_derive_add(a: Seq<BlockModel>, b: Seq<BlockModel>, m: int, depth: nat)
    requires
        0 <= m <= b.len(),
    ensures
        derive_blocks(a + b, a.len() + m, depth) == derive_blocks(a, a.len() as int, depth)
            + derive_blocks(b, m, depth),
    decreases m,
{
    let x = derive_blocks(a, a.len() as int, depth);
    if m == 0 {
        lemma_derive_prefix(a, b, a.len() as int, depth);
        assert(x + Seq::<QuoteItemModel>::empty() =~= x);
    } else {
        lemma_derive_add(a, b, m - 1, depth);
        assert((a + b)[a.len() + m - 1] == b[m - 1]);
        let y = derive_blocks(b, m - 1, depth);
        let z: Seq<QuoteItemModel> = match b[m - 1] {
            BlockModel::Paragraph(content) => seq![QuoteItemModel { depth, content }],
            BlockModel::BlockQuote(inner) => derive_blocks(inner, inner.len() as int, depth + 1),
            _ => Seq::empty(),
        };
        assert((x + y) + z =~= x + (y + z));
    }
}

/// Quotes around blocks add depth and nothing else.
proof fn lemma_derive_enclose(blocks: Seq<BlockModel>, n: nat, depth: nat)
    ensures
        derive_blocks(enclose(blocks, n), enclose(blocks, n).len() as int, depth) == derive_blocks(
            blocks,
            blocks.len() as int,
            depth + n,
        ),
    decreases n,
{
    if n > 0 {
        let inner = enclose(blocks, (n - 1) as nat);
        let outer = seq![BlockModel::BlockQuote(inner)];
        assert(enclose(blocks, n) == outer);
        assert(derive_blocks(outer, 0, depth) == Seq::<QuoteItemModel>::empty());
        assert(derive_blocks(outer, 1, depth) == derive_blocks(outer, 0, depth) + derive_blocks(
            inner,
            inner.len() as int,
            depth + 1,
        ));
        assert(derive_blocks(outer, 1, depth) =~= derive_blocks(
            inner,
            inner.len() as int,
            depth + 1,
        ));
        lemma_derive_enclose(blocks, (n - 1) as nat, depth + 1);
    }
}

proof fn lemma_run_derives(s: Seq<QuoteItemModel>, i: int, bound: nat)
    requires
        0 <= i < s.len(),
        s[i].depth > bound,
    ensures
        derive_blocks(
            quote_from(s, i, bound).blocks,
            quote_from(s, i, bound).blocks.len() as int,
            quote_from(s, i, bound).depth,
        ) == s.subrange(i, quote_from(s, i, bound).next),
    decreases s.len() - i,
{
    lemma_quote_bounds(s, i, bound);
    let head = s[i];
    let sub = quote_from(s, i + 1, head.depth);
    let nested = i + 1 < s.len() && s[i + 1].depth > head.depth;
    let paragraph = BlockModel::Paragraph(head.content);
    let j = if nested {
        sub.next
    } else {
        i + 1
    };
    let sibling = j < s.len() && s[j].depth > bound;
    let sib = quote_from(s, j, bound);
    let below = BlockModel::BlockQuote(enclose(sub.blocks, gap(sub.depth, head.depth + 1)));
    let content = if nested {
        seq![paragraph, below]
    } else {
        seq![paragraph]
    };
    let first = derive_blocks(content, content.len() as int, head.depth);
    assert(first == s.subrange(i, j)) by {
        assert(derive_blocks(content, 0, head.depth) == Seq::<QuoteItemModel>::empty());
        assert(derive_blocks(content, 1, head.depth) =~= seq![head]);
        if nested {
            lemma_quote_bounds(s, i + 1, head.depth);
            lemma_run_derives(s, i + 1, head.depth);
            let wrapped = enclose(sub.blocks, gap(sub.depth, head.depth + 1));
            lemma_derive_enclose(sub.blocks, gap(sub.depth, head.depth + 1), head.depth + 1);
            assert(derive_blocks(content, 2, head.depth) == derive_blocks(content, 1, head.depth)
                + derive_blocks(wrapped, wrapped.len() as int, head.depth + 1));
            assert(seq![head] + s.subrange(i + 1, j) =~= s.subrange(i, j));
        } else {
            assert(seq![head] =~= s.subrange(i, j));
        }
    }
    if sibling {
        lemma_quote_bounds(s, j, bound);
        lemma_run_derives(s, j, bound);
        let pad = gap(head.depth, sib.depth);
        let front = enclose(content, pad);
        lemma_derive_add(front, sib.blocks, sib.blocks.len() as int, sib.depth);
        lemma_derive_enclose(content, pad, sib.depth);
        assert((front + sib.blocks).len() == front.len() + sib.blocks.len());
        assert(s.subrange(i, j) + s.subrange(j, sib.next) =~= s.subrange(i, sib.next));
    }
}

/// Normalizing a quote and reading it back out of the nesting gives the
/// sequence that went in: every item lies inside as many quotes as its
/// depth says, and the items keep their order and their texts.
pub proof fn law_quote_round_trip(s: Seq<QuoteItemModel>)
    requires
        valid_quote(s),
    ensures
        derive_quote(normal_quote(s)) == s,
{
    let run = quote_from(s, 0, 0);
    lemma_quote_bounds(s, 0, 0);
    lemma_run_derives(s, 0, 0);
    lemma_derive_enclose(run.blocks, gap(run.depth, 1), 1);
    if run.next < s.len() {
        assert(s[run.next].depth >= 1);
    }
    assert(s.subrange(0, run.next) =~= s);
}

/// The flat quote items that a stretch of the syntax tree holds, with the
/// notes made while lowering their texts.
pub ghost struct QuoteItems {
    pub items: Seq<QuoteItemModel>,
    pub diagnostics: Seq<DiagnosticModel>,
}

/// The flat items under one quote item node: the item itself, then the items
/// nested in it, in source order. The node's first child is its prefix, the
/// second holds its text, and every child after that is an item node again.
pub open spec fn collect_item(node: SyntaxNode, ctx: Context) -> Result<QuoteItems, DiagnosticModel>
    decreases node, 0nat,
{
    let c = node.children@;
    match node.kind {
        NodeKind::QuoteItem(depth) => if depth < 1 || c.len() == 0 {
            Err(note(node))
        } else if c.len() == 1 {
            Err(note(c[0]))
        } else {
            match lower_children(c[1], ctx) {
                Err(e) => Err(e),
                Ok(text) => match collect_items(c, 2, c.len() as int, ctx) {
                    Err(e) => Err(e),
                    Ok(below) => Ok(
                        QuoteItems {
                            items: seq![
                                QuoteItemModel { depth: depth as nat, content: text.inlines },
                            ] + below.items,
                            diagnostics: text.diagnostics + below.diagnostics,
                        },
                    ),
                },
            }
        },
        _ => Err(note(node)),
    }
}

/// The flat items under the item nodes `nodes[from..upto]`; the first fault ends it.
pub open spec fn collect_items(nodes: Seq<SyntaxNode>, from: int, upto: int, ctx: Context) -> Result<
    QuoteItems,
    DiagnosticModel,
>
    decreases nodes, upto,
{
    if from < 0 || upto <= from || upto > nodes.len() {
        Ok(QuoteItems { items: Seq::empty(), diagnostics: Seq::empty() })
    } else {
        match collect_items(nodes, from, upto - 1, ctx) {
            Err(e) => Err(e),
            Ok(before) => match collect_item(nodes[upto - 1], ctx) {
                Err(e) => Err(e),
                Ok(found) => Ok(
                    QuoteItems {
                        items: before.items + found.items,
                        diagnostics: before.diagnostics + found.diagnostics,
                    },
                ),
            },
        }
    }
}

/// The quote that a quote node stands for: its items, read in source order
/// with the depths their kinds carry, and normalized.
pub open spec fn lower_quote(node: SyntaxNode, ctx: Context) -> Result<SectionModel, DiagnosticModel> {
    if node.children@.len() == 0 {
        Err(note(node))
    } else {
        match collect_items(node.children@, 0, node.children@.len() as int, ctx) {
            Err(e) => Err(e),
            Ok(found) => Ok(section_of(seq![normal_quote(found.items)], found.diagnostics)),
        }
    }
}

proof fn lemma_collect_fault(nodes: Seq<SyntaxNode>, from: int, k: int, m: int, ctx: Context)
    requires
        0 <= from <= k <= m <= nodes.len(),
        collect_items(nodes, from, k, ctx) is Err,
    ensures
        collect_items(nodes, from, m, ctx) == collect_items(nodes, from, k, ctx),
    decreases m - k,
{
    if k < m {
        lemma_collect_fault(nodes, from, k, m - 1, ctx);
    }
}

proof fn lemma_collect_valid(nodes: Seq<SyntaxNode>, from: int, upto: int, ctx: Context)
    requires
        collect_items(nodes, from, upto, ctx) is Ok,
    ensures
        forall|i: int|
            0 <= i < collect_items(nodes, from, upto, ctx)->Ok_0.items.len() ==> (
            #[trigger] collect_items(nodes, from, upto, ctx)->Ok_0.items[i]).depth >= 1,
        0 <= from < upto <= nodes.len() ==> collect_items(nodes, from, upto, ctx)->Ok_0.items.len()
            > 0,
    decreases nodes, upto, 0nat,
{
    if !(from < 0 || upto <= from || upto > nodes.len()) {
        lemma_collect_valid(nodes, from, upto - 1, ctx);
        lemma_collect_item_valid(nodes[upto - 1], ctx);
    }
}

proof fn lemma_collect_item_valid(node: SyntaxNode, ctx: Context)
    requires
        collect_item(node, ctx) is Ok,
    ensures
        forall|i: int|
            0 <= i < collect_item(node, ctx)->Ok_0.items.len() ==> (#[trigger] collect_item(
                node,
                ctx,
            )->Ok_0.items[i]).depth >= 1,
        collect_item(node, ctx)->Ok_0.items.len() > 0,
    decreases node, 0nat, 0nat,
{
    let c = node.children@;
    match node.kind {
        NodeKind::QuoteItem(depth) => {
            lemma_collect_valid(c, 2, c.len() as int, ctx);
        },
        _ => {},
    }
}

/// Reads the flat items under one quote item node, putting them behind
/// `items` and the notes behind `diagnostics`.
fn gather_item(
    node: &SyntaxNode,
    ctx: &Context,
    items: &mut Vec<QuoteItem>,
    diagnostics: &mut Vec<Diagnostic>,
) -> (r: Result<(), Diagnostic>)
    ensures
        match r {
            Ok(_) => collect_item(*node, *ctx) matches Ok(found) && quote_items_model(
                final(items)@,
            ) == quote_items_model(old(items)@) + found.items && diagnostics_model(
                final(diagnostics)@,
            ) == diagnostics_model(old(diagnostics)@) + found.diagnostics,
            Err(e) => collect_item(*node, *ctx) == Err::<QuoteItems, DiagnosticModel>(e@),
        },
    decreases node, 0nat,
{
    let depth = match node.kind {
        NodeKind::QuoteItem(depth) => depth,
        _ => {
            return Err(note_of(node));
        },
    };
    let n: usize = node.children.len();
    if depth < 1 || n == 0 {
        return Err(note_of(node));
    }
    if n == 1 {
        return Err(note_of(&node.children[0]));
    }
    let mut text = match parse_children(&node.children[1], ctx) {
        Err(e) => {
            return Err(e);
        },
        Ok(text) => text,
    };
    let ghost notes = text@.diagnostics;
    proof {
        lemma_diagnostics_add(diagnostics@, text.diagnostics@);
    }
    let item = QuoteItem { depth, content: text.inlines };
    items.push(item);
    assert(quote_items_model(items@) =~= quote_items_model(old(items)@) + seq![item@]);
    diagnostics.append(&mut text.diagnostics);
    let ghost own = seq![item@];
    match gather_items(&node.children, 2, ctx, items, diagnostics) {
        Err(e) => Err(e),
        Ok(_) => {
            proof {
                let below = collect_items(node.children@, 2, node.children@.len() as int, *ctx)->Ok_0;
                assert((quote_items_model(old(items)@) + own) + below.items =~= quote_items_model(
                    old(items)@,
                ) + (own + below.items));
                assert((diagnostics_model(old(diagnostics)@) + notes) + below.diagnostics
                    =~= diagnostics_model(old(diagnostics)@) + (notes + below.diagnostics));
            }
            Ok(())
        },
    }
}

/// Reads the flat items under the quote item nodes from `nodes[from]` on.
fn gather_items(
    nodes: &Vec<SyntaxNode>,
    from: usize,
    ctx: &Context,
    items: &mut Vec<QuoteItem>,
    diagnostics: &mut Vec<Diagnostic>,
) -> (r: Result<(), Diagnostic>)
    requires
        from <= nodes.len(),
    ensures
        match r {
            Ok(_) => collect_items(nodes@, from as int, nodes@.len() as int, *ctx) matches Ok(
                found,
            ) && quote_items_model(final(items)@) == quote_items_model(old(items)@) + found.items
                && diagnostics_model(final(diagnostics)@) == diagnostics_model(
                old(diagnostics)@,
            ) + found.diagnostics,
            Err(e) => collect_items(nodes@, from as int, nodes@.len() as int, *ctx) == Err::<
                QuoteItems,
                DiagnosticModel,
            >(e@),
        },
    decreases nodes, 1nat,
{
    let n: usize = nodes.len();
    let mut i: usize = from;
    assert(quote_items_model(items@) + Seq::<QuoteItemModel>::empty() =~= quote_items_model(
        items@,
    ));
    assert(diagnostics_model(diagnostics@) + Seq::<DiagnosticModel>::empty() =~= diagnostics_model(
        diagnostics@,
    ));
    while i < n
        invariant
            n == nodes.len(),
            from <= i <= n,
            collect_items(nodes@, from as int, i as int, *ctx) matches Ok(found)
                && quote_items_model(items@) == quote_items_model(old(items)@) + found.items
                && diagnostics_model(diagnostics@) == diagnostics_model(old(diagnostics)@)
                + found.diagnostics,
        decreases n - i,
    {
        let ghost before = collect_items(nodes@, from as int, i as int, *ctx)->Ok_0;
        match gather_item(&nodes[i], ctx, items, diagnostics) {
            Err(e) => {
                proof {
                    lemma_collect_fault(nodes@, from as int, i + 1, n as int, *ctx);
                }
                return Err(e);
            },
            Ok(_) => {
                proof {
                    let found = collect_item(nodes@[i as int], *ctx)->Ok_0;
                    assert((quote_items_model(old(items)@) + before.items) + found.items
                        =~= quote_items_model(old(items)@) + (before.items + found.items));
                    assert((diagnostics_model(old(diagnostics)@) + before.diagnostics)
                        + found.diagnostics =~= diagnostics_model(old(diagnostics)@) + (
                    before.diagnostics + found.diagnostics));
                }
            },
        }
        i += 1;
    }
    Ok(())
}

/// Lowers a quote node into the nested quote that its items stand for.
pub fn parse(node: &SyntaxNode, ctx: &Context) -> (r: Result<Section, Diagnostic>)
    ensures
        lowered_section(r) == lower_quote(*node, *ctx),
{
    if node.children.len() == 0 {
        return Err(note_of(node));
    }
    let mut items: Vec<QuoteItem> = Vec::new();
    let mut diagnostics: Vec<Diagnostic> = Vec::new();
    match gather_items(&node.children, 0, ctx, &mut items, &mut diagnostics) {
        Err(e) => Err(e),
        Ok(_) => {
            proof {
                lemma_collect_valid(node.children@, 0, node.children@.len() as int, *ctx);
                let found = collect_items(node.children@, 0, node.children@.len() as int, *ctx)->Ok_0;
                assert(Seq::<QuoteItemModel>::empty() + found.items =~= found.items);
                assert(Seq::<DiagnosticModel>::empty() + found.diagnostics =~= found.diagnostics);
                assert(quote_items_model(Seq::<QuoteItem>::empty()) =~= Seq::<
                    QuoteItemModel,
                >::empty());
                assert(diagnostics_model(Seq::<Diagnostic>::empty()) =~= Seq::<
                    DiagnosticModel,
                >::empty());
            }
            match normalize(&items) {
                Some(quote) => Ok(Section::single(quote, diagnostics)),
                None => Err(note_of(node)),
            }
        },
    }
}

} // verus!
