//! The pass over a whole document that resolves links and anchors.
//!
//! The pass first reads the document from its start to its end and collects
//! three tables, each keyed by plain text: the identifiers of spans, the
//! identifiers of headings and the destinations of anchor definitions. It
//! then gives every link its final destination and clears its classifier.

use vstd::prelude::*;
use crate::inline::{render, to_string};
use crate::model::{
    Block, block_present, BlockModel, blocks_model, blocks_present, Classifier, Inline, InlineModel,
    inlines_model, items_model, LinkTarget, TargetModel,
};

verus! {

/// The three tables of the pass. Where a plain text is entered twice, the
/// later entry stands.
pub ghost struct Tables {
    /// From the plain text of a span with an identifier to that identifier.
    pub spans: Map<Seq<char>, Seq<char>>,
    /// From the plain text of a heading to its identifier.
    pub headings: Map<Seq<char>, Seq<char>>,
    /// From the plain text of an anchor definition's description to its destination.
    pub anchors: Map<Seq<char>, Seq<char>>,
}

/// The tables before anything is entered.
pub open spec fn no_tables() -> Tables {
    Tables { spans: Map::empty(), headings: Map::empty(), anchors: Map::empty() }
}

/// The tables after one inline, and what it holds, has been read.
pub open spec fn scan_inline(x: InlineModel, t: Tables) -> Tables
    decreases x,
{
    match x {
        InlineModel::Styled(_, v) => scan_inlines(v, v.len() as int, t),
        InlineModel::Span(id, _, v) => scan_inlines(
            v,
            v.len() as int,
            if id.len() > 0 {
                Tables { spans: t.spans.insert(render(v), id), ..t }
            } else {
                t
            },
        ),
        InlineModel::Link(_, v, target) => scan_inlines(
            v,
            v.len() as int,
            if target.classifier is Anchor && target.destination.len() > 0 {
                Tables { anchors: t.anchors.insert(render(v), target.destination), ..t }
            } else {
                t
            },
        ),
        _ => t,
    }
}

/// The tables after the first `upto` inlines of `v` have been read.
pub open spec fn scan_inlines(v: Seq<InlineModel>, upto: int, t: Tables) -> Tables
    decreases v, upto,
{
    if upto <= 0 || upto > v.len() {
        t
    } else {
        scan_inline(v[upto - 1], scan_inlines(v, upto - 1, t))
    }
}

/// The tables after one block, and what it holds, has been read.
pub open spec fn scan_block(b: BlockModel, t: Tables) -> Tables
    decreases b,
{
    match b {
        BlockModel::Paragraph(v) => scan_inlines(v, v.len() as int, t),
        BlockModel::Plain(v) => scan_inlines(v, v.len() as int, t),
        BlockModel::Heading(_, id, v) => scan_inlines(
            v,
            v.len() as int,
            Tables { headings: t.headings.insert(render(v), id), ..t },
        ),
        BlockModel::List(_, items) => scan_items(items, items.len() as int, t),
        BlockModel::BlockQuote(v) => scan_blocks(v, v.len() as int, t),
        BlockModel::Div(_, v) => scan_blocks(v, v.len() as int, t),
        _ => t,
    }
}

/// The tables after the first `upto` blocks of `v` have been read.
pub open spec fn scan_blocks(v: Seq<BlockModel>, upto: int, t: Tables) -> Tables
    decreases v, upto,
{
    if upto <= 0 || upto > v.len() {
        t
    } else {
        scan_block(v[upto - 1], scan_blocks(v, upto - 1, t))
    }
}

/// The tables after the first `upto` items of a list have been read.
pub open spec fn scan_items(items: Seq<Seq<BlockModel>>, upto: int, t: Tables) -> Tables
    decreases items, upto,
{
    if upto <= 0 || upto > items.len() {
        t
    } else {
        scan_blocks(
            items[upto - 1],
            items[upto - 1].len() as int,
            scan_items(items, upto - 1, t),
        )
    }
}

/// What a document can be found by: for each of its spans with an
/// identifier, its plain text and that identifier; for each of its headings,
/// its plain text and its identifier; for each of its anchor definitions,
/// the plain text of its description and its destination.
#[verifier::ext_equal]
pub ghost struct Entries {
    pub spans: Set<(Seq<char>, Seq<char>)>,
    pub headings: Set<(Seq<char>, Seq<char>)>,
    pub anchors: Set<(Seq<char>, Seq<char>)>,
}

/// The entries of two parts of a document together.
pub open spec fn both(a: Entries, b: Entries) -> Entries {
    Entries {
        spans: a.spans.union(b.spans),
        headings: a.headings.union(b.headings),
        anchors: a.anchors.union(b.anchors),
    }
}

/// No entries.
pub open spec fn no_entries() -> Entries {
    Entries { spans: Set::empty(), headings: Set::empty(), anchors: Set::empty() }
}

/// The entries of an inline and of what it holds.
pub open spec fn inline_entries(x: InlineModel) -> Entries
    decreases x,
{
    match x {
        InlineModel::Styled(_, v) => inlines_entries(v, v.len() as int),
        InlineModel::Span(id, _, v) => both(
            if id.len() > 0 {
                Entries { spans: set![(render(v), id)], ..no_entries() }
            } else {
                no_entries()
            },
            inlines_entries(v, v.len() as int),
        ),
        InlineModel::Link(_, v, target) => both(
            if target.classifier is Anchor && target.destination.len() > 0 {
                Entries { anchors: set![(render(v), target.destination)], ..no_entries() }
            } else {
                no_entries()
            },
            inlines_entries(v, v.len() as int),
        ),
        _ => no_entries(),
    }
}

/// The entries of the first `upto` inlines of `v`.
pub open spec fn inlines_entries(v: Seq<InlineModel>, upto: int) -> Entries
    decreases v, upto,
{
    if upto <= 0 || upto > v.len() {
        no_entries()
    } else {
        both(inlines_entries(v, upto - 1), inline_entries(v[upto - 1]))
    }
}

/// The entries of a block and of what it holds.
pub open spec fn block_entries(b: BlockModel) -> Entries
    decreases b,
{
    match b {
        BlockModel::Paragraph(v) => inlines_entries(v, v.len() as int),
        BlockModel::Plain(v) => inlines_entries(v, v.len() as int),
        BlockModel::Heading(_, id, v) => both(
            Entries { headings: set![(render(v), id)], ..no_entries() },
            inlines_entries(v, v.len() as int),
        ),
        BlockModel::List(_, items) => items_entries(items, items.len() as int),
        BlockModel::BlockQuote(v) => blocks_entries(v, v.len() as int),
        BlockModel::Div(_, v) => blocks_entries(v, v.len() as int),
        _ => no_entries(),
    }
}

/// The entries of the first `upto` blocks of `v`.
pub open spec fn blocks_entries(v: Seq<BlockModel>, upto: int) -> Entries
    decreases v, upto,
{
    if upto <= 0 || upto > v.len() {
        no_entries()
    } else {
        both(blocks_entries(v, upto - 1), block_entries(v[upto - 1]))
    }
}

/// The entries of the first `upto` items of a list.
pub open spec fn items_entries(items: Seq<Seq<BlockModel>>, upto: int) -> Entries
    decreases items, upto,
{
    if upto <= 0 || upto > items.len() {
        no_entries()
    } else {
        both(
            items_entries(items, upto - 1),
            blocks_entries(items[upto - 1], items[upto - 1].len() as int),
        )
    }
}

/// The entries of a whole document.
pub open spec fn document_entries(blocks: Seq<BlockModel>) -> Entries {
    blocks_entries(blocks, blocks.len() as int)
}

/// The tables of a whole document.
pub open spec fn document_tables(blocks: Seq<BlockModel>) -> Tables {
    scan_blocks(blocks, blocks.len() as int, no_tables())
}

/// The table `after` came from the table `before` by entering `entries`:
/// it keeps the keys of `before`, has a key for every entry, and holds for
/// each key what `before` held or what one of the entries says.
pub open spec fn table_from(
    after: Map<Seq<char>, Seq<char>>,
    before: Map<Seq<char>, Seq<char>>,
    entries: Set<(Seq<char>, Seq<char>)>,
) -> bool {
    &&& forall|k: Seq<char>| #[trigger] before.dom().contains(k) ==> after.dom().contains(k)
    &&& forall|k: Seq<char>, v: Seq<char>| #[trigger]
        entries.contains((k, v)) ==> after.dom().contains(k)
    &&& forall|k: Seq<char>| #[trigger]
        after.dom().contains(k) ==> (before.dom().contains(k) && before[k] == after[k])
            || entries.contains((k, after[k]))
}

/// The tables `after` came from the tables `before` by entering `entries`.
pub open spec fn tables_from(after: Tables, before: Tables, entries: Entries) -> bool {
    &&& table_from(after.spans, before.spans, entries.spans)
    &&& table_from(after.headings, before.headings, entries.headings)
    &&& table_from(after.anchors, before.anchors, entries.anchors)
}

proof fn lemma_tables_from_twice(
    after: Tables,
    between: Tables,
    before: Tables,
    first: Entries,
    second: Entries,
)
    requires
        tables_from(between, before, first),
        tables_from(after, between, second),
    ensures
        tables_from(after, before, both(first, second)),
{
}

proof fn lemma_scan_inline_entries(x: InlineModel, t: Tables)
    ensures
        tables_from(scan_inline(x, t), t, inline_entries(x)),
    decreases x,
{
    match x {
        InlineModel::Styled(_, v) => {
            lemma_scan_inlines_entries(v, v.len() as int, t);
        },
        InlineModel::Span(id, _, v) => {
            let own = if id.len() > 0 {
                Entries { spans: set![(render(v), id)], ..no_entries() }
            } else {
                no_entries()
            };
            let entered = if id.len() > 0 {
                Tables { spans: t.spans.insert(render(v), id), ..t }
            } else {
                t
            };
            assert(tables_from(entered, t, own));
            lemma_scan_inlines_entries(v, v.len() as int, entered);
            lemma_tables_from_twice(
                scan_inline(x, t),
                entered,
                t,
                own,
                inlines_entries(v, v.len() as int),
            );
        },
        InlineModel::Link(_, v, target) => {
            let defines = target.classifier is Anchor && target.destination.len() > 0;
            let own = if defines {
                Entries { anchors: set![(render(v), target.destination)], ..no_entries() }
            } else {
                no_entries()
            };
            let entered = if defines {
                Tables { anchors: t.anchors.insert(render(v), target.destination), ..t }
            } else {
                t
            };
            assert(tables_from(entered, t, own));
            lemma_scan_inlines_entries(v, v.len() as int, entered);
            lemma_tables_from_twice(
                scan_inline(x, t),
                entered,
                t,
                own,
                inlines_entries(v, v.len() as int),
            );
        },
        _ => {},
    }
}

proof fn lemma_scan_inlines_entries(v: Seq<InlineModel>, upto: int, t: Tables)
    ensures
        tables_from(scan_inlines(v, upto, t), t, inlines_entries(v, upto)),
    decreases v, upto,
{
    if !(upto <= 0 || upto > v.len()) {
        let between = scan_inlines(v, upto - 1, t);
        lemma_scan_inlines_entries(v, upto - 1, t);
        lemma_scan_inline_entries(v[upto - 1], between);
        lemma_tables_from_twice(
            scan_inlines(v, upto, t),
            between,
            t,
            inlines_entries(v, upto - 1),
            inline_entries(v[upto - 1]),
        );
    }
}

proof fn lemma_scan_block_entries(b: BlockModel, t: Tables)
    ensures
        tables_from(scan_block(b, t), t, block_entries(b)),
    decreases b,
{
    match b {
        BlockModel::Paragraph(v) => lemma_scan_inlines_entries(v, v.len() as int, t),
        BlockModel::Plain(v) => lemma_scan_inlines_entries(v, v.len() as int, t),
        BlockModel::Heading(_, id, v) => {
            let own = Entries { headings: set![(render(v), id)], ..no_entries() };
            let entered = Tables { headings: t.headings.insert(render(v), id), ..t };
            assert(tables_from(entered, t, own));
            lemma_scan_inlines_entries(v, v.len() as int, entered);
            lemma_tables_from_twice(
                scan_block(b, t),
                entered,
                t,
                own,
                inlines_entries(v, v.len() as int),
            );
        },
        BlockModel::List(_, items) => lemma_scan_items_entries(items, items.len() as int, t),
        BlockModel::BlockQuote(v) => lemma_scan_blocks_entries(v, v.len() as int, t),
        BlockModel::Div(_, v) => lemma_scan_blocks_entries(v, v.len() as int, t),
        _ => {},
    }
}

proof fn lemma_scan_blocks_entries(v: Seq<BlockModel>, upto: int, t: Tables)
    ensures
        tables_from(scan_blocks(v, upto, t), t, blocks_entries(v, upto)),
    decreases v, upto,
{
    if !(upto <= 0 || upto > v.len()) {
        let between = scan_blocks(v, upto - 1, t);
        lemma_scan_blocks_entries(v, upto - 1, t);
        lemma_scan_block_entries(v[upto - 1], between);
        lemma_tables_from_twice(
            scan_blocks(v, upto, t),
            between,
            t,
            blocks_entries(v, upto - 1),
            block_entries(v[upto - 1]),
        );
    }
}

proof fn lemma_scan_items_entries(items: Seq<Seq<BlockModel>>, upto: int, t: Tables)
    ensures
        tables_from(scan_items(items, upto, t), t, items_entries(items, upto)),
    decreases items, upto,
{
    if !(upto <= 0 || upto > items.len()) {
        let between = scan_items(items, upto - 1, t);
        lemma_scan_items_entries(items, upto - 1, t);
        lemma_scan_blocks_entries(items[upto - 1], items[upto - 1].len() as int, between);
        lemma_tables_from_twice(
            scan_items(items, upto, t),
            between,
            t,
            items_entries(items, upto - 1),
            blocks_entries(items[upto - 1], items[upto - 1].len() as int),
        );
    }
}

/// The tables of a document hold what the document can be found by, and
/// nothing else: each table has a key for every entry of the document, and
/// under every key it holds what one of the entries with that key says.
pub proof fn law_tables_hold_the_entries(blocks: Seq<BlockModel>)
    ensures
        tables_from(document_tables(blocks), no_tables(), document_entries(blocks)),
{
    lemma_scan_blocks_entries(blocks, blocks.len() as int, no_tables());
}

/// A bare word whose text is that of a span of the document leads to that
/// span, wherever in the document the span stands, as long as every span of
/// that text has the same identifier.
pub proof fn law_magic_finds_the_span(
    blocks: Seq<BlockModel>,
    target: TargetModel,
    key: Seq<char>,
    id: Seq<char>,
)
    requires
        target.classifier is Magic,
        document_entries(blocks).spans.contains((key, id)),
        forall|other: Seq<char>| #[trigger]
            document_entries(blocks).spans.contains((key, other)) ==> other == id,
    ensures
        resolve_target(target, key, document_tables(blocks)) == (TargetModel {
            destination: "#"@ + id,
            classifier: Classifier::Resolved,
        }),
{
    law_tables_hold_the_entries(blocks);
}

/// An anchor without a destination leads where the definition of its text
/// leads, wherever in the document the definition stands, as long as every
/// definition of that text has the same destination.
pub proof fn law_anchor_finds_the_definition(
    blocks: Seq<BlockModel>,
    target: TargetModel,
    key: Seq<char>,
    destination: Seq<char>,
)
    requires
        target.classifier is Anchor,
        target.destination.len() == 0,
        document_entries(blocks).anchors.contains((key, destination)),
        forall|other: Seq<char>| #[trigger]
            document_entries(blocks).anchors.contains((key, other)) ==> other == destination,
    ensures
        resolve_target(target, key, document_tables(blocks)) == (TargetModel {
            destination,
            classifier: Classifier::Resolved,
        }),
{
    law_tables_hold_the_entries(blocks);
}

/// In a document that has no span and no heading of some text, a bare word
/// of that text leads to `#`.
pub proof fn law_unmatched_magic_leads_nowhere(
    blocks: Seq<BlockModel>,
    target: TargetModel,
    key: Seq<char>,
)
    requires
        target.classifier is Magic,
        forall|id: Seq<char>| !#[trigger] document_entries(blocks).spans.contains((key, id)),
        forall|id: Seq<char>| !#[trigger] document_entries(blocks).headings.contains((key, id)),
    ensures
        resolve_target(target, key, document_tables(blocks)) == (TargetModel {
            destination: "#"@,
            classifier: Classifier::Resolved,
        }),
{
    law_tables_hold_the_entries(blocks);
}

/// The destination that a reference by plain text leads to: `#` and the
/// identifier that the table has for the text, or `#` alone.
pub open spec fn fragment_of(table: Map<Seq<char>, Seq<char>>, key: Seq<char>) -> Seq<char> {
    if table.dom().contains(key) {
        "#"@ + table[key]
    } else {
        "#"@
    }
}

/// The final target of a link whose description has the plain text `key`.
///
/// A bare word leads to the span of that text, else to the heading of that
/// text. A wiki reference leads to the heading of that text. An anchor
/// without a destination leads where the definition of that text leads. Each
/// of them leads to `#` where nothing is found. An anchor definition keeps
/// its destination. Whatever it was, the target is resolved afterwards.
pub open spec fn resolve_target(target: TargetModel, key: Seq<char>, t: Tables) -> TargetModel {
    TargetModel {
        destination: match target.classifier {
            Classifier::Resolved => target.destination,
            Classifier::Magic => if t.spans.dom().contains(key) {
                fragment_of(t.spans, key)
            } else {
                fragment_of(t.headings, key)
            },
            Classifier::Wiki => fragment_of(t.headings, key),
            Classifier::Anchor => if target.destination.len() > 0 {
                target.destination
            } else if t.anchors.dom().contains(key) {
                t.anchors[key]
            } else {
                "#"@
            },
        },
        classifier: Classifier::Resolved,
    }
}

/// An inline with every link in it resolved against the tables.
pub open spec fn resolve_inline(x: InlineModel, t: Tables) -> InlineModel
    decreases x,
{
    match x {
        InlineModel::Styled(style, v) => InlineModel::Styled(style, resolve_inlines(v, t)),
        InlineModel::Span(id, classes, v) => InlineModel::Span(id, classes, resolve_inlines(v, t)),
        InlineModel::Link(classes, v, target) => InlineModel::Link(
            classes,
            resolve_inlines(v, t),
            resolve_target(target, render(v), t),
        ),
        _ => x,
    }
}

/// A run of inlines with every link in it resolved against the tables.
pub open spec fn resolve_inlines(v: Seq<InlineModel>, t: Tables) -> Seq<InlineModel>
    decreases v,
{
    Seq::new(
        v.len(),
        |i: int|
            if 0 <= i < v.len() {
                resolve_inline(v[i], t)
            } else {
                InlineModel::Space
            },
    )
}

/// A block with every link in it resolved against the tables.
pub open spec fn resolve_block(b: BlockModel, t: Tables) -> BlockModel
    decreases b,
{
    match b {
        BlockModel::Paragraph(v) => BlockModel::Paragraph(resolve_inlines(v, t)),
        BlockModel::Plain(v) => BlockModel::Plain(resolve_inlines(v, t)),
        BlockModel::Heading(level, id, v) => BlockModel::Heading(level, id, resolve_inlines(v, t)),
        BlockModel::List(kind, items) => BlockModel::List(kind, resolve_items(items, t)),
        BlockModel::BlockQuote(v) => BlockModel::BlockQuote(resolve_blocks(v, t)),
        BlockModel::Div(classes, v) => BlockModel::Div(classes, resolve_blocks(v, t)),
        _ => b,
    }
}

/// A sequence of blocks with every link in it resolved against the tables.
pub open spec fn resolve_blocks(v: Seq<BlockModel>, t: Tables) -> Seq<BlockModel>
    decreases v,
{
    Seq::new(
        v.len(),
        |i: int|
            if 0 <= i < v.len() {
                resolve_block(v[i], t)
            } else {
                BlockModel::Null
            },
    )
}

/// The items of a list with every link in them resolved against the tables.
pub open spec fn resolve_items(items: Seq<Seq<BlockModel>>, t: Tables) -> Seq<Seq<BlockModel>>
    decreases items,
{
    Seq::new(
        items.len(),
        |i: int|
            if 0 <= i < items.len() {
                resolve_blocks(items[i], t)
            } else {
                Seq::empty()
            },
    )
}

/// The document after the pass: every link resolved against the tables that
/// the whole document gives.
pub open spec fn resolved(blocks: Seq<BlockModel>) -> Seq<BlockModel> {
    resolve_blocks(blocks, document_tables(blocks))
}

/// No link in the inline is left to resolve.
pub open spec fn inline_settled(x: InlineModel) -> bool
    decreases x,
{
    match x {
        InlineModel::Styled(_, v) => inlines_settled(v),
        InlineModel::Span(_, _, v) => inlines_settled(v),
        InlineModel::Link(_, v, target) => target.classifier is Resolved && inlines_settled(v),
        _ => true,
    }
}

/// No link in the inlines is left to resolve.
pub open spec fn inlines_settled(v: Seq<InlineModel>) -> bool
    decreases v,
{
    forall|i: int| 0 <= i < v.len() ==> inline_settled(#[trigger] v[i])
}

/// No link in the block is left to resolve.
pub open spec fn block_settled(b: BlockModel) -> bool
    decreases b,
{
    match b {
        BlockModel::Paragraph(v) => inlines_settled(v),
        BlockModel::Plain(v) => inlines_settled(v),
        BlockModel::Heading(_, _, v) => inlines_settled(v),
        BlockModel::List(_, items) => forall|i: int|
            0 <= i < items.len() ==> blocks_settled(#[trigger] items[i]),
        BlockModel::BlockQuote(v) => blocks_settled(v),
        BlockModel::Div(_, v) => blocks_settled(v),
        _ => true,
    }
}

/// No link in the blocks is left to resolve.
pub open spec fn blocks_settled(v: Seq<BlockModel>) -> bool
    decreases v,
{
    forall|i: int| 0 <= i < v.len() ==> block_settled(#[trigger] v[i])
}

proof fn lemma_inline_settles(x: InlineModel, t: Tables)
    ensures
        inline_settled(resolve_inline(x, t)),
    decreases x,
{
    match x {
        InlineModel::Styled(_, v) => lemma_inlines_settle(v, t),
        InlineModel::Span(_, _, v) => lemma_inlines_settle(v, t),
        InlineModel::Link(_, v, _) => lemma_inlines_settle(v, t),
        _ => {},
    }
}

proof fn lemma_inlines_settle(v: Seq<InlineModel>, t: Tables)
    ensures
        inlines_settled(resolve_inlines(v, t)),
    decreases v,
{
    assert forall|i: int| 0 <= i < v.len() implies inline_settled(
        #[trigger] resolve_inlines(v, t)[i],
    ) by {
        lemma_inline_settles(v[i], t);
    }
}

proof fn lemma_block_settles(b: BlockModel, t: Tables)
    ensures
        block_settled(resolve_block(b, t)),
    decreases b,
{
    match b {
        BlockModel::Paragraph(v) => lemma_inlines_settle(v, t),
        BlockModel::Plain(v) => lemma_inlines_settle(v, t),
        BlockModel::Heading(_, _, v) => lemma_inlines_settle(v, t),
        BlockModel::List(kind, items) => {
            let after = resolve_items(items, t);
            assert forall|i: int| 0 <= i < after.len() implies blocks_settled(#[trigger] after[i]) by {
                lemma_blocks_settle(items[i], t);
                assert(after[i] == resolve_blocks(items[i], t));
            }
            assert(resolve_block(b, t) == BlockModel::List(kind, after));
        },
        BlockModel::BlockQuote(v) => lemma_blocks_settle(v, t),
        BlockModel::Div(_, v) => lemma_blocks_settle(v, t),
        _ => {},
    }
}

proof fn lemma_blocks_settle(v: Seq<BlockModel>, t: Tables)
    ensures
        blocks_settled(resolve_blocks(v, t)),
    decreases v,
{
    assert forall|i: int| 0 <= i < v.len() implies block_settled(
        #[trigger] resolve_blocks(v, t)[i],
    ) by {
        lemma_block_settles(v[i], t);
    }
}

proof fn lemma_settled_inline_stays(x: InlineModel, t: Tables)
    requires
        inline_settled(x),
    ensures
        resolve_inline(x, t) == x,
    decreases x,
{
    match x {
        InlineModel::Styled(_, v) => lemma_settled_inlines_stay(v, t),
        InlineModel::Span(_, _, v) => lemma_settled_inlines_stay(v, t),
        InlineModel::Link(_, v, _) => lemma_settled_inlines_stay(v, t),
        _ => {},
    }
}

proof fn lemma_settled_inlines_stay(v: Seq<InlineModel>, t: Tables)
    requires
        inlines_settled(v),
    ensures
        resolve_inlines(v, t) == v,
    decreases v,
{
    assert forall|i: int| 0 <= i < v.len() implies resolve_inlines(v, t)[i] == v[i] by {
        lemma_settled_inline_stays(v[i], t);
    }
    assert(resolve_inlines(v, t) =~= v);
}

proof fn lemma_settled_block_stays(b: BlockModel, t: Tables)
    requires
        block_settled(b),
    ensures
        resolve_block(b, t) == b,
    decreases b,
{
    match b {
        BlockModel::Paragraph(v) => lemma_settled_inlines_stay(v, t),
        BlockModel::Plain(v) => lemma_settled_inlines_stay(v, t),
        BlockModel::Heading(_, _, v) => lemma_settled_inlines_stay(v, t),
        BlockModel::List(_, items) => {
            assert forall|i: int| 0 <= i < items.len() implies resolve_items(items, t)[i]
                == items[i] by {
                lemma_settled_blocks_stay(items[i], t);
            }
            assert(resolve_items(items, t) =~= items);
        },
        BlockModel::BlockQuote(v) => lemma_settled_blocks_stay(v, t),
        BlockModel::Div(_, v) => lemma_settled_blocks_stay(v, t),
        _ => {},
    }
}

proof fn lemma_settled_blocks_stay(v: Seq<BlockModel>, t: Tables)
    requires
        blocks_settled(v),
    ensures
        resolve_blocks(v, t) == v,
    decreases v,
{
    assert forall|i: int| 0 <= i < v.len() implies resolve_blocks(v, t)[i] == v[i] by {
        lemma_settled_block_stays(v[i], t);
    }
    assert(resolve_blocks(v, t) =~= v);
}

proof fn lemma_block_stays_present(b: BlockModel, t: Tables)
    requires
        block_present(b),
    ensures
        block_present(resolve_block(b, t)),
    decreases b,
{
    match b {
        BlockModel::List(kind, items) => {
            let after = resolve_items(items, t);
            assert forall|i: int| 0 <= i < after.len() implies blocks_present(#[trigger] after[i]) by {
                assert(blocks_present(items[i]));
                lemma_blocks_stay_present(items[i], t);
            }
            assert(resolve_block(b, t) == BlockModel::List(kind, after));
        },
        BlockModel::BlockQuote(v) => lemma_blocks_stay_present(v, t),
        BlockModel::Div(_, v) => lemma_blocks_stay_present(v, t),
        _ => {},
    }
}

proof fn lemma_blocks_stay_present(v: Seq<BlockModel>, t: Tables)
    requires
        blocks_present(v),
    ensures
        blocks_present(resolve_blocks(v, t)),
    decreases v,
{
    assert forall|i: int| 0 <= i < v.len() implies block_present(
        #[trigger] resolve_blocks(v, t)[i],
    ) by {
        assert(block_present(v[i]));
        lemma_block_stays_present(v[i], t);
    }
}

/// The pass puts no block that stands for nothing into a document that has none.
pub proof fn law_resolution_keeps_blocks(blocks: Seq<BlockModel>)
    requires
        blocks_present(blocks),
    ensures
        blocks_present(resolved(blocks)),
{
    lemma_blocks_stay_present(blocks, scan_blocks(blocks, blocks.len() as int, no_tables()));
}

/// After the pass no link of the document is left to resolve: every
/// classifier is cleared.
pub proof fn law_resolution_settles(blocks: Seq<BlockModel>)
    ensures
        blocks_settled(resolved(blocks)),
{
    lemma_blocks_settle(blocks, scan_blocks(blocks, blocks.len() as int, no_tables()));
}

/// A document in which no link is left to resolve is not changed by the pass.
pub proof fn law_settled_is_fixed(blocks: Seq<BlockModel>)
    requires
        blocks_settled(blocks),
    ensures
        resolved(blocks) == blocks,
{
    lemma_settled_blocks_stay(blocks, scan_blocks(blocks, blocks.len() as int, no_tables()));
}

/// Running the pass a second time changes nothing.
pub proof fn law_resolution_is_idempotent(blocks: Seq<BlockModel>)
    ensures
        resolved(resolved(blocks)) == resolved(blocks),
{
    law_resolution_settles(blocks);
    law_settled_is_fixed(resolved(blocks));
}

/// The table that a list of entries stands for: each entry overwrites what
/// was entered for its key before.
pub open spec fn table_of(entries: Seq<(String, String)>) -> Map<Seq<char>, Seq<char>>
    decreases entries.len(),
{
    if entries.len() == 0 {
        Map::empty()
    } else {
        table_of(entries.drop_last()).insert(entries.last().0@, entries.last().1@)
    }
}

/// The tables of the pass, as lists of entries in the order in which they were made.
pub struct Index {
    pub spans: Vec<(String, String)>,
    pub headings: Vec<(String, String)>,
    pub anchors: Vec<(String, String)>,
}

impl View for Index {
    type V = Tables;

    open spec fn view(&self) -> Tables {
        Tables {
            spans: table_of(self.spans@),
            headings: table_of(self.headings@),
            anchors: table_of(self.anchors@),
        }
    }
}

/// Enters `value` for `key`.
fn enter(entries: &mut Vec<(String, String)>, key: String, value: String)
    ensures
        table_of(final(entries)@) == table_of(old(entries)@).insert(key@, value@),
{
    entries.push((key, value));
    assert(entries@.drop_last() =~= old(entries)@);
}

proof fn lemma_table_tail(entries: Seq<(String, String)>, i: int, key: Seq<char>)
    requires
        0 <= i <= entries.len(),
        forall|j: int| i <= j < entries.len() ==> (#[trigger] entries[j]).0@ != key,
    ensures
        table_of(entries).dom().contains(key) == table_of(entries.take(i)).dom().contains(key),
        table_of(entries).dom().contains(key) ==> table_of(entries)[key] == table_of(
            entries.take(i),
        )[key],
    decreases entries.len() - i,
{
    if i == entries.len() {
        assert(entries.take(i) =~= entries);
    } else {
        let shorter = entries.drop_last();
        assert forall|j: int| i <= j < shorter.len() implies (#[trigger] shorter[j]).0@ != key by {
            assert(shorter[j] == entries[j]);
        }
        lemma_table_tail(shorter, i, key);
        assert(shorter.take(i) =~= entries.take(i));
        assert(entries.last().0@ != key);
    }
}

/// Looks up what was last entered for `key`.
pub fn find<'a>(entries: &'a Vec<(String, String)>, key: &String) -> (r: Option<&'a String>)
    ensures
        match r {
            Some(value) => table_of(entries@).dom().contains(key@) && table_of(entries@)[key@]
                == value@,
            None => !table_of(entries@).dom().contains(key@),
        },
{
    let mut i: usize = entries.len();
    while i > 0
        invariant
            i <= entries.len(),
            forall|j: int| i <= j < entries.len() ==> (#[trigger] entries@[j]).0@ != key@,
        decreases i,
    {
        if entries[i - 1].0 == *key {
            proof {
                lemma_table_tail(entries@, i as int, key@);
                assert(entries@.take(i as int).drop_last() =~= entries@.take(i - 1));
            }
            return Some(&entries[i - 1].1);
        }
        i -= 1;
    }
    proof {
        lemma_table_tail(entries@, 0, key@);
    }
    None
}

/// Reads a run of inlines into the tables.
fn collect_inlines(inlines: &Vec<Inline>, index: &mut Index)
    ensures
        final(index)@ == scan_inlines(
            inlines_model(inlines@),
            inlines@.len() as int,
            old(index)@,
        ),
    decreases inlines,
{
    let mut i: usize = 0;
    while i < inlines.len()
        invariant
            i <= inlines.len(),
            index@ == scan_inlines(inlines_model(inlines@), i as int, old(index)@),
        decreases inlines.len() - i,
    {
        let ghost m = inlines_model(inlines@);
        assert(m[i as int] == inlines@[i as int]@);
        assert(scan_inlines(m, i + 1, old(index)@) == scan_inline(
            m[i as int],
            scan_inlines(m, i as int, old(index)@),
        ));
        match &inlines[i] {
            Inline::Styled(_, v) => collect_inlines(v, index),
            Inline::Span(id, _, v) => {
                if id.as_str().unicode_len() > 0 {
                    enter(&mut index.spans, to_string(v), id.clone());
                }
                collect_inlines(v, index);
            },
            Inline::Link(_, v, target) => {
                let is_definition = match target.classifier {
                    Classifier::Anchor => target.destination.as_str().unicode_len() > 0,
                    _ => false,
                };
                if is_definition {
                    enter(&mut index.anchors, to_string(v), target.destination.clone());
                }
                collect_inlines(v, index);
            },
            _ => {},
        }
        i += 1;
    }
}

/// Reads a sequence of blocks into the tables.
#[verifier::loop_isolation(false)]
fn collect_blocks(blocks: &Vec<Block>, index: &mut Index)
    ensures
        final(index)@ == scan_blocks(blocks_model(blocks@), blocks@.len() as int, old(index)@),
    decreases blocks,
{
    let mut i: usize = 0;
    while i < blocks.len()
        invariant
            i <= blocks.len(),
            index@ == scan_blocks(blocks_model(blocks@), i as int, old(index)@),
        decreases blocks.len() - i,
    {
        let ghost m = blocks_model(blocks@);
        assert(m[i as int] == blocks@[i as int]@);
        assert(scan_blocks(m, i + 1, old(index)@) == scan_block(
            m[i as int],
            scan_blocks(m, i as int, old(index)@),
        ));
        match &blocks[i] {
            Block::Paragraph(v) => collect_inlines(v, index),
            Block::Plain(v) => collect_inlines(v, index),
            Block::Heading(_, id, v) => {
                enter(&mut index.headings, to_string(v), id.clone());
                collect_inlines(v, index);
            },
            Block::List(_, items) => {
                let ghost before = index@;
                let mut k: usize = 0;
                while k < items.len()
                    invariant
                        k <= items.len(),
                        index@ == scan_items(items_model(items@), k as int, before),
                    decreases items.len() - k,
                {
                    assert(items_model(items@)[k as int] == blocks_model(items@[k as int]@));
                    collect_blocks(&items[k], index);
                    k += 1;
                }
            },
            Block::BlockQuote(v) => collect_blocks(v, index),
            Block::Div(_, v) => collect_blocks(v, index),
            _ => {},
        }
        i += 1;
    }
}

/// Gives a target its final destination and clears its classifier.
fn settle_target(target: &mut LinkTarget, key: &String, index: &Index)
    ensures
        final(target)@ == resolve_target(old(target)@, key@, index@),
{
    match target.classifier {
        Classifier::Resolved => {},
        Classifier::Magic => {
            let mut destination = String::from_str("#");
            match find(&index.spans, key) {
                Some(id) => destination.append(id.as_str()),
                None => match find(&index.headings, key) {
                    Some(id) => destination.append(id.as_str()),
                    None => {
                        assert(destination@ + Seq::<char>::empty() =~= destination@);
                    },
                },
            }
            target.destination = destination;
        },
        Classifier::Wiki => {
            let mut destination = String::from_str("#");
            match find(&index.headings, key) {
                Some(id) => destination.append(id.as_str()),
                None => {},
            }
            target.destination = destination;
        },
        Classifier::Anchor => {
            if target.destination.as_str().unicode_len() == 0 {
                match find(&index.anchors, key) {
                    Some(destination) => {
                        target.destination = destination.clone();
                    },
                    None => {
                        target.destination = String::from_str("#");
                    },
                }
            }
        },
    }
    target.classifier = Classifier::Resolved;
}

/// Resolves every link in an inline.
fn settle_inline(x: &mut Inline, index: &Index)
    ensures
        final(x)@ == resolve_inline(old(x)@, index@),
    decreases *old(x),
{
    match x {
        Inline::Styled(_, v) => settle_inlines(v, index),
        Inline::Span(_, _, v) => settle_inlines(v, index),
        Inline::Link(_, v, target) => {
            let key = to_string(v);
            settle_inlines(v, index);
            settle_target(target, &key, index);
        },
        _ => {},
    }
}

/// Resolves every link in a run of inlines.
fn settle_inlines(inlines: &mut Vec<Inline>, index: &Index)
    ensures
        inlines_model(final(inlines)@) == resolve_inlines(inlines_model(old(inlines)@), index@),
    decreases *old(inlines),
{
    let n: usize = inlines.len();
    let mut i: usize = 0;
    while i < n
        invariant
            i <= n,
            inlines@.len() == n,
            old(inlines)@.len() == n,
            forall|k: int| 0 <= k < i ==> (#[trigger] inlines@[k])@ == resolve_inline(old(inlines)@[k]@, index@),
            forall|k: int| i <= k < n ==> #[trigger] inlines@[k] == old(inlines)@[k],
        decreases n - i,
    {
        settle_inline(&mut inlines[i], index);
        i += 1;
    }
    assert(inlines_model(inlines@) =~= resolve_inlines(inlines_model(old(inlines)@), index@));
}

/// Resolves every link in a block.
fn settle_block(b: &mut Block, index: &Index)
    ensures
        final(b)@ == resolve_block(old(b)@, index@),
    decreases *old(b),
{
    match b {
        Block::Paragraph(v) => settle_inlines(v, index),
        Block::Plain(v) => settle_inlines(v, index),
        Block::Heading(_, _, v) => settle_inlines(v, index),
        Block::List(_, items) => settle_items(items, index),
        Block::BlockQuote(v) => settle_blocks(v, index),
        Block::Div(_, v) => settle_blocks(v, index),
        _ => {},
    }
}

/// Resolves every link in the items of a list.
fn settle_items(items: &mut Vec<Vec<Block>>, index: &Index)
    ensures
        items_model(final(items)@) == resolve_items(items_model(old(items)@), index@),
    decreases *old(items),
{
    let n: usize = items.len();
    let mut i: usize = 0;
    while i < n
        invariant
            i <= n,
            items@.len() == n,
            old(items)@.len() == n,
            forall|k: int|
                0 <= k < i ==> blocks_model((#[trigger] items@[k])@) == resolve_blocks(
                    blocks_model(old(items)@[k]@),
                    index@,
                ),
            forall|k: int| i <= k < n ==> #[trigger] items@[k] == old(items)@[k],
        decreases n - i,
    {
        settle_blocks(&mut items[i], index);
        i += 1;
    }
    assert(items_model(items@) =~= resolve_items(items_model(old(items)@), index@));
}

/// Resolves every link in a sequence of blocks.
fn settle_blocks(blocks: &mut Vec<Block>, index: &Index)
    ensures
        blocks_model(final(blocks)@) == resolve_blocks(blocks_model(old(blocks)@), index@),
    decreases *old(blocks),
{
    let n: usize = blocks.len();
    let mut i: usize = 0;
    while i < n
        invariant
            i <= n,
            blocks@.len() == n,
            old(blocks)@.len() == n,
            forall|k: int|
                0 <= k < i ==> (#[trigger] blocks@[k])@ == resolve_block(old(blocks)@[k]@, index@),
            forall|k: int| i <= k < n ==> #[trigger] blocks@[k] == old(blocks)@[k],
        decreases n - i,
    {
        settle_block(&mut blocks[i], index);
        i += 1;
    }
    assert(blocks_model(blocks@) =~= resolve_blocks(blocks_model(old(blocks)@), index@));
}

/// Resolves the links and anchors of a document, in place.
///
/// Every link whose target was left for this pass gets its final
/// destination, found by the plain text of its description among the spans,
/// headings and anchor definitions of the whole document, wherever they
/// stand; no classifier is left behind.
pub fn resolve_links(blocks: &mut Vec<Block>)
    ensures
        blocks_model(final(blocks)@) == resolved(blocks_model(old(blocks)@)),
{
    let mut index = Index { spans: Vec::new(), headings: Vec::new(), anchors: Vec::new() };
    assert(index@ == no_tables());
    collect_blocks(blocks, &mut index);
    settle_blocks(blocks, &index);
}

} // verus!
