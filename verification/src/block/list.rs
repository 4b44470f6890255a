//! Lists: rebuilding the nesting of a list from the depths of its items.

use vstd::prelude::*;
use crate::inline::detached_extension;
use crate::inline::{lower_children, lower_extension, note, note_of, parse_children};
use crate::model::{
    Block, block_present, BlockModel, blocks_model, blocks_present, Context, Diagnostic,
    DiagnosticModel, diagnostics_model, duplicate_inlines, Fragment, Inline, InlineModel,
    inlines_model, items_model, items_present, lemma_diagnostics_add, lemma_inlines_add,
    lemma_items_add, lowered_section, plain, Section, section_of, SectionModel,
};
use crate::syntax::{ListKind, NodeKind, SyntaxNode};

verus! {

/// One item of a list as the source gives it: how deep it stands, the kind of
/// list it was written for, and its text.
#[derive(Debug, PartialEq, Eq)]
pub struct ListItem {
    pub depth: u64,
    pub kind: ListKind,
    pub content: Vec<Inline>,
}

/// What a list item is, as a value.
pub ghost struct ItemModel {
    pub depth: nat,
    pub kind: ListKind,
    pub content: Seq<InlineModel>,
}

impl View for ListItem {
    type V = ItemModel;

    open spec fn view(&self) -> ItemModel {
        ItemModel {
            depth: self.depth as nat,
            kind: self.kind,
            content: inlines_model(self.content@),
        }
    }
}

/// The values of a sequence of list items.
pub open spec fn list_items_model(s: Seq<ListItem>) -> Seq<ItemModel> {
    Seq::new(s.len(), |i: int| s[i]@)
}

/// A sequence of items that can be normalized: it is not empty and no depth
/// is below one.
pub open spec fn valid_items(s: Seq<ItemModel>) -> bool {
    s.len() > 0 && forall|i: int| 0 <= i < s.len() ==> (#[trigger] s[i]).depth >= 1
}

/// How far `a` lies above `b`; zero if it does not.
pub open spec fn gap(a: nat, b: nat) -> nat {
    if a > b {
        (a - b) as nat
    } else {
        0
    }
}

/// `items` below `n` levels of lists of `kind` that hold a single item each.
pub open spec fn wrap(items: Seq<Seq<BlockModel>>, kind: ListKind, n: nat) -> Seq<Seq<BlockModel>>
    decreases n,
{
    if n == 0 {
        items
    } else {
        seq![seq![BlockModel::List(kind, wrap(items, kind, (n - 1) as nat))]]
    }
}

/// What normalizing a stretch of items gives: the items of one list, the kind
/// of the item that opened it, the shallowest depth met, and the index of the
/// first item that was not taken.
pub ghost struct Run {
    pub items: Seq<Seq<BlockModel>>,
    pub kind: ListKind,
    pub depth: nat,
    pub next: int,
}

/// Normalizes the items from `s[i]` up to the first item that is not deeper
/// than `bound`.
///
/// The item at `i` becomes a paragraph. The deeper items that follow it become
/// a list nested in it, under as many single-item lists as their shallowest
/// depth skips. The items after those, while deeper than `bound`, follow as
/// siblings; where they are shallower than `s[i]`, what was built so far is
/// first put under single-item lists of the kind of `s[i]`.
pub open spec fn run_from(s: Seq<ItemModel>, i: int, bound: nat) -> Run
    decreases s.len() - i,
{
    if i < 0 || i >= s.len() {
        Run { items: Seq::empty(), kind: ListKind::Unordered, depth: 0, next: i }
    } else {
        let head = s[i];
        let paragraph = BlockModel::Paragraph(head.content);
        let sub = run_from(s, i + 1, head.depth);
        let nested = i + 1 < s.len() && s[i + 1].depth > head.depth;
        let content = if nested {
            seq![
                paragraph,
                BlockModel::List(
                    sub.kind,
                    wrap(sub.items, sub.kind, gap(sub.depth, head.depth + 1)),
                ),
            ]
        } else {
            seq![paragraph]
        };
        let j = if nested {
            sub.next
        } else {
            i + 1
        };
        if i < j && j < s.len() && s[j].depth > bound {
            let sib = run_from(s, j, bound);
            Run {
                items: wrap(seq![content], head.kind, gap(head.depth, sib.depth)) + sib.items,
                kind: head.kind,
                depth: sib.depth,
                next: sib.next,
            }
        } else {
            Run { items: seq![content], kind: head.kind, depth: head.depth, next: j }
        }
    }
}

/// The list that a flat sequence of items stands for: depth one is the list
/// itself, and an item of depth `d` lies `d` lists deep.
pub open spec fn normal_list(s: Seq<ItemModel>) -> BlockModel {
    let run = run_from(s, 0, 0);
    BlockModel::List(run.kind, wrap(run.items, run.kind, gap(run.depth, 1)))
}

/// Where a run ends and how deep it reaches.
pub proof fn lemma_run_bounds(s: Seq<ItemModel>, i: int, bound: nat)
    requires
        0 <= i < s.len(),
        s[i].depth > bound,
    ensures
        i < run_from(s, i, bound).next <= s.len(),
        bound < run_from(s, i, bound).depth <= s[i].depth,
        run_from(s, i, bound).kind == s[i].kind,
        run_from(s, i, bound).next < s.len() ==> s[run_from(s, i, bound).next].depth <= bound,
    decreases s.len() - i,
{
    let head = s[i];
    let nested = i + 1 < s.len() && s[i + 1].depth > head.depth;
    if nested {
        lemma_run_bounds(s, i + 1, head.depth);
    }
    let sub = run_from(s, i + 1, head.depth);
    let j = if nested {
        sub.next
    } else {
        i + 1
    };
    if j < s.len() && s[j].depth > bound {
        lemma_run_bounds(s, j, bound);
    }
}

proof fn lemma_wrap_inside(items: Seq<Seq<BlockModel>>, kind: ListKind, n: nat)
    ensures
        wrap(items, kind, n + 1) == wrap(seq![seq![BlockModel::List(kind, items)]], kind, n),
    decreases n,
{
    let inner = seq![seq![BlockModel::List(kind, items)]];
    if n > 0 {
        lemma_wrap_inside(items, kind, (n - 1) as nat);
        assert(wrap(items, kind, n + 1) == seq![seq![BlockModel::List(kind, wrap(items, kind, n))]]);
        assert(wrap(inner, kind, n) == seq![
            seq![BlockModel::List(kind, wrap(inner, kind, (n - 1) as nat))],
        ]);
    } else {
        assert(wrap(items, kind, 0) == items);
        assert(wrap(items, kind, 1) == seq![seq![BlockModel::List(kind, wrap(items, kind, 0))]]);
        assert(wrap(inner, kind, 0) == inner);
    }
}

/// Puts `items` under `n` levels of single-item lists of `kind`.
fn wrap_items(items: Vec<Vec<Block>>, kind: ListKind, n: u64) -> (r: Vec<Vec<Block>>)
    ensures
        items_model(r@) == wrap(items_model(items@), kind, n as nat),
{
    let ghost whole = wrap(items_model(items@), kind, n as nat);
    let mut cur = items;
    let mut t: u64 = 0;
    while t < n
        invariant
            t <= n,
            wrap(items_model(cur@), kind, (n - t) as nat) == whole,
        decreases n - t,
    {
        proof {
            lemma_wrap_inside(items_model(cur@), kind, (n - t - 1) as nat);
        }
        let ghost before = items_model(cur@);
        let inner = Block::List(kind, cur);
        let mut item: Vec<Block> = Vec::new();
        item.push(inner);
        let mut outer: Vec<Vec<Block>> = Vec::new();
        outer.push(item);
        cur = outer;
        assert(items_model(cur@) =~= seq![seq![BlockModel::List(kind, before)]]) by {
            assert(cur@[0]@ =~= seq![inner]);
            assert(blocks_model(cur@[0]@) =~= seq![BlockModel::List(kind, before)]);
        }
        t += 1;
    }
    cur
}

/// The outcome of normalizing a stretch of items.
struct ListRun {
    items: Vec<Vec<Block>>,
    kind: ListKind,
    depth: u64,
    next: usize,
}

impl View for ListRun {
    type V = Run;

    closed spec fn view(&self) -> Run {
        Run {
            items: items_model(self.items@),
            kind: self.kind,
            depth: self.depth as nat,
            next: self.next as int,
        }
    }
}

fn run(items: &Vec<ListItem>, i: usize, bound: u64) -> (r: ListRun)
    requires
        i < items.len(),
        items[i as int].depth > bound,
    ensures
        r@ == run_from(list_items_model(items@), i as int, bound as nat),
    decreases items.len() - i,
{
    let ghost s = list_items_model(items@);
    proof {
        lemma_run_bounds(s, i as int, bound as nat);
    }
    let head = &items[i];
    let mut content: Vec<Block> = Vec::new();
    content.push(Block::Paragraph(duplicate_inlines(&head.content)));
    let ghost paragraph = BlockModel::Paragraph(s[i as int].content);
    assert(blocks_model(content@) =~= seq![paragraph]);
    let mut j: usize = i + 1;
    if j < items.len() && items[j].depth > head.depth {
        proof {
            lemma_run_bounds(s, i + 1, head.depth as nat);
        }
        let sub = run(items, j, head.depth);
        let pad: u64 = sub.depth - head.depth - 1;
        let kind = sub.kind;
        let nested = Block::List(kind, wrap_items(sub.items, kind, pad));
        content.push(nested);
        assert(blocks_model(content@) =~= seq![paragraph, nested@]);
        j = sub.next;
    }
    let ghost content_model = blocks_model(content@);
    let mut list: Vec<Vec<Block>> = Vec::new();
    list.push(content);
    assert(items_model(list@) =~= seq![content_model]);
    if j < items.len() && items[j].depth > bound {
        proof {
            lemma_run_bounds(s, j as int, bound as nat);
        }
        let sib = run(items, j, bound);
        let mut list = wrap_items(list, head.kind, head.depth - sib.depth);
        let mut rest = sib.items;
        proof {
            lemma_items_add(list@, rest@);
        }
        list.append(&mut rest);
        ListRun { items: list, kind: head.kind, depth: sib.depth, next: sib.next }
    } else {
        ListRun { items: list, kind: head.kind, depth: head.depth, next: j }
    }
}

/// Whether the items can be normalized.
fn check_items(items: &Vec<ListItem>) -> (r: bool)
    ensures
        r == valid_items(list_items_model(items@)),
{
    if items.len() == 0 {
        return false;
    }
    let mut i: usize = 0;
    while i < items.len()
        invariant
            i <= items.len(),
            forall|k: int| 0 <= k < i ==> (#[trigger] list_items_model(items@)[k]).depth >= 1,
        decreases items.len() - i,
    {
        if items[i].depth < 1 {
            assert(list_items_model(items@)[i as int].depth < 1);
            return false;
        }
        i += 1;
    }
    true
}

/// Rebuilds the nested list that a flat sequence of items stands for.
///
/// Gives nothing where the sequence is empty or holds a depth below one.
pub fn normalize(items: &Vec<ListItem>) -> (r: Option<Block>)
    ensures
        match r {
            Some(list) => valid_items(list_items_model(items@)) && list@ == normal_list(
                list_items_model(items@),
            ),
            None => !valid_items(list_items_model(items@)),
        },
{
    if !check_items(items) {
        return None;
    }
    assert(list_items_model(items@)[0].depth >= 1);
    let whole = run(items, 0, 0);
    proof {
        lemma_run_bounds(list_items_model(items@), 0, 0);
    }
    let kind = whole.kind;
    Some(Block::List(kind, wrap_items(whole.items, kind, whole.depth - 1)))
}

proof fn lemma_wrap_present(items: Seq<Seq<BlockModel>>, kind: ListKind, n: nat)
    requires
        items_present(items),
    ensures
        items_present(wrap(items, kind, n)),
    decreases n,
{
    if n > 0 {
        lemma_wrap_present(items, kind, (n - 1) as nat);
        let inner = BlockModel::List(kind, wrap(items, kind, (n - 1) as nat));
        assert(block_present(inner));
        assert(blocks_present(seq![inner]));
    }
}

proof fn lemma_run_present(s: Seq<ItemModel>, i: int, bound: nat)
    ensures
        items_present(run_from(s, i, bound).items),
    decreases s.len() - i,
{
    if !(i < 0 || i >= s.len()) {
        let head = s[i];
        let paragraph = BlockModel::Paragraph(head.content);
        let sub = run_from(s, i + 1, head.depth);
        let nested = i + 1 < s.len() && s[i + 1].depth > head.depth;
        lemma_run_present(s, i + 1, head.depth);
        lemma_wrap_present(sub.items, sub.kind, gap(sub.depth, head.depth + 1));
        let below = BlockModel::List(
            sub.kind,
            wrap(sub.items, sub.kind, gap(sub.depth, head.depth + 1)),
        );
        let content = if nested {
            seq![paragraph, below]
        } else {
            seq![paragraph]
        };
        assert(block_present(paragraph));
        assert(block_present(below));
        assert(blocks_present(content));
        assert(items_present(seq![content]));
        let j = if nested {
            sub.next
        } else {
            i + 1
        };
        if i < j && j < s.len() && s[j].depth > bound {
            let sib = run_from(s, j, bound);
            lemma_run_present(s, j, bound);
            let front = wrap(seq![content], head.kind, gap(head.depth, sib.depth));
            lemma_wrap_present(seq![content], head.kind, gap(head.depth, sib.depth));
            assert forall|k: int| 0 <= k < (front + sib.items).len() implies blocks_present(
                #[trigger] (front + sib.items)[k],
            ) by {
                if k < front.len() {
                    assert((front + sib.items)[k] == front[k]);
                } else {
                    assert((front + sib.items)[k] == sib.items[k - front.len()]);
                }
            }
        }
    }
}

/// A normalized list holds no block that stands for nothing.
pub proof fn lemma_normal_list_present(s: Seq<ItemModel>)
    ensures
        block_present(normal_list(s)),
{
    let run = run_from(s, 0, 0);
    lemma_run_present(s, 0, 0);
    lemma_wrap_present(run.items, run.kind, gap(run.depth, 1));
}

/// The item that a list item's own paragraph stands for, if it has one: an
/// item that only wraps a deeper list has none.
pub open spec fn own_item(kind: ListKind, item: Seq<BlockModel>, depth: nat) -> Seq<ItemModel> {
    if item.len() > 0 && item[0] is Paragraph {
        seq![ItemModel { depth, kind, content: item[0]->Paragraph_0 }]
    } else {
        Seq::empty()
    }
}

/// The flat items that the first `upto` items of a list of `kind` at `depth`
/// stand for, in order.
pub open spec fn derive_items(
    kind: ListKind,
    items: Seq<Seq<BlockModel>>,
    upto: int,
    depth: nat,
) -> Seq<ItemModel>
    decreases items, upto,
{
    if upto <= 0 || upto > items.len() {
        Seq::empty()
    } else {
        derive_items(kind, items, upto - 1, depth) + derive_item(kind, items[upto - 1], depth)
    }
}

/// The flat items that one item of a list stands for: its own, then those of
/// the lists nested in it.
pub open spec fn derive_item(kind: ListKind, item: Seq<BlockModel>, depth: nat) -> Seq<ItemModel>
    decreases item, item.len() + 1,
{
    own_item(kind, item, depth) + derive_blocks(item, item.len() as int, depth)
}

/// The flat items of the lists among the first `upto` blocks of an item at `depth`.
pub open spec fn derive_blocks(blocks: Seq<BlockModel>, upto: int, depth: nat) -> Seq<ItemModel>
    decreases blocks, upto,
{
    if upto <= 0 || upto > blocks.len() {
        Seq::empty()
    } else {
        derive_blocks(blocks, upto - 1, depth) + match blocks[upto - 1] {
            BlockModel::List(kind, items) => derive_items(
                kind,
                items,
                items.len() as int,
                depth + 1,
            ),
            _ => Seq::empty(),
        }
    }
}

/// The depths, kinds and texts that a nested list stands for: what
/// normalizing took in, read back out of the nesting.
pub open spec fn derive_list(list: BlockModel) -> Seq<ItemModel> {
    match list {
        BlockModel::List(kind, items) => derive_items(kind, items, items.len() as int, 1),
        _ => Seq::empty(),
    }
}

/// An item without its kind.
pub open spec fn shape(s: Seq<ItemModel>) -> Seq<(nat, Seq<InlineModel>)> {
    Seq::new(s.len(), |i: int| (s[i].depth, s[i].content))
}

/// Every item is of `kind`.
pub open spec fn uniform(s: Seq<ItemModel>, kind: ListKind) -> bool {
    forall|i: int| 0 <= i < s.len() ==> (#[trigger] s[i]).kind == kind
}

/// The depth of the item at `p`; zero where there is no such item.
pub open spec fn depth_at(s: Seq<ItemModel>, p: int) -> nat {
    if 0 <= p < s.len() {
        s[p].depth
    } else {
        0
    }
}

/// The nearest item at or before `p` that is shallower than `s[j]`; -1 if
/// there is none.
pub open spec fn shallower_before(s: Seq<ItemModel>, j: int, p: int) -> int
    decreases p + 1,
{
    if p < 0 || p >= s.len() {
        -1
    } else if s[p].depth < depth_at(s, j) {
        p
    } else {
        shallower_before(s, j, p - 1)
    }
}

/// The parent of the item at `j`: the nearest item before it that is
/// shallower; -1 if there is none.
pub open spec fn parent_of(s: Seq<ItemModel>, j: int) -> int {
    shallower_before(s, j, j - 1)
}

/// The first item at or after `k` that is shallower than `s[j]`; the length
/// of `s` if there is none.
pub open spec fn shallower_after(s: Seq<ItemModel>, j: int, k: int) -> int
    decreases s.len() - k,
{
    if k < 0 || k >= s.len() {
        s.len() as int
    } else if s[k].depth < depth_at(s, j) {
        k
    } else {
        shallower_after(s, j, k + 1)
    }
}

/// Whether the item at `j` is undercut: the first shallower item after it
/// is still deeper than its parent, so that it belongs to the same parent
/// and pushes the item at `j` into a list of its own.
pub open spec fn undercut(s: Seq<ItemModel>, j: int) -> bool {
    let k = shallower_after(s, j, j + 1);
    k < s.len() && depth_at(s, k) > depth_at(s, parent_of(s, j))
}

/// The item whose kind the list around the item at `j` takes: the item
/// itself where it is undercut, else the first item after its parent.
pub open spec fn opener(s: Seq<ItemModel>, j: int) -> int {
    if undercut(s, j) {
        j
    } else {
        parent_of(s, j) + 1
    }
}

/// The items as they are read back out of the normalized list: each with its
/// depth and its text, and with the kind of the list it came to lie in.
pub open spec fn read_back(s: Seq<ItemModel>) -> Seq<ItemModel> {
    Seq::new(
        s.len(),
        |j: int| ItemModel { depth: s[j].depth, kind: s[opener(s, j)].kind, content: s[j].content },
    )
}

/// Every item is of the kind of the item that opened its list.
pub open spec fn kinds_fit(s: Seq<ItemModel>) -> bool {
    forall|j: int| 0 <= j < s.len() ==> s[opener(s, j)].kind == (#[trigger] s[j]).kind
}

proof fn lemma_shallower_before(s: Seq<ItemModel>, j: int, q: int, p: int)
    requires
        0 <= j < s.len(),
        -1 <= p <= q < s.len(),
        forall|m: int| p < m <= q ==> (#[trigger] s[m]).depth >= s[j].depth,
        p >= 0 ==> s[p].depth < s[j].depth,
    ensures
        shallower_before(s, j, q) == p,
    decreases q - p,
{
    if q > p {
        assert(s[q].depth >= s[j].depth);
        lemma_shallower_before(s, j, q - 1, p);
    }
}

proof fn lemma_shallower_before_range(s: Seq<ItemModel>, j: int, q: int)
    requires
        q < s.len(),
    ensures
        -1 <= shallower_before(s, j, q) <= q || (q < 0 && shallower_before(s, j, q) == -1),
    decreases q + 1,
{
    if !(q < 0 || q >= s.len()) && !(s[q].depth < depth_at(s, j)) {
        lemma_shallower_before_range(s, j, q - 1);
    }
}

proof fn lemma_shallower_after(s: Seq<ItemModel>, j: int, k: int)
    requires
        0 <= j < s.len(),
        0 <= k <= s.len(),
    ensures
        k <= shallower_after(s, j, k) <= s.len(),
        forall|m: int| k <= m < shallower_after(s, j, k) ==> (#[trigger] s[m]).depth >= s[j].depth,
        shallower_after(s, j, k) < s.len() ==> s[shallower_after(s, j, k)].depth < s[j].depth,
    decreases s.len() - k,
{
    if k < s.len() && !(s[k].depth < s[j].depth) {
        lemma_shallower_after(s, j, k + 1);
    }
}

proof fn lemma_derive_prefix(
    kind: ListKind,
    a: Seq<Seq<BlockModel>>,
    b: Seq<Seq<BlockModel>>,
    m: int,
    depth: nat,
)
    requires
        0 <= m <= a.len(),
    ensures
        derive_items(kind, a + b, m, depth) == derive_items(kind, a, m, depth),
    decreases m,
{
    if m > 0 {
        lemma_derive_prefix(kind, a, b, m - 1, depth);
        assert((a + b)[m - 1] == a[m - 1]);
    }
}

proof fn lemma_derive_add(
    kind: ListKind,
    a: Seq<Seq<BlockModel>>,
    b: Seq<Seq<BlockModel>>,
    m: int,
    depth: nat,
)
    requires
        0 <= m <= b.len(),
    ensures
        derive_items(kind, a + b, a.len() + m, depth) == derive_items(
            kind,
            a,
            a.len() as int,
            depth,
        ) + derive_items(kind, b, m, depth),
    decreases m,
{
    if m == 0 {
        lemma_derive_prefix(kind, a, b, a.len() as int, depth);
        assert(derive_items(kind, a, a.len() as int, depth) + Seq::<ItemModel>::empty()
            =~= derive_items(kind, a, a.len() as int, depth));
    } else {
        lemma_derive_add(kind, a, b, m - 1, depth);
        assert((a + b)[a.len() + m - 1] == b[m - 1]);
        let x = derive_items(kind, a, a.len() as int, depth);
        let y = derive_items(kind, b, m - 1, depth);
        let z = derive_item(kind, b[m - 1], depth);
        assert((x + y) + z =~= x + (y + z));
    }
}

proof fn lemma_derive_single(kind: ListKind, item: Seq<BlockModel>, depth: nat)
    ensures
        derive_items(kind, seq![item], 1, depth) == derive_item(kind, item, depth),
{
    let items = seq![item];
    assert(derive_items(kind, items, 0, depth) == Seq::<ItemModel>::empty());
    assert(derive_items(kind, items, 1, depth) == derive_items(kind, items, 0, depth)
        + derive_item(kind, items[0], depth));
    assert(Seq::<ItemModel>::empty() + derive_item(kind, item, depth) =~= derive_item(
        kind,
        item,
        depth,
    ));
}

/// Single-item lists add depth and nothing else.
proof fn lemma_derive_wrap(
    outer: ListKind,
    kind: ListKind,
    items: Seq<Seq<BlockModel>>,
    n: nat,
    depth: nat,
)
    requires
        n >= 1,
    ensures
        derive_items(outer, wrap(items, kind, n), wrap(items, kind, n).len() as int, depth)
            == derive_items(kind, items, items.len() as int, depth + n),
    decreases n,
{
    let inner = wrap(items, kind, (n - 1) as nat);
    let block = BlockModel::List(kind, inner);
    let item = seq![block];
    assert(wrap(items, kind, n) == seq![item]);
    lemma_derive_single(outer, item, depth);
    assert(own_item(outer, item, depth) == Seq::<ItemModel>::empty());
    assert(derive_blocks(item, 0, depth) == Seq::<ItemModel>::empty());
    assert(derive_blocks(item, 1, depth) == derive_blocks(item, 0, depth) + derive_items(
        kind,
        inner,
        inner.len() as int,
        depth + 1,
    ));
    assert(derive_item(outer, item, depth) =~= derive_items(
        kind,
        inner,
        inner.len() as int,
        depth + 1,
    ));
    if n > 1 {
        lemma_derive_wrap(kind, kind, items, (n - 1) as nat, depth + 1);
    } else {
        assert(inner == items);
    }
}

/// What an item made of a paragraph, and perhaps one nested list, stands for.
proof fn lemma_derive_content(
    kind: ListKind,
    content: Seq<InlineModel>,
    nested: Option<BlockModel>,
    depth: nat,
)
    ensures
        nested is None ==> derive_item(kind, seq![BlockModel::Paragraph(content)], depth) == seq![
            ItemModel { depth, kind, content },
        ],
        nested matches Some(BlockModel::List(k, items)) ==> derive_item(
            kind,
            seq![BlockModel::Paragraph(content), BlockModel::List(k, items)],
            depth,
        ) == seq![ItemModel { depth, kind, content }] + derive_items(
            k,
            items,
            items.len() as int,
            depth + 1,
        ),
{
    let own = seq![ItemModel { depth, kind, content }];
    match nested {
        None => {
            let item = seq![BlockModel::Paragraph(content)];
            assert(derive_blocks(item, 0, depth) == Seq::<ItemModel>::empty());
            assert(derive_blocks(item, 1, depth) =~= Seq::<ItemModel>::empty());
            assert(derive_item(kind, item, depth) =~= own);
        },
        Some(BlockModel::List(k, items)) => {
            let item = seq![BlockModel::Paragraph(content), BlockModel::List(k, items)];
            assert(derive_blocks(item, 0, depth) == Seq::<ItemModel>::empty());
            assert(derive_blocks(item, 1, depth) =~= Seq::<ItemModel>::empty());
            assert(derive_blocks(item, 2, depth) =~= derive_items(
                k,
                items,
                items.len() as int,
                depth + 1,
            ));
        },
        _ => {},
    }
}

/// How deep a run reaches: its depth is the least depth among its items,
/// and all of them are deeper than its bound.
proof fn lemma_run_depth(s: Seq<ItemModel>, i: int, bound: nat)
    requires
        0 <= i < s.len(),
        s[i].depth > bound,
    ensures
        forall|k: int|
            i <= k < run_from(s, i, bound).next ==> (#[trigger] s[k]).depth >= run_from(
                s,
                i,
                bound,
            ).depth,
        exists|k: int|
            i <= k < run_from(s, i, bound).next && (#[trigger] s[k]).depth == run_from(
                s,
                i,
                bound,
            ).depth,
    decreases s.len() - i,
{
    lemma_run_bounds(s, i, bound);
    let r = run_from(s, i, bound);
    let head = s[i];
    let nested = i + 1 < s.len() && s[i + 1].depth > head.depth;
    let sub = run_from(s, i + 1, head.depth);
    if nested {
        lemma_run_bounds(s, i + 1, head.depth);
        lemma_run_depth(s, i + 1, head.depth);
    }
    let j = if nested {
        sub.next
    } else {
        i + 1
    };
    assert forall|k: int| i <= k < j implies (#[trigger] s[k]).depth >= head.depth by {
        if k > i {
            assert(s[k].depth >= sub.depth);
        }
    }
    if j < s.len() && s[j].depth > bound {
        lemma_run_bounds(s, j, bound);
        lemma_run_depth(s, j, bound);
        let sib = run_from(s, j, bound);
        assert forall|k: int| i <= k < r.next implies (#[trigger] s[k]).depth >= r.depth by {
            if k < j {
                assert(s[k].depth >= head.depth);
            }
        }
        let w = choose|k: int| j <= k < sib.next && (#[trigger] s[k]).depth == sib.depth;
        assert(i <= w < r.next && s[w].depth == r.depth);
    } else {
        assert(i <= i < r.next && s[i].depth == r.depth);
    }
}

/// The index at which the siblings of the item at `i` begin: behind the
/// items nested in it.
spec fn behind(s: Seq<ItemModel>, i: int) -> int {
    if i + 1 < s.len() && s[i + 1].depth > s[i].depth {
        run_from(s, i + 1, s[i].depth).next
    } else {
        i + 1
    }
}

/// The items nested in the item at `i` are deeper than it, and what follows
/// them is not.
proof fn lemma_behind(s: Seq<ItemModel>, i: int)
    requires
        0 <= i < s.len(),
    ensures
        i < behind(s, i) <= s.len(),
        forall|m: int| i < m < behind(s, i) ==> (#[trigger] s[m]).depth > s[i].depth,
        behind(s, i) < s.len() ==> s[behind(s, i)].depth <= s[i].depth,
{
    if i + 1 < s.len() && s[i + 1].depth > s[i].depth {
        lemma_run_bounds(s, i + 1, s[i].depth);
        lemma_run_depth(s, i + 1, s[i].depth);
        let sub = run_from(s, i + 1, s[i].depth);
        assert forall|m: int| i < m < behind(s, i) implies (#[trigger] s[m]).depth > s[i].depth by {
            assert(s[m].depth >= sub.depth);
        }
    }
}

/// The head of a run is undercut exactly where siblings follow it that
/// reach less deep than the head.
proof fn lemma_head_undercut(s: Seq<ItemModel>, i: int, bound: nat, p: int)
    requires
        0 <= i < s.len(),
        s[i].depth > bound,
        -1 <= p < i,
        depth_at(s, p) == bound,
        forall|m: int| p < m < i ==> (#[trigger] s[m]).depth >= s[i].depth,
    ensures
        parent_of(s, i) == p,
        undercut(s, i) == (behind(s, i) < s.len() && s[behind(s, i)].depth > bound && run_from(
            s,
            behind(s, i),
            bound,
        ).depth < s[i].depth),
{
    let head = s[i];
    let j = behind(s, i);
    lemma_behind(s, i);
    lemma_shallower_before(s, i, i - 1, p);
    let k = shallower_after(s, i, i + 1);
    lemma_shallower_after(s, i, i + 1);
    assert(k >= j) by {
        if k < j {
            assert(s[k].depth > head.depth);
        }
    }
    let sibling = j < s.len() && s[j].depth > bound;
    if sibling {
        let sib = run_from(s, j, bound);
        lemma_run_bounds(s, j, bound);
        lemma_run_depth(s, j, bound);
        if sib.depth < head.depth {
            let w = choose|w: int| j <= w < sib.next && (#[trigger] s[w]).depth == sib.depth;
            assert(k <= w);
            assert(s[k].depth >= sib.depth);
            assert(undercut(s, i));
        }
        if undercut(s, i) {
            assert(k < sib.next) by {
                if sib.next <= k {
                    if sib.next < k {
                        assert(s[sib.next].depth >= head.depth);
                    }
                }
            }
            assert(s[k].depth >= sib.depth);
        }
    } else {
        if undercut(s, i) {
            if j < k {
                assert(s[j].depth >= head.depth);
            }
        }
    }
}

/// The siblings of the head of a run have the parent that the head has.
proof fn lemma_sibling_frame(s: Seq<ItemModel>, i: int, p: int)
    requires
        0 <= i < s.len(),
        -1 <= p < i,
        forall|m: int| p < m < i ==> (#[trigger] s[m]).depth >= s[i].depth,
        behind(s, i) < s.len(),
    ensures
        forall|m: int| p < m < behind(s, i) ==> (#[trigger] s[m]).depth >= s[behind(s, i)].depth,
{
    lemma_behind(s, i);
    assert forall|m: int| p < m < behind(s, i) implies (#[trigger] s[m]).depth >= s[behind(
        s,
        i,
    )].depth by {
        if m < i {
            assert(s[m].depth >= s[i].depth);
        } else if m > i {
            assert(s[m].depth > s[i].depth);
        }
    }
}

/// What the head of a run and the items nested in it stand for, read under
/// the kind `head_kind`.
proof fn lemma_head_reads_back(s: Seq<ItemModel>, i: int, head_kind: ListKind)
    requires
        0 <= i < s.len(),
        head_kind == s[opener(s, i)].kind,
        i + 1 < s.len() && s[i + 1].depth > s[i].depth ==> derive_items(
            s[i + 1].kind,
            run_from(s, i + 1, s[i].depth).items,
            run_from(s, i + 1, s[i].depth).items.len() as int,
            run_from(s, i + 1, s[i].depth).depth,
        ) == read_back(s).subrange(i + 1, behind(s, i)),
    ensures
        derive_item(head_kind, head_content(s, i), s[i].depth) == read_back(s).subrange(
            i,
            behind(s, i),
        ),
{
    let head = s[i];
    let back = read_back(s);
    let j = behind(s, i);
    lemma_behind(s, i);
    let own = seq![ItemModel { depth: head.depth, kind: head_kind, content: head.content }];
    assert(own =~= back.subrange(i, i + 1));
    if i + 1 < s.len() && s[i + 1].depth > head.depth {
        let sub = run_from(s, i + 1, head.depth);
        lemma_run_bounds(s, i + 1, head.depth);
        let pad = gap(sub.depth, head.depth + 1);
        let wrapped = wrap(sub.items, sub.kind, pad);
        lemma_derive_content(
            head_kind,
            head.content,
            Some(BlockModel::List(sub.kind, wrapped)),
            head.depth,
        );
        if pad >= 1 {
            lemma_derive_wrap(sub.kind, sub.kind, sub.items, pad, head.depth + 1);
        }
        assert(back.subrange(i, i + 1) + back.subrange(i + 1, j) =~= back.subrange(i, j));
    } else {
        lemma_derive_content(head_kind, head.content, None, head.depth);
    }
}

/// The blocks of the item at `i`: its paragraph, and the list of the items
/// nested in it, if there are any.
spec fn head_content(s: Seq<ItemModel>, i: int) -> Seq<BlockModel> {
    let head = s[i];
    let sub = run_from(s, i + 1, head.depth);
    if i + 1 < s.len() && s[i + 1].depth > head.depth {
        seq![
            BlockModel::Paragraph(head.content),
            BlockModel::List(sub.kind, wrap(sub.items, sub.kind, gap(sub.depth, head.depth + 1))),
        ]
    } else {
        seq![BlockModel::Paragraph(head.content)]
    }
}

/// What the run from `i` on stands for, read back out of its nesting, where
/// `p` is the parent of the run and `label` the kind of the list that its
/// items come to lie in.
proof fn lemma_run_reads_back(s: Seq<ItemModel>, i: int, bound: nat, p: int, label: ListKind)
    requires
        0 <= i < s.len(),
        s[i].depth > bound,
        -1 <= p < i,
        depth_at(s, p) == bound,
        forall|m: int| p < m < i ==> (#[trigger] s[m]).depth >= s[i].depth,
        label == s[p + 1].kind,
    ensures
        derive_items(
            label,
            run_from(s, i, bound).items,
            run_from(s, i, bound).items.len() as int,
            run_from(s, i, bound).depth,
        ) == read_back(s).subrange(i, run_from(s, i, bound).next),
    decreases s.len() - i,
{
    lemma_run_bounds(s, i, bound);
    let head = s[i];
    let j = behind(s, i);
    let sibling = j < s.len() && s[j].depth > bound;
    let sib = run_from(s, j, bound);
    let back = read_back(s);
    let content = head_content(s, i);
    lemma_behind(s, i);
    lemma_head_undercut(s, i, bound, p);
    let padded = sibling && gap(head.depth, sib.depth) >= 1;
    if sibling {
        lemma_run_bounds(s, j, bound);
    }
    assert(padded == undercut(s, i));
    let head_kind = if padded {
        head.kind
    } else {
        label
    };
    if i + 1 < s.len() && s[i + 1].depth > head.depth {
        lemma_run_bounds(s, i + 1, head.depth);
        lemma_run_reads_back(s, i + 1, head.depth, i, s[i + 1].kind);
    }
    lemma_head_reads_back(s, i, head_kind);
    let first = derive_item(head_kind, content, head.depth);
    if sibling {
        lemma_sibling_frame(s, i, p);
        lemma_run_reads_back(s, j, bound, p, label);
        let pad = gap(head.depth, sib.depth);
        let front = wrap(seq![content], head.kind, pad);
        lemma_derive_add(label, front, sib.items, sib.items.len() as int, sib.depth);
        assert((front + sib.items).len() == front.len() + sib.items.len());
        if pad >= 1 {
            lemma_derive_wrap(label, head.kind, seq![content], pad, sib.depth);
            lemma_derive_single(head.kind, content, head.depth);
        } else {
            lemma_derive_single(label, content, head.depth);
        }
        assert(derive_items(label, front, front.len() as int, sib.depth) == first);
        assert(back.subrange(i, j) + back.subrange(j, sib.next) =~= back.subrange(i, sib.next));
    } else {
        lemma_derive_single(label, content, head.depth);
    }
}

/// Normalizing a list and reading it back out of the nesting gives every
/// item again, in order, with its depth and its text: every item lies
/// exactly as deep in the nested list as its depth says. Its kind is that
/// of the list it came to lie in, which is the kind of the item that opened
/// that list.
pub proof fn law_normalize_reads_back(s: Seq<ItemModel>)
    requires
        valid_items(s),
    ensures
        derive_list(normal_list(s)) == read_back(s),
{
    let run = run_from(s, 0, 0);
    lemma_run_bounds(s, 0, 0);
    lemma_run_reads_back(s, 0, 0, -1, s[0].kind);
    let pad = gap(run.depth, 1);
    if pad >= 1 {
        lemma_derive_wrap(run.kind, run.kind, run.items, pad, 1);
    }
    if run.next < s.len() {
        assert(s[run.next].depth >= 1);
    }
    assert(read_back(s).subrange(0, run.next) =~= read_back(s));
}

/// Normalizing a list and reading the depths back out of the nesting gives
/// the depths, and the texts, that went in.
pub proof fn law_normalize_keeps_depths(s: Seq<ItemModel>)
    requires
        valid_items(s),
    ensures
        shape(derive_list(normal_list(s))) == shape(s),
{
    law_normalize_reads_back(s);
    assert(shape(read_back(s)) =~= shape(s));
}

/// Where every item is of the kind of the item that opened its list,
/// normalizing a list and reading it back out of the nesting gives the
/// sequence that went in: depths, kinds and texts.
pub proof fn law_normalize_round_trip(s: Seq<ItemModel>)
    requires
        valid_items(s),
        kinds_fit(s),
    ensures
        derive_list(normal_list(s)) == s,
{
    law_normalize_reads_back(s);
    assert(read_back(s) =~= s);
}

/// A list whose items are all of one kind is read back as it was written:
/// normalizing it and reading it back out of the nesting gives the depths,
/// kinds and texts that went in.
pub proof fn law_uniform_list_round_trip(s: Seq<ItemModel>, kind: ListKind)
    requires
        valid_items(s),
        uniform(s, kind),
    ensures
        derive_list(normal_list(s)) == s,
{
    assert forall|j: int| 0 <= j < s.len() implies s[opener(s, j)].kind == (#[trigger] s[j]).kind by {
        lemma_shallower_before_range(s, j, j - 1);
    }
    law_normalize_round_trip(s);
}

/// The flat items that a stretch of the syntax tree holds, with the notes
/// made while lowering their texts.
pub ghost struct Items {
    pub items: Seq<ItemModel>,
    pub diagnostics: Seq<DiagnosticModel>,
}

/// The flat items under one item node: the item itself, then the items
/// nested in it, in source order.
///
/// The node's first child is its prefix. An extension may follow, which
/// gives the marker that stands before the text. The next child holds the
/// text, and every child after it is an item node again.
pub open spec fn collect_item(node: SyntaxNode, ctx: Context) -> Result<Items, DiagnosticModel>
    decreases node, 0nat,
{
    let c = node.children@;
    match node.kind {
        NodeKind::ListItem(kind, depth) => if depth < 1 || c.len() == 0 {
            Err(note(node))
        } else if c.len() == 1 {
            Err(note(c[0]))
        } else {
            let marked = c[1].kind is Extension;
            let at: int = if marked {
                2
            } else {
                1
            };
            let marker = if marked {
                lower_extension(c[1])
            } else {
                Ok(plain(Seq::empty()))
            };
            match marker {
                Err(e) => Err(e),
                Ok(marker) => if at >= c.len() {
                    Err(note(c[1]))
                } else {
                    match lower_children(c[at], ctx) {
                        Err(e) => Err(e),
                        Ok(text) => match collect_items(c, at + 1, c.len() as int, ctx) {
                            Err(e) => Err(e),
                            Ok(below) => Ok(
                                Items {
                                    items: seq![
                                        ItemModel {
                                            depth: depth as nat,
                                            kind,
                                            content: marker.inlines + text.inlines,
                                        },
                                    ] + below.items,
                                    diagnostics: marker.diagnostics + text.diagnostics
                                        + below.diagnostics,
                                },
                            ),
                        },
                    }
                },
            }
        },
        _ => Err(note(node)),
    }
}

/// The flat items under the item nodes `nodes[from..upto]`; the first fault ends it.
pub open spec fn collect_items(nodes: Seq<SyntaxNode>, from: int, upto: int, ctx: Context) -> Result<
    Items,
    DiagnosticModel,
>
    decreases nodes, upto,
{
    if from < 0 || upto <= from || upto > nodes.len() {
        Ok(Items { items: Seq::empty(), diagnostics: Seq::empty() })
    } else {
        match collect_items(nodes, from, upto - 1, ctx) {
            Err(e) => Err(e),
            Ok(before) => match collect_item(nodes[upto - 1], ctx) {
                Err(e) => Err(e),
                Ok(found) => Ok(
                    Items {
                        items: before.items + found.items,
                        diagnostics: before.diagnostics + found.diagnostics,
                    },
                ),
            },
        }
    }
}

/// The list that a list node stands for: its items, read in source order
/// with the depths their kinds carry, and normalized.
pub open spec fn lower_list(node: SyntaxNode, ctx: Context) -> Result<SectionModel, DiagnosticModel> {
    if node.children@.len() == 0 {
        Err(note(node))
    } else {
        match collect_items(node.children@, 0, node.children@.len() as int, ctx) {
            Err(e) => Err(e),
            Ok(found) => Ok(section_of(seq![normal_list(found.items)], found.diagnostics)),
        }
    }
}

/// Once a stretch of item nodes has met a fault, every longer stretch meets it.
proof fn lemma_collect_fault(nodes: Seq<SyntaxNode>, from: int, k: int, m: int, ctx: Context)
    requires
        0 <= from <= k <= m <= nodes.len(),
        collect_items(nodes, from, k, ctx) is Err,
    ensures
        collect_items(nodes, from, m, ctx) == collect_items(nodes, from, k, ctx),
    decreases m - k,
{
    if k < m {
        lemma_collect_fault(nodes, from, k, m - 1, ctx);
    }
}

/// What was collected without a fault is free of depths below one, and is
/// not empty where a node was read.
proof fn lemma_collect_valid(nodes: Seq<SyntaxNode>, from: int, upto: int, ctx: Context)
    requires
        collect_items(nodes, from, upto, ctx) is Ok,
    ensures
        forall|i: int|
            0 <= i < collect_items(nodes, from, upto, ctx)->Ok_0.items.len() ==> (
            #[trigger] collect_items(nodes, from, upto, ctx)->Ok_0.items[i]).depth >= 1,
        0 <= from < upto <= nodes.len() ==> collect_items(nodes, from, upto, ctx)->Ok_0.items.len()
            > 0,
    decreases nodes, upto, 0nat,
{
    if !(from < 0 || upto <= from || upto > nodes.len()) {
        lemma_collect_valid(nodes, from, upto - 1, ctx);
        lemma_collect_item_valid(nodes[upto - 1], ctx);
    }
}

proof fn lemma_collect_item_valid(node: SyntaxNode, ctx: Context)
    requires
        collect_item(node, ctx) is Ok,
    ensures
        forall|i: int|
            0 <= i < collect_item(node, ctx)->Ok_0.items.len() ==> (#[trigger] collect_item(
                node,
                ctx,
            )->Ok_0.items[i]).depth >= 1,
        collect_item(node, ctx)->Ok_0.items.len() > 0,
    decreases node, 0nat, 0nat,
{
    let c = node.children@;
    match node.kind {
        NodeKind::ListItem(kind, depth) => {
            let at: int = if c[1].kind is Extension {
                2
            } else {
                1
            };
            lemma_collect_valid(c, at + 1, c.len() as int, ctx);
        },
        _ => {},
    }
}

/// Reads the flat items under one item node, putting them behind `items`
/// and the notes behind `diagnostics`.
fn gather_item(
    node: &SyntaxNode,
    ctx: &Context,
    items: &mut Vec<ListItem>,
    diagnostics: &mut Vec<Diagnostic>,
) -> (r: Result<(), Diagnostic>)
    ensures
        match r {
            Ok(_) => collect_item(*node, *ctx) matches Ok(found) && list_items_model(
                final(items)@,
            ) == list_items_model(old(items)@) + found.items && diagnostics_model(
                final(diagnostics)@,
            ) == diagnostics_model(old(diagnostics)@) + found.diagnostics,
            Err(e) => collect_item(*node, *ctx) == Err::<Items, DiagnosticModel>(e@),
        },
    decreases node, 0nat,
{
    let (kind, depth) = match node.kind {
        NodeKind::ListItem(kind, depth) => (kind, depth),
        _ => {
            return Err(note_of(node));
        },
    };
    let n: usize = node.children.len();
    if depth < 1 || n == 0 {
        return Err(note_of(node));
    }
    if n == 1 {
        return Err(note_of(&node.children[0]));
    }
    let marked = match node.children[1].kind {
        NodeKind::Extension => true,
        _ => false,
    };
    let at: usize = if marked {
        2
    } else {
        1
    };
    let mut marker = if marked {
        match detached_extension::parse(&node.children[1]) {
            Err(e) => {
                return Err(e);
            },
            Ok(marker) => marker,
        }
    } else {
        Fragment::new()
    };
    if at >= n {
        return Err(note_of(&node.children[1]));
    }
    let mut text = match parse_children(&node.children[at], ctx) {
        Err(e) => {
            return Err(e);
        },
        Ok(text) => text,
    };
    let ghost marker_model = marker@;
    let ghost text_model = text@;
    let mut content = marker.inlines;
    proof {
        lemma_inlines_add(content@, text.inlines@);
        lemma_diagnostics_add(diagnostics@, marker.diagnostics@);
        lemma_diagnostics_add(diagnostics@ + marker.diagnostics@, text.diagnostics@);
    }
    content.append(&mut text.inlines);
    let item = ListItem { depth, kind, content };
    items.push(item);
    assert(list_items_model(items@) =~= list_items_model(old(items)@) + seq![item@]);
    diagnostics.append(&mut marker.diagnostics);
    diagnostics.append(&mut text.diagnostics);
    let ghost own = seq![item@];
    let ghost notes = marker_model.diagnostics + text_model.diagnostics;
    assert(diagnostics_model(diagnostics@) =~= diagnostics_model(old(diagnostics)@) + notes);
    match gather_items(&node.children, at + 1, ctx, items, diagnostics) {
        Err(e) => Err(e),
        Ok(_) => {
            proof {
                let below = collect_items(
                    node.children@,
                    at + 1,
                    node.children@.len() as int,
                    *ctx,
                )->Ok_0;
                assert((list_items_model(old(items)@) + own) + below.items =~= list_items_model(
                    old(items)@,
                ) + (own + below.items));
                assert((diagnostics_model(old(diagnostics)@) + notes) + below.diagnostics
                    =~= diagnostics_model(old(diagnostics)@) + (notes + below.diagnostics));
            }
            Ok(())
        },
    }
}

/// Reads the flat items under the item nodes from `nodes[from]` on.
fn gather_items(
    nodes: &Vec<SyntaxNode>,
    from: usize,
    ctx: &Context,
    items: &mut Vec<ListItem>,
    diagnostics: &mut Vec<Diagnostic>,
) -> (r: Result<(), Diagnostic>)
    requires
        from <= nodes.len(),
    ensures
        match r {
            Ok(_) => collect_items(nodes@, from as int, nodes@.len() as int, *ctx) matches Ok(
                found,
            ) && list_items_model(final(items)@) == list_items_model(old(items)@) + found.items
                && diagnostics_model(final(diagnostics)@) == diagnostics_model(
                old(diagnostics)@,
            ) + found.diagnostics,
            Err(e) => collect_items(nodes@, from as int, nodes@.len() as int, *ctx) == Err::<
                Items,
                DiagnosticModel,
            >(e@),
        },
    decreases nodes, 1nat,
{
    let n: usize = nodes.len();
    let mut i: usize = from;
    assert(list_items_model(items@) + Seq::<ItemModel>::empty() =~= list_items_model(items@));
    assert(diagnostics_model(diagnostics@) + Seq::<DiagnosticModel>::empty() =~= diagnostics_model(
        diagnostics@,
    ));
    while i < n
        invariant
            n == nodes.len(),
            from <= i <= n,
            collect_items(nodes@, from as int, i as int, *ctx) matches Ok(found)
                && list_items_model(items@) == list_items_model(old(items)@) + found.items
                && diagnostics_model(diagnostics@) == diagnostics_model(old(diagnostics)@)
                + found.diagnostics,
        decreases n - i,
    {
        let ghost before = collect_items(nodes@, from as int, i as int, *ctx)->Ok_0;
        match gather_item(&nodes[i], ctx, items, diagnostics) {
            Err(e) => {
                proof {
                    lemma_collect_fault(nodes@, from as int, i + 1, n as int, *ctx);
                }
                return Err(e);
            },
            Ok(_) => {
                proof {
                    let found = collect_item(nodes@[i as int], *ctx)->Ok_0;
                    assert((list_items_model(old(items)@) + before.items) + found.items
                        =~= list_items_model(old(items)@) + (before.items + found.items));
                    assert((diagnostics_model(old(diagnostics)@) + before.diagnostics)
                        + found.diagnostics =~= diagnostics_model(old(diagnostics)@) + (
                    before.diagnostics + found.diagnostics));
                }
            },
        }
        i += 1;
    }
    Ok(())
}

/// Lowers a list node into the nested list that its items stand for.
pub fn parse(node: &SyntaxNode, ctx: &Context) -> (r: Result<Section, Diagnostic>)
    ensures
        lowered_section(r) == lower_list(*node, *ctx),
{
    if node.children.len() == 0 {
        return Err(note_of(node));
    }
    let mut items: Vec<ListItem> = Vec::new();
    let mut diagnostics: Vec<Diagnostic> = Vec::new();
    match gather_items(&node.children, 0, ctx, &mut items, &mut diagnostics) {
        Err(e) => Err(e),
        Ok(_) => {
            proof {
                lemma_collect_valid(node.children@, 0, node.children@.len() as int, *ctx);
                let found = collect_items(node.children@, 0, node.children@.len() as int, *ctx)->Ok_0;
                assert(Seq::<ItemModel>::empty() + found.items =~= found.items);
                assert(Seq::<DiagnosticModel>::empty() + found.diagnostics =~= found.diagnostics);
                assert(list_items_model(Seq::<ListItem>::empty()) =~= Seq::<ItemModel>::empty());
                assert(diagnostics_model(Seq::<Diagnostic>::empty()) =~= Seq::<
                    DiagnosticModel,
                >::empty());
            }
            match normalize(&items) {
                Some(list) => Ok(Section::single(list, diagnostics)),
                None => Err(note_of(node)),
            }
        },
    }
}

} // verus!
