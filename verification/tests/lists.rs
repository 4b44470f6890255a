use norg_pandoc_ast::block::list::{normalize, ListItem};
use norg_pandoc_ast::block::quote::QuoteItem;
use norg_pandoc_ast::model::{Block, Inline};
use norg_pandoc_ast::syntax::ListKind;

/// Reads the depths, kinds and texts back out of a nested list.
fn read_back(kind: ListKind, items: &[Vec<Block>], depth: u64, out: &mut Vec<ListItem>) {
    for blocks in items {
        if let Some(Block::Paragraph(content)) = blocks.first() {
            out.push(ListItem { depth, kind, content: content.iter().map(Inline::duplicate).collect() });
        }
        for block in blocks {
            if let Block::List(kind, items) = block {
                read_back(*kind, items, depth + 1, out);
            }
        }
    }
}

fn round_trip(items: &Vec<ListItem>) -> Vec<ListItem> {
    let mut out = Vec::new();
    match normalize(items) {
        Some(Block::List(kind, nested)) => read_back(kind, &nested, 1, &mut out),
        other => panic!("not a list: {:?}", other),
    }
    out
}

/// Reads the depths and texts back out of a nested quote.
fn read_back_quote(blocks: &[Block], depth: u64, out: &mut Vec<QuoteItem>) {
    for block in blocks {
        match block {
            Block::Paragraph(content) => out.push(QuoteItem {
                depth,
                content: content.iter().map(Inline::duplicate).collect(),
            }),
            Block::BlockQuote(inner) => read_back_quote(inner, depth + 1, out),
            other => panic!("not part of a quote: {:?}", other),
        }
    }
}

fn next(seed: &mut u64) -> u64 {
    *seed = seed.wrapping_mul(6364136223846793005).wrapping_add(1442695040888963407);
    *seed >> 33
}

fn item(depth: u64, kind: ListKind, word: &str) -> ListItem {
    ListItem { depth, kind, content: vec![Inline::Str(word.to_string())] }
}

fn para(word: &str) -> Block {
    Block::Paragraph(vec![Inline::Str(word.to_string())])
}

#[test]
fn flat_items_make_one_list() {
    let items = vec![item(1, ListKind::Unordered, "a"), item(1, ListKind::Unordered, "b")];
    assert_eq!(
        normalize(&items),
        Some(Block::List(ListKind::Unordered, vec![vec![para("a")], vec![para("b")]]))
    );
}

#[test]
fn empty_sequence_is_refused() {
    assert_eq!(normalize(&Vec::new()), None);
}

#[test]
fn depth_zero_is_refused() {
    assert_eq!(normalize(&vec![item(0, ListKind::Ordered, "a")]), None);
}

#[test]
fn depths_are_read_back_from_the_nesting() {
    let mut seed = 7;
    for round in 0..200 {
        let length = 1 + next(&mut seed) % 9;
        let kind = if round % 2 == 0 { ListKind::Unordered } else { ListKind::Ordered };
        let items: Vec<ListItem> = (0..length)
            .map(|i| item(1 + next(&mut seed) % 5, kind, &format!("t{i}")))
            .collect();
        assert_eq!(round_trip(&items), items);
    }
}

#[test]
fn mixed_kinds_keep_depths_and_texts() {
    let mut seed = 11;
    for _ in 0..200 {
        let length = 1 + next(&mut seed) % 9;
        let items: Vec<ListItem> = (0..length)
            .map(|i| {
                let kind =
                    if next(&mut seed) % 2 == 0 { ListKind::Unordered } else { ListKind::Ordered };
                item(1 + next(&mut seed) % 5, kind, &format!("t{i}"))
            })
            .collect();
        let back = round_trip(&items);
        assert_eq!(back.len(), items.len());
        for (a, b) in back.iter().zip(items.iter()) {
            assert_eq!(a.depth, b.depth);
            assert_eq!(a.content, b.content);
        }
    }
}

/// The item whose kind the list around the item at `j` takes.
fn opener(items: &[ListItem], j: usize) -> usize {
    let parent = (0..j).rev().find(|&p| items[p].depth < items[j].depth);
    let parent_depth = parent.map_or(0, |p| items[p].depth);
    let undercut = (j + 1..items.len())
        .find(|&k| items[k].depth < items[j].depth)
        .map_or(false, |k| items[k].depth > parent_depth);
    if undercut {
        j
    } else {
        parent.map_or(0, |p| p + 1)
    }
}

#[test]
fn kinds_are_those_of_the_items_that_opened_the_lists() {
    let mut seed = 23;
    for _ in 0..500 {
        let length = 1 + next(&mut seed) % 10;
        let items: Vec<ListItem> = (0..length)
            .map(|i| {
                let kind =
                    if next(&mut seed) % 2 == 0 { ListKind::Unordered } else { ListKind::Ordered };
                item(1 + next(&mut seed) % 4, kind, &format!("t{i}"))
            })
            .collect();
        let expected: Vec<ListItem> = (0..items.len())
            .map(|j| ListItem {
                depth: items[j].depth,
                kind: items[opener(&items, j)].kind,
                content: items[j].content.iter().map(Inline::duplicate).collect(),
            })
            .collect();
        assert_eq!(round_trip(&items), expected);
    }
}

#[test]
fn siblings_of_another_kind_take_the_kind_of_their_list() {
    let items = vec![item(1, ListKind::Unordered, "a"), item(1, ListKind::Ordered, "b")];
    assert_eq!(
        round_trip(&items),
        vec![item(1, ListKind::Unordered, "a"), item(1, ListKind::Unordered, "b")]
    );
}

#[test]
fn nested_list_keeps_its_own_kind() {
    let items = vec![
        item(1, ListKind::Unordered, "a"),
        item(2, ListKind::Ordered, "b"),
        item(1, ListKind::Unordered, "c"),
    ];
    assert_eq!(
        normalize(&items),
        Some(Block::List(
            ListKind::Unordered,
            vec![
                vec![para("a"), Block::List(ListKind::Ordered, vec![vec![para("b")]])],
                vec![para("c")],
            ]
        ))
    );
    assert_eq!(round_trip(&items), items);
}

#[test]
fn deep_then_shallow_then_between() {
    let items = vec![
        item(3, ListKind::Unordered, "a"),
        item(1, ListKind::Unordered, "b"),
        item(2, ListKind::Unordered, "c"),
    ];
    let list = |items| Block::List(ListKind::Unordered, items);
    assert_eq!(
        normalize(&items),
        Some(list(vec![
            vec![list(vec![vec![list(vec![vec![para("a")]])]])],
            vec![para("b"), list(vec![vec![para("c")]])],
        ]))
    );
}

#[test]
fn list_depth_is_the_greatest_depth() {
    fn depth(block: &Block) -> u64 {
        match block {
            Block::List(_, items) => {
                1 + items.iter().flatten().map(depth).max().unwrap_or(0)
            }
            _ => 0,
        }
    }
    let items = vec![
        item(2, ListKind::Ordered, "a"),
        item(5, ListKind::Ordered, "b"),
        item(3, ListKind::Ordered, "c"),
    ];
    assert_eq!(depth(&normalize(&items).unwrap()), 5);
}

fn quote_item(depth: u64, word: &str) -> QuoteItem {
    QuoteItem { depth, content: vec![Inline::Str(word.to_string())] }
}

#[test]
fn quotes_are_normalized() {
    let normalize = norg_pandoc_ast::block::quote::normalize;
    assert_eq!(
        normalize(&vec![quote_item(1, "a"), quote_item(2, "b"), quote_item(1, "c")]),
        Some(Block::BlockQuote(vec![
            para("a"),
            Block::BlockQuote(vec![para("b")]),
            para("c"),
        ]))
    );
    assert_eq!(normalize(&Vec::new()), None);
    assert_eq!(normalize(&vec![quote_item(1, "a"), quote_item(0, "b")]), None);
}

#[test]
fn quote_depths_are_read_back_from_the_nesting() {
    let mut seed = 3;
    for _ in 0..200 {
        let length = 1 + next(&mut seed) % 9;
        let items: Vec<QuoteItem> = (0..length)
            .map(|i| quote_item(1 + next(&mut seed) % 5, &format!("t{i}")))
            .collect();
        let mut back = Vec::new();
        match norg_pandoc_ast::block::quote::normalize(&items) {
            Some(Block::BlockQuote(blocks)) => read_back_quote(&blocks, 1, &mut back),
            other => panic!("not a quote: {:?}", other),
        }
        assert_eq!(back, items);
    }
}
