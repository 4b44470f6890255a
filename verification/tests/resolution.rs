use norg_pandoc_ast::model::{Block, Classifier, Inline, LinkTarget};
use norg_pandoc_ast::resolve::resolve_links;
use norg_pandoc_ast::syntax::Style;

fn word(text: &str) -> Inline {
    Inline::Str(text.to_string())
}

fn link(description: Vec<Inline>, destination: &str, classifier: Classifier) -> Inline {
    Inline::Link(
        Vec::new(),
        description,
        LinkTarget { destination: destination.to_string(), classifier },
    )
}

fn target_of(block: &Block, index: usize) -> LinkTarget {
    match block {
        Block::Paragraph(inlines) => match &inlines[index] {
            Inline::Link(_, _, target) => LinkTarget {
                destination: target.destination.clone(),
                classifier: target.classifier,
            },
            other => panic!("not a link: {:?}", other),
        },
        other => panic!("not a paragraph: {:?}", other),
    }
}

#[test]
fn magic_link_finds_span_by_text() {
    let mut blocks = vec![Block::Paragraph(vec![
        link(vec![word("Target")], "#Target", Classifier::Magic),
        Inline::Space,
        Inline::Span("x".to_string(), Vec::new(), vec![word("Target")]),
    ])];
    resolve_links(&mut blocks);
    assert_eq!(
        target_of(&blocks[0], 0),
        LinkTarget { destination: "#x".to_string(), classifier: Classifier::Resolved }
    );
}

#[test]
fn magic_link_prefers_span_over_heading() {
    let mut blocks = vec![
        Block::Heading(1, "Target1".to_string(), vec![word("Target")]),
        Block::Paragraph(vec![
            Inline::Span("x".to_string(), Vec::new(), vec![word("Target")]),
            link(vec![word("Target")], "#Target", Classifier::Magic),
        ]),
    ];
    resolve_links(&mut blocks);
    assert_eq!(target_of(&blocks[1], 1).destination, "#x");
}

#[test]
fn magic_link_falls_back_to_heading() {
    let mut blocks = vec![
        Block::Paragraph(vec![link(
            vec![word("My"), Inline::Space, word("Title")],
            "#My Title",
            Classifier::Magic,
        )]),
        Block::Div(
            Vec::new(),
            vec![Block::Heading(2, "My Title2".to_string(), vec![word("My"), Inline::Space, word("Title")])],
        ),
    ];
    resolve_links(&mut blocks);
    assert_eq!(
        target_of(&blocks[0], 0),
        LinkTarget { destination: "#My Title2".to_string(), classifier: Classifier::Resolved }
    );
}

#[test]
fn anchor_declaration_takes_destination_of_later_definition() {
    let mut blocks = vec![
        Block::Paragraph(vec![link(vec![word("See")], "", Classifier::Anchor)]),
        Block::Paragraph(vec![link(vec![word("See")], "http://example.com", Classifier::Anchor)]),
    ];
    resolve_links(&mut blocks);
    assert_eq!(
        target_of(&blocks[0], 0),
        LinkTarget {
            destination: "http://example.com".to_string(),
            classifier: Classifier::Resolved,
        }
    );
    assert_eq!(
        target_of(&blocks[1], 0),
        LinkTarget {
            destination: "http://example.com".to_string(),
            classifier: Classifier::Resolved,
        }
    );
}

#[test]
fn several_declarations_share_one_definition() {
    let mut blocks = vec![Block::Paragraph(vec![
        link(vec![word("See")], "", Classifier::Anchor),
        link(vec![word("See")], "file.norg", Classifier::Anchor),
        link(vec![word("See")], "", Classifier::Anchor),
    ])];
    resolve_links(&mut blocks);
    assert_eq!(target_of(&blocks[0], 0).destination, "file.norg");
    assert_eq!(target_of(&blocks[0], 2).destination, "file.norg");
}

#[test]
fn unmatched_magic_link_leads_to_empty_fragment() {
    let mut blocks = vec![Block::Paragraph(vec![link(
        vec![word("Nowhere")],
        "#Nowhere",
        Classifier::Magic,
    )])];
    resolve_links(&mut blocks);
    assert_eq!(
        target_of(&blocks[0], 0),
        LinkTarget { destination: "#".to_string(), classifier: Classifier::Resolved }
    );
}

#[test]
fn unmatched_wiki_link_and_anchor_lead_to_empty_fragment() {
    let mut blocks = vec![Block::Paragraph(vec![
        link(vec![word("Page")], "#Page", Classifier::Wiki),
        link(vec![word("Lost")], "", Classifier::Anchor),
    ])];
    resolve_links(&mut blocks);
    assert_eq!(target_of(&blocks[0], 0).destination, "#");
    assert_eq!(target_of(&blocks[0], 1).destination, "#");
    assert_eq!(target_of(&blocks[0], 1).classifier, Classifier::Resolved);
}

#[test]
fn wiki_link_ignores_spans() {
    let mut blocks = vec![
        Block::Paragraph(vec![
            Inline::Span("x".to_string(), Vec::new(), vec![word("Page")]),
            link(vec![word("Page")], "#Page", Classifier::Wiki),
        ]),
        Block::Heading(1, "Page1".to_string(), vec![word("Page")]),
    ];
    resolve_links(&mut blocks);
    assert_eq!(target_of(&blocks[0], 1).destination, "#Page1");
}

#[test]
fn later_heading_of_same_text_wins() {
    let mut blocks = vec![
        Block::Heading(1, "A1".to_string(), vec![word("A")]),
        Block::Heading(2, "A2".to_string(), vec![word("A")]),
        Block::Paragraph(vec![link(vec![word("A")], "#A", Classifier::Magic)]),
    ];
    resolve_links(&mut blocks);
    assert_eq!(target_of(&blocks[2], 0).destination, "#A2");
}

#[test]
fn second_pass_changes_nothing() {
    let mut blocks = vec![
        Block::Heading(1, "A1".to_string(), vec![word("A")]),
        Block::List(
            norg_pandoc_ast::syntax::ListKind::Unordered,
            vec![vec![Block::Paragraph(vec![Inline::Styled(
                Style::Emph,
                vec![link(vec![word("A")], "#A", Classifier::Magic)],
            )])]],
        ),
        Block::BlockQuote(vec![Block::Paragraph(vec![
            link(vec![word("See")], "", Classifier::Anchor),
            link(vec![word("B")], "#B", Classifier::Wiki),
        ])]),
        Block::CodeBlock(vec!["rust".to_string()], "fn main() {}".to_string()),
    ];
    resolve_links(&mut blocks);
    let once = format!("{:?}", blocks);
    resolve_links(&mut blocks);
    assert_eq!(format!("{:?}", blocks), once);
    assert!(!once.contains("Magic"));
    assert!(!once.contains("Wiki"));
    assert!(!once.contains("Anchor"));
}

#[test]
fn links_inside_link_descriptions_are_resolved() {
    let mut blocks = vec![
        Block::Heading(3, "In3".to_string(), vec![word("In")]),
        Block::Paragraph(vec![link(
            vec![link(vec![word("In")], "#In", Classifier::Magic)],
            "http://out",
            Classifier::Resolved,
        )]),
    ];
    resolve_links(&mut blocks);
    match &blocks[1] {
        Block::Paragraph(inlines) => match &inlines[0] {
            Inline::Link(_, description, target) => {
                assert_eq!(target.destination, "http://out");
                assert_eq!(
                    description[0],
                    link(vec![word("In")], "#In3", Classifier::Resolved)
                );
            }
            other => panic!("not a link: {:?}", other),
        },
        other => panic!("not a paragraph: {:?}", other),
    }
}
