use norg_pandoc_ast::block;
use norg_pandoc_ast::block::tags::verbatim;
use norg_pandoc_ast::document;
use norg_pandoc_ast::model::{
    Answer, Block, Classifier, Context, Diagnostic, Fragment, Inline, LinkTarget, Outcome, Section,
};
use norg_pandoc_ast::syntax::{classify, ListKind, NodeKind, Style, SyntaxNode};

fn ctx() -> Context {
    Context { extension: ".html".to_string(), home: Some("/home/jane".to_string()), tables: Vec::new() }
}

fn leaf(label: &str, text: &str) -> SyntaxNode {
    SyntaxNode::leaf(label, text, 0)
}

fn node(label: &str, children: Vec<SyntaxNode>) -> SyntaxNode {
    SyntaxNode::new(label, "", 0, children)
}

fn word(text: &str) -> Inline {
    Inline::Str(text.to_string())
}

fn words(text: &str) -> SyntaxNode {
    node("paragraph_segment", vec![leaf("word", text)])
}

fn inlines(nodes: Vec<SyntaxNode>) -> Vec<Inline> {
    let fragment = norg_pandoc_ast::inline::parse(&nodes, &ctx()).unwrap();
    assert_eq!(fragment.diagnostics, Vec::new());
    fragment.inlines
}

#[test]
fn kinds_are_read_from_names() {
    assert_eq!(classify("word"), NodeKind::Word);
    assert_eq!(classify("punctuation"), NodeKind::Word);
    assert_eq!(classify("bold"), NodeKind::Styled(Style::Strong));
    assert_eq!(classify("italic"), NodeKind::Styled(Style::Emph));
    assert_eq!(classify("heading3"), NodeKind::Heading(3));
    assert_eq!(classify("heading12"), NodeKind::Heading(12));
    assert_eq!(classify("heading"), NodeKind::Malformed);
    assert_eq!(classify("heading1_prefix"), NodeKind::Malformed);
    assert_eq!(classify("unordered_list2"), NodeKind::ListItem(ListKind::Unordered, 2));
    assert_eq!(classify("ordered_list1"), NodeKind::ListItem(ListKind::Ordered, 1));
    assert_eq!(classify("quote"), NodeKind::Quote);
    assert_eq!(classify("quote4"), NodeKind::QuoteItem(4));
    assert_eq!(classify("link_target_heading2"), NodeKind::TargetHeading(2));
    assert_eq!(classify("verbatim_close"), NodeKind::Delimiter);
    assert_eq!(classify("bold_open"), NodeKind::Delimiter);
    assert_eq!(classify("something_else"), NodeKind::Unrecognized);
    assert_eq!(classify("heading99999999999999999999"), NodeKind::Malformed);
    assert_eq!(classify("heading18446744073709551615"), NodeKind::Heading(u64::MAX));
}

#[test]
fn words_blanks_and_breaks() {
    assert_eq!(
        inlines(vec![
            leaf("word", "Hello"),
            leaf("whitespace", " "),
            leaf("word", "world"),
            leaf("punctuation", "!"),
            leaf("soft_break", "\n"),
            leaf("word", "Next"),
        ]),
        vec![
            word("Hello"),
            Inline::Space,
            word("world"),
            word("!"),
            Inline::SoftBreak,
            word("Next"),
        ]
    );
}

#[test]
fn final_break_is_dropped() {
    assert_eq!(
        inlines(vec![leaf("word", "end"), leaf("paragraph_break", "\n\n")]),
        vec![word("end")]
    );
    assert_eq!(inlines(vec![leaf("soft_break", "\n")]), Vec::new());
}

#[test]
fn only_one_final_break_is_dropped() {
    assert_eq!(
        inlines(vec![leaf("word", "a"), leaf("whitespace", " "), leaf("soft_break", "\n")]),
        vec![word("a"), Inline::Space]
    );
    assert_eq!(
        inlines(vec![leaf("soft_break", "\n"), leaf("soft_break", "\n")]),
        vec![Inline::SoftBreak]
    );
}

#[test]
fn break_before_closing_delimiter_stays() {
    assert_eq!(
        inlines(vec![leaf("soft_break", "\n"), leaf("bold_close", "*")]),
        vec![Inline::SoftBreak]
    );
}

#[test]
fn escape_sequence_gives_escaped_character() {
    assert_eq!(inlines(vec![leaf("escape_sequence", "\\*")]), vec![word("*")]);
    assert_eq!(inlines(vec![leaf("escape_sequence", "\\é")]), vec![word("é")]);
    assert_eq!(inlines(vec![leaf("escape_sequence", "")]), vec![word("")]);
}

#[test]
fn attached_modifiers_wrap_their_children() {
    let bold = node(
        "bold",
        vec![leaf("bold_open", "*"), leaf("word", "strong"), leaf("bold_close", "*")],
    );
    assert_eq!(inlines(vec![bold]), vec![Inline::Styled(Style::Strong, vec![word("strong")])]);
    let nested = node(
        "italic",
        vec![node("underline", vec![leaf("word", "x")]), leaf("whitespace", " ")],
    );
    assert_eq!(
        inlines(vec![nested]),
        vec![Inline::Styled(
            Style::Emph,
            vec![Inline::Styled(Style::Underline, vec![word("x")]), Inline::Space]
        )]
    );
    for (label, style) in [
        ("strikethrough", Style::Strikeout),
        ("superscript", Style::Superscript),
        ("subscript", Style::Subscript),
    ] {
        assert_eq!(
            inlines(vec![node(label, vec![leaf("word", "x")])]),
            vec![Inline::Styled(style, vec![word("x")])]
        );
    }
}

#[test]
fn spoiler_becomes_span() {
    assert_eq!(
        inlines(vec![node("spoiler", vec![leaf("word", "secret")])]),
        vec![Inline::Span(String::new(), vec!["spoiler".to_string()], vec![word("secret")])]
    );
}

#[test]
fn verbatim_loses_its_delimiters() {
    assert_eq!(
        inlines(vec![leaf("verbatim", "`let x = *y*;`")]),
        vec![Inline::Code("let x = *y*;".to_string())]
    );
    assert_eq!(inlines(vec![leaf("verbatim", "``")]), vec![Inline::Code(String::new())]);
    assert_eq!(inlines(vec![leaf("verbatim", "`")]), vec![Inline::Code(String::new())]);
}

#[test]
fn attached_modifier_without_children_is_a_fault() {
    let bold = SyntaxNode::new("bold", "**", 17, Vec::new());
    assert_eq!(
        norg_pandoc_ast::inline::parse(&vec![leaf("word", "a"), bold, leaf("word", "b")], &ctx()),
        Err(Diagnostic { kind: "bold".to_string(), position: 17 })
    );
}

#[test]
fn unrecognized_inline_becomes_text_with_a_note() {
    let odd = SyntaxNode::leaf("inline_math", "$x$", 5);
    assert_eq!(
        norg_pandoc_ast::inline::parse(&vec![odd], &ctx()),
        Ok(Fragment {
            inlines: vec![word("$x$")],
            diagnostics: vec![Diagnostic { kind: "inline_math".to_string(), position: 5 }],
        })
    );
}

#[test]
fn plain_text_of_inlines() {
    let run = vec![
        word("A"),
        Inline::Space,
        Inline::Styled(Style::Strong, vec![word("b"), Inline::SoftBreak, word("c")]),
        Inline::Code("d".to_string()),
        Inline::Image("e.png".to_string()),
        Inline::Link(
            Vec::new(),
            vec![word("f")],
            LinkTarget { destination: "g".to_string(), classifier: Classifier::Resolved },
        ),
        Inline::Span("id".to_string(), Vec::new(), vec![word("h")]),
    ];
    assert_eq!(norg_pandoc_ast::inline::to_string(&run), "A b cdfh");
    assert_eq!(norg_pandoc_ast::inline::render_from(&run, 2), "b cdfh");
    assert_eq!(norg_pandoc_ast::inline::render_from(&run, 7), "");
}

fn link_to(target: Vec<SyntaxNode>, description: Option<Vec<SyntaxNode>>) -> SyntaxNode {
    let mut children = vec![node("link_location", target)];
    if let Some(description) = description {
        children.push(node("link_description", description));
    }
    node("link", children)
}

fn only_link(nodes: Vec<SyntaxNode>) -> (Vec<Inline>, LinkTarget) {
    let mut found = inlines(nodes);
    assert_eq!(found.len(), 1);
    match found.pop().unwrap() {
        Inline::Link(classes, description, target) => {
            assert_eq!(classes, Vec::<String>::new());
            (description, target)
        }
        other => panic!("not a link: {:?}", other),
    }
}

fn resolved(destination: &str) -> LinkTarget {
    LinkTarget { destination: destination.to_string(), classifier: Classifier::Resolved }
}

#[test]
fn url_link() {
    let link = link_to(
        vec![leaf("_begin", "{"), leaf("link_target_url", ""), leaf("link_target_text", "https://x.org")],
        None,
    );
    assert_eq!(only_link(vec![link]), (vec![word("https://x.org")], resolved("https://x.org")));
}

#[test]
fn link_with_description() {
    let link = link_to(
        vec![leaf("link_target_url", ""), leaf("link_target_text", "https://x.org")],
        Some(vec![leaf("word", "here"), leaf("soft_break", "\n")]),
    );
    assert_eq!(only_link(vec![link]), (vec![word("here")], resolved("https://x.org")));
}

#[test]
fn file_link_gets_extension() {
    let link = link_to(vec![leaf("link_file_text", "notes/todo"), leaf("_end", ":")], None);
    assert_eq!(only_link(vec![link]), (vec![word("notes/todo")], resolved("notes/todo.html")));
    let alone = link_to(vec![leaf("link_file_text", "notes/todo")], None);
    assert_eq!(only_link(vec![alone]), (vec![word("notes/todo")], resolved("notes/todo.html")));
}

#[test]
fn file_link_with_line_number() {
    let link = link_to(
        vec![
            leaf("_begin", ":"),
            leaf("link_file_text", "notes"),
            leaf("_end", ":"),
            leaf("link_target_line_number", ""),
            leaf("link_target_text", "12"),
        ],
        None,
    );
    assert_eq!(
        only_link(vec![link]),
        (vec![word("notes"), Inline::Space, word("Line 12")], resolved("notes.html#L12"))
    );
}

#[test]
fn file_link_with_heading() {
    let link = link_to(
        vec![
            leaf("link_file_text", "notes"),
            leaf("_end", ":"),
            leaf("link_target_heading2", "**"),
            node("link_target_text", vec![leaf("word", "Plans")]),
        ],
        None,
    );
    assert_eq!(
        only_link(vec![link]),
        (vec![word("notes"), Inline::Space, word("Plans")], resolved("notes.html#Plans2"))
    );
}

#[test]
fn outside_file_link_expands_home() {
    let link = link_to(
        vec![leaf("link_target_external_file", "/"), leaf("link_target_text", "~/doc/~a.pdf")],
        None,
    );
    assert_eq!(
        only_link(vec![link]),
        (vec![word("/home/jane/doc//home/janea.pdf")], resolved("/home/jane/doc//home/janea.pdf"))
    );
}

#[test]
fn line_number_link() {
    let link = link_to(vec![leaf("link_target_line_number", ""), leaf("link_target_text", "7")], None);
    assert_eq!(only_link(vec![link]), (vec![word("Line 7")], resolved("#L7")));
}

#[test]
fn heading_link_carries_level() {
    let link = link_to(
        vec![
            leaf("link_target_heading3", "***"),
            node("link_target_text", vec![leaf("word", "My"), leaf("whitespace", " "), leaf("word", "Title")]),
        ],
        None,
    );
    assert_eq!(
        only_link(vec![link]),
        (vec![word("My"), Inline::Space, word("Title")], resolved("#My Title3"))
    );
}

#[test]
fn magic_and_wiki_links_are_left_for_resolution() {
    let magic = link_to(
        vec![leaf("link_target_generic", "#"), node("link_target_text", vec![leaf("word", "Thing")])],
        None,
    );
    assert_eq!(
        only_link(vec![magic]),
        (
            vec![word("Thing")],
            LinkTarget { destination: "#Thing".to_string(), classifier: Classifier::Magic }
        )
    );
    let wiki = link_to(
        vec![leaf("link_target_wiki", "?"), node("link_target_text", vec![leaf("word", "Thing")])],
        Some(vec![leaf("word", "shown")]),
    );
    assert_eq!(
        only_link(vec![wiki]),
        (
            vec![word("shown")],
            LinkTarget { destination: "#Thing".to_string(), classifier: Classifier::Wiki }
        )
    );
}

#[test]
fn faults_in_links_name_the_node() {
    let empty = SyntaxNode::new("link", "{}", 3, Vec::new());
    assert_eq!(
        norg_pandoc_ast::inline::parse(&vec![empty], &ctx()),
        Err(Diagnostic { kind: "link".to_string(), position: 3 })
    );
    let no_text = link_to(vec![SyntaxNode::leaf("link_target_url", "", 9)], None);
    assert_eq!(
        norg_pandoc_ast::inline::parse(&vec![no_text], &ctx()),
        Err(Diagnostic { kind: "link_target_url".to_string(), position: 9 })
    );
    let only_begin = link_to(vec![leaf("_begin", "{"), SyntaxNode::leaf("_begin", "{", 4)], None);
    assert_eq!(
        norg_pandoc_ast::inline::parse(&vec![only_begin], &ctx()),
        Err(Diagnostic { kind: "_begin".to_string(), position: 4 })
    );
    let unknown = link_to(vec![SyntaxNode::leaf("link_target_timestamp", "@", 2)], None);
    assert_eq!(
        norg_pandoc_ast::inline::parse(&vec![unknown], &ctx()),
        Err(Diagnostic { kind: "link_target_timestamp".to_string(), position: 2 })
    );
}

#[test]
fn target_is_read_from_any_position() {
    let nodes = vec![
        leaf("link_file_text", "a"),
        leaf("_end", ":"),
        leaf("_begin", "{"),
        leaf("link_target_line_number", ""),
        leaf("link_target_text", "3"),
    ];
    let whole = norg_pandoc_ast::inline::link::parse_target(&nodes, 0, &ctx()).unwrap();
    assert_eq!(whole.target, resolved("a.html#L3"));
    assert_eq!(whole.description, vec![word("a"), Inline::Space, word("Line 3")]);
    assert_eq!(whole.diagnostics, Vec::new());
    let tail = norg_pandoc_ast::inline::link::parse_target(&nodes, 2, &ctx()).unwrap();
    assert_eq!(tail.target, resolved("#L3"));
    assert_eq!(
        norg_pandoc_ast::inline::link::parse_target(&nodes, 5, &ctx()),
        Err(Diagnostic { kind: String::new(), position: 0 })
    );
}

#[test]
fn outside_file_link_needs_a_home() {
    let homeless = Context { extension: ".html".to_string(), home: None, tables: Vec::new() };
    let link = link_to(
        vec![SyntaxNode::leaf("link_target_external_file", "/", 1), leaf("link_target_text", "~/a")],
        None,
    );
    assert_eq!(
        norg_pandoc_ast::inline::parse(&vec![link], &homeless),
        Err(Diagnostic { kind: "link_target_external_file".to_string(), position: 1 })
    );
}

#[test]
fn notes_of_a_link_come_in_reading_order() {
    let link = link_to(
        vec![
            leaf("link_target_generic", "#"),
            node("link_target_text", vec![SyntaxNode::leaf("odd_one", "x", 1)]),
        ],
        Some(vec![SyntaxNode::leaf("odd_two", "y", 2)]),
    );
    let fragment = norg_pandoc_ast::inline::parse(&vec![link], &ctx()).unwrap();
    assert_eq!(
        fragment.diagnostics,
        vec![
            Diagnostic { kind: "odd_one".to_string(), position: 1 },
            Diagnostic { kind: "odd_two".to_string(), position: 2 },
        ]
    );
    assert_eq!(
        fragment.inlines,
        vec![Inline::Link(
            Vec::new(),
            vec![word("y")],
            LinkTarget { destination: "#x".to_string(), classifier: Classifier::Magic }
        )]
    );
}

#[test]
fn anchors() {
    let declaration = node(
        "anchor_declaration",
        vec![node("link_description", vec![leaf("word", "See")])],
    );
    assert_eq!(
        only_link(vec![declaration]),
        (vec![word("See")], LinkTarget { destination: String::new(), classifier: Classifier::Anchor })
    );
    let definition = node(
        "anchor_definition",
        vec![
            node("link_description", vec![leaf("word", "See")]),
            node(
                "link_location",
                vec![leaf("link_target_url", ""), leaf("link_target_text", "http://example.com")],
            ),
        ],
    );
    assert_eq!(
        only_link(vec![definition]),
        (
            vec![word("See")],
            LinkTarget {
                destination: "http://example.com".to_string(),
                classifier: Classifier::Anchor
            }
        )
    );
}

fn blocks(nodes: Vec<SyntaxNode>) -> Vec<Block> {
    let section = block::parse(&nodes, &ctx()).unwrap();
    assert_eq!(section.diagnostics, Vec::new());
    section.blocks
}

fn para(text: &str) -> Block {
    Block::Paragraph(vec![word(text)])
}

fn item(label: &str, text: &str, nested: Vec<SyntaxNode>) -> SyntaxNode {
    let mut children = vec![leaf("prefix", "-"), node("paragraph", vec![words(text)])];
    children.extend(nested);
    node(label, children)
}

#[test]
fn paragraphs_and_delimiters() {
    assert_eq!(
        blocks(vec![
            node("paragraph", vec![words("one")]),
            leaf("_paragraph_break", "\n\n"),
            node("paragraph", vec![words("two")]),
            leaf("_line_break", "\n"),
            leaf("weak_paragraph_delimiter", "---"),
            leaf("horizontal_line", "___"),
        ]),
        vec![para("one"), para("two"), Block::HorizontalRule]
    );
    assert_eq!(blocks(vec![node("paragraph", Vec::new())]), vec![Block::Paragraph(Vec::new())]);
    assert_eq!(blocks(Vec::new()), Vec::new());
}

#[test]
fn unrecognized_block_becomes_text_with_a_note() {
    let odd = SyntaxNode::leaf("definition_list", "$ term", 40);
    assert_eq!(
        block::parse(&vec![odd], &ctx()),
        Ok(Section {
            blocks: vec![Block::Plain(vec![word("$ term")])],
            metadata: Vec::new(),
            diagnostics: vec![Diagnostic { kind: "definition_list".to_string(), position: 40 }],
        })
    );
}

#[test]
fn nested_list_from_tree() {
    let list = node(
        "generic_list",
        vec![
            item("unordered_list1", "a", vec![item("unordered_list2", "b", Vec::new())]),
            item("unordered_list1", "c", Vec::new()),
        ],
    );
    assert_eq!(
        blocks(vec![list]),
        vec![Block::List(
            ListKind::Unordered,
            vec![
                vec![para("a"), Block::List(ListKind::Unordered, vec![vec![para("b")]])],
                vec![para("c")],
            ]
        )]
    );
}

#[test]
fn list_that_starts_deep_is_wrapped() {
    let list = node("generic_list", vec![item("ordered_list3", "deep", Vec::new())]);
    assert_eq!(
        blocks(vec![list]),
        vec![Block::List(
            ListKind::Ordered,
            vec![vec![Block::List(
                ListKind::Ordered,
                vec![vec![Block::List(ListKind::Ordered, vec![vec![para("deep")]])]]
            )]]
        )]
    );
}

#[test]
fn skipped_levels_are_filled() {
    let list = node(
        "generic_list",
        vec![item("unordered_list1", "a", vec![item("ordered_list3", "b", Vec::new())])],
    );
    assert_eq!(
        blocks(vec![list]),
        vec![Block::List(
            ListKind::Unordered,
            vec![vec![
                para("a"),
                Block::List(
                    ListKind::Ordered,
                    vec![vec![Block::List(ListKind::Ordered, vec![vec![para("b")]])]]
                ),
            ]]
        )]
    );
}

#[test]
fn ascending_siblings_are_padded() {
    let list = node(
        "generic_list",
        vec![item("unordered_list2", "a", Vec::new()), item("unordered_list1", "b", Vec::new())],
    );
    assert_eq!(
        blocks(vec![list]),
        vec![Block::List(
            ListKind::Unordered,
            vec![
                vec![Block::List(ListKind::Unordered, vec![vec![para("a")]])],
                vec![para("b")],
            ]
        )]
    );
}

#[test]
fn urgent_todo_item_gets_marker() {
    let extension = node(
        "detached_modifier_extension",
        vec![leaf("_begin", "("), leaf("todo_item_urgent", "!"), leaf("_end", ")")],
    );
    let list = node(
        "generic_list",
        vec![node(
            "unordered_list1",
            vec![leaf("prefix", "-"), extension, node("paragraph", vec![words("now")])],
        )],
    );
    assert_eq!(
        blocks(vec![list]),
        vec![Block::List(
            ListKind::Unordered,
            vec![vec![Block::Paragraph(vec![
                Inline::Styled(
                    Style::Strong,
                    vec![Inline::Span(
                        String::new(),
                        vec!["todo".to_string(), "urgent".to_string()],
                        vec![word("(!)")]
                    )]
                ),
                Inline::Space,
                word("now"),
            ])]]
        )]
    );
}

#[test]
fn list_faults() {
    let empty = SyntaxNode::new("generic_list", "", 8, Vec::new());
    assert_eq!(
        block::parse(&vec![empty], &ctx()),
        Err(Diagnostic { kind: "generic_list".to_string(), position: 8 })
    );
    let stray = node("generic_list", vec![SyntaxNode::leaf("paragraph", "x", 2)]);
    assert_eq!(
        block::parse(&vec![stray], &ctx()),
        Err(Diagnostic { kind: "paragraph".to_string(), position: 2 })
    );
    let zero = node(
        "generic_list",
        vec![SyntaxNode::new(
            "unordered_list0",
            "",
            6,
            vec![leaf("prefix", ""), node("paragraph", vec![words("a")])],
        )],
    );
    assert_eq!(
        block::parse(&vec![zero], &ctx()),
        Err(Diagnostic { kind: "unordered_list0".to_string(), position: 6 })
    );
}

#[test]
fn nested_quote_from_tree() {
    let quote = node(
        "quote",
        vec![
            item("quote1", "a", vec![item("quote3", "b", Vec::new())]),
            item("quote1", "c", Vec::new()),
        ],
    );
    assert_eq!(
        blocks(vec![quote]),
        vec![Block::BlockQuote(vec![
            para("a"),
            Block::BlockQuote(vec![Block::BlockQuote(vec![para("b")])]),
            para("c"),
        ])]
    );
}

#[test]
fn quote_that_starts_deep() {
    let quote = node(
        "quote",
        vec![item("quote2", "a", Vec::new()), item("quote1", "b", Vec::new())],
    );
    assert_eq!(
        blocks(vec![quote]),
        vec![Block::BlockQuote(vec![Block::BlockQuote(vec![para("a")]), para("b")])]
    );
}

fn heading(level: &str, title: &str, content: Vec<SyntaxNode>) -> SyntaxNode {
    let mut children = vec![leaf("heading_prefix", "*"), words(title)];
    children.extend(content);
    node(level, children)
}

#[test]
fn heading_opens_a_section() {
    let tree = vec![heading(
        "heading1",
        "Top",
        vec![node("paragraph", vec![words("text")]), heading("heading2", "Sub", Vec::new())],
    )];
    assert_eq!(
        blocks(tree),
        vec![Block::Div(
            Vec::new(),
            vec![
                Block::Heading(1, "Top1".to_string(), vec![word("Top")]),
                para("text"),
                Block::Div(
                    Vec::new(),
                    vec![Block::Heading(2, "Sub2".to_string(), vec![word("Sub")])]
                ),
            ]
        )]
    );
}

#[test]
fn section_ends_at_heading_that_is_not_deeper() {
    let tree = vec![heading(
        "heading2",
        "A",
        vec![
            node("paragraph", vec![words("in")]),
            heading("heading2", "B", Vec::new()),
            node("paragraph", vec![words("out")]),
        ],
    )];
    assert_eq!(
        blocks(tree),
        vec![
            Block::Div(
                Vec::new(),
                vec![Block::Heading(2, "A2".to_string(), vec![word("A")]), para("in")]
            ),
            Block::Div(Vec::new(), vec![Block::Heading(2, "B2".to_string(), vec![word("B")])]),
            para("out"),
        ]
    );
}

#[test]
fn heading_marker_is_not_part_of_identifier() {
    let extension = node(
        "detached_modifier_extension",
        vec![leaf("_begin", "("), leaf("todo_item_urgent", "!"), leaf("_end", ")")],
    );
    let tree = vec![node("heading1", vec![leaf("heading_prefix", "*"), extension, words("Fix")])];
    match &blocks(tree)[0] {
        Block::Div(_, content) => match &content[0] {
            Block::Heading(level, id, text) => {
                assert_eq!(*level, 1);
                assert_eq!(id, "Fix1");
                assert_eq!(text.len(), 3);
                assert_eq!(text[2], word("Fix"));
            }
            other => panic!("not a heading: {:?}", other),
        },
        other => panic!("not a container: {:?}", other),
    }
}

#[test]
fn same_title_at_other_level_has_other_identifier() {
    let tree = vec![heading("heading1", "Same", Vec::new()), heading("heading2", "Same", Vec::new())];
    let found = blocks(tree);
    let id = |b: &Block| match b {
        Block::Div(_, content) => match &content[0] {
            Block::Heading(_, id, _) => id.clone(),
            other => panic!("not a heading: {:?}", other),
        },
        other => panic!("not a container: {:?}", other),
    };
    assert_eq!(id(&found[0]), "Same1");
    assert_eq!(id(&found[1]), "Same2");
    assert_ne!(id(&found[0]), id(&found[1]));
}

#[test]
fn heading_without_level_is_a_fault() {
    let bad = SyntaxNode::leaf("heading", "*", 30);
    assert_eq!(
        block::parse(&vec![bad], &ctx()),
        Err(Diagnostic { kind: "heading".to_string(), position: 30 })
    );
}

fn tag(name: &str, parameters: Vec<&str>, content: &str) -> SyntaxNode {
    let mut children = vec![leaf("_prefix", "@"), leaf("tag_name", name)];
    if !parameters.is_empty() {
        children.push(leaf("_space", " "));
        let mut list = Vec::new();
        for (i, p) in parameters.iter().enumerate() {
            if i > 0 {
                list.push(leaf("_space", " "));
            }
            list.push(leaf("tag_param", p));
        }
        children.push(node("tag_parameters", list));
    }
    children.push(leaf("_line_break", "\n"));
    children.push(leaf("ranged_verbatim_tag_content", content));
    children.push(leaf("ranged_verbatim_tag_end", "@end"));
    node("ranged_verbatim_tag", children)
}

#[test]
fn code_tag() {
    assert_eq!(
        blocks(vec![tag("code", vec!["rust", "numbered"], "fn main() {}\n")]),
        vec![Block::CodeBlock(
            vec!["rust".to_string(), "numbered".to_string()],
            "fn main() {}\n".to_string()
        )]
    );
    assert_eq!(
        blocks(vec![tag("code", Vec::new(), "plain")]),
        vec![Block::CodeBlock(Vec::new(), "plain".to_string())]
    );
}

#[test]
fn meta_tag_declares_metadata_and_no_block() {
    let tree = vec![tag("document.meta", Vec::new(), "authors: Jane Doe\ntitle: Demo")];
    let section = block::parse(&tree, &ctx()).unwrap();
    assert_eq!(section.blocks, Vec::new());
    assert_eq!(
        section.metadata,
        vec![
            ("author".to_string(), "Jane Doe".to_string()),
            ("title".to_string(), "Demo".to_string()),
        ]
    );
}

#[test]
fn meta_entries_are_split_at_first_colon_and_trimmed() {
    assert_eq!(
        verbatim::read_entries("  created : 2023-01-01T10:00:00 \n\n\t\nflag\nauthors:\n"),
        vec![
            ("created".to_string(), "2023-01-01T10:00:00".to_string()),
            ("flag".to_string(), String::new()),
            ("author".to_string(), String::new()),
        ]
    );
    assert_eq!(verbatim::read_entries(""), Vec::new());
}

#[test]
fn other_tag_becomes_code_block_with_its_name() {
    assert_eq!(
        blocks(vec![tag("math", vec!["inline"], "x^2")]),
        vec![Block::CodeBlock(
            vec!["math".to_string(), "inline".to_string()],
            "x^2".to_string()
        )]
    );
}

#[test]
fn table_tag_needs_a_converted_table() {
    let tree = vec![tag("table", vec!["wide"], "| a | b |")];
    assert_eq!(
        blocks(vec![tag("table", vec!["wide"], "| a | b |")]),
        vec![Block::CodeBlock(
            vec!["table".to_string(), "wide".to_string()],
            "| a | b |".to_string()
        )]
    );
    let with_tables = Context {
        extension: ".html".to_string(),
        home: Some("/home/jane".to_string()),
        tables: vec![
            Answer { content: "| x |".to_string(), outcome: Outcome::Blocks(1, true) },
            Answer { content: "| a | b |".to_string(), outcome: Outcome::Failed },
            Answer { content: "| a | b |".to_string(), outcome: Outcome::Blocks(2, true) },
            Answer { content: "| a | b |".to_string(), outcome: Outcome::Blocks(1, false) },
            Answer { content: "| a | b |".to_string(), outcome: Outcome::Blocks(1, true) },
        ],
    };
    assert_eq!(
        block::parse(&tree, &with_tables).unwrap().blocks,
        vec![Block::Div(vec!["wide".to_string()], vec![Block::Table(4)])]
    );
}

#[test]
fn only_a_single_table_is_a_table() {
    assert!(Outcome::Blocks(1, true).is_single_table());
    assert!(!Outcome::Blocks(1, false).is_single_table());
    assert!(!Outcome::Blocks(2, true).is_single_table());
    assert!(!Outcome::Blocks(0, false).is_single_table());
    assert!(!Outcome::Failed.is_single_table());
}

#[test]
fn table_that_the_renderer_failed_on_stays_a_code_block() {
    let failed = Context {
        extension: ".html".to_string(),
        home: None,
        tables: vec![Answer { content: "| a |".to_string(), outcome: Outcome::Failed }],
    };
    assert_eq!(
        block::parse(&vec![tag("table", Vec::new(), "| a |")], &failed).unwrap().blocks,
        vec![Block::CodeBlock(vec!["table".to_string()], "| a |".to_string())]
    );
}

#[test]
fn tag_without_content_is_a_fault() {
    let broken = node(
        "ranged_verbatim_tag",
        vec![leaf("_prefix", "@"), leaf("tag_name", "code"), SyntaxNode::leaf("_space", " ", 11)],
    );
    assert_eq!(
        block::parse(&vec![broken], &ctx()),
        Err(Diagnostic { kind: "_space".to_string(), position: 11 })
    );
}

#[test]
fn tag_requests_list_table_contents_in_order() {
    let root = node(
        "document",
        vec![
            tag("table", Vec::new(), "| a |"),
            tag("code", Vec::new(), "| b |"),
            heading("heading1", "T", vec![tag("table", vec!["x"], "| c |")]),
        ],
    );
    assert_eq!(
        verbatim::table_requests(&root),
        vec!["| a |".to_string(), "| c |".to_string()]
    );
}

#[test]
fn tags_by_their_own_functions() {
    let code = tag("code", vec!["lua"], "x = 1");
    assert_eq!(
        verbatim::code(&code).unwrap().block,
        Block::CodeBlock(vec!["lua".to_string()], "x = 1".to_string())
    );
    let meta = tag("document.meta", Vec::new(), "title: T");
    let declared = verbatim::meta(&meta).unwrap();
    assert_eq!(declared.block, Block::Null);
    assert_eq!(declared.metadata, vec![("title".to_string(), "T".to_string())]);
    let other = tag("example", Vec::new(), "e");
    assert_eq!(
        verbatim::general(&other, &ctx()).unwrap().block,
        Block::CodeBlock(vec!["example".to_string()], "e".to_string())
    );
    assert_eq!(verbatim::parse(&code, &ctx()), verbatim::code(&code));
    assert_eq!(verbatim::parse(&meta, &ctx()), verbatim::meta(&meta));
    assert_eq!(verbatim::parse(&other, &ctx()), verbatim::general(&other, &ctx()));
}

#[test]
fn parameter_list_without_parameters_is_a_fault() {
    let broken = node(
        "ranged_verbatim_tag",
        vec![
            leaf("_prefix", "@"),
            leaf("tag_name", "code"),
            leaf("_space", " "),
            SyntaxNode::new("tag_parameters", "", 6, Vec::new()),
            leaf("ranged_verbatim_tag_content", "x"),
        ],
    );
    assert_eq!(
        verbatim::code(&broken),
        Err(Diagnostic { kind: "tag_parameters".to_string(), position: 6 })
    );
}

#[test]
fn unknown_infirm_tag_becomes_text_with_a_note() {
    let odd = SyntaxNode::new(
        "infirm_tag",
        ".toc",
        9,
        vec![leaf("_prefix", "."), leaf("tag_name", "toc")],
    );
    assert_eq!(
        block::parse(&vec![odd], &ctx()),
        Ok(Section {
            blocks: vec![Block::Plain(vec![word(".toc")])],
            metadata: Vec::new(),
            diagnostics: vec![Diagnostic { kind: "infirm_tag".to_string(), position: 9 }],
        })
    );
}

#[test]
fn unknown_extension_gives_no_marker_and_a_note() {
    let extension = node(
        "detached_modifier_extension",
        vec![leaf("_begin", "("), SyntaxNode::leaf("todo_item_done", "x", 4), leaf("_end", ")")],
    );
    assert_eq!(
        norg_pandoc_ast::inline::detached_extension::parse(&extension),
        Ok(Fragment {
            inlines: Vec::new(),
            diagnostics: vec![Diagnostic { kind: "todo_item_done".to_string(), position: 4 }],
        })
    );
}

#[test]
fn image_tag() {
    let image = node(
        "infirm_tag",
        vec![
            leaf("_prefix", "."),
            leaf("tag_name", "image"),
            leaf("_space", " "),
            leaf("tag_param", "cat.png"),
        ],
    );
    assert_eq!(
        blocks(vec![image]),
        vec![Block::Plain(vec![Inline::Image("cat.png".to_string())])]
    );
}

#[test]
fn document_is_assembled_and_resolved() {
    let magic = link_to(
        vec![leaf("link_target_generic", "#"), node("link_target_text", vec![leaf("word", "Top")])],
        None,
    );
    let root = node(
        "document",
        vec![
            tag("document.meta", Vec::new(), "title: One\ntitle: Two"),
            node("paragraph", vec![node("paragraph_segment", vec![magic])]),
            heading("heading1", "Top", Vec::new()),
        ],
    );
    let lowering = document::parse(&root, &ctx(), vec![1, 23]).unwrap();
    assert_eq!(lowering.diagnostics, Vec::new());
    assert_eq!(lowering.document.version, vec![1, 23]);
    assert_eq!(lowering.document.metadata_value("title"), Some("Two".to_string()));
    assert_eq!(lowering.document.metadata_value("author"), None);
    assert_eq!(
        lowering.document.blocks,
        vec![
            Block::Paragraph(vec![Inline::Link(
                Vec::new(),
                vec![word("Top")],
                LinkTarget { destination: "#Top1".to_string(), classifier: Classifier::Resolved }
            )]),
            Block::Div(
                Vec::new(),
                vec![Block::Heading(1, "Top1".to_string(), vec![word("Top")])]
            ),
        ]
    );
}

#[test]
fn empty_document() {
    let root = node("document", Vec::new());
    let lowering = document::parse(&root, &ctx(), vec![1, 22, 2]).unwrap();
    assert_eq!(lowering.document.blocks, Vec::new());
    assert_eq!(lowering.document.metadata, Vec::new());
    assert_eq!(lowering.document.version, vec![1, 22, 2]);
}
