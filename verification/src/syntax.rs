//! The syntax tree that lowering consumes: one node per production of the
//! grammar, with its kind decided once, when the node is made.

use vstd::prelude::*;
use crate::text::{
    chars_of, ends_with, is_prefix, is_suffix, level_of, read_level, spells, starts_with,
};

verus! {

/// The emphasis-like styles that wrap a run of inlines.
#[derive(Clone, Copy, Debug, PartialEq, Eq, Structural)]
pub enum Style {
    Emph,
    Strong,
    Underline,
    Strikeout,
    Superscript,
    Subscript,
}

/// The two kinds of list.
#[derive(Clone, Copy, Debug, PartialEq, Eq, Structural)]
pub enum ListKind {
    Unordered,
    Ordered,
}

/// What a node is, as far as lowering tells nodes apart.
#[derive(Clone, Copy, Debug, PartialEq, Eq, Structural)]
pub enum NodeKind {
    /// A word or a punctuation mark.
    Word,
    /// A run of blanks.
    Space,
    /// A line break inside a paragraph.
    LineBreak,
    /// The break that ends a paragraph.
    ParagraphBreak,
    /// A backslash and the character it escapes.
    Escape,
    /// An attached modifier that styles its content.
    Styled(Style),
    Spoiler,
    /// Inline verbatim text between its delimiters.
    Verbatim,
    Link,
    AnchorDeclaration,
    AnchorDefinition,
    Paragraph,
    /// One line of a paragraph.
    Segment,
    /// The token that opens a link part.
    Begin,
    /// The token that closes a link part.
    End,
    /// An opening or closing delimiter of an attached modifier.
    Delimiter,
    /// The node that holds the items of a list.
    List,
    /// The node that holds the items of a quote.
    Quote,
    /// A heading and its nesting level.
    Heading(u64),
    /// A list item, its list kind and its depth.
    ListItem(ListKind, u64),
    /// A quote item and its depth.
    QuoteItem(u64),
    /// A ranged verbatim tag: a name, parameters and raw content.
    VerbatimTag,
    /// A tag of one line.
    InfirmTag,
    HorizontalRule,
    /// A delimiter line between paragraphs.
    WeakDelimiter,
    TagParameters,
    TagParameter,
    TagContent,
    /// The extension of a detached modifier, such as a todo state.
    Extension,
    TodoUrgent,
    TargetUrl,
    TargetFile,
    TargetExternalFile,
    TargetLine,
    /// A link to a heading of the given level.
    TargetHeading(u64),
    TargetGeneric,
    TargetWiki,
    /// A kind that should carry a nesting level and carries none that can be read.
    Malformed,
    Unrecognized,
}

/// The kind that a grammar name stands for. Exact names come first, then the
/// families of names that end in a nesting level, then the delimiters, which
/// are known by their ending.
pub open spec fn kind_of(name: Seq<char>) -> NodeKind {
    if name == "word"@ || name == "punctuation"@ || name == "_word"@ {
        NodeKind::Word
    } else if name == "whitespace"@ || name == "_space"@ {
        NodeKind::Space
    } else if name == "soft_break"@ || name == "_line_break"@ {
        NodeKind::LineBreak
    } else if name == "paragraph_break"@ || name == "_paragraph_break"@ {
        NodeKind::ParagraphBreak
    } else if name == "escape_sequence"@ {
        NodeKind::Escape
    } else if name == "bold"@ {
        NodeKind::Styled(Style::Strong)
    } else if name == "italic"@ {
        NodeKind::Styled(Style::Emph)
    } else if name == "underline"@ {
        NodeKind::Styled(Style::Underline)
    } else if name == "strikethrough"@ {
        NodeKind::Styled(Style::Strikeout)
    } else if name == "superscript"@ {
        NodeKind::Styled(Style::Superscript)
    } else if name == "subscript"@ {
        NodeKind::Styled(Style::Subscript)
    } else if name == "spoiler"@ {
        NodeKind::Spoiler
    } else if name == "verbatim"@ {
        NodeKind::Verbatim
    } else if name == "link"@ {
        NodeKind::Link
    } else if name == "anchor_declaration"@ {
        NodeKind::AnchorDeclaration
    } else if name == "anchor_definition"@ {
        NodeKind::AnchorDefinition
    } else if name == "paragraph"@ {
        NodeKind::Paragraph
    } else if name == "paragraph_segment"@ {
        NodeKind::Segment
    } else if name == "_begin"@ {
        NodeKind::Begin
    } else if name == "_end"@ {
        NodeKind::End
    } else if name == "generic_list"@ {
        NodeKind::List
    } else if name == "quote"@ {
        NodeKind::Quote
    } else if name == "ranged_verbatim_tag"@ {
        NodeKind::VerbatimTag
    } else if name == "infirm_tag"@ {
        NodeKind::InfirmTag
    } else if name == "horizontal_line"@ || name == "horizontal_rule"@ {
        NodeKind::HorizontalRule
    } else if name == "weak_paragraph_delimiter"@ {
        NodeKind::WeakDelimiter
    } else if name == "tag_parameters"@ {
        NodeKind::TagParameters
    } else if name == "tag_param"@ {
        NodeKind::TagParameter
    } else if name == "ranged_verbatim_tag_content"@ {
        NodeKind::TagContent
    } else if name == "detached_modifier_extension"@ {
        NodeKind::Extension
    } else if name == "todo_item_urgent"@ {
        NodeKind::TodoUrgent
    } else if name == "link_target_url"@ {
        NodeKind::TargetUrl
    } else if name == "link_file_text"@ {
        NodeKind::TargetFile
    } else if name == "link_target_external_file"@ {
        NodeKind::TargetExternalFile
    } else if name == "link_target_line_number"@ {
        NodeKind::TargetLine
    } else if name == "link_target_generic"@ {
        NodeKind::TargetGeneric
    } else if name == "link_target_wiki"@ {
        NodeKind::TargetWiki
    } else if is_prefix("link_target_heading"@, name) {
        match level_of(name) {
            Some(level) => NodeKind::TargetHeading(level),
            None => NodeKind::Malformed,
        }
    } else if is_prefix("heading"@, name) {
        match level_of(name) {
            Some(level) => NodeKind::Heading(level),
            None => NodeKind::Malformed,
        }
    } else if is_prefix("unordered_list"@, name) {
        match level_of(name) {
            Some(depth) => NodeKind::ListItem(ListKind::Unordered, depth),
            None => NodeKind::Malformed,
        }
    } else if is_prefix("ordered_list"@, name) {
        match level_of(name) {
            Some(depth) => NodeKind::ListItem(ListKind::Ordered, depth),
            None => NodeKind::Malformed,
        }
    } else if is_prefix("quote"@, name) {
        match level_of(name) {
            Some(depth) => NodeKind::QuoteItem(depth),
            None => NodeKind::Malformed,
        }
    } else if is_suffix("close"@, name) || is_suffix("open"@, name) {
        NodeKind::Delimiter
    } else {
        NodeKind::Unrecognized
    }
}

/// Decides the kind of a node from its grammar name.
pub fn classify(name: &str) -> (kind: NodeKind)
    ensures
        kind == kind_of(name@),
{
    let s = chars_of(name);
    if spells(&s, "word") || spells(&s, "punctuation") || spells(&s, "_word") {
        NodeKind::Word
    } else if spells(&s, "whitespace") || spells(&s, "_space") {
        NodeKind::Space
    } else if spells(&s, "soft_break") || spells(&s, "_line_break") {
        NodeKind::LineBreak
    } else if spells(&s, "paragraph_break") || spells(&s, "_paragraph_break") {
        NodeKind::ParagraphBreak
    } else if spells(&s, "escape_sequence") {
        NodeKind::Escape
    } else if spells(&s, "bold") {
        NodeKind::Styled(Style::Strong)
    } else if spells(&s, "italic") {
        NodeKind::Styled(Style::Emph)
    } else if spells(&s, "underline") {
        NodeKind::Styled(Style::Underline)
    } else if spells(&s, "strikethrough") {
        NodeKind::Styled(Style::Strikeout)
    } else if spells(&s, "superscript") {
        NodeKind::Styled(Style::Superscript)
    } else if spells(&s, "subscript") {
        NodeKind::Styled(Style::Subscript)
    } else if spells(&s, "spoiler") {
        NodeKind::Spoiler
    } else if spells(&s, "verbatim") {
        NodeKind::Verbatim
    } else if spells(&s, "link") {
        NodeKind::Link
    } else if spells(&s, "anchor_declaration") {
        NodeKind::AnchorDeclaration
    } else if spells(&s, "anchor_definition") {
        NodeKind::AnchorDefinition
    } else if spells(&s, "paragraph") {
        NodeKind::Paragraph
    } else if spells(&s, "paragraph_segment") {
        NodeKind::Segment
    } else if spells(&s, "_begin") {
        NodeKind::Begin
    } else if spells(&s, "_end") {
        NodeKind::End
    } else if spells(&s, "generic_list") {
        NodeKind::List
    } else if spells(&s, "quote") {
        NodeKind::Quote
    } else if spells(&s, "ranged_verbatim_tag") {
        NodeKind::VerbatimTag
    } else if spells(&s, "infirm_tag") {
        NodeKind::InfirmTag
    } else if spells(&s, "horizontal_line") || spells(&s, "horizontal_rule") {
        NodeKind::HorizontalRule
    } else if spells(&s, "weak_paragraph_delimiter") {
        NodeKind::WeakDelimiter
    } else if spells(&s, "tag_parameters") {
        NodeKind::TagParameters
    } else if spells(&s, "tag_param") {
        NodeKind::TagParameter
    } else if spells(&s, "ranged_verbatim_tag_content") {
        NodeKind::TagContent
    } else if spells(&s, "detached_modifier_extension") {
        NodeKind::Extension
    } else if spells(&s, "todo_item_urgent") {
        NodeKind::TodoUrgent
    } else if spells(&s, "link_target_url") {
        NodeKind::TargetUrl
    } else if spells(&s, "link_file_text") {
        NodeKind::TargetFile
    } else if spells(&s, "link_target_external_file") {
        NodeKind::TargetExternalFile
    } else if spells(&s, "link_target_line_number") {
        NodeKind::TargetLine
    } else if spells(&s, "link_target_generic") {
        NodeKind::TargetGeneric
    } else if spells(&s, "link_target_wiki") {
        NodeKind::TargetWiki
    } else if starts_with(&s, "link_target_heading") {
        match read_level(&s) {
            Some(level) => NodeKind::TargetHeading(level),
            None => NodeKind::Malformed,
        }
    } else if starts_with(&s, "heading") {
        match read_level(&s) {
            Some(level) => NodeKind::Heading(level),
            None => NodeKind::Malformed,
        }
    } else if starts_with(&s, "unordered_list") {
        match read_level(&s) {
            Some(depth) => NodeKind::ListItem(ListKind::Unordered, depth),
            None => NodeKind::Malformed,
        }
    } else if starts_with(&s, "ordered_list") {
        match read_level(&s) {
            Some(depth) => NodeKind::ListItem(ListKind::Ordered, depth),
            None => NodeKind::Malformed,
        }
    } else if starts_with(&s, "quote") {
        match read_level(&s) {
            Some(depth) => NodeKind::QuoteItem(depth),
            None => NodeKind::Malformed,
        }
    } else if ends_with(&s, "close") || ends_with(&s, "open") {
        NodeKind::Delimiter
    } else {
        NodeKind::Unrecognized
    }
}

/// A node of the syntax tree.
#[derive(Debug, PartialEq, Eq)]
pub struct SyntaxNode {
    /// What the node is.
    pub kind: NodeKind,
    /// The grammar's name for the node, kept for diagnostics.
    pub label: String,
    /// The source text that the node spans.
    pub text: String,
    /// The offset in the source at which the node starts.
    pub position: usize,
    /// The nodes below this one, in source order.
    pub children: Vec<SyntaxNode>,
}

impl SyntaxNode {
    /// Makes a node from the grammar's name for it, deciding its kind.
    pub fn new(label: &str, text: &str, position: usize, children: Vec<SyntaxNode>) -> (node: Self)
        ensures
            node.kind == kind_of(label@),
            node.label@ == label@,
            node.text@ == text@,
            node.position == position,
            node.children == children,
    {
        SyntaxNode {
            kind: classify(label),
            label: String::from_str(label),
            text: String::from_str(text),
            position,
            children,
        }
    }

    /// Makes a node without children.
    pub fn leaf(label: &str, text: &str, position: usize) -> (node: Self)
        ensures
            node.kind == kind_of(label@),
            node.label@ == label@,
            node.text@ == text@,
            node.position == position,
            node.children@.len() == 0,
    {
        SyntaxNode::new(label, text, position, Vec::new())
    }
}

} // verus!
