//! Lowering of inline nodes: a chain of sibling nodes becomes a run of inlines.

pub mod attached;
pub mod detached_extension;
pub mod link;

use vstd::prelude::*;
use crate::model::{
    Classifier, Context, Diagnostic, DiagnosticModel, Fragment, FragmentModel, Inline, InlineModel,
    inlines_model, join, lowered, plain, TargetModel,
};
use crate::syntax::{NodeKind, Style, SyntaxNode};
use crate::text::{
    decimal_text, drop_first, expand_home, inner_text, lemma_decimal_text_injective, without_first,
};

verus! {

/// The plain text of one inline: its words and blanks, without any markup.
pub open spec fn render_one(x: InlineModel) -> Seq<char>
    decreases x,
{
    match x {
        InlineModel::Str(s) => s,
        InlineModel::Space => seq![' '],
        InlineModel::SoftBreak => seq![' '],
        InlineModel::Styled(_, v) => render_upto(v, v.len() as int),
        InlineModel::Span(_, _, v) => render_upto(v, v.len() as int),
        InlineModel::Code(s) => s,
        InlineModel::Link(_, v, _) => render_upto(v, v.len() as int),
        InlineModel::Image(_) => Seq::empty(),
    }
}

/// The plain text of the first `upto` inlines of `v`.
pub open spec fn render_upto(v: Seq<InlineModel>, upto: int) -> Seq<char>
    decreases v, upto,
{
    if upto <= 0 || upto > v.len() {
        Seq::empty()
    } else {
        render_upto(v, upto - 1) + render_one(v[upto - 1])
    }
}

/// The plain text of a run of inlines.
pub open spec fn render(v: Seq<InlineModel>) -> Seq<char> {
    render_upto(v, v.len() as int)
}

/// Renders a run of inlines to plain text.
pub fn to_string(inlines: &Vec<Inline>) -> (r: String)
    ensures
        r@ == render(inlines_model(inlines@)),
    decreases inlines, 1nat,
{
    assert(inlines_model(inlines@).subrange(0, inlines@.len() as int) =~= inlines_model(inlines@));
    render_from(inlines, 0)
}

/// The inlines of `v` from index `from` on; none where `v` is shorter.
pub open spec fn tail_from(v: Seq<InlineModel>, from: int) -> Seq<InlineModel> {
    if 0 <= from <= v.len() {
        v.subrange(from, v.len() as int)
    } else {
        Seq::empty()
    }
}

/// Renders the inlines from index `from` on to plain text.
pub fn render_from(inlines: &Vec<Inline>, from: usize) -> (r: String)
    ensures
        r@ == render(tail_from(inlines_model(inlines@), from as int)),
    decreases inlines, 0nat,
{
    if from > inlines.len() {
        return String::new();
    }
    let ghost v = inlines_model(inlines@).subrange(from as int, inlines@.len() as int);
    let mut out = String::new();
    let mut i: usize = from;
    assert(out@ =~= render_upto(v, 0));
    while i < inlines.len()
        invariant
            from <= i <= inlines.len(),
            v == inlines_model(inlines@).subrange(from as int, inlines@.len() as int),
            out@ == render_upto(v, i - from),
        decreases inlines.len() - i,
    {
        assert(v[i - from] == inlines@[i as int]@);
        let ghost before = out@;
        let ghost x = inlines@[i as int]@;
        assert(render_upto(v, i - from + 1) == before + render_one(x));
        match &inlines[i] {
            Inline::Str(s) => {
                out.append(s.as_str());
            },
            Inline::Space => {
                proof {
                    reveal_strlit(" ");
                }
                assert(" "@ =~= seq![' ']);
                out.append(" ");
            },
            Inline::SoftBreak => {
                proof {
                    reveal_strlit(" ");
                }
                assert(" "@ =~= seq![' ']);
                out.append(" ");
            },
            Inline::Styled(_, inner) => {
                let t = to_string(inner);
                out.append(t.as_str());
            },
            Inline::Span(_, _, inner) => {
                let t = to_string(inner);
                out.append(t.as_str());
            },
            Inline::Code(s) => {
                out.append(s.as_str());
            },
            Inline::Link(_, inner, _) => {
                let t = to_string(inner);
                out.append(t.as_str());
            },
            Inline::Image(_) => {
                assert(out@ + Seq::<char>::empty() =~= out@);
            },
        }
        assert(out@ == before + render_one(x));
        i += 1;
    }
    out
}

/// The note that names a node: the grammar's name for it and where it starts.
pub open spec fn note(node: SyntaxNode) -> DiagnosticModel {
    DiagnosticModel { kind: node.label@, position: node.position as nat }
}

/// Makes the note that names a node.
pub fn note_of(node: &SyntaxNode) -> (r: Diagnostic)
    ensures
        r@ == note(*node),
{
    Diagnostic { kind: node.label.clone(), position: node.position }
}

/// A run of inlines without the break at its end, if it ends in one.
pub open spec fn without_break(inlines: Seq<InlineModel>) -> Seq<InlineModel> {
    if inlines.len() > 0 && inlines.last() is SoftBreak {
        inlines.drop_last()
    } else {
        inlines
    }
}

/// The marker that stands before the text of an urgent todo item.
pub open spec fn urgent_marker() -> Seq<InlineModel> {
    seq![
        InlineModel::Styled(
            Style::Strong,
            seq![InlineModel::Span(Seq::empty(), seq!["todo"@, "urgent"@], seq![InlineModel::Str("(!)"@)])],
        ),
        InlineModel::Space,
    ]
}

/// What the extension of a detached modifier puts before the text it stands
/// with: the marker of an urgent todo item, or nothing and a note for an
/// extension that is not known. The extension's second child says which it is.
pub open spec fn lower_extension(node: SyntaxNode) -> Result<FragmentModel, DiagnosticModel> {
    let c = node.children@;
    if c.len() == 0 {
        Err(note(node))
    } else if c.len() == 1 {
        Err(note(c[0]))
    } else if c[1].kind is TodoUrgent {
        Ok(plain(urgent_marker()))
    } else {
        Ok(FragmentModel { inlines: Seq::empty(), diagnostics: seq![note(c[1])] })
    }
}

/// A link target as lowering first reads it, with the description that the
/// target itself suggests and the notes made on the way.
pub ghost struct TargetParse {
    pub target: TargetModel,
    pub description: Seq<InlineModel>,
    pub diagnostics: Seq<DiagnosticModel>,
}

/// The first index from `p` on whose node is not of `kind`; the length of
/// `nodes` if there is none.
pub open spec fn skip_kind(nodes: Seq<SyntaxNode>, p: int, kind: NodeKind) -> int
    decreases nodes.len() - p,
{
    if 0 <= p < nodes.len() && nodes[p].kind == kind {
        skip_kind(nodes, p + 1, kind)
    } else {
        p
    }
}

/// A target that needs no resolution.
pub open spec fn settled(destination: Seq<char>) -> TargetModel {
    TargetModel { destination, classifier: Classifier::Resolved }
}

/// The identifier of a heading: its plain text, then its level in decimal.
pub open spec fn heading_id(title: Seq<InlineModel>, level: u64) -> Seq<char> {
    render(title) + decimal_text(level as nat)
}

/// Two headings of the same title and of different levels never share an
/// identifier.
pub proof fn law_heading_ids_differ(title: Seq<InlineModel>, a: u64, b: u64)
    requires
        a != b,
    ensures
        heading_id(title, a) != heading_id(title, b),
{
    let t = render(title);
    let x = decimal_text(a as nat);
    let y = decimal_text(b as nat);
    if t + x == t + y {
        assert((t + x).len() == (t + y).len());
        assert forall|i: int| 0 <= i < x.len() implies x[i] == y[i] by {
            assert((t + x)[t.len() + i] == x[i]);
            assert((t + y)[t.len() + i] == y[i]);
        }
        assert(x =~= y);
        lemma_decimal_text_injective(a as nat, b as nat);
    }
}

/// The inlines that one node stands for.
///
/// Words, blanks and breaks become `Str`, `Space` and `SoftBreak`; an escape
/// sequence becomes the escaped character; an attached modifier wraps the
/// lowering of its children; verbatim text loses one delimiter on each side;
/// a paragraph or one of its lines stands for its children; delimiters stand
/// for nothing; a node of any other kind becomes its raw text, with a note.
pub open spec fn lower_node(node: SyntaxNode, ctx: Context) -> Result<FragmentModel, DiagnosticModel>
    decreases node, 1nat,
{
    match node.kind {
        NodeKind::Word => Ok(plain(seq![InlineModel::Str(node.text@)])),
        NodeKind::Space => Ok(plain(seq![InlineModel::Space])),
        NodeKind::LineBreak | NodeKind::ParagraphBreak => Ok(plain(seq![InlineModel::SoftBreak])),
        NodeKind::Escape => Ok(plain(seq![InlineModel::Str(without_first(node.text@))])),
        NodeKind::Styled(style) => match lower_children(node, ctx) {
            Ok(f) => Ok(
                FragmentModel {
                    inlines: seq![InlineModel::Styled(style, f.inlines)],
                    diagnostics: f.diagnostics,
                },
            ),
            Err(e) => Err(e),
        },
        NodeKind::Spoiler => match lower_children(node, ctx) {
            Ok(f) => Ok(
                FragmentModel {
                    inlines: seq![InlineModel::Span(Seq::empty(), seq!["spoiler"@], f.inlines)],
                    diagnostics: f.diagnostics,
                },
            ),
            Err(e) => Err(e),
        },
        NodeKind::Verbatim => Ok(plain(seq![InlineModel::Code(inner_text(node.text@))])),
        NodeKind::Link => lower_link(node, ctx),
        NodeKind::AnchorDeclaration => lower_anchor_declaration(node, ctx),
        NodeKind::AnchorDefinition => lower_anchor_definition(node, ctx),
        NodeKind::Paragraph | NodeKind::Segment => lower_chain(node.children@, ctx),
        NodeKind::Begin | NodeKind::End | NodeKind::Delimiter => Ok(plain(Seq::empty())),
        _ => Ok(
            FragmentModel {
                inlines: seq![InlineModel::Str(node.text@)],
                diagnostics: seq![note(node)],
            },
        ),
    }
}

/// The lowering of the children of a node that must have some: a node
/// without children is a fault of the tree, named by the node.
pub open spec fn lower_children(node: SyntaxNode, ctx: Context) -> Result<
    FragmentModel,
    DiagnosticModel,
>
    decreases node, 0nat,
{
    if node.children@.len() == 0 {
        Err(note(node))
    } else {
        lower_chain(node.children@, ctx)
    }
}

/// The lowering of the first `upto` nodes of a chain, one after the other;
/// the first fault ends it.
pub open spec fn lower_prefix(nodes: Seq<SyntaxNode>, upto: int, ctx: Context) -> Result<
    FragmentModel,
    DiagnosticModel,
>
    decreases nodes, upto,
{
    if upto <= 0 || upto > nodes.len() {
        Ok(plain(Seq::empty()))
    } else {
        match lower_prefix(nodes, upto - 1, ctx) {
            Err(e) => Err(e),
            Ok(before) => match lower_node(nodes[upto - 1], ctx) {
                Err(e) => Err(e),
                Ok(f) => Ok(join(before, f)),
            },
        }
    }
}

/// The lowering of a whole chain of sibling nodes: what its nodes stand for,
/// in order, where a break that the last node ends in is dropped.
pub open spec fn lower_chain(nodes: Seq<SyntaxNode>, ctx: Context) -> Result<
    FragmentModel,
    DiagnosticModel,
>
    decreases nodes, nodes.len() + 1,
{
    if nodes.len() == 0 {
        Ok(plain(Seq::empty()))
    } else {
        match lower_prefix(nodes, nodes.len() - 1, ctx) {
            Err(e) => Err(e),
            Ok(before) => match lower_node(nodes.last(), ctx) {
                Err(e) => Err(e),
                Ok(f) => Ok(
                    join(
                        before,
                        FragmentModel {
                            inlines: without_break(f.inlines),
                            diagnostics: f.diagnostics,
                        },
                    ),
                ),
            },
        }
    }
}

/// The target that the nodes from `nodes[p]` on describe.
///
/// Opening tokens are passed over. A URL leads to its text. A file leads to
/// its path with the extension of the context, and then to the target that
/// follows the closing tokens behind it, if one does. An outside file leads
/// to its path with the home directory for `~`, and is a fault where no
/// home directory is known. A line number `n` leads to
/// `#Ln`. A heading leads to `#` and its identifier. A bare word and a wiki
/// reference lead, for the time being, to `#` and their plain text, and are
/// marked for resolution. Where the tree ends too early, or names a target of
/// no known kind, the node at which that shows is the fault.
pub open spec fn lower_target(nodes: Seq<SyntaxNode>, p: int, ctx: Context) -> Result<
    TargetParse,
    DiagnosticModel,
>
    decreases nodes, nodes.len() - p,
{
    let s = skip_kind(nodes, p, NodeKind::Begin);
    if p < 0 || p >= nodes.len() {
        Err(DiagnosticModel { kind: Seq::empty(), position: 0 })
    } else if s < p || s >= nodes.len() {
        Err(note(nodes.last()))
    } else {
        let t = nodes[s];
        match t.kind {
            NodeKind::TargetUrl => if s + 1 < nodes.len() {
                let url = nodes[s + 1].text@;
                Ok(
                    TargetParse {
                        target: settled(url),
                        description: seq![InlineModel::Str(url)],
                        diagnostics: Seq::empty(),
                    },
                )
            } else {
                Err(note(t))
            },
            NodeKind::TargetFile => {
                let file = t.text@;
                let q = skip_kind(nodes, s + 1, NodeKind::End);
                if p < q && q < nodes.len() {
                    match lower_target(nodes, q, ctx) {
                        Err(e) => Err(e),
                        Ok(sub) => Ok(
                            TargetParse {
                                target: settled(file + ctx.extension@ + sub.target.destination),
                                description: seq![InlineModel::Str(file), InlineModel::Space]
                                    + sub.description,
                                diagnostics: sub.diagnostics,
                            },
                        ),
                    }
                } else {
                    Ok(
                        TargetParse {
                            target: settled(file + ctx.extension@),
                            description: seq![InlineModel::Str(file)],
                            diagnostics: Seq::empty(),
                        },
                    )
                }
            },
            NodeKind::TargetExternalFile => match ctx.home {
                Some(home) => if s + 1 < nodes.len() {
                    let file = expand_home(nodes[s + 1].text@, home@);
                    Ok(
                        TargetParse {
                            target: settled(file),
                            description: seq![InlineModel::Str(file)],
                            diagnostics: Seq::empty(),
                        },
                    )
                } else {
                    Err(note(t))
                },
                None => Err(note(t)),
            },
            NodeKind::TargetLine => if s + 1 < nodes.len() {
                let line = nodes[s + 1].text@;
                Ok(
                    TargetParse {
                        target: settled("#L"@ + line),
                        description: seq![InlineModel::Str("Line "@ + line)],
                        diagnostics: Seq::empty(),
                    },
                )
            } else {
                Err(note(t))
            },
            NodeKind::TargetHeading(level) => if s + 1 < nodes.len() {
                match lower_children(nodes[s + 1], ctx) {
                    Err(e) => Err(e),
                    Ok(f) => Ok(
                        TargetParse {
                            target: settled("#"@ + heading_id(f.inlines, level)),
                            description: f.inlines,
                            diagnostics: f.diagnostics,
                        },
                    ),
                }
            } else {
                Err(note(t))
            },
            NodeKind::TargetGeneric => if s + 1 < nodes.len() {
                match lower_children(nodes[s + 1], ctx) {
                    Err(e) => Err(e),
                    Ok(f) => Ok(
                        TargetParse {
                            target: TargetModel {
                                destination: "#"@ + render(f.inlines),
                                classifier: Classifier::Magic,
                            },
                            description: f.inlines,
                            diagnostics: f.diagnostics,
                        },
                    ),
                }
            } else {
                Err(note(t))
            },
            NodeKind::TargetWiki => if s + 1 < nodes.len() {
                match lower_children(nodes[s + 1], ctx) {
                    Err(e) => Err(e),
                    Ok(f) => Ok(
                        TargetParse {
                            target: TargetModel {
                                destination: "#"@ + render(f.inlines),
                                classifier: Classifier::Wiki,
                            },
                            description: f.inlines,
                            diagnostics: f.diagnostics,
                        },
                    ),
                }
            } else {
                Err(note(t))
            },
            _ => Err(note(t)),
        }
    }
}

/// The link that a link node stands for. Its first child holds the target.
/// Its second child, if it has children, holds the description; without one
/// the target suggests the description.
pub open spec fn lower_link(node: SyntaxNode, ctx: Context) -> Result<FragmentModel, DiagnosticModel>
    decreases node, 0nat,
{
    let c = node.children@;
    if c.len() == 0 {
        Err(note(node))
    } else if c[0].children@.len() == 0 {
        Err(note(c[0]))
    } else {
        match lower_target(c[0].children@, 0, ctx) {
            Err(e) => Err(e),
            Ok(t) => if c.len() >= 2 && c[1].children@.len() > 0 {
                match lower_chain(c[1].children@, ctx) {
                    Err(e) => Err(e),
                    Ok(d) => Ok(
                        FragmentModel {
                            inlines: seq![InlineModel::Link(Seq::empty(), d.inlines, t.target)],
                            diagnostics: t.diagnostics + d.diagnostics,
                        },
                    ),
                }
            } else {
                Ok(
                    FragmentModel {
                        inlines: seq![InlineModel::Link(Seq::empty(), t.description, t.target)],
                        diagnostics: t.diagnostics,
                    },
                )
            },
        }
    }
}

/// The link that the declaration of an anchor stands for: its description,
/// which its first child holds, and no destination yet.
pub open spec fn lower_anchor_declaration(node: SyntaxNode, ctx: Context) -> Result<
    FragmentModel,
    DiagnosticModel,
>
    decreases node, 0nat,
{
    let c = node.children@;
    if c.len() == 0 {
        Err(note(node))
    } else {
        match lower_children(c[0], ctx) {
            Err(e) => Err(e),
            Ok(d) => Ok(
                FragmentModel {
                    inlines: seq![
                        InlineModel::Link(
                            Seq::empty(),
                            d.inlines,
                            TargetModel { destination: Seq::empty(), classifier: Classifier::Anchor },
                        ),
                    ],
                    diagnostics: d.diagnostics,
                },
            ),
        }
    }
}

/// The link that the definition of an anchor stands for: its description,
/// which its first child holds, and the destination of the target that its
/// second child holds.
pub open spec fn lower_anchor_definition(node: SyntaxNode, ctx: Context) -> Result<
    FragmentModel,
    DiagnosticModel,
>
    decreases node, 0nat,
{
    let c = node.children@;
    if c.len() == 0 {
        Err(note(node))
    } else {
        match lower_children(c[0], ctx) {
            Err(e) => Err(e),
            Ok(d) => if c.len() == 1 {
                Err(note(c[0]))
            } else if c[1].children@.len() == 0 {
                Err(note(c[1]))
            } else {
                match lower_target(c[1].children@, 0, ctx) {
                    Err(e) => Err(e),
                    Ok(t) => Ok(
                        FragmentModel {
                            inlines: seq![
                                InlineModel::Link(
                                    Seq::empty(),
                                    d.inlines,
                                    TargetModel {
                                        destination: t.target.destination,
                                        classifier: Classifier::Anchor,
                                    },
                                ),
                            ],
                            diagnostics: d.diagnostics + t.diagnostics,
                        },
                    ),
                }
            },
        }
    }
}

/// Once a prefix of a chain has met a fault, every longer prefix meets it.
pub proof fn lemma_prefix_fault(nodes: Seq<SyntaxNode>, k: int, m: int, ctx: Context)
    requires
        0 <= k <= m <= nodes.len(),
        lower_prefix(nodes, k, ctx) is Err,
    ensures
        lower_prefix(nodes, m, ctx) == lower_prefix(nodes, k, ctx),
    decreases m - k,
{
    if k < m {
        lemma_prefix_fault(nodes, k, m - 1, ctx);
    }
}

/// A chain that ends in a break stands for what the nodes before the break
/// stand for: the break itself leaves nothing behind, so the run ends as the
/// lowering of those nodes ends.
pub proof fn law_final_break_dropped(nodes: Seq<SyntaxNode>, ctx: Context)
    requires
        nodes.len() > 0,
        nodes.last().kind is LineBreak || nodes.last().kind is ParagraphBreak,
    ensures
        lower_chain(nodes, ctx) == lower_prefix(nodes, nodes.len() - 1, ctx),
{
    match lower_prefix(nodes, nodes.len() - 1, ctx) {
        Err(_) => {},
        Ok(before) => {
            let f = lower_node(nodes.last(), ctx)->Ok_0;
            assert(f == plain(seq![InlineModel::SoftBreak]));
            assert(without_break(f.inlines) =~= Seq::<InlineModel>::empty());
            let g = FragmentModel { inlines: without_break(f.inlines), diagnostics: f.diagnostics };
            assert(join(before, g).inlines =~= before.inlines);
            assert(join(before, g).diagnostics =~= before.diagnostics);
        },
    }
}

/// Whether a run of inlines ends in a blank or a break.
pub open spec fn ends_in_blank(inlines: Seq<InlineModel>) -> bool {
    inlines.len() > 0 && (inlines.last() is Space || inlines.last() is SoftBreak)
}

/// A chain that ends in a break, and whose nodes before the break do not
/// end in a blank or a break of their own, stands for a run that ends in
/// neither.
pub proof fn law_no_trailing_break(nodes: Seq<SyntaxNode>, ctx: Context)
    requires
        nodes.len() > 0,
        nodes.last().kind is LineBreak || nodes.last().kind is ParagraphBreak,
        lower_prefix(nodes, nodes.len() - 1, ctx) matches Ok(before) && !ends_in_blank(
            before.inlines,
        ),
    ensures
        lower_chain(nodes, ctx) matches Ok(run) && !ends_in_blank(run.inlines),
{
    law_final_break_dropped(nodes, ctx);
}

/// Drops the break that a run of inlines ends in, if it ends in one.
fn drop_break(inlines: &mut Vec<Inline>)
    ensures
        inlines_model(final(inlines)@) == without_break(inlines_model(old(inlines)@)),
{
    let n: usize = inlines.len();
    if n > 0 {
        let ends_in_break = match &inlines[n - 1] {
            Inline::SoftBreak => true,
            _ => false,
        };
        assert(ends_in_break == (inlines_model(inlines@).last() is SoftBreak));
        if ends_in_break {
            inlines.pop();
            assert(inlines_model(inlines@) =~= inlines_model(old(inlines)@).drop_last());
        }
    }
}

/// Lowers one inline node.
pub fn parse_node(node: &SyntaxNode, ctx: &Context) -> (r: Result<Fragment, Diagnostic>)
    ensures
        lowered(r) == lower_node(*node, *ctx),
    decreases node, 2nat,
{
    match node.kind {
        NodeKind::Word => Ok(Fragment::single(Inline::Str(node.text.clone()))),
        NodeKind::Space => Ok(Fragment::single(Inline::Space)),
        NodeKind::LineBreak | NodeKind::ParagraphBreak => Ok(Fragment::single(Inline::SoftBreak)),
        NodeKind::Escape => Ok(Fragment::single(Inline::Str(drop_first(node.text.as_str())))),
        NodeKind::Styled(_) | NodeKind::Spoiler | NodeKind::Verbatim => attached::parse(node, ctx),
        NodeKind::Link => link::parse(node, ctx),
        NodeKind::AnchorDeclaration => link::parse_anchor_declaration(node, ctx),
        NodeKind::AnchorDefinition => link::parse_anchor_definition(node, ctx),
        NodeKind::Paragraph | NodeKind::Segment => parse(&node.children, ctx),
        NodeKind::Begin | NodeKind::End | NodeKind::Delimiter => Ok(Fragment::new()),
        _ => {
            let mut r = Fragment::single(Inline::Str(node.text.clone()));
            proof {
                
            }
            r.diagnostics.push(note_of(node));
            assert(r@.diagnostics =~= seq![note(*node)]);
            Ok(r)
        },
    }
}

/// Lowers the children of a node that must have some.
pub fn parse_children(node: &SyntaxNode, ctx: &Context) -> (r: Result<Fragment, Diagnostic>)
    ensures
        lowered(r) == lower_children(*node, *ctx),
    decreases node, 0nat,
{
    if node.children.len() == 0 {
        Err(note_of(node))
    } else {
        parse(&node.children, ctx)
    }
}

/// Lowers a chain of sibling inline nodes into one run of inlines.
///
/// A fault of the tree ends the lowering and is returned with the node at
/// which it showed.
pub fn parse(nodes: &Vec<SyntaxNode>, ctx: &Context) -> (r: Result<Fragment, Diagnostic>)
    ensures
        lowered(r) == lower_chain(nodes@, *ctx),
    decreases nodes, 0nat,
{
    let n: usize = nodes.len();
    let mut out = Fragment::new();
    let mut i: usize = 0;
    while i < n
        invariant
            n == nodes.len(),
            i <= n,
            i < n ==> lower_prefix(nodes@, i as int, *ctx) == Ok::<FragmentModel, DiagnosticModel>(out@),
            i == n ==> lower_chain(nodes@, *ctx) == Ok::<FragmentModel, DiagnosticModel>(out@),
        decreases n - i,
    {
        match parse_node(&nodes[i], ctx) {
            Err(e) => {
                proof {
                    if i + 1 < n {
                        lemma_prefix_fault(nodes@, i + 1, n - 1, *ctx);
                    }
                }
                return Err(e);
            },
            Ok(f) => {
                let mut f = f;
                if i + 1 == n {
                    drop_break(&mut f.inlines);
                }
                out.append(f);
            },
        }
        i += 1;
    }
    Ok(out)
}

} // verus!
