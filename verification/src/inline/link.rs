//! Links and anchors: what a link-like node says of its target.

use vstd::prelude::*;
use crate::inline::{
    lower_anchor_declaration, lower_anchor_definition, lower_link, lower_target, note_of,
    parse_children, render, skip_kind, TargetParse, to_string,
};
use crate::model::{
    Classifier, Context, Diagnostic, DiagnosticModel, diagnostics_model, Fragment, FragmentModel,
    Inline, InlineModel, inlines_model, lemma_diagnostics_add, lemma_inlines_add, LinkTarget,
    lowered, TargetModel,
};
use crate::syntax::{NodeKind, SyntaxNode};
use crate::text::{decimal, replace_home, texts};

verus! {

/// A link target as lowering first reads it.
#[derive(Debug, PartialEq, Eq)]
pub struct Target {
    pub target: LinkTarget,
    /// The description that the target itself suggests.
    pub description: Vec<Inline>,
    pub diagnostics: Vec<Diagnostic>,
}

impl View for Target {
    type V = TargetParse;

    open spec fn view(&self) -> TargetParse {
        TargetParse {
            target: self.target@,
            description: inlines_model(self.description@),
            diagnostics: diagnostics_model(self.diagnostics@),
        }
    }
}

/// What a fallible reading of a target gave, as a value.
pub open spec fn read(r: Result<Target, Diagnostic>) -> Result<TargetParse, DiagnosticModel> {
    match r {
        Ok(target) => Ok(target@),
        Err(diagnostic) => Err(diagnostic@),
    }
}

/// Passes over the nodes of `kind` from index `p` on.
fn skip(nodes: &Vec<SyntaxNode>, p: usize, kind: NodeKind) -> (r: usize)
    requires
        p <= nodes.len(),
    ensures
        r == skip_kind(nodes@, p as int, kind),
        p <= r <= nodes.len(),
    decreases nodes.len() - p,
{
    if p < nodes.len() && nodes[p].kind == kind {
        skip(nodes, p + 1, kind)
    } else {
        p
    }
}

/// A target that leads to `destination`, described by that same text.
fn literal_target(destination: String, shown: String, classifier: Classifier) -> (r: Target)
    ensures
        r@ == (TargetParse {
            target: TargetModel { destination: destination@, classifier },
            description: seq![InlineModel::Str(shown@)],
            diagnostics: Seq::empty(),
        }),
{
    let mut description: Vec<Inline> = Vec::new();
    description.push(Inline::Str(shown));
    let r = Target {
        target: LinkTarget { destination, classifier },
        description,
        diagnostics: Vec::new(),
    };
    assert(r@.description =~= seq![InlineModel::Str(shown@)]);
    assert(r@.diagnostics =~= Seq::empty());
    r
}

/// Reads the target that the nodes from `nodes[p]` on describe. Where there
/// is no node at `p`, the fault names no node.
pub fn parse_target(nodes: &Vec<SyntaxNode>, p: usize, ctx: &Context) -> (r: Result<
    Target,
    Diagnostic,
>)
    ensures
        read(r) == lower_target(nodes@, p as int, *ctx),
    decreases nodes, nodes.len() - p,
{
    let n: usize = nodes.len();
    if p >= n {
        return Err(Diagnostic { kind: String::new(), position: 0 });
    }
    let s: usize = skip(nodes, p, NodeKind::Begin);
    if s >= n {
        return Err(note_of(&nodes[n - 1]));
    }
    let t = &nodes[s];
    match t.kind {
        NodeKind::TargetUrl => {
            if s + 1 < n {
                let url = nodes[s + 1].text.clone();
                let shown = url.clone();
                Ok(literal_target(url, shown, Classifier::Resolved))
            } else {
                Err(note_of(t))
            }
        },
        NodeKind::TargetFile => {
            let mut destination = t.text.clone();
            destination.append(ctx.extension.as_str());
            let q: usize = skip(nodes, s + 1, NodeKind::End);
            if q < n {
                match parse_target(nodes, q, ctx) {
                    Err(e) => Err(e),
                    Ok(sub) => {
                        let mut sub = sub;
                        destination.append(sub.target.destination.as_str());
                        let mut description: Vec<Inline> = Vec::new();
                        description.push(Inline::Str(t.text.clone()));
                        description.push(Inline::Space);
                        proof {
                            lemma_inlines_add(description@, sub.description@);
                        }
                        assert(inlines_model(description@) =~= seq![
                            InlineModel::Str(t.text@),
                            InlineModel::Space,
                        ]);
                        description.append(&mut sub.description);
                        Ok(
                            Target {
                                target: LinkTarget {
                                    destination,
                                    classifier: Classifier::Resolved,
                                },
                                description,
                                diagnostics: sub.diagnostics,
                            },
                        )
                    },
                }
            } else {
                Ok(literal_target(destination, t.text.clone(), Classifier::Resolved))
            }
        },
        NodeKind::TargetExternalFile => {
            match &ctx.home {
                Some(home) => {
                    if s + 1 < n {
                        let file = replace_home(nodes[s + 1].text.as_str(), home.as_str());
                        let shown = file.clone();
                        Ok(literal_target(file, shown, Classifier::Resolved))
                    } else {
                        Err(note_of(t))
                    }
                },
                None => Err(note_of(t)),
            }
        },
        NodeKind::TargetLine => {
            if s + 1 < n {
                let line = &nodes[s + 1].text;
                let mut destination = String::from_str("#L");
                destination.append(line.as_str());
                let mut shown = String::from_str("Line ");
                shown.append(line.as_str());
                Ok(literal_target(destination, shown, Classifier::Resolved))
            } else {
                Err(note_of(t))
            }
        },
        NodeKind::TargetHeading(level) => {
            if s + 1 < n {
                match parse_children(&nodes[s + 1], ctx) {
                    Err(e) => Err(e),
                    Ok(f) => {
                        let mut destination = String::from_str("#");
                        let mut id = to_string(&f.inlines);
                        id.append(decimal(level).as_str());
                        destination.append(id.as_str());
                        Ok(
                            Target {
                                target: LinkTarget {
                                    destination,
                                    classifier: Classifier::Resolved,
                                },
                                description: f.inlines,
                                diagnostics: f.diagnostics,
                            },
                        )
                    },
                }
            } else {
                Err(note_of(t))
            }
        },
        NodeKind::TargetGeneric => {
            if s + 1 < n {
                match parse_children(&nodes[s + 1], ctx) {
                    Err(e) => Err(e),
                    Ok(f) => Ok(provisional(f, Classifier::Magic)),
                }
            } else {
                Err(note_of(t))
            }
        },
        NodeKind::TargetWiki => {
            if s + 1 < n {
                match parse_children(&nodes[s + 1], ctx) {
                    Err(e) => Err(e),
                    Ok(f) => Ok(provisional(f, Classifier::Wiki)),
                }
            } else {
                Err(note_of(t))
            }
        },
        _ => Err(note_of(t)),
    }
}

/// The target of a reference that is resolved later: for now it leads to
/// `#` and the plain text of its description.
fn provisional(description: Fragment, classifier: Classifier) -> (r: Target)
    ensures
        r@ == (TargetParse {
            target: TargetModel {
                destination: "#"@ + render(description@.inlines),
                classifier,
            },
            description: description@.inlines,
            diagnostics: description@.diagnostics,
        }),
{
    let mut destination = String::from_str("#");
    destination.append(to_string(&description.inlines).as_str());
    Target {
        target: LinkTarget { destination, classifier },
        description: description.inlines,
        diagnostics: description.diagnostics,
    }
}

/// The fragment of one link.
fn link_fragment(description: Vec<Inline>, target: LinkTarget, diagnostics: Vec<Diagnostic>) -> (r:
    Fragment)
    ensures
        r@ == (FragmentModel {
            inlines: seq![
                InlineModel::Link(Seq::empty(), inlines_model(description@), target@),
            ],
            diagnostics: diagnostics_model(diagnostics@),
        }),
{
    let link = Inline::Link(Vec::new(), description, target);
    assert(texts(Seq::<String>::empty()) =~= Seq::<Seq<char>>::empty());
    let mut r = Fragment::single(link);
    r.diagnostics = diagnostics;
    r
}

/// Lowers a link node.
pub fn parse(node: &SyntaxNode, ctx: &Context) -> (r: Result<Fragment, Diagnostic>)
    ensures
        lowered(r) == lower_link(*node, *ctx),
    decreases node, 1nat,
{
    if node.children.len() == 0 {
        return Err(note_of(node));
    }
    let location = &node.children[0];
    if location.children.len() == 0 {
        return Err(note_of(location));
    }
    match parse_target(&location.children, 0, ctx) {
        Err(e) => Err(e),
        Ok(t) => {
            if node.children.len() >= 2 && node.children[1].children.len() > 0 {
                match crate::inline::parse(&node.children[1].children, ctx) {
                    Err(e) => Err(e),
                    Ok(d) => {
                        let mut d = d;
                        let mut diagnostics = t.diagnostics;
                        proof {
                            lemma_diagnostics_add(diagnostics@, d.diagnostics@);
                        }
                        diagnostics.append(&mut d.diagnostics);
                        Ok(link_fragment(d.inlines, t.target, diagnostics))
                    },
                }
            } else {
                Ok(link_fragment(t.description, t.target, t.diagnostics))
            }
        },
    }
}

/// Lowers the declaration of an anchor.
pub fn parse_anchor_declaration(node: &SyntaxNode, ctx: &Context) -> (r: Result<
    Fragment,
    Diagnostic,
>)
    ensures
        lowered(r) == lower_anchor_declaration(*node, *ctx),
    decreases node, 1nat,
{
    if node.children.len() == 0 {
        return Err(note_of(node));
    }
    match parse_children(&node.children[0], ctx) {
        Err(e) => Err(e),
        Ok(d) => Ok(
            link_fragment(
                d.inlines,
                LinkTarget { destination: String::new(), classifier: Classifier::Anchor },
                d.diagnostics,
            ),
        ),
    }
}

/// Lowers the definition of an anchor.
pub fn parse_anchor_definition(node: &SyntaxNode, ctx: &Context) -> (r: Result<
    Fragment,
    Diagnostic,
>)
    ensures
        lowered(r) == lower_anchor_definition(*node, *ctx),
    decreases node, 1nat,
{
    if node.children.len() == 0 {
        return Err(note_of(node));
    }
    match parse_children(&node.children[0], ctx) {
        Err(e) => Err(e),
        Ok(d) => {
            if node.children.len() == 1 {
                return Err(note_of(&node.children[0]));
            }
            let location = &node.children[1];
            if location.children.len() == 0 {
                return Err(note_of(location));
            }
            match parse_target(&location.children, 0, ctx) {
                Err(e) => Err(e),
                Ok(t) => {
                    let mut t = t;
                    let mut diagnostics = d.diagnostics;
                    proof {
                        lemma_diagnostics_add(diagnostics@, t.diagnostics@);
                    }
                    diagnostics.append(&mut t.diagnostics);
                    Ok(
                        link_fragment(
                            d.inlines,
                            LinkTarget {
                                destination: t.target.destination,
                                classifier: Classifier::Anchor,
                            },
                            diagnostics,
                        ),
                    )
                },
            }
        },
    }
}

} // verus!
