//! Serialization of a document tree back to markup text.
//!
//! `wt` is the mathematical serialization; `Node::to_wikitext` computes it.
//! The engine serializes trees to compare expansion passes for convergence and
//! to round-trip substituted text through the parser, so the serializer must
//! be total and deterministic.

use vstd::prelude::*;

use crate::node::CaptionView;
use crate::node::CellView;
use crate::node::Node;
use crate::node::NodeView;
use crate::node::ParamView;
use crate::node::RowView;
use crate::node::TableCaption;
use crate::node::TableCell;
use crate::node::TableRow;
use crate::node::TemplateParameter;
use crate::node::caption_views;
use crate::node::cell_views;
use crate::node::node_view_lemmas;
use crate::node::node_views;
use crate::node::opt_node_views;
use crate::node::param_views;
use crate::node::row_views;

verus! {

/// The serialized markup text of one node.
pub open spec fn wt(v: NodeView) -> Seq<char>
    decreases v, 0nat,
{
    match v {
        NodeView::Fragment { children } => wt_seq(children),
        NodeView::Template { name, parameters } => "{{"@ + name + wt_params(parameters) + "}}"@,
        NodeView::TemplateParameterUse { name, default } => "{{{"@ + name + wt_default(default)
            + "}}}"@,
        NodeView::Text { text } => text,
        NodeView::Bold { children } => "'''"@ + wt_seq(children) + "'''"@,
        NodeView::Italic { children } => "''"@ + wt_seq(children) + "''"@,
        NodeView::Link { text, title } => if text == title {
            "[["@ + title + "]]"@
        } else {
            "[["@ + title + "|"@ + text + "]]"@
        },
        NodeView::Table { attributes, captions, rows } => "{|"@ + wt_seq(attributes) + "\n"@
            + wt_captions(captions) + wt_rows(rows) + "|}"@,
    }
}

pub open spec fn wt_seq(s: Seq<NodeView>) -> Seq<char>
    decreases s, 1nat,
{
    if s.len() == 0 {
        Seq::empty()
    } else {
        wt_seq(s.drop_last()) + wt(s.last())
    }
}

pub open spec fn wt_params(s: Seq<ParamView>) -> Seq<char>
    decreases s,
{
    if s.len() == 0 {
        Seq::empty()
    } else {
        wt_params(s.drop_last()) + "|"@ + s.last().name + "="@ + s.last().value
    }
}

pub open spec fn wt_default(o: Option<Seq<NodeView>>) -> Seq<char>
    decreases o, 2nat,
{
    match o {
        Some(d) => "|"@ + wt_seq(d),
        None => Seq::empty(),
    }
}

/// A cell or caption attribute list: serialized before a `|` separator when
/// present.
pub open spec fn wt_opt_attrs(o: Option<Seq<NodeView>>) -> Seq<char>
    decreases o, 2nat,
{
    match o {
        Some(a) => wt_seq(a) + "|"@,
        None => Seq::empty(),
    }
}

pub open spec fn wt_captions(s: Seq<CaptionView>) -> Seq<char>
    decreases s, 3nat,
{
    if s.len() == 0 {
        Seq::empty()
    } else {
        wt_captions(s.drop_last()) + "|+"@ + wt_opt_attrs(s.last().attributes) + wt_seq(
            s.last().content,
        ) + "\n"@
    }
}

pub open spec fn wt_rows(s: Seq<RowView>) -> Seq<char>
    decreases s, 3nat,
{
    if s.len() == 0 {
        Seq::empty()
    } else {
        wt_rows(s.drop_last()) + "|-"@ + wt_seq(s.last().attributes) + "\n"@ + wt_cells(
            s.last().cells,
        )
    }
}

pub open spec fn wt_cells(s: Seq<CellView>) -> Seq<char>
    decreases s, 4nat,
{
    if s.len() == 0 {
        Seq::empty()
    } else {
        wt_cells(s.drop_last()) + "|"@ + wt_opt_attrs(s.last().attributes) + wt_seq(
            s.last().content,
        ) + "\n"@
    }
}

impl Node {
    /// Serializes the tree to markup text.
    pub fn to_wikitext(&self) -> (r: String)
        ensures
            r@ == wt(self@),
    {
        let mut out = String::new();
        write_node(&mut out, self);
        out
    }
}

/// Serializes a sequence of nodes: the concatenation of each node's markup.
pub fn to_wikitext_nodes(v: &Vec<Node>) -> (r: String)
    ensures
        r@ == wt_seq(node_views(v@)),
{
    let mut out = String::new();
    write_nodes(&mut out, v);
    out
}

fn write_node(out: &mut String, n: &Node)
    ensures
        final(out)@ == old(out)@ + wt(n@),
    decreases *n, 0nat,
{
    broadcast use node_view_lemmas;

    match n {
        Node::Fragment { children } => {
            proof {
                assert(decreases_to!(*n => *children));
            }
            write_nodes(out, children);
        },
        Node::Template { name, parameters } => {
            out.append("{{");
            out.append(name.as_str());
            write_params(out, parameters);
            out.append("}}");
            proof {
                assert(out@ =~= old(out)@ + wt(n@));
            }
        },
        Node::TemplateParameterUse { name, default } => {
            out.append("{{{");
            out.append(name.as_str());
            proof {
                assert(decreases_to!(*n => *default));
            }
            match default {
                Some(d) => {
                    proof {
                        assert(decreases_to!(*default => *d));
                    }
                    out.append("|");
                    write_nodes(out, d);
                },
                None => {},
            }
            out.append("}}}");
            proof {
                assert(out@ =~= old(out)@ + wt(n@));
            }
        },
        Node::Text { text } => {
            out.append(text.as_str());
        },
        Node::Bold { children } => {
            proof {
                assert(decreases_to!(*n => *children));
            }
            out.append("'''");
            write_nodes(out, children);
            out.append("'''");
            proof {
                assert(out@ =~= old(out)@ + wt(n@));
            }
        },
        Node::Italic { children } => {
            proof {
                assert(decreases_to!(*n => *children));
            }
            out.append("''");
            write_nodes(out, children);
            out.append("''");
            proof {
                assert(out@ =~= old(out)@ + wt(n@));
            }
        },
        Node::Link { text, title } => {
            out.append("[[");
            out.append(title.as_str());
            if !(text.eq(title)) {
                out.append("|");
                out.append(text.as_str());
            }
            out.append("]]");
            proof {
                assert(out@ =~= old(out)@ + wt(n@));
            }
        },
        Node::Table { attributes, captions, rows } => {
            proof {
                assert(decreases_to!(*n => *attributes));
                assert(decreases_to!(*n => *captions));
                assert(decreases_to!(*n => *rows));
            }
            out.append("{|");
            write_nodes(out, attributes);
            out.append("\n");
            write_captions(out, captions);
            write_rows(out, rows);
            out.append("|}");
            proof {
                assert(out@ =~= old(out)@ + wt(n@));
            }
        },
    }
}

#[verifier::loop_isolation(false)]
fn write_nodes(out: &mut String, v: &Vec<Node>)
    ensures
        final(out)@ == old(out)@ + wt_seq(node_views(v@)),
    decreases *v, 1nat,
{
    broadcast use node_view_lemmas;

    let mut i: usize = 0;
    while i < v.len()
        invariant
            i <= v.len(),
            out@ == old(out)@ + wt_seq(node_views(v@).subrange(0, i as int)),
        decreases v.len() - i,
    {
        proof {
            assert(decreases_to!(*v => v[i as int]));
        }
        write_node(out, &v[i]);
        proof {
            let s = node_views(v@);
            assert(s.subrange(0, i + 1 as int).drop_last() =~= s.subrange(0, i as int));
            assert(s.subrange(0, i + 1 as int).last() == s[i as int]);
            assert(out@ =~= old(out)@ + wt_seq(s.subrange(0, i + 1 as int)));
        }
        i = i + 1;
    }
    proof {
        assert(node_views(v@).subrange(0, v@.len() as int) =~= node_views(v@));
    }
}

#[verifier::loop_isolation(false)]
fn write_params(out: &mut String, v: &Vec<TemplateParameter>)
    ensures
        final(out)@ == old(out)@ + wt_params(param_views(v@)),
{
    broadcast use node_view_lemmas;

    let mut i: usize = 0;
    while i < v.len()
        invariant
            i <= v.len(),
            out@ == old(out)@ + wt_params(param_views(v@).subrange(0, i as int)),
        decreases v.len() - i,
    {
        out.append("|");
        out.append(v[i].name.as_str());
        out.append("=");
        out.append(v[i].value.as_str());
        proof {
            let s = param_views(v@);
            assert(s.subrange(0, i + 1 as int).drop_last() =~= s.subrange(0, i as int));
            assert(s.subrange(0, i + 1 as int).last() == s[i as int]);
            assert(out@ =~= old(out)@ + wt_params(s.subrange(0, i + 1 as int)));
        }
        i = i + 1;
    }
    proof {
        assert(param_views(v@).subrange(0, v@.len() as int) =~= param_views(v@));
    }
}

fn write_opt_attrs(out: &mut String, o: &Option<Vec<Node>>)
    ensures
        final(out)@ == old(out)@ + wt_opt_attrs(opt_node_views(*o)),
    decreases *o, 2nat,
{
    match o {
        Some(a) => {
            proof {
                assert(decreases_to!(*o => *a));
            }
            write_nodes(out, a);
            out.append("|");
            proof {
                assert(out@ =~= old(out)@ + wt_opt_attrs(opt_node_views(*o)));
            }
        },
        None => {},
    }
}

#[verifier::loop_isolation(false)]
fn write_captions(out: &mut String, v: &Vec<TableCaption>)
    ensures
        final(out)@ == old(out)@ + wt_captions(caption_views(v@)),
    decreases *v, 3nat,
{
    broadcast use node_view_lemmas;

    let mut i: usize = 0;
    while i < v.len()
        invariant
            i <= v.len(),
            out@ == old(out)@ + wt_captions(caption_views(v@).subrange(0, i as int)),
        decreases v.len() - i,
    {
        proof {
            assert(decreases_to!(*v => v[i as int]));
            assert(decreases_to!(v[i as int] => v[i as int].attributes));
            assert(decreases_to!(v[i as int] => v[i as int].content));
        }
        out.append("|+");
        write_opt_attrs(out, &v[i].attributes);
        write_nodes(out, &v[i].content);
        out.append("\n");
        proof {
            let s = caption_views(v@);
            assert(s.subrange(0, i + 1 as int).drop_last() =~= s.subrange(0, i as int));
            assert(s.subrange(0, i + 1 as int).last() == s[i as int]);
            assert(out@ =~= old(out)@ + wt_captions(s.subrange(0, i + 1 as int)));
        }
        i = i + 1;
    }
    proof {
        assert(caption_views(v@).subrange(0, v@.len() as int) =~= caption_views(v@));
    }
}

#[verifier::loop_isolation(false)]
fn write_rows(out: &mut String, v: &Vec<TableRow>)
    ensures
        final(out)@ == old(out)@ + wt_rows(row_views(v@)),
    decreases *v, 3nat,
{
    broadcast use node_view_lemmas;

    let mut i: usize = 0;
    while i < v.len()
        invariant
            i <= v.len(),
            out@ == old(out)@ + wt_rows(row_views(v@).subrange(0, i as int)),
        decreases v.len() - i,
    {
        proof {
            assert(decreases_to!(*v => v[i as int]));
            assert(decreases_to!(v[i as int] => v[i as int].attributes));
            assert(decreases_to!(v[i as int] => v[i as int].cells));
        }
        out.append("|-");
        write_nodes(out, &v[i].attributes);
        out.append("\n");
        write_cells(out, &v[i].cells);
        proof {
            let s = row_views(v@);
            assert(s.subrange(0, i + 1 as int).drop_last() =~= s.subrange(0, i as int));
            assert(s.subrange(0, i + 1 as int).last() == s[i as int]);
            assert(out@ =~= old(out)@ + wt_rows(s.subrange(0, i + 1 as int)));
        }
        i = i + 1;
    }
    proof {
        assert(row_views(v@).subrange(0, v@.len() as int) =~= row_views(v@));
    }
}

#[verifier::loop_isolation(false)]
fn write_cells(out: &mut String, v: &Vec<TableCell>)
    ensures
        final(out)@ == old(out)@ + wt_cells(cell_views(v@)),
    decreases *v, 4nat,
{
    broadcast use node_view_lemmas;

    let mut i: usize = 0;
    while i < v.len()
        invariant
            i <= v.len(),
            out@ == old(out)@ + wt_cells(cell_views(v@).subrange(0, i as int)),
        decreases v.len() - i,
    {
        proof {
            assert(decreases_to!(*v => v[i as int]));
            assert(decreases_to!(v[i as int] => v[i as int].attributes));
            assert(decreases_to!(v[i as int] => v[i as int].content));
        }
        out.append("|");
        write_opt_attrs(out, &v[i].attributes);
        write_nodes(out, &v[i].content);
        out.append("\n");
        proof {
            let s = cell_views(v@);
            assert(s.subrange(0, i + 1 as int).drop_last() =~= s.subrange(0, i as int));
            assert(s.subrange(0, i + 1 as int).last() == s[i as int]);
            assert(out@ =~= old(out)@ + wt_cells(s.subrange(0, i + 1 as int)));
        }
        i = i + 1;
    }
    proof {
        assert(cell_views(v@).subrange(0, v@.len() as int) =~= cell_views(v@));
    }
}

} // verus!
