//! The substitution pass, as mathematics: what one replacement round does to a
//! tree that holds no template invocations. Placeholders resolve to text —
//! a bound argument first, then the magic sub-page name, then the serialized
//! default, then the empty string — and every other node keeps its shape.
//!
//! The engine's substitution also replaces each `Template` node by a recursive
//! instantiation; that part depends on the template store, so it lives in the
//! engine's contracts, not here. On template-free trees the engine's pass
//! computes exactly `subst`.

use vstd::prelude::*;

use crate::node::CaptionView;
use crate::node::CellView;
use crate::node::NodeView;
use crate::node::ParamView;
use crate::node::RowView;
use crate::page_context::PageContextView;
use crate::props::all_resolved;
use crate::props::captions_template_free;
use crate::props::cells_template_free;
use crate::props::opt_template_free;
use crate::props::rows_template_free;
use crate::props::seq_template_free;
use crate::props::template_free;
use crate::props::captions_resolved;
use crate::props::cells_resolved;
use crate::props::opt_resolved;
use crate::props::resolved;
use crate::props::rows_resolved;
use crate::serialize::wt_seq;
use crate::text::is_magic_name;

verus! {

/// The first argument bound to `name`, by case-sensitive comparison.
pub open spec fn lookup_param(params: Seq<ParamView>, name: Seq<char>) -> Option<Seq<char>>
    decreases params.len(),
{
    if params.len() == 0 {
        None
    } else if params[0].name == name {
        Some(params[0].value)
    } else {
        lookup_param(params.drop_first(), name)
    }
}

/// The text a placeholder resolves to: the bound argument if one matches,
/// else the context's sub-page name for the magic name, else the serialized
/// default, else the empty string.
pub open spec fn resolve_placeholder(
    name: Seq<char>,
    default: Option<Seq<NodeView>>,
    params: Seq<ParamView>,
    ctx: PageContextView,
) -> Seq<char> {
    match lookup_param(params, name) {
        Some(v) => v,
        None => if is_magic_name(name) {
            ctx.sub_page_name
        } else {
            match default {
                Some(d) => wt_seq(d),
                None => Seq::empty(),
            }
        },
    }
}

/// One substitution round over a template-free tree: placeholders become text,
/// everything else keeps its shape. `Template` nodes are left in place here;
/// the engine replaces them by recursive instantiation.
pub open spec fn subst(v: NodeView, params: Seq<ParamView>, ctx: PageContextView) -> NodeView
    decreases v, 0nat,
{
    match v {
        NodeView::Fragment { children } => NodeView::Fragment {
            children: subst_seq(children, params, ctx),
        },
        NodeView::Template { .. } => v,
        NodeView::TemplateParameterUse { name, default } => NodeView::Text {
            text: resolve_placeholder(name, default, params, ctx),
        },
        NodeView::Text { .. } => v,
        NodeView::Bold { children } => NodeView::Bold {
            children: subst_seq(children, params, ctx),
        },
        NodeView::Italic { children } => NodeView::Italic {
            children: subst_seq(children, params, ctx),
        },
        NodeView::Link { .. } => v,
        NodeView::Table { attributes, captions, rows } => NodeView::Table {
            attributes: subst_seq(attributes, params, ctx),
            captions: subst_captions(captions, params, ctx),
            rows: subst_rows(rows, params, ctx),
        },
    }
}

pub open spec fn subst_seq(s: Seq<NodeView>, params: Seq<ParamView>, ctx: PageContextView) -> Seq<
    NodeView,
>
    decreases s, 1nat,
{
    if s.len() == 0 {
        Seq::empty()
    } else {
        subst_seq(s.drop_last(), params, ctx).push(subst(s.last(), params, ctx))
    }
}

pub open spec fn subst_opt(
    o: Option<Seq<NodeView>>,
    params: Seq<ParamView>,
    ctx: PageContextView,
) -> Option<Seq<NodeView>>
    decreases o, 2nat,
{
    match o {
        Some(s) => Some(subst_seq(s, params, ctx)),
        None => None,
    }
}

pub open spec fn subst_captions(
    s: Seq<CaptionView>,
    params: Seq<ParamView>,
    ctx: PageContextView,
) -> Seq<CaptionView>
    decreases s, 3nat,
{
    if s.len() == 0 {
        Seq::empty()
    } else {
        subst_captions(s.drop_last(), params, ctx).push(
            CaptionView {
                attributes: subst_opt(s.last().attributes, params, ctx),
                content: subst_seq(s.last().content, params, ctx),
            },
        )
    }
}

pub open spec fn subst_rows(s: Seq<RowView>, params: Seq<ParamView>, ctx: PageContextView) -> Seq<
    RowView,
>
    decreases s, 3nat,
{
    if s.len() == 0 {
        Seq::empty()
    } else {
        subst_rows(s.drop_last(), params, ctx).push(
            RowView {
                attributes: subst_seq(s.last().attributes, params, ctx),
                cells: subst_cells(s.last().cells, params, ctx),
            },
        )
    }
}

pub open spec fn subst_cells(s: Seq<CellView>, params: Seq<ParamView>, ctx: PageContextView) -> Seq<
    CellView,
>
    decreases s, 4nat,
{
    if s.len() == 0 {
        Seq::empty()
    } else {
        subst_cells(s.drop_last(), params, ctx).push(
            CellView {
                attributes: subst_opt(s.last().attributes, params, ctx),
                content: subst_seq(s.last().content, params, ctx),
            },
        )
    }
}

pub broadcast proof fn lemma_subst_seq(s: Seq<NodeView>, params: Seq<ParamView>, ctx: PageContextView)
    ensures
        (#[trigger] subst_seq(s, params, ctx)).len() == s.len(),
        forall|i: int| 0 <= i < s.len() ==> subst_seq(s, params, ctx)[i] == subst(
            #[trigger] s[i],
            params,
            ctx,
        ),
    decreases s.len(),
{
    if s.len() > 0 {
        lemma_subst_seq(s.drop_last(), params, ctx);
        assert forall|i: int| 0 <= i < s.len() - 1 implies #[trigger] s[i] == s.drop_last()[i] by {}
        assert(s[s.len() - 1] == s.last());
    }
}

pub broadcast proof fn lemma_subst_captions(
    s: Seq<CaptionView>,
    params: Seq<ParamView>,
    ctx: PageContextView,
)
    ensures
        (#[trigger] subst_captions(s, params, ctx)).len() == s.len(),
        forall|i: int| 0 <= i < s.len() ==> subst_captions(s, params, ctx)[i] == (CaptionView {
            attributes: subst_opt((#[trigger] s[i]).attributes, params, ctx),
            content: subst_seq(s[i].content, params, ctx),
        }),
    decreases s.len(),
{
    if s.len() > 0 {
        lemma_subst_captions(s.drop_last(), params, ctx);
        assert forall|i: int| 0 <= i < s.len() - 1 implies #[trigger] s[i] == s.drop_last()[i] by {}
        assert(s[s.len() - 1] == s.last());
    }
}

pub broadcast proof fn lemma_subst_rows(s: Seq<RowView>, params: Seq<ParamView>, ctx: PageContextView)
    ensures
        (#[trigger] subst_rows(s, params, ctx)).len() == s.len(),
        forall|i: int| 0 <= i < s.len() ==> subst_rows(s, params, ctx)[i] == (RowView {
            attributes: subst_seq((#[trigger] s[i]).attributes, params, ctx),
            cells: subst_cells(s[i].cells, params, ctx),
        }),
    decreases s.len(),
{
    if s.len() > 0 {
        lemma_subst_rows(s.drop_last(), params, ctx);
        assert forall|i: int| 0 <= i < s.len() - 1 implies #[trigger] s[i] == s.drop_last()[i] by {}
        assert(s[s.len() - 1] == s.last());
    }
}

pub broadcast proof fn lemma_subst_cells(s: Seq<CellView>, params: Seq<ParamView>, ctx: PageContextView)
    ensures
        (#[trigger] subst_cells(s, params, ctx)).len() == s.len(),
        forall|i: int| 0 <= i < s.len() ==> subst_cells(s, params, ctx)[i] == (CellView {
            attributes: subst_opt((#[trigger] s[i]).attributes, params, ctx),
            content: subst_seq(s[i].content, params, ctx),
        }),
    decreases s.len(),
{
    if s.len() > 0 {
        lemma_subst_cells(s.drop_last(), params, ctx);
        assert forall|i: int| 0 <= i < s.len() - 1 implies #[trigger] s[i] == s.drop_last()[i] by {}
        assert(s[s.len() - 1] == s.last());
    }
}

pub broadcast group subst_lemmas {
    lemma_subst_seq,
    lemma_subst_captions,
    lemma_subst_rows,
    lemma_subst_cells,
}

/// A substitution round is the identity on a resolved tree: once no template
/// constructs remain, further passes change nothing, so the engine's
/// convergence loop reaches a fixed point.
pub proof fn lemma_subst_resolved_identity(v: NodeView, params: Seq<ParamView>, ctx: PageContextView)
    requires
        resolved(v),
    ensures
        subst(v, params, ctx) == v,
    decreases v, 0nat,
{
    broadcast use crate::props::resolved_lemmas, subst_lemmas;

    match v {
        NodeView::Fragment { children } => {
            lemma_subst_seq_resolved_identity(children, params, ctx);
        },
        NodeView::Bold { children } => {
            lemma_subst_seq_resolved_identity(children, params, ctx);
        },
        NodeView::Italic { children } => {
            lemma_subst_seq_resolved_identity(children, params, ctx);
        },
        NodeView::Table { attributes, captions, rows } => {
            lemma_subst_seq_resolved_identity(attributes, params, ctx);
            crate::props::lemma_captions_resolved(captions);
            crate::props::lemma_rows_resolved(rows);
            assert forall|i: int| 0 <= i < captions.len() implies subst_captions(
                captions,
                params,
                ctx,
            )[i] == captions[i] by {
                match captions[i].attributes {
                    Some(a) => lemma_subst_seq_resolved_identity(a, params, ctx),
                    None => {},
                }
                lemma_subst_seq_resolved_identity(captions[i].content, params, ctx);
            }
            assert(subst_captions(captions, params, ctx) =~= captions);
            assert forall|i: int| 0 <= i < rows.len() implies subst_rows(rows, params, ctx)[i]
                == rows[i] by {
                lemma_subst_seq_resolved_identity(rows[i].attributes, params, ctx);
                let cells = rows[i].cells;
                crate::props::lemma_cells_resolved(cells);
                assert forall|k: int| 0 <= k < cells.len() implies subst_cells(cells, params, ctx)[k]
                    == cells[k] by {
                    match cells[k].attributes {
                        Some(a) => lemma_subst_seq_resolved_identity(a, params, ctx),
                        None => {},
                    }
                    lemma_subst_seq_resolved_identity(cells[k].content, params, ctx);
                }
                assert(subst_cells(cells, params, ctx) =~= cells);
            }
            assert(subst_rows(rows, params, ctx) =~= rows);
        },
        _ => {},
    }
}

pub proof fn lemma_subst_seq_resolved_identity(
    s: Seq<NodeView>,
    params: Seq<ParamView>,
    ctx: PageContextView,
)
    requires
        all_resolved(s),
    ensures
        subst_seq(s, params, ctx) == s,
    decreases s, 1nat,
{
    broadcast use crate::props::resolved_lemmas, subst_lemmas;

    assert forall|i: int| 0 <= i < s.len() implies subst_seq(s, params, ctx)[i] == s[i] by {
        lemma_subst_resolved_identity(s[i], params, ctx);
    }
    assert(subst_seq(s, params, ctx) =~= s);
}


/// One substitution round resolves a template-free tree: every placeholder
/// becomes text, so no unresolved construct survives the pass. This is the
/// inductive heart of convergence: repeated passes reach a tree with zero
/// template constructs as soon as every invocation they perform does.
pub proof fn lemma_subst_resolves(v: NodeView, params: Seq<ParamView>, ctx: PageContextView)
    requires
        template_free(v),
    ensures
        resolved(subst(v, params, ctx)),
    decreases v, 0nat,
{
    broadcast use crate::props::resolved_lemmas, crate::props::template_free_lemmas, subst_lemmas;

    match v {
        NodeView::Fragment { children } => {
            lemma_subst_seq_resolves(children, params, ctx);
        },
        NodeView::Bold { children } => {
            lemma_subst_seq_resolves(children, params, ctx);
        },
        NodeView::Italic { children } => {
            lemma_subst_seq_resolves(children, params, ctx);
        },
        NodeView::Table { attributes, captions, rows } => {
            lemma_subst_seq_resolves(attributes, params, ctx);
            crate::props::lemma_captions_template_free(captions);
            crate::props::lemma_rows_template_free(rows);
            let sc = subst_captions(captions, params, ctx);
            assert forall|i: int| 0 <= i < sc.len() implies opt_resolved(
                (#[trigger] sc[i]).attributes,
            ) && all_resolved(sc[i].content) by {
                match captions[i].attributes {
                    Some(a) => lemma_subst_seq_resolves(a, params, ctx),
                    None => {},
                }
                lemma_subst_seq_resolves(captions[i].content, params, ctx);
            }
            crate::props::lemma_captions_resolved(sc);
            let sr = subst_rows(rows, params, ctx);
            assert forall|i: int| 0 <= i < sr.len() implies all_resolved(
                (#[trigger] sr[i]).attributes,
            ) && cells_resolved(sr[i].cells) by {
                lemma_subst_seq_resolves(rows[i].attributes, params, ctx);
                let cells = rows[i].cells;
                crate::props::lemma_cells_template_free(cells);
                let scl = subst_cells(cells, params, ctx);
                assert forall|k: int| 0 <= k < scl.len() implies opt_resolved(
                    (#[trigger] scl[k]).attributes,
                ) && all_resolved(scl[k].content) by {
                    match cells[k].attributes {
                        Some(a) => lemma_subst_seq_resolves(a, params, ctx),
                        None => {},
                    }
                    lemma_subst_seq_resolves(cells[k].content, params, ctx);
                }
                crate::props::lemma_cells_resolved(scl);
            }
            crate::props::lemma_rows_resolved(sr);
        },
        _ => {},
    }
}

pub proof fn lemma_subst_seq_resolves(s: Seq<NodeView>, params: Seq<ParamView>, ctx: PageContextView)
    requires
        seq_template_free(s),
    ensures
        all_resolved(subst_seq(s, params, ctx)),
    decreases s, 1nat,
{
    broadcast use crate::props::resolved_lemmas, crate::props::template_free_lemmas, subst_lemmas;

    let ss = subst_seq(s, params, ctx);
    assert forall|i: int| 0 <= i < ss.len() implies resolved(#[trigger] ss[i]) by {
        lemma_subst_resolves(s[i], params, ctx);
    }
    crate::props::lemma_all_resolved(ss);
}


pub proof fn lemma_lookup_param_found(params: Seq<ParamView>, name: Seq<char>, j: int)
    requires
        0 <= j < params.len(),
        params[j].name == name,
        forall|m: int| 0 <= m < j ==> (#[trigger] params[m]).name != name,
    ensures
        lookup_param(params, name) == Some(params[j].value),
    decreases j,
{
    if j > 0 {
        assert forall|m: int| 0 <= m < j - 1 implies (#[trigger] params.drop_first()[m]).name
            != name by {
            assert(params.drop_first()[m] == params[m + 1]);
        }
        assert(params.drop_first()[j - 1] == params[j]);
        lemma_lookup_param_found(params.drop_first(), name, j - 1);
    }
}

pub proof fn lemma_lookup_param_none(params: Seq<ParamView>, name: Seq<char>)
    requires
        forall|m: int| 0 <= m < params.len() ==> (#[trigger] params[m]).name != name,
    ensures
        lookup_param(params, name) is None,
    decreases params.len(),
{
    if params.len() > 0 {
        assert forall|m: int| 0 <= m < params.len() - 1 implies (#[trigger] params.drop_first()[m]).name
            != name by {
            assert(params.drop_first()[m] == params[m + 1]);
        }
        lemma_lookup_param_none(params.drop_first(), name);
    }
}

} // verus!
