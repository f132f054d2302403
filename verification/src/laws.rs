//! Laws of the engine, stated and proved once for all inputs.
//!
//! Each proof function here records a property of the substitution semantics
//! or of the grammar that holds for every input its `requires` admits; the
//! engine's own contracts in `template` state the per-call guarantees
//! (resolvedness of results, the magic-name short circuit, exact
//! `TemplateNotFound` conditions, identity on resolved input, cache
//! monotonicity, table-boundary preservation through `tables_kept` and
//! `fixup_kept`, and owed success with pinned results on `shallow` trees and
//! template-free bodies).

use vstd::prelude::*;

use crate::node::CellView;
use crate::node::NodeView;
use crate::node::ParamView;
use crate::node::RowView;
use crate::page_context::PageContextView;
use crate::parse::construct_at;
use crate::parse::parse_inline;
use crate::parse::parse_text;
use crate::parse::run_end;
use crate::props::resolved;
use crate::props::template_free;
use crate::serialize::wt;
use crate::serialize::wt_seq;
use crate::subst::lookup_param;
use crate::subst::resolve_placeholder;
use crate::subst::subst;
use crate::subst::subst_cells;
use crate::subst::subst_opt;
use crate::subst::subst_rows;
use crate::subst::subst_seq;
use crate::text::is_magic_name;

verus! {

/// Argument precedence: an argument bound by name always wins over that same
/// placeholder's default, and over the magic fallback.
pub proof fn law_argument_precedence(
    name: Seq<char>,
    default: Option<Seq<NodeView>>,
    params: Seq<ParamView>,
    ctx: PageContextView,
    v: Seq<char>,
)
    requires
        lookup_param(params, name) == Some(v),
    ensures
        resolve_placeholder(name, default, params, ctx) == v,
{
}

/// Default fallback: an unbound placeholder with a default, other than the
/// magic name, renders the default's serialization verbatim.
pub proof fn law_default_fallback(
    name: Seq<char>,
    d: Seq<NodeView>,
    params: Seq<ParamView>,
    ctx: PageContextView,
)
    requires
        lookup_param(params, name) is None,
        !is_magic_name(name),
    ensures
        resolve_placeholder(name, Some(d), params, ctx) == wt_seq(d),
{
}

/// Empty fallback: an unbound placeholder with no default, other than the
/// magic name, renders as empty text.
pub proof fn law_empty_fallback(name: Seq<char>, params: Seq<ParamView>, ctx: PageContextView)
    requires
        lookup_param(params, name) is None,
        !is_magic_name(name),
    ensures
        resolve_placeholder(name, None, params, ctx) == Seq::<char>::empty(),
{
}

/// Magic parameter fallback: a placeholder named like the magic sub-page name
/// uses an explicit same-named argument if one is bound; otherwise it falls
/// back to the context's sub-page name before any default.
pub proof fn law_magic_parameter_fallback(
    name: Seq<char>,
    default: Option<Seq<NodeView>>,
    params: Seq<ParamView>,
    ctx: PageContextView,
)
    requires
        is_magic_name(name),
    ensures
        lookup_param(params, name) matches Some(v) ==> resolve_placeholder(
            name,
            default,
            params,
            ctx,
        ) == v,
        lookup_param(params, name) is None ==> resolve_placeholder(name, default, params, ctx)
            == ctx.sub_page_name,
{
}

/// A placeholder substitutes to exactly the text `resolve_placeholder` gives:
/// the laws above are laws of the substitution pass itself.
pub proof fn law_placeholder_substitution(
    name: Seq<char>,
    default: Option<Seq<NodeView>>,
    params: Seq<ParamView>,
    ctx: PageContextView,
)
    ensures
        subst(NodeView::TemplateParameterUse { name, default }, params, ctx) == (NodeView::Text {
            text: resolve_placeholder(name, default, params, ctx),
        }),
{
}

/// Table convergence: a resolved tree holds no invocation at all, a
/// substitution pass is the identity on it, and its serialization is stable —
/// so the engine's convergence loop stops one comparison round after a pass
/// has resolved every construct.
pub proof fn law_pass_serialization_stable(v: NodeView, params: Seq<ParamView>, ctx: PageContextView)
    requires
        resolved(v),
    ensures
        template_free(v),
        subst(v, params, ctx) == v,
        wt(subst(v, params, ctx)) == wt(v),
{
    crate::props::lemma_resolved_is_template_free(v);
    crate::subst::lemma_subst_resolved_identity(v, params, ctx);
}

/// Convergence of repeated substitution: one pass over a tree with no template
/// invocations leaves zero unresolved constructs, whatever the arguments and
/// context; together with `law_pass_serialization_stable` this is why the
/// engine's loops reach a fixed point whenever every nested invocation does.
pub proof fn law_pass_resolves(v: NodeView, params: Seq<ParamView>, ctx: PageContextView)
    requires
        template_free(v),
    ensures
        resolved(subst(v, params, ctx)),
{
    crate::subst::lemma_subst_resolves(v, params, ctx);
}

/// Cell isolation under substitution: a pass maps every row and every cell in
/// place — row and cell counts are unchanged, and what a cell becomes depends
/// on that cell alone, never on its siblings.
pub proof fn law_cells_isolated(s: Seq<CellView>, params: Seq<ParamView>, ctx: PageContextView)
    ensures
        subst_cells(s, params, ctx).len() == s.len(),
        forall|i: int| 0 <= i < s.len() ==> subst_cells(s, params, ctx)[i] == (CellView {
            attributes: subst_opt((#[trigger] s[i]).attributes, params, ctx),
            content: subst_seq(s[i].content, params, ctx),
        }),
{
    crate::subst::lemma_subst_cells(s, params, ctx);
}

/// Row isolation under substitution: row count and per-row cell counts are
/// preserved by a pass.
pub proof fn law_rows_preserved(s: Seq<RowView>, params: Seq<ParamView>, ctx: PageContextView)
    ensures
        subst_rows(s, params, ctx).len() == s.len(),
        forall|i: int|
            0 <= i < s.len() ==> (#[trigger] subst_rows(s, params, ctx)[i]).cells.len()
                == s[i].cells.len(),
{
    crate::subst::lemma_subst_rows(s, params, ctx);
    assert forall|i: int|
        0 <= i < s.len() implies (#[trigger] subst_rows(s, params, ctx)[i]).cells.len()
        == s[i].cells.len() by {
        crate::subst::lemma_subst_cells(s[i].cells, params, ctx);
    }
}

/// Idempotence of the grammar round trip on plain text: serializing a text
/// node that holds none of the characters that can open a construct and
/// re-parsing it yields the same single text node. (Text that itself spells
/// markup — an emphasis span, a brace pair — re-parses as structure instead,
/// by design: that is how the engine discovers markup synthesized by
/// substitution.)
pub proof fn law_plain_text_roundtrip(t: Seq<char>)
    requires
        t.len() > 0,
        forall|i: int| 0 <= i < t.len() ==> #[trigger] t[i] != '{' && t[i] != '[' && t[i] != '\'',
    ensures
        parse_text(wt(NodeView::Text { text: t })) == seq![NodeView::Text { text: t }],
        resolved(NodeView::Text { text: t }),
{
    let end = t.len() as int;
    assert forall|k: int| 0 <= k < end implies !construct_at(t, k, end) by {
        assert(t[k] != '{' && t[k] != '[' && t[k] != '\'');
    }
    crate::parse::lemma_run_end(t, 0, end);
    let re = run_end(t, 0, end);
    if re < end {
        assert(construct_at(t, re, end));
        assert(false);
    }
    assert(t.subrange(0, end) =~= t);
    assert(parse_inline(t, end, end) =~= Seq::<NodeView>::empty());
    assert(parse_inline(t, 0, end) =~= seq![NodeView::Text { text: t }]);
}

} // verus!
