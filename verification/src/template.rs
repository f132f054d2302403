//! The template store and the instantiation engine.
//!
//! `Templates` maps normalized template names to parsed trees, caching each
//! parse, and `instantiate` resolves a template invocation — or an
//! already-built tree — into a tree with no unresolved constructs remaining.
//!
//! Beyond resolvedness, the engine owes success with a pinned result wherever
//! no store lookup can fail. `eval_name` and `eval_expand` are the reference
//! semantics: what expansion computes from the template sources alone, to any
//! recursion depth within the budget, on the table-free path. Whenever they
//! yield a value, `instantiate` returns exactly that value. Budget-free
//! special cases are stated alongside: resolved input, resolved template
//! bodies, template-free bodies whose single round trip converges, and
//! `shallow` trees — trees whose every invocation names the magic name or a
//! stored body that expands in one round (`leaf_ok`). The `wf` invariant —
//! the parse cache is a memo of the store — makes these guarantees
//! independent of the cache's state.

use vstd::prelude::*;

use crate::node::Node;
use crate::node::NodeView;
use crate::node::CaptionView;
use crate::node::CellView;
use crate::node::ParamView;
use crate::node::RowView;
use crate::node::TableCaption;
use crate::node::TableCell;
use crate::node::TableRow;
use crate::node::TemplateParameter;
use crate::node::caption_views;
use crate::node::cell_views;
use crate::node::node_view;
use crate::node::node_view_lemmas;
use crate::node::node_views;
use crate::node::opt_node_views;
use crate::node::param_views;
use crate::node::row_views;
use crate::page_context::PageContext;
use crate::props::all_resolved;
use crate::props::captions_resolved;
use crate::props::captions_template_free;
use crate::props::cells_resolved;
use crate::props::cells_template_free;
use crate::props::contains_table;
use crate::props::has_proper_table;
use crate::props::has_table_node;
use crate::props::is_resolved;
use crate::props::opt_resolved;
use crate::props::opt_template_free;
use crate::props::resolved;
use crate::props::resolved_lemmas;
use crate::props::rows_resolved;
use crate::props::rows_template_free;
use crate::props::seq_template_free;
use crate::props::template_free;
use crate::props::lemma_fixup_tables_kept;
use crate::props::lemma_proper_table_survives;
use crate::props::lemma_seq_tables_kept;
use crate::props::lemma_tables_kept_refl;
use crate::props::lemma_tables_kept_trans;
use crate::props::rows_counts_kept;
use crate::props::seq_tables_kept;
use crate::props::tables_kept;
use crate::props::template_free_lemmas;
use crate::serialize::to_wikitext_nodes;
use crate::serialize::wt;
use crate::subst::lemma_lookup_param_found;
use crate::subst::lemma_lookup_param_none;
use crate::subst::lemma_subst_resolved_identity;
use crate::subst::lookup_param;
use crate::subst::resolve_placeholder;
use crate::subst::subst;
use crate::subst::subst_captions;
use crate::subst::subst_cells;
use crate::subst::subst_lemmas;
use crate::subst::subst_opt;
use crate::subst::subst_rows;
use crate::subst::subst_seq;
use crate::text::is_magic;
use crate::text::is_magic_name;
use crate::text::norm_seq;
use crate::text::normalize_name;

verus! {

/// Why an instantiation failed.
#[derive(Debug)]
pub enum Error {
    /// The store has no entry for the normalized key; reported with both the
    /// requested name and its normalized key.
    TemplateNotFound { name: String, key: String },
    /// Expansion nested deeper than the engine's recursion budget; raised
    /// instead of recursing without bound on cyclic template sets.
    RecursionLimitExceeded,
}

/// A `TemplateNotFound` error is truthful: it carries the normalized key of
/// its requested name, and the store really has no entry under that key.
pub open spec fn notfound_wf(e: Error, sources: Map<Seq<char>, Seq<char>>) -> bool {
    e matches Error::TemplateNotFound { name, key } ==> key@ == norm_seq(name@)
        && !sources.contains_key(key@)
}

/// Map `a` keeps every entry of map `b`: the parse cache only grows, and no
/// cached tree ever changes.
pub open spec fn cache_extends(a: Map<Seq<char>, NodeView>, b: Map<Seq<char>, NodeView>) -> bool {
    forall|k: Seq<char>|
        #[trigger] b.contains_key(k) ==> a.contains_key(k) && a[k] == b[k]
}

pub proof fn lemma_cache_extends_trans(
    a: Map<Seq<char>, NodeView>,
    b: Map<Seq<char>, NodeView>,
    c: Map<Seq<char>, NodeView>,
)
    requires
        cache_extends(a, b),
        cache_extends(b, c),
    ensures
        cache_extends(a, c),
{
}

/// A source of raw template text, looked up by normalized name.
pub trait TemplateLoader {
    /// The texts this loader serves, keyed by normalized name.
    spec fn sources(&self) -> Map<Seq<char>, Seq<char>>;

    /// Loads the raw text for `name`, normalizing it first; fails with
    /// `TemplateNotFound` exactly when no entry matches the normalized key.
    fn load(&self, name: &str) -> (r: Result<String, Error>)
        ensures
            match r {
                Ok(text) => self.sources().contains_key(norm_seq(name@)) && text@
                    == self.sources()[norm_seq(name@)],
                Err(e) => !self.sources().contains_key(norm_seq(name@)) && (e matches
                Error::TemplateNotFound { name: n, key: k } && n@ == name@ && k@ == norm_seq(
                    name@,
                )),
            },
    ;
}

/// The sources held by an association list, later entries shadowing earlier
/// ones.
pub open spec fn source_map(s: Seq<(String, String)>) -> Map<Seq<char>, Seq<char>>
    decreases s.len(),
{
    if s.len() == 0 {
        Map::empty()
    } else {
        source_map(s.drop_last()).insert(s.last().0@, s.last().1@)
    }
}

proof fn lemma_source_map_found(s: Seq<(String, String)>, j: int)
    requires
        0 <= j < s.len(),
        forall|m: int| j < m < s.len() ==> (#[trigger] s[m]).0@ != s[j].0@,
    ensures
        source_map(s).contains_key(s[j].0@),
        source_map(s)[s[j].0@] == s[j].1@,
    decreases s.len(),
{
    if j == s.len() - 1 {
    } else {
        assert forall|m: int| j < m < s.len() - 1 implies (#[trigger] s.drop_last()[m]).0@
            != s.drop_last()[j].0@ by {
            assert(s.drop_last()[m] == s[m]);
        }
        lemma_source_map_found(s.drop_last(), j);
        assert(s[s.len() - 1] == s.last());
    }
}

proof fn lemma_source_map_none(s: Seq<(String, String)>, k: Seq<char>)
    requires
        forall|m: int| 0 <= m < s.len() ==> (#[trigger] s[m]).0@ != k,
    ensures
        !source_map(s).contains_key(k),
    decreases s.len(),
{
    if s.len() > 0 {
        assert forall|m: int| 0 <= m < s.len() - 1 implies (#[trigger] s.drop_last()[m]).0@
            != k by {
            assert(s.drop_last()[m] == s[m]);
        }
        lemma_source_map_none(s.drop_last(), k);
        assert(s[s.len() - 1] == s.last());
    }
}

/// An in-memory template source: name and text pairs, keyed by normalized
/// name, a later `add` of the same name shadowing the earlier one.
pub struct MemoryLoader {
    entries: Vec<(String, String)>,
}

impl MemoryLoader {
    pub fn new() -> (r: MemoryLoader)
        ensures
            r.sources() == Map::<Seq<char>, Seq<char>>::empty(),
    {
        MemoryLoader { entries: Vec::new() }
    }

    /// Files `content` under the normalized form of `name`.
    pub fn add(&mut self, name: &str, content: &str)
        ensures
            final(self).sources() == old(self).sources().insert(norm_seq(name@), content@),
    {
        let key = normalize_name(name);
        let ghost before = self.entries@;
        self.entries.push((key, content.to_owned()));
        proof {
            assert(self.entries@.drop_last() =~= before);
        }
    }
}

impl TemplateLoader for MemoryLoader {
    closed spec fn sources(&self) -> Map<Seq<char>, Seq<char>> {
        source_map(self.entries@)
    }

    #[verifier::loop_isolation(false)]
    fn load(&self, name: &str) -> (r: Result<String, Error>) {
        let key = normalize_name(name);
        let n = self.entries.len();
        let mut i = n;
        while i > 0
            invariant
                i <= n,
                forall|m: int| i <= m < n ==> (#[trigger] self.entries@[m]).0@ != norm_seq(name@),
            decreases i,
        {
            i = i - 1;
            if self.entries[i].0.eq(&key) {
                proof {
                    lemma_source_map_found(self.entries@, i as int);
                }
                return Ok(self.entries[i].1.clone());
            }
        }
        proof {
            lemma_source_map_none(self.entries@, norm_seq(name@));
        }
        Err(Error::TemplateNotFound { name: name.to_owned(), key })
    }
}

/// The trees held by the parse cache's association list.
pub open spec fn cache_map(s: Seq<(String, Node)>) -> Map<Seq<char>, NodeView>
    decreases s.len(),
{
    if s.len() == 0 {
        Map::empty()
    } else {
        cache_map(s.drop_last()).insert(s.last().0@, s.last().1@)
    }
}

proof fn lemma_cache_map_found(s: Seq<(String, Node)>, j: int)
    requires
        0 <= j < s.len(),
        forall|m: int| j < m < s.len() ==> (#[trigger] s[m]).0@ != s[j].0@,
    ensures
        cache_map(s).contains_key(s[j].0@),
        cache_map(s)[s[j].0@] == s[j].1@,
    decreases s.len(),
{
    if j == s.len() - 1 {
    } else {
        assert forall|m: int| j < m < s.len() - 1 implies (#[trigger] s.drop_last()[m]).0@
            != s.drop_last()[j].0@ by {
            assert(s.drop_last()[m] == s[m]);
        }
        lemma_cache_map_found(s.drop_last(), j);
        assert(s[s.len() - 1] == s.last());
    }
}

proof fn lemma_cache_map_none(s: Seq<(String, Node)>, k: Seq<char>)
    requires
        forall|m: int| 0 <= m < s.len() ==> (#[trigger] s[m]).0@ != k,
    ensures
        !cache_map(s).contains_key(k),
    decreases s.len(),
{
    if s.len() > 0 {
        assert forall|m: int| 0 <= m < s.len() - 1 implies (#[trigger] s.drop_last()[m]).0@
            != k by {
            assert(s.drop_last()[m] == s[m]);
        }
        lemma_cache_map_none(s.drop_last(), k);
        assert(s[s.len() - 1] == s.last());
    }
}

/// A template body as the store holds it: the parse of the text under a
/// normalized key.
pub open spec fn stored_body(srcs: Map<Seq<char>, Seq<char>>, key: Seq<char>) -> NodeView {
    NodeView::Fragment { children: crate::parse::parse_text(srcs[key]) }
}

/// The invocation of `name` with `params` expands in a single round: the name
/// is stored, its body holds no further invocations, and — unless the body is
/// already resolved — one substitution round followed by one serialize-reparse
/// round trip reaches a resolved, table-free fixed point.
pub open spec fn leaf_ok(
    srcs: Map<Seq<char>, Seq<char>>,
    name: Seq<char>,
    params: Seq<ParamView>,
    ctx: crate::page_context::PageContextView,
) -> bool {
    let key = norm_seq(name);
    &&& srcs.contains_key(key)
    &&& template_free(stored_body(srcs, key))
    &&& (resolved(stored_body(srcs, key)) || {
        let t = subst(stored_body(srcs, key), params, ctx);
        !has_table_node(t) && resolved(
            NodeView::Fragment { children: crate::parse::parse_text(wt(t)) },
        )
    })
}

/// What the invocation of `name` with `params` yields when it is magic or
/// expands in a single round.
pub open spec fn leaf_result(
    srcs: Map<Seq<char>, Seq<char>>,
    name: Seq<char>,
    params: Seq<ParamView>,
    ctx: crate::page_context::PageContextView,
) -> NodeView {
    if is_magic_name(name) {
        NodeView::Text { text: ctx.sub_page_name }
    } else {
        let body = stored_body(srcs, norm_seq(name));
        if resolved(body) {
            body
        } else {
            NodeView::Fragment {
                children: crate::parse::parse_text(wt(subst(body, params, ctx))),
            }
        }
    }
}

/// The flattening the pass applies to each invocation's result: a fragment
/// with exactly one child is unwrapped to that child.
pub open spec fn unwrap_single(v: NodeView) -> NodeView {
    match v {
        NodeView::Fragment { children } => if children.len() == 1 {
            children[0]
        } else {
            v
        },
        _ => v,
    }
}

/// Every invocation in the tree is shallow — it names the magic name or a
/// stored body that expands in a single round — and the tree holds no table
/// (what the engine keeps of tables is stated through `tables_kept` and
/// `fixup_kept` instead).
pub open spec fn shallow(
    srcs: Map<Seq<char>, Seq<char>>,
    v: NodeView,
    ctx: crate::page_context::PageContextView,
) -> bool
    decreases v, 0nat,
{
    match v {
        NodeView::Fragment { children } => shallow_seq(srcs, children, ctx),
        NodeView::Template { name, parameters } => is_magic_name(name) || leaf_ok(
            srcs,
            name,
            parameters,
            ctx,
        ),
        NodeView::TemplateParameterUse { .. } => true,
        NodeView::Text { .. } => true,
        NodeView::Bold { children } => shallow_seq(srcs, children, ctx),
        NodeView::Italic { children } => shallow_seq(srcs, children, ctx),
        NodeView::Link { .. } => true,
        NodeView::Table { .. } => false,
    }
}

pub open spec fn shallow_seq(
    srcs: Map<Seq<char>, Seq<char>>,
    s: Seq<NodeView>,
    ctx: crate::page_context::PageContextView,
) -> bool
    decreases s, 1nat,
{
    if s.len() == 0 {
        true
    } else {
        shallow_seq(srcs, s.drop_last(), ctx) && shallow(srcs, s.last(), ctx)
    }
}

/// What one engine substitution round computes on a shallow tree: placeholders
/// resolve to text, and every invocation is replaced by its single-round
/// expansion, single-child fragments unwrapped.
pub open spec fn round(
    srcs: Map<Seq<char>, Seq<char>>,
    v: NodeView,
    params: Seq<ParamView>,
    ctx: crate::page_context::PageContextView,
) -> NodeView
    decreases v, 0nat,
{
    match v {
        NodeView::Fragment { children } => NodeView::Fragment {
            children: round_seq(srcs, children, params, ctx),
        },
        NodeView::Template { name, parameters } => unwrap_single(
            leaf_result(srcs, name, parameters, ctx),
        ),
        NodeView::TemplateParameterUse { name, default } => NodeView::Text {
            text: resolve_placeholder(name, default, params, ctx),
        },
        NodeView::Text { .. } => v,
        NodeView::Bold { children } => NodeView::Bold {
            children: round_seq(srcs, children, params, ctx),
        },
        NodeView::Italic { children } => NodeView::Italic {
            children: round_seq(srcs, children, params, ctx),
        },
        NodeView::Link { .. } => v,
        NodeView::Table { .. } => v,
    }
}

pub open spec fn round_seq(
    srcs: Map<Seq<char>, Seq<char>>,
    s: Seq<NodeView>,
    params: Seq<ParamView>,
    ctx: crate::page_context::PageContextView,
) -> Seq<NodeView>
    decreases s, 1nat,
{
    if s.len() == 0 {
        Seq::empty()
    } else {
        round_seq(srcs, s.drop_last(), params, ctx).push(round(srcs, s.last(), params, ctx))
    }
}

pub broadcast proof fn lemma_shallow_seq(
    srcs: Map<Seq<char>, Seq<char>>,
    s: Seq<NodeView>,
    ctx: crate::page_context::PageContextView,
)
    ensures
        #[trigger] shallow_seq(srcs, s, ctx) <==> (forall|i: int|
            0 <= i < s.len() ==> shallow(srcs, #[trigger] s[i], ctx)),
    decreases s.len(),
{
    if s.len() > 0 {
        lemma_shallow_seq(srcs, s.drop_last(), ctx);
        assert forall|i: int| 0 <= i < s.len() - 1 implies #[trigger] s[i] == s.drop_last()[i] by {}
        assert(s[s.len() - 1] == s.last());
    }
}

pub broadcast proof fn lemma_round_seq(
    srcs: Map<Seq<char>, Seq<char>>,
    s: Seq<NodeView>,
    params: Seq<ParamView>,
    ctx: crate::page_context::PageContextView,
)
    ensures
        (#[trigger] round_seq(srcs, s, params, ctx)).len() == s.len(),
        forall|i: int| 0 <= i < s.len() ==> round_seq(srcs, s, params, ctx)[i] == round(
            srcs,
            #[trigger] s[i],
            params,
            ctx,
        ),
    decreases s.len(),
{
    if s.len() > 0 {
        lemma_round_seq(srcs, s.drop_last(), params, ctx);
        assert forall|i: int| 0 <= i < s.len() - 1 implies #[trigger] s[i] == s.drop_last()[i] by {}
        assert(s[s.len() - 1] == s.last());
    }
}

/// A round is the identity on a resolved tree.
pub proof fn lemma_round_resolved_identity(
    srcs: Map<Seq<char>, Seq<char>>,
    v: NodeView,
    params: Seq<ParamView>,
    ctx: crate::page_context::PageContextView,
)
    requires
        resolved(v),
    ensures
        round(srcs, v, params, ctx) == v,
    decreases v, 0nat,
{
    broadcast use resolved_lemmas, lemma_round_seq;

    match v {
        NodeView::Fragment { children } => {
            lemma_round_seq_resolved_identity(srcs, children, params, ctx);
        },
        NodeView::Bold { children } => {
            lemma_round_seq_resolved_identity(srcs, children, params, ctx);
        },
        NodeView::Italic { children } => {
            lemma_round_seq_resolved_identity(srcs, children, params, ctx);
        },
        _ => {},
    }
}

pub proof fn lemma_round_seq_resolved_identity(
    srcs: Map<Seq<char>, Seq<char>>,
    s: Seq<NodeView>,
    params: Seq<ParamView>,
    ctx: crate::page_context::PageContextView,
)
    requires
        all_resolved(s),
    ensures
        round_seq(srcs, s, params, ctx) == s,
    decreases s, 1nat,
{
    broadcast use resolved_lemmas, lemma_round_seq;

    assert forall|i: int| 0 <= i < s.len() implies round_seq(srcs, s, params, ctx)[i] == s[i] by {
        lemma_round_resolved_identity(srcs, s[i], params, ctx);
    }
    assert(round_seq(srcs, s, params, ctx) =~= s);
}

/// What invoking `name` yields, computed from the store alone, within a
/// recursion budget: the reference semantics of the engine on table-free
/// expansions. `None` means the expansion is out of this function's reach —
/// a name is missing, the budget runs out, or a table appears (what the
/// engine keeps of tables is stated through `tables_kept` and `fixup_kept`).
pub open spec fn eval_name(
    srcs: Map<Seq<char>, Seq<char>>,
    name: Seq<char>,
    params: Seq<ParamView>,
    ctx: crate::page_context::PageContextView,
    fuel: nat,
) -> Option<NodeView>
    decreases fuel, 1nat, name,
{
    if is_magic_name(name) {
        Some(NodeView::Text { text: ctx.sub_page_name })
    } else if !srcs.contains_key(norm_seq(name)) {
        None
    } else {
        eval_expand(srcs, stored_body(srcs, norm_seq(name)), params, ctx, fuel)
    }
}

/// What expanding a tree to its fixed point yields, within a recursion budget:
/// one substitution round, then the serialize-reparse round trip, repeated
/// until the tree is resolved.
pub open spec fn eval_expand(
    srcs: Map<Seq<char>, Seq<char>>,
    v: NodeView,
    params: Seq<ParamView>,
    ctx: crate::page_context::PageContextView,
    fuel: nat,
) -> Option<NodeView>
    decreases fuel, 0nat, v,
{
    if resolved(v) {
        Some(v)
    } else if fuel == 0 {
        None
    } else {
        match eval_round(srcs, v, params, ctx, (fuel - 1) as nat) {
            None => None,
            Some(cur) => if has_table_node(cur) {
                None
            } else {
                eval_expand(
                    srcs,
                    NodeView::Fragment { children: crate::parse::parse_text(wt(cur)) },
                    params,
                    ctx,
                    (fuel - 1) as nat,
                )
            },
        }
    }
}

/// What one substitution round yields, within a recursion budget: placeholders
/// resolve to text and every invocation is instantiated recursively, fragments
/// with one child unwrapped.
pub open spec fn eval_round(
    srcs: Map<Seq<char>, Seq<char>>,
    v: NodeView,
    params: Seq<ParamView>,
    ctx: crate::page_context::PageContextView,
    fuel: nat,
) -> Option<NodeView>
    decreases fuel, 2nat, v,
{
    if resolved(v) {
        Some(v)
    } else {
        match v {
            NodeView::Fragment { children } => match eval_round_seq(
                srcs,
                children,
                params,
                ctx,
                fuel,
            ) {
                Some(cs) => Some(NodeView::Fragment { children: cs }),
                None => None,
            },
            NodeView::Template { name, parameters } => match eval_name(
                srcs,
                name,
                parameters,
                ctx,
                fuel,
            ) {
                Some(rr) => Some(unwrap_single(rr)),
                None => None,
            },
            NodeView::TemplateParameterUse { name, default } => Some(
                NodeView::Text { text: resolve_placeholder(name, default, params, ctx) },
            ),
            NodeView::Text { .. } => Some(v),
            NodeView::Bold { children } => match eval_round_seq(srcs, children, params, ctx, fuel) {
                Some(cs) => Some(NodeView::Bold { children: cs }),
                None => None,
            },
            NodeView::Italic { children } => match eval_round_seq(
                srcs,
                children,
                params,
                ctx,
                fuel,
            ) {
                Some(cs) => Some(NodeView::Italic { children: cs }),
                None => None,
            },
            NodeView::Link { .. } => Some(v),
            NodeView::Table { .. } => None,
        }
    }
}

pub open spec fn eval_round_seq(
    srcs: Map<Seq<char>, Seq<char>>,
    s: Seq<NodeView>,
    params: Seq<ParamView>,
    ctx: crate::page_context::PageContextView,
    fuel: nat,
) -> Option<Seq<NodeView>>
    decreases fuel, 2nat, s,
{
    if s.len() == 0 {
        Some(Seq::empty())
    } else {
        match eval_round_seq(srcs, s.drop_last(), params, ctx, fuel) {
            None => None,
            Some(pre) => {
                proof {
                    assert(decreases_to!(s => s.last()));
                }
                match eval_round(srcs, s.last(), params, ctx, fuel) {
                    None => None,
                    Some(last) => Some(pre.push(last)),
                }
            },
        }
    }
}

pub proof fn lemma_eval_round_seq(
    srcs: Map<Seq<char>, Seq<char>>,
    s: Seq<NodeView>,
    params: Seq<ParamView>,
    ctx: crate::page_context::PageContextView,
    fuel: nat,
)
    ensures
        (eval_round_seq(srcs, s, params, ctx, fuel) matches Some(cs) ==> cs.len() == s.len() && (
        forall|i: int|
            0 <= i < s.len() ==> eval_round(srcs, #[trigger] s[i], params, ctx, fuel) == Some(
                cs[i],
            ))),
        (forall|i: int|
            0 <= i < s.len() && eval_round(srcs, #[trigger] s[i], params, ctx, fuel) is None
                ==> eval_round_seq(srcs, s, params, ctx, fuel) is None),
    decreases s.len(),
{
    if s.len() > 0 {
        lemma_eval_round_seq(srcs, s.drop_last(), params, ctx, fuel);
        assert forall|i: int| 0 <= i < s.len() - 1 implies #[trigger] s[i] == s.drop_last()[i] by {}
        assert(s[s.len() - 1] == s.last());
    }
}

/// What `instantiate` is asked to expand: a stored template by name, or an
/// already-built tree for recursive and internal calls.
pub enum TemplateToInstantiate<'a> {
    Name(&'a str),
    Node(Node),
}

/// The template store: a loader of raw text and a parse cache that memoizes
/// each template's parsed tree under its normalized name.
pub struct Templates<L: TemplateLoader> {
    loader: L,
    templates: Vec<(String, Node)>,
}

impl<L: TemplateLoader> Templates<L> {
    /// The raw texts reachable through the loader.
    pub closed spec fn sources(&self) -> Map<Seq<char>, Seq<char>> {
        self.loader.sources()
    }

    /// The parse cache: normalized name to parsed tree.
    pub closed spec fn cache(&self) -> Map<Seq<char>, NodeView> {
        cache_map(self.templates@)
    }

    /// Every cached tree is the parse of the store's text under its key: the
    /// cache is a memo of the store, never an independent source. `new`
    /// establishes this and every method preserves it.
    pub closed spec fn wf(&self) -> bool {
        forall|k: Seq<char>| #[trigger] self.cache().contains_key(k)
            ==> self.sources().contains_key(k) && self.cache()[k] == (NodeView::Fragment {
                children: crate::parse::parse_text(self.sources()[k]),
            })
    }

    pub fn new(loader: L) -> (r: Templates<L>)
        ensures
            r.sources() == loader.sources(),
            r.cache() == Map::<Seq<char>, NodeView>::empty(),
            r.wf(),
    {
        let r = Templates { loader, templates: Vec::new() };
        proof {
            assert(r.cache() =~= Map::<Seq<char>, NodeView>::empty());
        }
        r
    }

    /// Fetches the parsed tree for `name`, parsing and caching the loader's
    /// text on the first use of each name.
    #[verifier::loop_isolation(false)]
    fn get(&mut self, name: &str) -> (r: Result<Node, Error>)
        ensures
            final(self).sources() == old(self).sources(),
            old(self).wf() ==> final(self).wf(),
            (match r {
                Err(e) => notfound_wf(e, final(self).sources()),
                Ok(_) => true,
            }),
            match r {
                Ok(node) => {
                    let key = norm_seq(name@);
                    &&& (old(self).cache().contains_key(key) ==> final(self).cache() == old(self).cache() && node@ == old(self).cache()[key])
                    &&& (!old(self).cache().contains_key(key) ==> old(self).sources().contains_key(key) && node@ == (NodeView::Fragment {
                        children: crate::parse::parse_text(old(self).sources()[key]),
                    }) && final(self).cache() == old(self).cache().insert(key, node@))
                },
                Err(e) => {
                    let key = norm_seq(name@);
                    &&& final(self).cache() == old(self).cache()
                    &&& !old(self).cache().contains_key(key)
                    &&& !old(self).sources().contains_key(key)
                    &&& (e matches Error::TemplateNotFound { name: n, key: k } && n@ == name@ && k@
                        == key)
                },
            },
    {
        let key = normalize_name(name);
        let n = self.templates.len();
        let mut i = n;
        while i > 0
            invariant
                i <= n,
                forall|m: int| i <= m < n ==> (#[trigger] self.templates@[m]).0@ != norm_seq(
                    name@,
                ),
            decreases i,
        {
            i = i - 1;
            if self.templates[i].0.eq(&key) {
                proof {
                    lemma_cache_map_found(self.templates@, i as int);
                }
                return Ok(self.templates[i].1.duplicate());
            }
        }
        proof {
            lemma_cache_map_none(self.templates@, norm_seq(name@));
        }
        let text = match self.loader.load(name) {
            Ok(text) => text,
            Err(e) => {
                return Err(e);
            },
        };
        let children = crate::parse::parse_wikitext(text.as_str());
        let node = Node::Fragment { children };
        let ghost before = self.templates@;
        let copy = node.duplicate();
        self.templates.push((key, node));
        proof {
            assert(self.templates@.drop_last() =~= before);
        }
        Ok(copy)
    }
}


/// The first argument bound to `name`, scanning in order; the first match
/// wins.
fn find_param(parameters: &Vec<TemplateParameter>, name: &String) -> (r: Option<String>)
    ensures
        match r {
            Some(v) => lookup_param(param_views(parameters@), name@) == Some(v@),
            None => lookup_param(param_views(parameters@), name@) is None,
        },
{
    broadcast use node_view_lemmas;

    let mut i: usize = 0;
    while i < parameters.len()
        invariant
            i <= parameters.len(),
            forall|m: int| 0 <= m < i ==> (#[trigger] param_views(parameters@)[m]).name != name@,
        decreases parameters.len() - i,
    {
        if parameters[i].name.eq(name) {
            proof {
                lemma_lookup_param_found(param_views(parameters@), name@, i as int);
            }
            return Some(parameters[i].value.clone());
        }
        i = i + 1;
    }
    proof {
        lemma_lookup_param_none(param_views(parameters@), name@);
    }
    None
}

impl<L: TemplateLoader> Templates<L> {
    /// One substitution round: every placeholder becomes text and every nested
    /// invocation is instantiated recursively; all other nodes keep their
    /// shape. On template-free trees this computes exactly `subst`.
    fn substitute(
        &mut self,
        node: &Node,
        parameters: &Vec<TemplateParameter>,
        ctx: &PageContext,
        fuel: u64,
    ) -> (r: Result<Node, Error>)
        ensures
            final(self).sources() == old(self).sources(),
            old(self).wf() ==> final(self).wf(),
            (match r {
                Err(e) => notfound_wf(e, final(self).sources()),
                Ok(_) => true,
            }),
            cache_extends(final(self).cache(), old(self).cache()),
            match r {
                Ok(out) => resolved(out@) && (template_free(node@) ==> out@ == subst(
                    node@,
                    param_views(parameters@),
                    ctx@,
                )),
                Err(_) => true,
            },
            resolved(node@) ==> (r matches Ok(out) && out@ == node@ && final(self).cache() == old(self).cache()),
            template_free(node@) ==> r is Ok,
            (match r {
                Ok(out) => tables_kept(node@, out@),
                Err(_) => true,
            }),
            old(self).wf() && shallow(old(self).sources(), node@, ctx@) && fuel >= 1 ==> (match r {
                Ok(out) => out@ == round(
                    old(self).sources(),
                    node@,
                    param_views(parameters@),
                    ctx@,
                ),
                Err(_) => false,
            }),
            old(self).wf() ==> (match eval_round(
                old(self).sources(),
                node@,
                param_views(parameters@),
                ctx@,
                fuel as nat,
            ) {
                Some(val) => r matches Ok(out) && out@ == val,
                None => true,
            }),
        decreases fuel, 2nat, *node,
    {
        broadcast use node_view_lemmas, resolved_lemmas, template_free_lemmas, subst_lemmas;

        if is_resolved(node) {
            let out = node.duplicate();
            proof {
                lemma_subst_resolved_identity(node@, param_views(parameters@), ctx@);
                lemma_tables_kept_refl(node@);
                lemma_round_resolved_identity(
                    old(self).sources(),
                    node@,
                    param_views(parameters@),
                    ctx@,
                );
            }
            return Ok(out);
        }
        match node {
            Node::Fragment { children } => {
                proof {
                    assert(decreases_to!(*node => *children));
                }
                let out = self.substitute_nodes(children, parameters, ctx, fuel)?;
                proof {
                    if old(self).wf() && shallow(old(self).sources(), node@, ctx@) && fuel >= 1 {
                        assert(node_views(out@) == round_seq(
                            old(self).sources(),
                            node_views(children@),
                            param_views(parameters@),
                            ctx@,
                        ));
                    }
                }
                Ok(Node::Fragment { children: out })
            },
            Node::Template { name, parameters: nested } => {
                let ghost srcs = old(self).sources();
                let ghost hyp = old(self).wf() && shallow(srcs, node@, ctx@) && fuel >= 1;
                let ghost hyp2 = old(self).wf() && (eval_round(
                    srcs,
                    node@,
                    param_views(parameters@),
                    ctx@,
                    fuel as nat,
                ) is Some);
                let inst = match self.instantiate_inner(
                    TemplateToInstantiate::Name(name.as_str()),
                    nested,
                    ctx,
                    fuel,
                ) {
                    Ok(inst) => inst,
                    Err(e) => {
                        proof {
                            if hyp && !is_magic_name(name@) {
                                let key = norm_seq(name@);
                                let body = stored_body(srcs, key);
                                if old(self).cache().contains_key(key) {
                                    assert(old(self).cache()[key] == body);
                                }
                            }
                            if hyp {
                                assert(false);
                            }
                            if hyp2 {
                                assert(false);
                            }
                        }
                        return Err(e);
                    },
                };
                let ghost instv = inst@;
                proof {
                    if hyp && !is_magic_name(name@) {
                        let key = norm_seq(name@);
                        let body = stored_body(srcs, key);
                        if old(self).cache().contains_key(key) {
                            assert(old(self).cache()[key] == body);
                        }
                        assert(instv == leaf_result(srcs, name@, param_views(nested@), ctx@));
                    }
                    if hyp2 {
                        assert(eval_name(srcs, name@, param_views(nested@), ctx@, fuel as nat)
                            == Some(instv));
                    }
                }
                match inst {
                    Node::Fragment { children } => {
                        if children.len() == 1 {
                            let mut children = children;
                            let ghost ch = children@;
                            let only = children.remove(0);
                            proof {
                                assert(instv == (NodeView::Fragment {
                                    children: node_views(ch),
                                }));
                                crate::props::lemma_all_resolved(node_views(ch));
                                assert(node_views(ch)[0] == node_view(ch[0]));
                                assert(only == ch[0]);
                                if hyp || hyp2 {
                                    assert(only@ == unwrap_single(instv));
                                }
                            }
                            Ok(only)
                        } else {
                            proof {
                                if hyp || hyp2 {
                                    assert(instv == (NodeView::Fragment {
                                        children: node_views(children@),
                                    }));
                                    assert(node_views(children@).len() == children@.len());
                                    assert(unwrap_single(instv) == instv);
                                }
                            }
                            Ok(Node::Fragment { children })
                        }
                    },
                    other => {
                        proof {
                            if hyp || hyp2 {
                                assert(unwrap_single(instv) == instv);
                            }
                        }
                        Ok(other)
                    },
                }
            },
            Node::TemplateParameterUse { name, default } => {
                let found = find_param(parameters, name);
                let text: String = match found {
                    Some(v) => v,
                    None => {
                        if is_magic(name.as_str()) {
                            ctx.sub_page_name.clone()
                        } else {
                            match default {
                                Some(d) => to_wikitext_nodes(d),
                                None => String::new(),
                            }
                        }
                    },
                };
                Ok(Node::Text { text })
            },
            Node::Bold { children } => {
                proof {
                    assert(decreases_to!(*node => *children));
                }
                let out = self.substitute_nodes(children, parameters, ctx, fuel)?;
                proof {
                    if old(self).wf() && shallow(old(self).sources(), node@, ctx@) && fuel >= 1 {
                        assert(node_views(out@) == round_seq(
                            old(self).sources(),
                            node_views(children@),
                            param_views(parameters@),
                            ctx@,
                        ));
                    }
                }
                Ok(Node::Bold { children: out })
            },
            Node::Italic { children } => {
                proof {
                    assert(decreases_to!(*node => *children));
                }
                let out = self.substitute_nodes(children, parameters, ctx, fuel)?;
                proof {
                    if old(self).wf() && shallow(old(self).sources(), node@, ctx@) && fuel >= 1 {
                        assert(node_views(out@) == round_seq(
                            old(self).sources(),
                            node_views(children@),
                            param_views(parameters@),
                            ctx@,
                        ));
                    }
                }
                Ok(Node::Italic { children: out })
            },
            Node::Text { .. } => {
                proof {
                    lemma_tables_kept_refl(node@);
                }
                Ok(node.duplicate())
            },
            Node::Link { .. } => {
                proof {
                    lemma_tables_kept_refl(node@);
                }
                Ok(node.duplicate())
            },
            Node::Table { attributes, captions, rows } => {
                proof {
                    assert(decreases_to!(*node => *attributes));
                    assert(decreases_to!(*node => *captions));
                    assert(decreases_to!(*node => *rows));
                }
                let a2 = match self.substitute_nodes(attributes, parameters, ctx, fuel) {
                    Ok(a2) => a2,
                    Err(e) => {
                        return Err(e);
                    },
                };
                let ghost mid1 = self.cache();
                let c2 = match self.substitute_captions(captions, parameters, ctx, fuel) {
                    Ok(c2) => c2,
                    Err(e) => {
                        proof {
                            lemma_cache_extends_trans(
                                final(self).cache(),
                                mid1,
                                old(self).cache(),
                            );
                        }
                        return Err(e);
                    },
                };
                let ghost mid2 = self.cache();
                let r2 = match self.substitute_rows(rows, parameters, ctx, fuel) {
                    Ok(r2) => r2,
                    Err(e) => {
                        proof {
                            lemma_cache_extends_trans(final(self).cache(), mid2, mid1);
                            lemma_cache_extends_trans(
                                final(self).cache(),
                                mid1,
                                old(self).cache(),
                            );
                        }
                        return Err(e);
                    },
                };
                proof {
                    lemma_cache_extends_trans(self.cache(), mid2, mid1);
                    lemma_cache_extends_trans(self.cache(), mid1, old(self).cache());
                }
                Ok(Node::Table { attributes: a2, captions: c2, rows: r2 })
            },
        }
    }

    #[verifier::loop_isolation(false)]
    fn substitute_nodes(
        &mut self,
        v: &Vec<Node>,
        parameters: &Vec<TemplateParameter>,
        ctx: &PageContext,
        fuel: u64,
    ) -> (r: Result<Vec<Node>, Error>)
        ensures
            final(self).sources() == old(self).sources(),
            old(self).wf() ==> final(self).wf(),
            (match r {
                Err(e) => notfound_wf(e, final(self).sources()),
                Ok(_) => true,
            }),
            cache_extends(final(self).cache(), old(self).cache()),
            match r {
                Ok(out) => all_resolved(node_views(out@)) && (seq_template_free(node_views(v@))
                    ==> node_views(out@) == subst_seq(
                    node_views(v@),
                    param_views(parameters@),
                    ctx@,
                )),
                Err(_) => true,
            },
            seq_template_free(node_views(v@)) ==> r is Ok,
            (match r {
                Ok(out) => seq_tables_kept(node_views(v@), node_views(out@)),
                Err(_) => true,
            }),
            old(self).wf() && shallow_seq(old(self).sources(), node_views(v@), ctx@) && fuel >= 1
                ==> (match r {
                Ok(out) => node_views(out@) == round_seq(
                    old(self).sources(),
                    node_views(v@),
                    param_views(parameters@),
                    ctx@,
                ),
                Err(_) => false,
            }),
            old(self).wf() ==> (match eval_round_seq(
                old(self).sources(),
                node_views(v@),
                param_views(parameters@),
                ctx@,
                fuel as nat,
            ) {
                Some(cs) => r matches Ok(out) && node_views(out@) == cs,
                None => true,
            }),
        decreases fuel, 2nat, *v,
    {
        broadcast use node_view_lemmas, resolved_lemmas, template_free_lemmas, subst_lemmas,
            lemma_seq_tables_kept, lemma_shallow_seq, lemma_round_seq;

        let ghost srcs = old(self).sources();
        let ghost vs = node_views(v@);
        let ghost pv = param_views(parameters@);
        let mut out: Vec<Node> = Vec::new();
        let mut i: usize = 0;
        while i < v.len()
            invariant
                i <= v.len(),
                out@.len() == i,
                self.sources() == old(self).sources(),
                (old(self).wf() ==> self.wf()),
                cache_extends(self.cache(), old(self).cache()),
                forall|j: int| 0 <= j < i ==> resolved(#[trigger] node_views(out@)[j]),
                forall|j: int|
                    0 <= j < i ==> tables_kept(vs[j], #[trigger] node_views(out@)[j]),
                seq_template_free(vs) ==> (forall|j: int|
                    0 <= j < i ==> #[trigger] node_views(out@)[j] == subst(vs[j], pv, ctx@)),
                old(self).wf() && shallow_seq(srcs, vs, ctx@) && fuel >= 1 ==> (forall|j: int|
                    0 <= j < i ==> #[trigger] node_views(out@)[j] == round(srcs, vs[j], pv, ctx@)),
                old(self).wf() ==> (eval_round_seq(srcs, vs.subrange(0, i as int), pv, ctx@, fuel as nat)
                    matches Some(cs) ==> node_views(out@) == cs),
            decreases v.len() - i,
        {
            proof {
                assert(decreases_to!(*v => v[i as int]));
            }
            let ghost prev = self.cache();
            let ghost outprev = out@;
            let nd = match self.substitute(&v[i], parameters, ctx, fuel) {
                Ok(nd) => nd,
                Err(e) => {
                    proof {
                        lemma_cache_extends_trans(final(self).cache(), prev, old(self).cache());
                        if seq_template_free(vs) {
                            assert(template_free(vs[i as int]));
                            assert(false);
                        }
                        if old(self).wf() && shallow_seq(srcs, vs, ctx@) && fuel >= 1 {
                            assert(shallow(srcs, vs[i as int], ctx@));
                            assert(false);
                        }
                        if old(self).wf() && (eval_round_seq(srcs, vs, pv, ctx@, fuel as nat)
                            is Some) {
                            lemma_eval_round_seq(srcs, vs, pv, ctx@, fuel as nat);
                            assert(false);
                        }
                    }
                    return Err(e);
                },
            };
            proof {
                lemma_cache_extends_trans(self.cache(), prev, old(self).cache());
                if seq_template_free(vs) {
                    assert(template_free(vs[i as int]));
                }
            }
            out.push(nd);
            proof {
                assert forall|j: int| 0 <= j < i + 1 implies resolved(
                    #[trigger] node_views(out@)[j],
                ) && tables_kept(vs[j], node_views(out@)[j]) by {
                    if j < i {
                        assert(node_views(out@)[j] == node_views(outprev)[j]);
                    }
                }
                if seq_template_free(vs) {
                    assert forall|j: int| 0 <= j < i + 1 implies #[trigger] node_views(out@)[j]
                        == subst(vs[j], pv, ctx@) by {
                        if j < i {
                            assert(node_views(out@)[j] == node_views(outprev)[j]);
                        }
                    }
                }
                if old(self).wf() && shallow_seq(srcs, vs, ctx@) && fuel >= 1 {
                    assert(shallow(srcs, vs[i as int], ctx@));
                    assert forall|j: int| 0 <= j < i + 1 implies #[trigger] node_views(out@)[j]
                        == round(srcs, vs[j], pv, ctx@) by {
                        if j < i {
                            assert(node_views(out@)[j] == node_views(outprev)[j]);
                        }
                    }
                }
                if old(self).wf() {
                    match eval_round_seq(srcs, vs.subrange(0, i + 1 as int), pv, ctx@, fuel as nat) {
                        Some(cs) => {
                            assert(vs.subrange(0, i + 1 as int).drop_last() =~= vs.subrange(
                                0,
                                i as int,
                            ));
                            assert(vs.subrange(0, i + 1 as int).last() == vs[i as int]);
                            assert(node_views(out@) =~= cs);
                        },
                        None => {},
                    }
                }
            }
            i = i + 1;
        }
        proof {
            if seq_template_free(vs) {
                assert(node_views(out@) =~= subst_seq(vs, pv, ctx@));
            }
            if old(self).wf() && shallow_seq(srcs, vs, ctx@) && fuel >= 1 {
                assert(node_views(out@) =~= round_seq(srcs, vs, pv, ctx@));
            }
            if old(self).wf() {
                assert(vs.subrange(0, vs.len() as int) =~= vs);
            }
        }
        Ok(out)
    }

    #[verifier::loop_isolation(false)]
    fn substitute_opt(
        &mut self,
        o: &Option<Vec<Node>>,
        parameters: &Vec<TemplateParameter>,
        ctx: &PageContext,
        fuel: u64,
    ) -> (r: Result<Option<Vec<Node>>, Error>)
        ensures
            final(self).sources() == old(self).sources(),
            old(self).wf() ==> final(self).wf(),
            (match r {
                Err(e) => notfound_wf(e, final(self).sources()),
                Ok(_) => true,
            }),
            cache_extends(final(self).cache(), old(self).cache()),
            match r {
                Ok(out) => opt_resolved(opt_node_views(out)) && (opt_template_free(
                    opt_node_views(*o),
                ) ==> opt_node_views(out) == subst_opt(
                    opt_node_views(*o),
                    param_views(parameters@),
                    ctx@,
                )),
                Err(_) => true,
            },
            opt_template_free(opt_node_views(*o)) ==> r is Ok,
        decreases fuel, 2nat, *o,
    {
        match o {
            Some(v) => {
                proof {
                    assert(decreases_to!(*o => *v));
                }
                let out = self.substitute_nodes(v, parameters, ctx, fuel)?;
                Ok(Some(out))
            },
            None => Ok(None),
        }
    }

    #[verifier::loop_isolation(false)]
    fn substitute_captions(
        &mut self,
        v: &Vec<TableCaption>,
        parameters: &Vec<TemplateParameter>,
        ctx: &PageContext,
        fuel: u64,
    ) -> (r: Result<Vec<TableCaption>, Error>)
        ensures
            final(self).sources() == old(self).sources(),
            old(self).wf() ==> final(self).wf(),
            (match r {
                Err(e) => notfound_wf(e, final(self).sources()),
                Ok(_) => true,
            }),
            cache_extends(final(self).cache(), old(self).cache()),
            match r {
                Ok(out) => captions_resolved(caption_views(out@)) && (captions_template_free(
                    caption_views(v@),
                ) ==> caption_views(out@) == subst_captions(
                    caption_views(v@),
                    param_views(parameters@),
                    ctx@,
                )),
                Err(_) => true,
            },
            captions_template_free(caption_views(v@)) ==> r is Ok,
        decreases fuel, 2nat, *v,
    {
        broadcast use node_view_lemmas, resolved_lemmas, template_free_lemmas, subst_lemmas;

        let ghost vs = caption_views(v@);
        let ghost pv = param_views(parameters@);
        let mut out: Vec<TableCaption> = Vec::new();
        let mut i: usize = 0;
        while i < v.len()
            invariant
                i <= v.len(),
                out@.len() == i,
                self.sources() == old(self).sources(),
                (old(self).wf() ==> self.wf()),
                cache_extends(self.cache(), old(self).cache()),
                forall|j: int|
                    0 <= j < i ==> opt_resolved((#[trigger] caption_views(out@)[j]).attributes)
                        && all_resolved(caption_views(out@)[j].content),
                captions_template_free(vs) ==> (forall|j: int|
                    0 <= j < i ==> #[trigger] caption_views(out@)[j] == (CaptionView {
                        attributes: subst_opt(vs[j].attributes, pv, ctx@),
                        content: subst_seq(vs[j].content, pv, ctx@),
                    })),
            decreases v.len() - i,
        {
            proof {
                assert(decreases_to!(*v => v[i as int]));
                assert(decreases_to!(v[i as int] => v[i as int].attributes));
                assert(decreases_to!(v[i as int] => v[i as int].content));
            }
            let ghost prev = self.cache();
            let ghost outprev = out@;
            let a2 = match self.substitute_opt(&v[i].attributes, parameters, ctx, fuel) {
                Ok(a2) => a2,
                Err(e) => {
                    proof {
                        lemma_cache_extends_trans(final(self).cache(), prev, old(self).cache());
                        if captions_template_free(vs) {
                            assert(opt_template_free(vs[i as int].attributes));
                            assert(false);
                        }
                    }
                    return Err(e);
                },
            };
            let ghost mid = self.cache();
            let c2 = match self.substitute_nodes(&v[i].content, parameters, ctx, fuel) {
                Ok(c2) => c2,
                Err(e) => {
                    proof {
                        lemma_cache_extends_trans(final(self).cache(), mid, prev);
                        lemma_cache_extends_trans(final(self).cache(), prev, old(self).cache());
                        if captions_template_free(vs) {
                            assert(seq_template_free(vs[i as int].content));
                            assert(false);
                        }
                    }
                    return Err(e);
                },
            };
            proof {
                lemma_cache_extends_trans(self.cache(), mid, prev);
                lemma_cache_extends_trans(self.cache(), prev, old(self).cache());
                if captions_template_free(vs) {
                    assert(opt_template_free(vs[i as int].attributes) && seq_template_free(
                        vs[i as int].content,
                    ));
                }
            }
            out.push(TableCaption { attributes: a2, content: c2 });
            proof {
                assert forall|j: int| 0 <= j < i + 1 implies opt_resolved(
                    (#[trigger] caption_views(out@)[j]).attributes,
                ) && all_resolved(caption_views(out@)[j].content) by {
                    if j < i {
                        assert(caption_views(out@)[j] == caption_views(outprev)[j]);
                    }
                }
                if captions_template_free(vs) {
                    assert forall|j: int| 0 <= j < i + 1 implies #[trigger] caption_views(out@)[j]
                        == (CaptionView {
                        attributes: subst_opt(vs[j].attributes, pv, ctx@),
                        content: subst_seq(vs[j].content, pv, ctx@),
                    }) by {
                        if j < i {
                            assert(caption_views(out@)[j] == caption_views(outprev)[j]);
                        }
                    }
                }
            }
            i = i + 1;
        }
        proof {
            if captions_template_free(vs) {
                assert(caption_views(out@) =~= subst_captions(vs, pv, ctx@));
            }
        }
        Ok(out)
    }

    #[verifier::loop_isolation(false)]
    fn substitute_rows(
        &mut self,
        v: &Vec<TableRow>,
        parameters: &Vec<TemplateParameter>,
        ctx: &PageContext,
        fuel: u64,
    ) -> (r: Result<Vec<TableRow>, Error>)
        ensures
            final(self).sources() == old(self).sources(),
            old(self).wf() ==> final(self).wf(),
            (match r {
                Err(e) => notfound_wf(e, final(self).sources()),
                Ok(_) => true,
            }),
            cache_extends(final(self).cache(), old(self).cache()),
            match r {
                Ok(out) => rows_resolved(row_views(out@)) && (rows_template_free(row_views(v@))
                    ==> row_views(out@) == subst_rows(
                    row_views(v@),
                    param_views(parameters@),
                    ctx@,
                )),
                Err(_) => true,
            },
            rows_template_free(row_views(v@)) ==> r is Ok,
            (match r {
                Ok(out) => rows_counts_kept(row_views(v@), row_views(out@)),
                Err(_) => true,
            }),
        decreases fuel, 2nat, *v,
    {
        broadcast use node_view_lemmas, resolved_lemmas, template_free_lemmas, subst_lemmas;

        let ghost vs = row_views(v@);
        let ghost pv = param_views(parameters@);
        let mut out: Vec<TableRow> = Vec::new();
        let mut i: usize = 0;
        while i < v.len()
            invariant
                i <= v.len(),
                out@.len() == i,
                self.sources() == old(self).sources(),
                (old(self).wf() ==> self.wf()),
                cache_extends(self.cache(), old(self).cache()),
                forall|j: int|
                    0 <= j < i ==> all_resolved((#[trigger] row_views(out@)[j]).attributes)
                        && cells_resolved(row_views(out@)[j].cells) && row_views(out@)[j].cells.len()
                        == vs[j].cells.len(),
                rows_template_free(vs) ==> (forall|j: int|
                    0 <= j < i ==> #[trigger] row_views(out@)[j] == (RowView {
                        attributes: subst_seq(vs[j].attributes, pv, ctx@),
                        cells: subst_cells(vs[j].cells, pv, ctx@),
                    })),
            decreases v.len() - i,
        {
            proof {
                assert(decreases_to!(*v => v[i as int]));
                assert(decreases_to!(v[i as int] => v[i as int].attributes));
                assert(decreases_to!(v[i as int] => v[i as int].cells));
            }
            let ghost prev = self.cache();
            let ghost outprev = out@;
            let a2 = match self.substitute_nodes(&v[i].attributes, parameters, ctx, fuel) {
                Ok(a2) => a2,
                Err(e) => {
                    proof {
                        lemma_cache_extends_trans(final(self).cache(), prev, old(self).cache());
                        if rows_template_free(vs) {
                            assert(seq_template_free(vs[i as int].attributes));
                            assert(false);
                        }
                    }
                    return Err(e);
                },
            };
            let ghost mid = self.cache();
            let c2 = match self.substitute_cells(&v[i].cells, parameters, ctx, fuel) {
                Ok(c2) => c2,
                Err(e) => {
                    proof {
                        lemma_cache_extends_trans(final(self).cache(), mid, prev);
                        lemma_cache_extends_trans(final(self).cache(), prev, old(self).cache());
                        if rows_template_free(vs) {
                            assert(cells_template_free(vs[i as int].cells));
                            assert(false);
                        }
                    }
                    return Err(e);
                },
            };
            proof {
                lemma_cache_extends_trans(self.cache(), mid, prev);
                lemma_cache_extends_trans(self.cache(), prev, old(self).cache());
                if rows_template_free(vs) {
                    assert(seq_template_free(vs[i as int].attributes) && cells_template_free(
                        vs[i as int].cells,
                    ));
                }
            }
            out.push(TableRow { attributes: a2, cells: c2 });
            proof {
                assert forall|j: int| 0 <= j < i + 1 implies all_resolved(
                    (#[trigger] row_views(out@)[j]).attributes,
                ) && cells_resolved(row_views(out@)[j].cells) && row_views(out@)[j].cells.len()
                    == vs[j].cells.len() by {
                    if j < i {
                        assert(row_views(out@)[j] == row_views(outprev)[j]);
                    }
                }
                if rows_template_free(vs) {
                    assert forall|j: int| 0 <= j < i + 1 implies #[trigger] row_views(out@)[j]
                        == (RowView {
                        attributes: subst_seq(vs[j].attributes, pv, ctx@),
                        cells: subst_cells(vs[j].cells, pv, ctx@),
                    }) by {
                        if j < i {
                            assert(row_views(out@)[j] == row_views(outprev)[j]);
                        }
                    }
                }
            }
            i = i + 1;
        }
        proof {
            if rows_template_free(vs) {
                assert(row_views(out@) =~= subst_rows(vs, pv, ctx@));
            }
        }
        Ok(out)
    }

    #[verifier::loop_isolation(false)]
    fn substitute_cells(
        &mut self,
        v: &Vec<TableCell>,
        parameters: &Vec<TemplateParameter>,
        ctx: &PageContext,
        fuel: u64,
    ) -> (r: Result<Vec<TableCell>, Error>)
        ensures
            final(self).sources() == old(self).sources(),
            old(self).wf() ==> final(self).wf(),
            (match r {
                Err(e) => notfound_wf(e, final(self).sources()),
                Ok(_) => true,
            }),
            cache_extends(final(self).cache(), old(self).cache()),
            match r {
                Ok(out) => cells_resolved(cell_views(out@)) && (cells_template_free(cell_views(v@))
                    ==> cell_views(out@) == subst_cells(
                    cell_views(v@),
                    param_views(parameters@),
                    ctx@,
                )),
                Err(_) => true,
            },
            cells_template_free(cell_views(v@)) ==> r is Ok,
            (match r {
                Ok(out) => cell_views(out@).len() == cell_views(v@).len(),
                Err(_) => true,
            }),
        decreases fuel, 2nat, *v,
    {
        broadcast use node_view_lemmas, resolved_lemmas, template_free_lemmas, subst_lemmas;

        let ghost vs = cell_views(v@);
        let ghost pv = param_views(parameters@);
        let mut out: Vec<TableCell> = Vec::new();
        let mut i: usize = 0;
        while i < v.len()
            invariant
                i <= v.len(),
                out@.len() == i,
                self.sources() == old(self).sources(),
                (old(self).wf() ==> self.wf()),
                cache_extends(self.cache(), old(self).cache()),
                forall|j: int|
                    0 <= j < i ==> opt_resolved((#[trigger] cell_views(out@)[j]).attributes)
                        && all_resolved(cell_views(out@)[j].content),
                cells_template_free(vs) ==> (forall|j: int|
                    0 <= j < i ==> #[trigger] cell_views(out@)[j] == (CellView {
                        attributes: subst_opt(vs[j].attributes, pv, ctx@),
                        content: subst_seq(vs[j].content, pv, ctx@),
                    })),
            decreases v.len() - i,
        {
            proof {
                assert(decreases_to!(*v => v[i as int]));
                assert(decreases_to!(v[i as int] => v[i as int].attributes));
                assert(decreases_to!(v[i as int] => v[i as int].content));
            }
            let ghost prev = self.cache();
            let ghost outprev = out@;
            let a2 = match self.substitute_opt(&v[i].attributes, parameters, ctx, fuel) {
                Ok(a2) => a2,
                Err(e) => {
                    proof {
                        lemma_cache_extends_trans(final(self).cache(), prev, old(self).cache());
                        if cells_template_free(vs) {
                            assert(opt_template_free(vs[i as int].attributes));
                            assert(false);
                        }
                    }
                    return Err(e);
                },
            };
            let ghost mid = self.cache();
            let c2 = match self.substitute_nodes(&v[i].content, parameters, ctx, fuel) {
                Ok(c2) => c2,
                Err(e) => {
                    proof {
                        lemma_cache_extends_trans(final(self).cache(), mid, prev);
                        lemma_cache_extends_trans(final(self).cache(), prev, old(self).cache());
                        if cells_template_free(vs) {
                            assert(seq_template_free(vs[i as int].content));
                            assert(false);
                        }
                    }
                    return Err(e);
                },
            };
            proof {
                lemma_cache_extends_trans(self.cache(), mid, prev);
                lemma_cache_extends_trans(self.cache(), prev, old(self).cache());
                if cells_template_free(vs) {
                    assert(opt_template_free(vs[i as int].attributes) && seq_template_free(
                        vs[i as int].content,
                    ));
                }
            }
            out.push(TableCell { attributes: a2, content: c2 });
            proof {
                assert forall|j: int| 0 <= j < i + 1 implies opt_resolved(
                    (#[trigger] cell_views(out@)[j]).attributes,
                ) && all_resolved(cell_views(out@)[j].content) by {
                    if j < i {
                        assert(cell_views(out@)[j] == cell_views(outprev)[j]);
                    }
                }
                if cells_template_free(vs) {
                    assert forall|j: int| 0 <= j < i + 1 implies #[trigger] cell_views(out@)[j]
                        == (CellView {
                        attributes: subst_opt(vs[j].attributes, pv, ctx@),
                        content: subst_seq(vs[j].content, pv, ctx@),
                    }) by {
                        if j < i {
                            assert(cell_views(out@)[j] == cell_views(outprev)[j]);
                        }
                    }
                }
            }
            i = i + 1;
        }
        proof {
            if cells_template_free(vs) {
                assert(cell_views(out@) =~= subst_cells(vs, pv, ctx@));
            }
        }
        Ok(out)
    }
}


/// The default recursion budget: how deeply template expansion may nest
/// before the engine reports `RecursionLimitExceeded` instead of recursing
/// without bound on a cyclic template set.
pub const DEFAULT_RECURSION_LIMIT: u64 = 64;

impl<L: TemplateLoader> Templates<L> {
    /// Re-parses the text content of table cells that holds markup, so that
    /// links, emphasis and nested braces introduced by substitution become
    /// structured nodes, leaving row and cell boundaries untouched.
    #[verifier::loop_isolation(false)]
    fn reparse_table_cells(&mut self, node: Node, ctx: &PageContext, fuel: u64) -> (r: Result<
        Node,
        Error,
    >)
        requires
            resolved(node@),
        ensures
            final(self).sources() == old(self).sources(),
            old(self).wf() ==> final(self).wf(),
            (match r {
                Err(e) => notfound_wf(e, final(self).sources()),
                Ok(_) => true,
            }),
            cache_extends(final(self).cache(), old(self).cache()),
            (r matches Ok(out) ==> resolved(out@)),
            (r matches Ok(out) ==> crate::props::fixup_kept(node@, out@)),
        decreases fuel, 2nat, node,
    {
        broadcast use node_view_lemmas, resolved_lemmas;

        match node {
            Node::Fragment { children } => {
                let ghost ch0 = children@;
                proof {
                    assert(decreases_to!(node => node->Fragment_children));
                    assert(decreases_to!(node->Fragment_children => ch0));
                    assert(node@ == (NodeView::Fragment { children: node_views(ch0) }));
                    assert(all_resolved(node_views(ch0)));
                }
                let mut children = children;
                let mut out: Vec<Node> = Vec::new();
                while children.len() > 0
                    invariant
                        all_resolved(node_views(ch0)),
                        out@.len() + children@.len() == ch0.len(),
                        children@ == ch0.subrange(out@.len() as int, ch0.len() as int),
                        self.sources() == old(self).sources(),
                        (old(self).wf() ==> self.wf()),
                        cache_extends(self.cache(), old(self).cache()),
                        forall|j: int| 0 <= j < out@.len() ==> resolved(
                            #[trigger] node_views(out@)[j],
                        ),
                        forall|j: int| 0 <= j < out@.len() ==> crate::props::fixup_kept(
                            node_views(ch0)[j],
                            #[trigger] node_views(out@)[j],
                        ),
                    decreases children@.len(),
                {
                    let ghost k = out@.len() as int;
                    let ghost outprev = out@;
                    let c = children.remove(0);
                    proof {
                        assert(c == ch0[k]);
                        assert(decreases_to!(ch0 => ch0[k]));
                        assert(node_views(ch0)[k] == node_view(ch0[k]));
                        assert(resolved(c@));
                        assert(children@ =~= ch0.subrange(k + 1, ch0.len() as int));
                    }
                    let ghost prev = self.cache();
                    let nd = match self.reparse_table_cells(c, ctx, fuel) {
                        Ok(nd) => nd,
                        Err(e) => {
                            proof {
                                lemma_cache_extends_trans(
                                    final(self).cache(),
                                    prev,
                                    old(self).cache(),
                                );
                            }
                            return Err(e);
                        },
                    };
                    proof {
                        lemma_cache_extends_trans(self.cache(), prev, old(self).cache());
                    }
                    out.push(nd);
                    proof {
                        assert forall|j: int| 0 <= j < out@.len() implies resolved(
                            #[trigger] node_views(out@)[j],
                        ) && crate::props::fixup_kept(
                            node_views(ch0)[j],
                            node_views(out@)[j],
                        ) by {
                            if j < k {
                                assert(node_views(out@)[j] == node_views(outprev)[j]);
                            }
                        }
                    }
                }
                proof {
                    crate::props::lemma_all_resolved(node_views(out@));
                    assert(resolved((NodeView::Fragment { children: node_views(out@) })));
                    assert(crate::props::fixup_kept(
                        node@,
                        (NodeView::Fragment { children: node_views(out@) }),
                    ));
                }
                Ok(Node::Fragment { children: out })
            },
            Node::Table { attributes, captions, rows } => {
                let ghost r0 = rows@;
                proof {
                    assert(decreases_to!(node => node->Table_rows));
                    assert(decreases_to!(node->Table_rows => r0));
                    assert(node@ == (NodeView::Table {
                        attributes: node_views(attributes@),
                        captions: caption_views(captions@),
                        rows: row_views(r0),
                    }));
                    crate::props::lemma_rows_resolved(row_views(r0));
                }
                let mut rows = rows;
                let mut newrows: Vec<TableRow> = Vec::new();
                while rows.len() > 0
                    invariant
                        rows_resolved(row_views(r0)),
                        all_resolved(node_views(attributes@)),
                        captions_resolved(caption_views(captions@)),
                        newrows@.len() + rows@.len() == r0.len(),
                        rows@ == r0.subrange(newrows@.len() as int, r0.len() as int),
                        self.sources() == old(self).sources(),
                        (old(self).wf() ==> self.wf()),
                        cache_extends(self.cache(), old(self).cache()),
                        forall|j: int|
                            0 <= j < newrows@.len() ==> all_resolved(
                                (#[trigger] row_views(newrows@)[j]).attributes,
                            ) && cells_resolved(row_views(newrows@)[j].cells),
                        forall|j: int|
                            0 <= j < newrows@.len() ==> crate::props::row_fixup_kept(
                                row_views(r0)[j],
                                #[trigger] row_views(newrows@)[j],
                            ),
                    decreases rows@.len(),
                {
                    let ghost k = newrows@.len() as int;
                    let ghost nrprev = newrows@;
                    let row = rows.remove(0);
                    proof {
                        assert(row == r0[k]);
                        assert(row_views(r0)[k] == row@);
                        assert(rows@ =~= r0.subrange(k + 1, r0.len() as int));
                    }
                    let TableRow { attributes: rattrs, cells } = row;
                    let ghost c0 = cells@;
                    proof {
                        crate::props::lemma_cells_resolved(cell_views(c0));
                    }
                    let mut cells = cells;
                    let mut newcells: Vec<TableCell> = Vec::new();
                    while cells.len() > 0
                        invariant
                            newcells@.len() + cells@.len() == c0.len(),
                            cells@ == c0.subrange(newcells@.len() as int, c0.len() as int),
                            self.sources() == old(self).sources(),
                            (old(self).wf() ==> self.wf()),
                            cache_extends(self.cache(), old(self).cache()),
                            cells_resolved(cell_views(c0)),
                            forall|j: int|
                                0 <= j < newcells@.len() ==> opt_resolved(
                                    (#[trigger] cell_views(newcells@)[j]).attributes,
                                ) && all_resolved(cell_views(newcells@)[j].content),
                            forall|j: int|
                                0 <= j < newcells@.len() ==> crate::props::cell_fixup_kept(
                                    cell_views(c0)[j],
                                    #[trigger] cell_views(newcells@)[j],
                                ),
                        decreases cells@.len(),
                    {
                        let ghost m = newcells@.len() as int;
                        let ghost ncprev = newcells@;
                        let cell = cells.remove(0);
                        proof {
                            assert(cell == c0[m]);
                            assert(cell_views(c0)[m] == cell@);
                            assert(cells@ =~= c0.subrange(m + 1, c0.len() as int));
                        }
                        let TableCell { attributes: cattrs, content } = cell;
                        let text = to_wikitext_nodes(&content);
                        let mut new_content: Vec<Node> = content;
                        if crate::text::contains_markup(text.as_str()) {
                            let parsed = crate::parse::parse_wikitext(text.as_str());
                            if parsed.len() > 0 {
                                let empty_params: Vec<TemplateParameter> = Vec::new();
                                let ghost prev = self.cache();
                                let inst = match self.instantiate_inner(
                                    TemplateToInstantiate::Node(
                                        Node::Fragment { children: parsed },
                                    ),
                                    &empty_params,
                                    ctx,
                                    fuel,
                                ) {
                                    Ok(inst) => inst,
                                    Err(e) => {
                                        proof {
                                            lemma_cache_extends_trans(
                                                final(self).cache(),
                                                prev,
                                                old(self).cache(),
                                            );
                                        }
                                        return Err(e);
                                    },
                                };
                                proof {
                                    lemma_cache_extends_trans(
                                        self.cache(),
                                        prev,
                                        old(self).cache(),
                                    );
                                }
                                let ghost instv = inst@;
                                new_content = match inst {
                                    Node::Fragment { children } => {
                                        proof {
                                            assert(all_resolved(
                                                instv ->Fragment_children,
                                            ));
                                        }
                                        children
                                    },
                                    other => {
                                        let mut v: Vec<Node> = Vec::new();
                                        v.push(other);
                                        proof {
                                            assert(node_views(v@) =~= seq![instv]);
                                        }
                                        v
                                    },
                                };
                            }
                        }
                        newcells.push(TableCell { attributes: cattrs, content: new_content });
                        proof {
                            assert forall|j: int| 0 <= j < newcells@.len() implies opt_resolved(
                                (#[trigger] cell_views(newcells@)[j]).attributes,
                            ) && all_resolved(cell_views(newcells@)[j].content)
                                && crate::props::cell_fixup_kept(
                                cell_views(c0)[j],
                                cell_views(newcells@)[j],
                            ) by {
                                if j < m {
                                    assert(cell_views(newcells@)[j] == cell_views(ncprev)[j]);
                                }
                            }
                        }
                    }
                    newrows.push(TableRow { attributes: rattrs, cells: newcells });
                    proof {
                        crate::props::lemma_cells_resolved(cell_views(newcells@));
                        assert forall|j: int| 0 <= j < newrows@.len() implies all_resolved(
                            (#[trigger] row_views(newrows@)[j]).attributes,
                        ) && cells_resolved(row_views(newrows@)[j].cells)
                            && crate::props::row_fixup_kept(
                            row_views(r0)[j],
                            row_views(newrows@)[j],
                        ) by {
                            if j < k {
                                assert(row_views(newrows@)[j] == row_views(nrprev)[j]);
                            }
                        }
                    }
                }
                proof {
                    crate::props::lemma_rows_resolved(row_views(newrows@));
                    assert(resolved(
                        (NodeView::Table {
                            attributes: node_views(attributes@),
                            captions: caption_views(captions@),
                            rows: row_views(newrows@),
                        }),
                    ));
                    assert(crate::props::fixup_kept(
                        node@,
                        (NodeView::Table {
                            attributes: node_views(attributes@),
                            captions: caption_views(captions@),
                            rows: row_views(newrows@),
                        }),
                    ));
                }
                Ok(Node::Table { attributes, captions, rows: newrows })
            },
            other => {
                proof {
                    assert(other@ == node@);
                }
                Ok(other)
            },
        }
    }

    /// Expands an already-fetched tree to a fixed point: one substitution
    /// round, then either the table convergence loop with the cell re-parse
    /// fix-up, or the serialize-reparse round trip for table-free trees.
    #[verifier::loop_isolation(false)]
    fn expand(
        &mut self,
        node: Node,
        parameters: &Vec<TemplateParameter>,
        ctx: &PageContext,
        fuel: u64,
    ) -> (r: Result<Node, Error>)
        ensures
            final(self).sources() == old(self).sources(),
            old(self).wf() ==> final(self).wf(),
            (match r {
                Err(e) => notfound_wf(e, final(self).sources()),
                Ok(_) => true,
            }),
            cache_extends(final(self).cache(), old(self).cache()),
            (r matches Ok(out) ==> resolved(out@)),
            (resolved(node@) ==> (r matches Ok(out) && out@ == node@ && final(self).cache() == old(self).cache())),
            ({
                let s = subst(node@, param_views(parameters@), ctx@);
                let rt = NodeView::Fragment { children: crate::parse::parse_text(wt(s)) };
                template_free(node@) && !resolved(node@) && !has_table_node(s) && resolved(rt)
                    && fuel >= 1 ==> (match r {
                    Ok(out) => out@ == rt,
                    Err(_) => false,
                })
            }),
            (match r {
                Ok(out) => has_proper_table(node@) ==> tables_kept(node@, out@),
                Err(_) => true,
            }),
            ({
                let srcs = old(self).sources();
                let rd = round(srcs, node@, param_views(parameters@), ctx@);
                let rt = NodeView::Fragment { children: crate::parse::parse_text(wt(rd)) };
                old(self).wf() && shallow(srcs, node@, ctx@) && !resolved(node@)
                    && !has_table_node(rd) && resolved(rt) && fuel >= 2 ==> (match r {
                    Ok(out) => out@ == rt,
                    Err(_) => false,
                })
            }),
            old(self).wf() ==> (match eval_expand(
                old(self).sources(),
                node@,
                param_views(parameters@),
                ctx@,
                fuel as nat,
            ) {
                Some(val) => r matches Ok(out) && out@ == val,
                None => true,
            }),
        decreases fuel, 0nat, node,
    {
        broadcast use node_view_lemmas;

        if is_resolved(&node) {
            proof {
                lemma_tables_kept_refl(node@);
            }
            return Ok(node);
        }
        if fuel == 0 {
            return Err(Error::RecursionLimitExceeded);
        }
        let budget = fuel - 1;
        let mut cur = match self.substitute(&node, parameters, ctx, budget) {
            Ok(c) => c,
            Err(e) => {
                proof {
                    if template_free(node@) {
                        assert(false);
                    }
                    if old(self).wf() && shallow(old(self).sources(), node@, ctx@) && fuel >= 2 {
                        assert(false);
                    }
                    if old(self).wf() && (eval_expand(
                        old(self).sources(),
                        node@,
                        param_views(parameters@),
                        ctx@,
                        fuel as nat,
                    ) is Some) {
                        assert(false);
                    }
                }
                return Err(e);
            },
        };
        if contains_table(&cur) {
            proof {
                if template_free(node@) {
                    assert(has_table_node(subst(node@, param_views(parameters@), ctx@)));
                }
                if old(self).wf() && shallow(old(self).sources(), node@, ctx@) && fuel >= 2 {
                    assert(has_table_node(
                        round(old(self).sources(), node@, param_views(parameters@), ctx@),
                    ));
                }
                if old(self).wf() && (eval_expand(
                    old(self).sources(),
                    node@,
                    param_views(parameters@),
                    ctx@,
                    fuel as nat,
                ) is Some) {
                    assert(false);
                }
            }
            loop
                invariant
                    resolved(cur@),
                    tables_kept(node@, cur@),
                    self.sources() == old(self).sources(),
                    (old(self).wf() ==> self.wf()),
                    cache_extends(self.cache(), old(self).cache()),
                decreases 0int,
            {
                let before = cur.to_wikitext();
                let ghost prev = self.cache();
                let next = match self.substitute(&cur, parameters, ctx, budget) {
                    Ok(n) => n,
                    Err(e) => {
                        proof {
                            assert(false);
                        }
                        return Err(e);
                    },
                };
                let after = next.to_wikitext();
                let done = before.eq(&after);
                cur = next;
                if done {
                    break;
                }
                proof {
                    assert(false);
                }
            }
            let ghost mid = self.cache();
            let ghost curv = cur@;
            let out = match self.reparse_table_cells(cur, ctx, budget) {
                Ok(o) => o,
                Err(e) => {
                    proof {
                        lemma_cache_extends_trans(final(self).cache(), mid, old(self).cache());
                    }
                    return Err(e);
                },
            };
            proof {
                lemma_cache_extends_trans(self.cache(), mid, old(self).cache());
                lemma_fixup_tables_kept(curv, out@);
                lemma_tables_kept_trans(node@, curv, out@);
            }
            Ok(out)
        } else {
            let text = cur.to_wikitext();
            let parsed = crate::parse::parse_wikitext(text.as_str());
            let frag = Node::Fragment { children: parsed };
            proof {
                if has_proper_table(node@) {
                    lemma_proper_table_survives(node@, cur@);
                    assert(false);
                }
                if template_free(node@) {
                    assert(cur@ == subst(node@, param_views(parameters@), ctx@));
                    assert(frag@ == (NodeView::Fragment {
                        children: crate::parse::parse_text(
                            wt(subst(node@, param_views(parameters@), ctx@)),
                        ),
                    }));
                }
                if old(self).wf() && shallow(old(self).sources(), node@, ctx@) && fuel >= 2 {
                    assert(cur@ == round(old(self).sources(), node@, param_views(parameters@), ctx@));
                    assert(frag@ == (NodeView::Fragment {
                        children: crate::parse::parse_text(
                            wt(round(old(self).sources(), node@, param_views(parameters@), ctx@)),
                        ),
                    }));
                }
                if old(self).wf() && (eval_expand(
                    old(self).sources(),
                    node@,
                    param_views(parameters@),
                    ctx@,
                    fuel as nat,
                ) is Some) {
                    assert(eval_expand(
                        old(self).sources(),
                        node@,
                        param_views(parameters@),
                        ctx@,
                        fuel as nat,
                    ) == eval_expand(
                        old(self).sources(),
                        frag@,
                        param_views(parameters@),
                        ctx@,
                        (fuel - 1) as nat,
                    ));
                }
            }
            let ghost fragv = frag@;
            let ghost mid = self.cache();
            let out = match self.expand(frag, parameters, ctx, budget) {
                Ok(o) => o,
                Err(e) => {
                    proof {
                        lemma_cache_extends_trans(final(self).cache(), mid, old(self).cache());
                        if template_free(node@) && resolved(fragv) {
                            assert(false);
                        }
                        if old(self).wf() && shallow(old(self).sources(), node@, ctx@) && fuel >= 2
                            && resolved(fragv) {
                            assert(false);
                        }
                        if old(self).wf() && (eval_expand(
                            old(self).sources(),
                            node@,
                            param_views(parameters@),
                            ctx@,
                            fuel as nat,
                        ) is Some) {
                            assert(false);
                        }
                    }
                    return Err(e);
                },
            };
            proof {
                lemma_cache_extends_trans(self.cache(), mid, old(self).cache());
            }
            Ok(out)
        }
    }

    fn instantiate_inner(
        &mut self,
        template: TemplateToInstantiate,
        parameters: &Vec<TemplateParameter>,
        ctx: &PageContext,
        fuel: u64,
    ) -> (r: Result<Node, Error>)
        ensures
            final(self).sources() == old(self).sources(),
            old(self).wf() ==> final(self).wf(),
            (match r {
                Err(e) => notfound_wf(e, final(self).sources()),
                Ok(_) => true,
            }),
            cache_extends(final(self).cache(), old(self).cache()),
            (match r {
                Ok(out) => resolved(out@),
                Err(_) => true,
            }),
            (match template {
                TemplateToInstantiate::Name(name) => {
                    let key = norm_seq(name@);
                    let cached = old(self).cache().contains_key(key);
                    let stored = old(self).sources().contains_key(key);
                    let fresh = NodeView::Fragment {
                        children: crate::parse::parse_text(old(self).sources()[key]),
                    };
                    &&& (is_magic_name(name@) ==> (match r {
                        Ok(out) => out@ == (NodeView::Text { text: ctx@.sub_page_name })
                            && final(self).cache() == old(self).cache(),
                        Err(_) => false,
                    }))
                    &&& (!is_magic_name(name@) && !cached && !stored ==> (match r {
                        Ok(_) => false,
                        Err(e) => (e matches Error::TemplateNotFound { name: n, key: k } && n@
                            == name@ && k@ == key) && final(self).cache() == old(self).cache(),
                    }))
                    &&& (!is_magic_name(name@) && cached && resolved(old(self).cache()[key])
                        ==> (match r {
                        Ok(out) => out@ == old(self).cache()[key] && final(self).cache() == old(
                            self,
                        ).cache(),
                        Err(_) => false,
                    }))
                    &&& (!is_magic_name(name@) && cached && has_proper_table(
                        old(self).cache()[key],
                    ) ==> (match r {
                        Ok(out) => tables_kept(old(self).cache()[key], out@),
                        Err(_) => true,
                    }))
                    &&& ({
                        let rd = round(old(self).sources(), fresh, param_views(parameters@), ctx@);
                        let rt = NodeView::Fragment {
                            children: crate::parse::parse_text(wt(rd)),
                        };
                        old(self).wf() && !is_magic_name(name@) && stored && shallow(
                            old(self).sources(),
                            fresh,
                            ctx@,
                        ) && !resolved(fresh) && !has_table_node(rd) && resolved(rt) && fuel >= 2
                            ==> (match r {
                            Ok(out) => {
                                let rd = round(
                                    old(self).sources(),
                                    fresh,
                                    param_views(parameters@),
                                    ctx@,
                                );
                                out@ == (NodeView::Fragment {
                                    children: crate::parse::parse_text(wt(rd)),
                                })
                            },
                            Err(_) => false,
                        })
                    })
                    &&& (!is_magic_name(name@) && !cached && stored && resolved(fresh) ==> (match r {
                        Ok(out) => out@ == fresh && final(self).cache() == old(
                            self,
                        ).cache().insert(key, fresh),
                        Err(_) => false,
                    }))
                    &&& (!is_magic_name(name@) && !cached && stored && has_proper_table(fresh)
                        ==> (match r {
                        Ok(out) => tables_kept(fresh, out@),
                        Err(_) => true,
                    }))
                    &&& (!is_magic_name(name@) && !cached && stored && {
                        let s = subst(fresh, param_views(parameters@), ctx@);
                        let rt = NodeView::Fragment { children: crate::parse::parse_text(wt(s)) };
                        template_free(fresh) && !resolved(fresh) && !has_table_node(s)
                            && resolved(rt) && fuel >= 1
                    } ==> (match r {
                        Ok(out) => {
                            let s = subst(fresh, param_views(parameters@), ctx@);
                            out@ == (NodeView::Fragment {
                                children: crate::parse::parse_text(wt(s)),
                            }) && cache_extends(
                                final(self).cache(),
                                old(self).cache().insert(key, fresh),
                            )
                        },
                        Err(_) => false,
                    }))
                    &&& (!is_magic_name(name@) && cached && {
                        let body = old(self).cache()[key];
                        let s = subst(body, param_views(parameters@), ctx@);
                        let rt = NodeView::Fragment { children: crate::parse::parse_text(wt(s)) };
                        template_free(body) && !resolved(body) && !has_table_node(s)
                            && resolved(rt) && fuel >= 1
                    } ==> (match r {
                        Ok(out) => {
                            let body = old(self).cache()[key];
                            let s = subst(body, param_views(parameters@), ctx@);
                            out@ == (NodeView::Fragment {
                                children: crate::parse::parse_text(wt(s)),
                            })
                        },
                        Err(_) => false,
                    }))
                },
                TemplateToInstantiate::Node(node) => {
                    let s = subst(node@, param_views(parameters@), ctx@);
                    let rt = NodeView::Fragment { children: crate::parse::parse_text(wt(s)) };
                    &&& (resolved(node@) ==> (match r {
                        Ok(out) => out@ == node@ && final(self).cache() == old(self).cache(),
                        Err(_) => false,
                    }))
                    &&& (template_free(node@) && !resolved(node@) && !has_table_node(s)
                        && resolved(rt) && fuel >= 1 ==> (match r {
                        Ok(out) => out@ == rt,
                        Err(_) => false,
                    }))
                
                    &&& (has_proper_table(node@) ==> (match r {
                        Ok(out) => tables_kept(node@, out@),
                        Err(_) => true,
                    }))
                    &&& ({
                        let rd = round(old(self).sources(), node@, param_views(parameters@), ctx@);
                        let rt = NodeView::Fragment {
                            children: crate::parse::parse_text(wt(rd)),
                        };
                        old(self).wf() && shallow(old(self).sources(), node@, ctx@) && !resolved(
                            node@,
                        ) && !has_table_node(rd) && resolved(rt) && fuel >= 2 ==> (match r {
                            Ok(out) => out@ == (NodeView::Fragment {
                                children: crate::parse::parse_text(
                                    wt(round(
                                        old(self).sources(),
                                        node@,
                                        param_views(parameters@),
                                        ctx@,
                                    )),
                                ),
                            }),
                            Err(_) => false,
                        })
                    })
                },
            }),
            old(self).wf() ==> (match template {
                TemplateToInstantiate::Name(name) => (match eval_name(
                    old(self).sources(),
                    name@,
                    param_views(parameters@),
                    ctx@,
                    fuel as nat,
                ) {
                    Some(val) => r matches Ok(out) && out@ == val,
                    None => true,
                }),
                TemplateToInstantiate::Node(node) => (match eval_expand(
                    old(self).sources(),
                    node@,
                    param_views(parameters@),
                    ctx@,
                    fuel as nat,
                ) {
                    Some(val) => r matches Ok(out) && out@ == val,
                    None => true,
                }),
            }),
        decreases fuel, 1nat, template,
    {
        match template {
            TemplateToInstantiate::Name(name) => {
                if crate::text::is_magic(name) {
                    return Ok(Node::Text { text: ctx.sub_page_name.clone() });
                }
                let tpl = match self.get(name) {
                    Ok(t) => t,
                    Err(e) => {
                        proof {
                            if old(self).wf() && (eval_name(
                                old(self).sources(),
                                name@,
                                param_views(parameters@),
                                ctx@,
                                fuel as nat,
                            ) is Some) {
                                assert(false);
                            }
                        }
                        return Err(e);
                    },
                };
                let ghost mid = self.cache();
                let ghost tplv = tpl@;
                proof {
                    if old(self).wf() && !is_magic_name(name@) {
                        let key = norm_seq(name@);
                        if old(self).cache().contains_key(key) {
                            assert(old(self).cache()[key] == stored_body(old(self).sources(), key));
                        }
                        assert(tplv == stored_body(old(self).sources(), key));
                    }
                }
                let out = match self.expand(tpl, parameters, ctx, fuel) {
                    Ok(o) => o,
                    Err(e) => {
                        proof {
                            lemma_cache_extends_trans(final(self).cache(), mid, old(self).cache());
                            if old(self).wf() && (eval_name(
                                old(self).sources(),
                                name@,
                                param_views(parameters@),
                                ctx@,
                                fuel as nat,
                            ) is Some) {
                                assert(false);
                            }
                        }
                        return Err(e);
                    },
                };
                proof {
                    lemma_cache_extends_trans(self.cache(), mid, old(self).cache());
                }
                Ok(out)
            },
            TemplateToInstantiate::Node(node) => self.expand(node, parameters, ctx, fuel),
        }
    }

    /// Resolves a template invocation — or an already-built tree — into a
    /// tree with no `Template` or `TemplateParameterUse` node remaining.
    ///
    /// The magic name never queries the store and always yields the context's
    /// sub-page name. A name whose normalized key neither the cache nor the
    /// store holds fails with `TemplateNotFound`, carrying the requested name
    /// and the key. An already-resolved tree is returned unchanged, and so is
    /// a cached or freshly parsed template body that is already resolved. The
    /// parse cache only grows, and never changes an existing entry.
    pub fn instantiate(
        &mut self,
        template: TemplateToInstantiate,
        parameters: &Vec<TemplateParameter>,
        page_context: &PageContext,
    ) -> (r: Result<Node, Error>)
        ensures
            final(self).sources() == old(self).sources(),
            old(self).wf() ==> final(self).wf(),
            (match r {
                Err(e) => notfound_wf(e, final(self).sources()),
                Ok(_) => true,
            }),
            cache_extends(final(self).cache(), old(self).cache()),
            (match r {
                Ok(out) => resolved(out@),
                Err(_) => true,
            }),
            (match template {
                TemplateToInstantiate::Name(name) => {
                    let key = norm_seq(name@);
                    let cached = old(self).cache().contains_key(key);
                    let stored = old(self).sources().contains_key(key);
                    let fresh = NodeView::Fragment {
                        children: crate::parse::parse_text(old(self).sources()[key]),
                    };
                    &&& (is_magic_name(name@) ==> (match r {
                        Ok(out) => out@ == (NodeView::Text { text: page_context@.sub_page_name })
                            && final(self).cache() == old(self).cache(),
                        Err(_) => false,
                    }))
                    &&& (!is_magic_name(name@) && !cached && !stored ==> (match r {
                        Ok(_) => false,
                        Err(e) => (e matches Error::TemplateNotFound { name: n, key: k } && n@
                            == name@ && k@ == key) && final(self).cache() == old(self).cache(),
                    }))
                    &&& (!is_magic_name(name@) && cached && resolved(old(self).cache()[key])
                        ==> (match r {
                        Ok(out) => out@ == old(self).cache()[key] && final(self).cache() == old(
                            self,
                        ).cache(),
                        Err(_) => false,
                    }))
                    &&& (!is_magic_name(name@) && cached && has_proper_table(
                        old(self).cache()[key],
                    ) ==> (match r {
                        Ok(out) => tables_kept(old(self).cache()[key], out@),
                        Err(_) => true,
                    }))
                    &&& ({
                        let rd = round(old(self).sources(), fresh, param_views(parameters@), page_context@);
                        let rt = NodeView::Fragment {
                            children: crate::parse::parse_text(wt(rd)),
                        };
                        old(self).wf() && !is_magic_name(name@) && stored && shallow(
                            old(self).sources(),
                            fresh,
                            page_context@,
                        ) && !resolved(fresh) && !has_table_node(rd) && resolved(rt) 
                            ==> (match r {
                            Ok(out) => {
                                let rd = round(
                                    old(self).sources(),
                                    fresh,
                                    param_views(parameters@),
                                    page_context@,
                                );
                                out@ == (NodeView::Fragment {
                                    children: crate::parse::parse_text(wt(rd)),
                                })
                            },
                            Err(_) => false,
                        })
                    })
                    &&& (!is_magic_name(name@) && !cached && stored && resolved(fresh) ==> (match r {
                        Ok(out) => out@ == fresh && final(self).cache() == old(
                            self,
                        ).cache().insert(key, fresh),
                        Err(_) => false,
                    }))
                    &&& (!is_magic_name(name@) && !cached && stored && has_proper_table(fresh)
                        ==> (match r {
                        Ok(out) => tables_kept(fresh, out@),
                        Err(_) => true,
                    }))
                    &&& (!is_magic_name(name@) && !cached && stored && {
                        let s = subst(fresh, param_views(parameters@), page_context@);
                        let rt = NodeView::Fragment { children: crate::parse::parse_text(wt(s)) };
                        template_free(fresh) && !resolved(fresh) && !has_table_node(s)
                            && resolved(rt)
                    } ==> (match r {
                        Ok(out) => {
                            let s = subst(fresh, param_views(parameters@), page_context@);
                            out@ == (NodeView::Fragment {
                                children: crate::parse::parse_text(wt(s)),
                            }) && cache_extends(
                                final(self).cache(),
                                old(self).cache().insert(key, fresh),
                            )
                        },
                        Err(_) => false,
                    }))
                    &&& (!is_magic_name(name@) && cached && {
                        let body = old(self).cache()[key];
                        let s = subst(body, param_views(parameters@), page_context@);
                        let rt = NodeView::Fragment { children: crate::parse::parse_text(wt(s)) };
                        template_free(body) && !resolved(body) && !has_table_node(s)
                            && resolved(rt)
                    } ==> (match r {
                        Ok(out) => {
                            let body = old(self).cache()[key];
                            let s = subst(body, param_views(parameters@), page_context@);
                            out@ == (NodeView::Fragment {
                                children: crate::parse::parse_text(wt(s)),
                            })
                        },
                        Err(_) => false,
                    }))
                },
                TemplateToInstantiate::Node(node) => {
                    let s = subst(node@, param_views(parameters@), page_context@);
                    let rt = NodeView::Fragment { children: crate::parse::parse_text(wt(s)) };
                    &&& (resolved(node@) ==> (match r {
                        Ok(out) => out@ == node@ && final(self).cache() == old(self).cache(),
                        Err(_) => false,
                    }))
                    &&& (template_free(node@) && !resolved(node@) && !has_table_node(s)
                        && resolved(rt) ==> (match r {
                        Ok(out) => out@ == rt,
                        Err(_) => false,
                    }))
                
                    &&& (has_proper_table(node@) ==> (match r {
                        Ok(out) => tables_kept(node@, out@),
                        Err(_) => true,
                    }))
                    &&& ({
                        let rd = round(old(self).sources(), node@, param_views(parameters@), page_context@);
                        let rt = NodeView::Fragment {
                            children: crate::parse::parse_text(wt(rd)),
                        };
                        old(self).wf() && shallow(old(self).sources(), node@, page_context@) && !resolved(
                            node@,
                        ) && !has_table_node(rd) && resolved(rt)  ==> (match r {
                            Ok(out) => out@ == (NodeView::Fragment {
                                children: crate::parse::parse_text(
                                    wt(round(
                                        old(self).sources(),
                                        node@,
                                        param_views(parameters@),
                                        page_context@,
                                    )),
                                ),
                            }),
                            Err(_) => false,
                        })
                    })
                },
            }),
            old(self).wf() ==> (match template {
                TemplateToInstantiate::Name(name) => (match eval_name(
                    old(self).sources(),
                    name@,
                    param_views(parameters@),
                    page_context@,
                    DEFAULT_RECURSION_LIMIT as nat,
                ) {
                    Some(val) => r matches Ok(out) && out@ == val,
                    None => true,
                }),
                TemplateToInstantiate::Node(node) => (match eval_expand(
                    old(self).sources(),
                    node@,
                    param_views(parameters@),
                    page_context@,
                    DEFAULT_RECURSION_LIMIT as nat,
                ) {
                    Some(val) => r matches Ok(out) && out@ == val,
                    None => true,
                }),
            }),
    {
        self.instantiate_inner(template, parameters, page_context, DEFAULT_RECURSION_LIMIT)
    }
}

} // verus!
