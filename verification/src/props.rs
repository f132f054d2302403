//! Tree predicates: whether a tree still holds unresolved constructs
//! (`Template` / `TemplateParameterUse` nodes), and whether it holds a table.
//!
//! `resolved` is the engine's fixed-point test: a complete, successful
//! instantiation returns a tree for which `resolved` holds. `has_table_node`
//! selects between the engine's two expansion strategies.

use vstd::prelude::*;

use crate::node::CaptionView;
use crate::node::CellView;
use crate::node::Node;
use crate::node::NodeView;
use crate::node::RowView;
use crate::node::TableCaption;
use crate::node::TableCell;
use crate::node::TableRow;
use crate::node::caption_views;
use crate::node::cell_views;
use crate::node::node_view;
use crate::node::node_view_lemmas;
use crate::node::node_views;
use crate::node::opt_node_views;
use crate::node::row_views;

verus! {

/// No `Template` or `TemplateParameterUse` node anywhere in the tree.
pub open spec fn resolved(v: NodeView) -> bool
    decreases v, 0nat,
{
    match v {
        NodeView::Fragment { children } => all_resolved(children),
        NodeView::Template { .. } => false,
        NodeView::TemplateParameterUse { .. } => false,
        NodeView::Text { .. } => true,
        NodeView::Bold { children } => all_resolved(children),
        NodeView::Italic { children } => all_resolved(children),
        NodeView::Link { .. } => true,
        NodeView::Table { attributes, captions, rows } => all_resolved(attributes)
            && captions_resolved(captions) && rows_resolved(rows),
    }
}

pub open spec fn all_resolved(s: Seq<NodeView>) -> bool
    decreases s, 1nat,
{
    if s.len() == 0 {
        true
    } else {
        all_resolved(s.drop_last()) && resolved(s.last())
    }
}

pub open spec fn opt_resolved(o: Option<Seq<NodeView>>) -> bool
    decreases o, 2nat,
{
    match o {
        Some(s) => all_resolved(s),
        None => true,
    }
}

pub open spec fn captions_resolved(s: Seq<CaptionView>) -> bool
    decreases s, 3nat,
{
    if s.len() == 0 {
        true
    } else {
        captions_resolved(s.drop_last()) && opt_resolved(s.last().attributes) && all_resolved(
            s.last().content,
        )
    }
}

pub open spec fn rows_resolved(s: Seq<RowView>) -> bool
    decreases s, 3nat,
{
    if s.len() == 0 {
        true
    } else {
        rows_resolved(s.drop_last()) && all_resolved(s.last().attributes) && cells_resolved(
            s.last().cells,
        )
    }
}

pub open spec fn cells_resolved(s: Seq<CellView>) -> bool
    decreases s, 4nat,
{
    if s.len() == 0 {
        true
    } else {
        cells_resolved(s.drop_last()) && opt_resolved(s.last().attributes) && all_resolved(
            s.last().content,
        )
    }
}

pub broadcast proof fn lemma_all_resolved(s: Seq<NodeView>)
    ensures
        #[trigger] all_resolved(s) <==> (forall|i: int| 0 <= i < s.len() ==> resolved(
            #[trigger] s[i],
        )),
    decreases s.len(),
{
    if s.len() > 0 {
        lemma_all_resolved(s.drop_last());
        assert forall|i: int| 0 <= i < s.len() - 1 implies #[trigger] s[i] == s.drop_last()[i] by {}
        assert(s[s.len() - 1] == s.last());
    }
}

pub broadcast proof fn lemma_captions_resolved(s: Seq<CaptionView>)
    ensures
        #[trigger] captions_resolved(s) <==> (forall|i: int|
            0 <= i < s.len() ==> opt_resolved((#[trigger] s[i]).attributes) && all_resolved(
                s[i].content,
            )),
    decreases s.len(),
{
    if s.len() > 0 {
        lemma_captions_resolved(s.drop_last());
        assert forall|i: int| 0 <= i < s.len() - 1 implies #[trigger] s[i] == s.drop_last()[i] by {}
        assert(s[s.len() - 1] == s.last());
    }
}

pub broadcast proof fn lemma_rows_resolved(s: Seq<RowView>)
    ensures
        #[trigger] rows_resolved(s) <==> (forall|i: int|
            0 <= i < s.len() ==> all_resolved((#[trigger] s[i]).attributes) && cells_resolved(
                s[i].cells,
            )),
    decreases s.len(),
{
    if s.len() > 0 {
        lemma_rows_resolved(s.drop_last());
        assert forall|i: int| 0 <= i < s.len() - 1 implies #[trigger] s[i] == s.drop_last()[i] by {}
        assert(s[s.len() - 1] == s.last());
    }
}

pub broadcast proof fn lemma_cells_resolved(s: Seq<CellView>)
    ensures
        #[trigger] cells_resolved(s) <==> (forall|i: int|
            0 <= i < s.len() ==> opt_resolved((#[trigger] s[i]).attributes) && all_resolved(
                s[i].content,
            )),
    decreases s.len(),
{
    if s.len() > 0 {
        lemma_cells_resolved(s.drop_last());
        assert forall|i: int| 0 <= i < s.len() - 1 implies #[trigger] s[i] == s.drop_last()[i] by {}
        assert(s[s.len() - 1] == s.last());
    }
}

pub broadcast group resolved_lemmas {
    lemma_all_resolved,
    lemma_captions_resolved,
    lemma_rows_resolved,
    lemma_cells_resolved,
}

/// Whether the tree holds a `Table` node anywhere, placeholder defaults
/// included.
pub open spec fn has_table_node(v: NodeView) -> bool
    decreases v, 0nat,
{
    match v {
        NodeView::Fragment { children } => any_table(children),
        NodeView::Template { .. } => false,
        NodeView::TemplateParameterUse { default, .. } => opt_has_table(default),
        NodeView::Text { .. } => false,
        NodeView::Bold { children } => any_table(children),
        NodeView::Italic { children } => any_table(children),
        NodeView::Link { .. } => false,
        NodeView::Table { .. } => true,
    }
}

pub open spec fn any_table(s: Seq<NodeView>) -> bool
    decreases s, 1nat,
{
    if s.len() == 0 {
        false
    } else {
        any_table(s.drop_last()) || has_table_node(s.last())
    }
}

pub open spec fn opt_has_table(o: Option<Seq<NodeView>>) -> bool
    decreases o, 2nat,
{
    match o {
        Some(s) => any_table(s),
        None => false,
    }
}

pub broadcast proof fn lemma_any_table(s: Seq<NodeView>)
    ensures
        #[trigger] any_table(s) <==> (exists|i: int|
            0 <= i < s.len() && has_table_node(#[trigger] s[i])),
    decreases s.len(),
{
    if s.len() > 0 {
        lemma_any_table(s.drop_last());
        assert forall|i: int| 0 <= i < s.len() - 1 implies #[trigger] s[i] == s.drop_last()[i] by {}
        assert(s[s.len() - 1] == s.last());
        if has_table_node(s.last()) {
            assert(has_table_node(s[s.len() - 1]));
        }
    }
}

/// Exec form of the fixed-point test: does the tree still hold any
/// `Template` or `TemplateParameterUse` node?
pub fn is_resolved(n: &Node) -> (b: bool)
    ensures
        b == resolved(n@),
    decreases *n, 0nat,
{
    broadcast use resolved_lemmas, node_view_lemmas;

    match n {
        Node::Fragment { children } => {
            proof {
                assert(decreases_to!(*n => *children));
            }
            vec_resolved(children)
        },
        Node::Template { .. } => false,
        Node::TemplateParameterUse { .. } => false,
        Node::Text { .. } => true,
        Node::Bold { children } => {
            proof {
                assert(decreases_to!(*n => *children));
            }
            vec_resolved(children)
        },
        Node::Italic { children } => {
            proof {
                assert(decreases_to!(*n => *children));
            }
            vec_resolved(children)
        },
        Node::Link { .. } => true,
        Node::Table { attributes, captions, rows } => {
            proof {
                assert(decreases_to!(*n => *attributes));
                assert(decreases_to!(*n => *captions));
                assert(decreases_to!(*n => *rows));
            }
            vec_resolved(attributes) && captions_vec_resolved(captions) && rows_vec_resolved(rows)
        },
    }
}

#[verifier::loop_isolation(false)]
fn vec_resolved(v: &Vec<Node>) -> (b: bool)
    ensures
        b == all_resolved(node_views(v@)),
    decreases *v, 1nat,
{
    broadcast use resolved_lemmas, node_view_lemmas;

    let mut i: usize = 0;
    while i < v.len()
        invariant
            i <= v.len(),
            forall|j: int| 0 <= j < i ==> resolved(#[trigger] node_views(v@)[j]),
        decreases v.len() - i,
    {
        proof {
            assert(decreases_to!(*v => v[i as int]));
        }
        if !is_resolved(&v[i]) {
            proof {
                assert(node_views(v@)[i as int] == node_view(v@[i as int]));
                assert(!resolved(node_views(v@)[i as int]));
            }
            return false;
        }
        i = i + 1;
    }
    true
}

#[verifier::loop_isolation(false)]
fn opt_vec_resolved(o: &Option<Vec<Node>>) -> (b: bool)
    ensures
        b == opt_resolved(opt_node_views(*o)),
    decreases *o, 2nat,
{
    match o {
        Some(v) => {
            proof {
                assert(decreases_to!(*o => *v));
            }
            vec_resolved(v)
        },
        None => true,
    }
}

#[verifier::loop_isolation(false)]
fn captions_vec_resolved(v: &Vec<TableCaption>) -> (b: bool)
    ensures
        b == captions_resolved(caption_views(v@)),
    decreases *v, 3nat,
{
    broadcast use resolved_lemmas, node_view_lemmas;

    let mut i: usize = 0;
    while i < v.len()
        invariant
            i <= v.len(),
            forall|j: int|
                0 <= j < i ==> opt_resolved((#[trigger] caption_views(v@)[j]).attributes)
                    && all_resolved(caption_views(v@)[j].content),
        decreases v.len() - i,
    {
        proof {
            assert(decreases_to!(*v => v[i as int]));
        }
        let c = &v[i];
        proof {
            assert(decreases_to!(v[i as int] => v[i as int].attributes));
            assert(decreases_to!(v[i as int] => v[i as int].content));
        }
        proof {
            assert(caption_views(v@)[i as int] == (CaptionView {
                attributes: opt_node_views(v@[i as int].attributes),
                content: node_views(v@[i as int].content@),
            }));
        }
        if !opt_vec_resolved(&c.attributes) {
            proof {
                assert(!(opt_resolved(caption_views(v@)[i as int].attributes) && all_resolved(
                    caption_views(v@)[i as int].content,
                )));
            }
            return false;
        }
        if !vec_resolved(&c.content) {
            proof {
                assert(!(opt_resolved(caption_views(v@)[i as int].attributes) && all_resolved(
                    caption_views(v@)[i as int].content,
                )));
            }
            return false;
        }
        i = i + 1;
    }
    true
}

#[verifier::loop_isolation(false)]
fn rows_vec_resolved(v: &Vec<TableRow>) -> (b: bool)
    ensures
        b == rows_resolved(row_views(v@)),
    decreases *v, 3nat,
{
    broadcast use resolved_lemmas, node_view_lemmas;

    let mut i: usize = 0;
    while i < v.len()
        invariant
            i <= v.len(),
            forall|j: int|
                0 <= j < i ==> all_resolved((#[trigger] row_views(v@)[j]).attributes)
                    && cells_resolved(row_views(v@)[j].cells),
        decreases v.len() - i,
    {
        proof {
            assert(decreases_to!(*v => v[i as int]));
        }
        let r = &v[i];
        proof {
            assert(decreases_to!(v[i as int] => v[i as int].attributes));
            assert(decreases_to!(v[i as int] => v[i as int].cells));
        }
        proof {
            assert(row_views(v@)[i as int] == (RowView {
                attributes: node_views(v@[i as int].attributes@),
                cells: cell_views(v@[i as int].cells@),
            }));
        }
        if !vec_resolved(&r.attributes) {
            proof {
                assert(!(all_resolved(row_views(v@)[i as int].attributes) && cells_resolved(
                    row_views(v@)[i as int].cells,
                )));
            }
            return false;
        }
        if !cells_vec_resolved(&r.cells) {
            proof {
                assert(!(all_resolved(row_views(v@)[i as int].attributes) && cells_resolved(
                    row_views(v@)[i as int].cells,
                )));
            }
            return false;
        }
        i = i + 1;
    }
    true
}

#[verifier::loop_isolation(false)]
fn cells_vec_resolved(v: &Vec<TableCell>) -> (b: bool)
    ensures
        b == cells_resolved(cell_views(v@)),
    decreases *v, 4nat,
{
    broadcast use resolved_lemmas, node_view_lemmas;

    let mut i: usize = 0;
    while i < v.len()
        invariant
            i <= v.len(),
            forall|j: int|
                0 <= j < i ==> opt_resolved((#[trigger] cell_views(v@)[j]).attributes)
                    && all_resolved(cell_views(v@)[j].content),
        decreases v.len() - i,
    {
        proof {
            assert(decreases_to!(*v => v[i as int]));
        }
        let c = &v[i];
        proof {
            assert(decreases_to!(v[i as int] => v[i as int].attributes));
            assert(decreases_to!(v[i as int] => v[i as int].content));
        }
        proof {
            assert(cell_views(v@)[i as int] == (CellView {
                attributes: opt_node_views(v@[i as int].attributes),
                content: node_views(v@[i as int].content@),
            }));
        }
        if !opt_vec_resolved(&c.attributes) {
            proof {
                assert(!(opt_resolved(cell_views(v@)[i as int].attributes) && all_resolved(
                    cell_views(v@)[i as int].content,
                )));
            }
            return false;
        }
        if !vec_resolved(&c.content) {
            proof {
                assert(!(opt_resolved(cell_views(v@)[i as int].attributes) && all_resolved(
                    cell_views(v@)[i as int].content,
                )));
            }
            return false;
        }
        i = i + 1;
    }
    true
}


/// Exec form of the table test: does the tree hold a `Table` node anywhere?
pub fn contains_table(n: &Node) -> (b: bool)
    ensures
        b == has_table_node(n@),
    decreases *n, 0nat,
{
    match n {
        Node::Fragment { children } => {
            proof {
                assert(decreases_to!(*n => *children));
            }
            vec_any_table(children)
        },
        Node::Template { .. } => false,
        Node::TemplateParameterUse { default, .. } => {
            proof {
                assert(decreases_to!(*n => *default));
            }
            match default {
                Some(d) => {
                    proof {
                        assert(decreases_to!(*default => *d));
                    }
                    vec_any_table(d)
                },
                None => false,
            }
        },
        Node::Text { .. } => false,
        Node::Bold { children } => {
            proof {
                assert(decreases_to!(*n => *children));
            }
            vec_any_table(children)
        },
        Node::Italic { children } => {
            proof {
                assert(decreases_to!(*n => *children));
            }
            vec_any_table(children)
        },
        Node::Link { .. } => false,
        Node::Table { .. } => true,
    }
}

#[verifier::loop_isolation(false)]
fn vec_any_table(v: &Vec<Node>) -> (b: bool)
    ensures
        b == any_table(node_views(v@)),
    decreases *v, 1nat,
{
    broadcast use node_view_lemmas;

    proof {
        lemma_any_table(node_views(v@));
    }
    let mut i: usize = 0;
    while i < v.len()
        invariant
            i <= v.len(),
            forall|j: int| 0 <= j < i ==> !has_table_node(#[trigger] node_views(v@)[j]),
        decreases v.len() - i,
    {
        proof {
            assert(decreases_to!(*v => v[i as int]));
        }
        if contains_table(&v[i]) {
            proof {
                assert(has_table_node(node_views(v@)[i as int]));
            }
            return true;
        }
        i = i + 1;
    }
    false
}


/// No `Template` node anywhere in the tree. Placeholder defaults are not
/// inspected: a substitution pass serializes a default as opaque text and
/// never instantiates inside it.
pub open spec fn template_free(v: NodeView) -> bool
    decreases v, 0nat,
{
    match v {
        NodeView::Fragment { children } => seq_template_free(children),
        NodeView::Template { .. } => false,
        NodeView::TemplateParameterUse { .. } => true,
        NodeView::Text { .. } => true,
        NodeView::Bold { children } => seq_template_free(children),
        NodeView::Italic { children } => seq_template_free(children),
        NodeView::Link { .. } => true,
        NodeView::Table { attributes, captions, rows } => seq_template_free(attributes)
            && captions_template_free(captions) && rows_template_free(rows),
    }
}

pub open spec fn seq_template_free(s: Seq<NodeView>) -> bool
    decreases s, 1nat,
{
    if s.len() == 0 {
        true
    } else {
        seq_template_free(s.drop_last()) && template_free(s.last())
    }
}

pub open spec fn opt_template_free(o: Option<Seq<NodeView>>) -> bool
    decreases o, 2nat,
{
    match o {
        Some(s) => seq_template_free(s),
        None => true,
    }
}

pub open spec fn captions_template_free(s: Seq<CaptionView>) -> bool
    decreases s, 3nat,
{
    if s.len() == 0 {
        true
    } else {
        captions_template_free(s.drop_last()) && opt_template_free(s.last().attributes)
            && seq_template_free(s.last().content)
    }
}

pub open spec fn rows_template_free(s: Seq<RowView>) -> bool
    decreases s, 3nat,
{
    if s.len() == 0 {
        true
    } else {
        rows_template_free(s.drop_last()) && seq_template_free(s.last().attributes)
            && cells_template_free(s.last().cells)
    }
}

pub open spec fn cells_template_free(s: Seq<CellView>) -> bool
    decreases s, 4nat,
{
    if s.len() == 0 {
        true
    } else {
        cells_template_free(s.drop_last()) && opt_template_free(s.last().attributes)
            && seq_template_free(s.last().content)
    }
}

pub broadcast proof fn lemma_seq_template_free(s: Seq<NodeView>)
    ensures
        #[trigger] seq_template_free(s) <==> (forall|i: int|
            0 <= i < s.len() ==> template_free(#[trigger] s[i])),
    decreases s.len(),
{
    if s.len() > 0 {
        lemma_seq_template_free(s.drop_last());
        assert forall|i: int| 0 <= i < s.len() - 1 implies #[trigger] s[i] == s.drop_last()[i] by {}
        assert(s[s.len() - 1] == s.last());
    }
}

pub broadcast proof fn lemma_captions_template_free(s: Seq<CaptionView>)
    ensures
        #[trigger] captions_template_free(s) <==> (forall|i: int|
            0 <= i < s.len() ==> opt_template_free((#[trigger] s[i]).attributes)
                && seq_template_free(s[i].content)),
    decreases s.len(),
{
    if s.len() > 0 {
        lemma_captions_template_free(s.drop_last());
        assert forall|i: int| 0 <= i < s.len() - 1 implies #[trigger] s[i] == s.drop_last()[i] by {}
        assert(s[s.len() - 1] == s.last());
    }
}

pub broadcast proof fn lemma_rows_template_free(s: Seq<RowView>)
    ensures
        #[trigger] rows_template_free(s) <==> (forall|i: int|
            0 <= i < s.len() ==> seq_template_free((#[trigger] s[i]).attributes)
                && cells_template_free(s[i].cells)),
    decreases s.len(),
{
    if s.len() > 0 {
        lemma_rows_template_free(s.drop_last());
        assert forall|i: int| 0 <= i < s.len() - 1 implies #[trigger] s[i] == s.drop_last()[i] by {}
        assert(s[s.len() - 1] == s.last());
    }
}

pub broadcast proof fn lemma_cells_template_free(s: Seq<CellView>)
    ensures
        #[trigger] cells_template_free(s) <==> (forall|i: int|
            0 <= i < s.len() ==> opt_template_free((#[trigger] s[i]).attributes)
                && seq_template_free(s[i].content)),
    decreases s.len(),
{
    if s.len() > 0 {
        lemma_cells_template_free(s.drop_last());
        assert forall|i: int| 0 <= i < s.len() - 1 implies #[trigger] s[i] == s.drop_last()[i] by {}
        assert(s[s.len() - 1] == s.last());
    }
}

pub broadcast group template_free_lemmas {
    lemma_seq_template_free,
    lemma_captions_template_free,
    lemma_rows_template_free,
    lemma_cells_template_free,
}

/// A resolved tree is template-free.
pub proof fn lemma_resolved_is_template_free(v: NodeView)
    requires
        resolved(v),
    ensures
        template_free(v),
    decreases v, 0nat,
{
    broadcast use resolved_lemmas, template_free_lemmas;

    match v {
        NodeView::Fragment { children } => {
            lemma_seq_resolved_template_free(children);
        },
        NodeView::Bold { children } => {
            lemma_seq_resolved_template_free(children);
        },
        NodeView::Italic { children } => {
            lemma_seq_resolved_template_free(children);
        },
        NodeView::Table { attributes, captions, rows } => {
            lemma_seq_resolved_template_free(attributes);
            lemma_captions_resolved(captions);
            lemma_rows_resolved(rows);
            assert forall|i: int| 0 <= i < captions.len() implies opt_template_free(
                (#[trigger] captions[i]).attributes,
            ) && seq_template_free(captions[i].content) by {
                match captions[i].attributes {
                    Some(a) => lemma_seq_resolved_template_free(a),
                    None => {},
                }
                lemma_seq_resolved_template_free(captions[i].content);
            }
            assert forall|i: int| 0 <= i < rows.len() implies seq_template_free(
                (#[trigger] rows[i]).attributes,
            ) && cells_template_free(rows[i].cells) by {
                lemma_seq_resolved_template_free(rows[i].attributes);
                let cells = rows[i].cells;
                lemma_cells_resolved(cells);
                assert forall|k: int| 0 <= k < cells.len() implies opt_template_free(
                    (#[trigger] cells[k]).attributes,
                ) && seq_template_free(cells[k].content) by {
                    match cells[k].attributes {
                        Some(a) => lemma_seq_resolved_template_free(a),
                        None => {},
                    }
                    lemma_seq_resolved_template_free(cells[k].content);
                }
                lemma_cells_template_free(cells);
            }
            lemma_captions_template_free(captions);
            lemma_rows_template_free(rows);
        },
        _ => {},
    }
}

pub proof fn lemma_seq_resolved_template_free(s: Seq<NodeView>)
    requires
        all_resolved(s),
    ensures
        seq_template_free(s),
    decreases s, 1nat,
{
    broadcast use resolved_lemmas, template_free_lemmas;

    assert forall|i: int| 0 <= i < s.len() implies template_free(#[trigger] s[i]) by {
        lemma_resolved_is_template_free(s[i]);
    }
}


/// What the cell re-parse fix-up does to one cell. The cell's attributes
/// stay; a cell whose serialized content holds no markup keeps its content
/// exactly — a sibling cell's substitution can never leak in; and a cell whose
/// serialization does hold markup is replaced by the parse of that
/// serialization whenever that parse is non-empty and already resolved (so the
/// markup becomes structured nodes). Only when the re-parse reveals further
/// invocations does the new content depend on the template store, beyond this
/// relation.
pub open spec fn cell_fixup_kept(a: CellView, b: CellView) -> bool {
    let text = crate::serialize::wt_seq(a.content);
    let parsed = crate::parse::parse_text(text);
    &&& b.attributes == a.attributes
    &&& (!crate::text::has_markup(text) ==> b.content == a.content)
    &&& (crate::text::has_markup(text) && parsed.len() > 0 && all_resolved(parsed)
        ==> b.content == parsed)
}

pub open spec fn row_fixup_kept(a: RowView, b: RowView) -> bool {
    b.attributes == a.attributes && b.cells.len() == a.cells.len() && (forall|k: int|
        0 <= k < a.cells.len() ==> cell_fixup_kept(#[trigger] a.cells[k], b.cells[k]))
}

/// What the cell re-parse fix-up preserves of a tree: row and cell boundaries,
/// table attributes and captions; only the content of cells whose
/// serialization holds markup may change.
pub open spec fn fixup_kept(a: NodeView, b: NodeView) -> bool
    decreases a,
{
    match a {
        NodeView::Fragment { children } => b matches NodeView::Fragment { children: bc }
            && bc.len() == children.len() && (forall|i: int|
            0 <= i < children.len() ==> fixup_kept(#[trigger] children[i], bc[i])),
        NodeView::Table { attributes, captions, rows } => b matches NodeView::Table {
            attributes: ba,
            captions: bc,
            rows: br,
        } && ba == attributes && bc == captions && br.len() == rows.len() && (forall|i: int|
            0 <= i < rows.len() ==> row_fixup_kept(#[trigger] rows[i], br[i])),
        _ => b == a,
    }
}


/// A table stands in the tree outside every placeholder default. The
/// substitution pass carries such a table through as a table; a table that
/// only a placeholder's default holds is serialized away with the default.
pub open spec fn has_proper_table(v: NodeView) -> bool
    decreases v, 0nat,
{
    match v {
        NodeView::Fragment { children } => any_proper_table(children),
        NodeView::Template { .. } => false,
        NodeView::TemplateParameterUse { .. } => false,
        NodeView::Text { .. } => false,
        NodeView::Bold { children } => any_proper_table(children),
        NodeView::Italic { children } => any_proper_table(children),
        NodeView::Link { .. } => false,
        NodeView::Table { .. } => true,
    }
}

pub open spec fn any_proper_table(s: Seq<NodeView>) -> bool
    decreases s, 1nat,
{
    if s.len() == 0 {
        false
    } else {
        any_proper_table(s.drop_last()) || has_proper_table(s.last())
    }
}

pub broadcast proof fn lemma_any_proper_table(s: Seq<NodeView>)
    ensures
        #[trigger] any_proper_table(s) <==> (exists|i: int|
            0 <= i < s.len() && has_proper_table(#[trigger] s[i])),
    decreases s.len(),
{
    if s.len() > 0 {
        lemma_any_proper_table(s.drop_last());
        assert forall|i: int| 0 <= i < s.len() - 1 implies #[trigger] s[i] == s.drop_last()[i] by {}
        assert(s[s.len() - 1] == s.last());
        if has_proper_table(s.last()) {
            assert(has_proper_table(s[s.len() - 1]));
        }
    }
}

/// What any expansion step keeps of table boundaries: containers map
/// one-to-one, and a table stays a table with the same row count and the same
/// cell count in every row. Unresolved constructs may become anything, and
/// leaf content may change.
pub open spec fn tables_kept(a: NodeView, b: NodeView) -> bool
    decreases a, 0nat,
{
    match a {
        NodeView::Fragment { children } => b matches NodeView::Fragment { children: bc }
            && seq_tables_kept(children, bc),
        NodeView::Template { .. } => true,
        NodeView::TemplateParameterUse { .. } => true,
        NodeView::Text { .. } => true,
        NodeView::Bold { children } => b matches NodeView::Bold { children: bc }
            && seq_tables_kept(children, bc),
        NodeView::Italic { children } => b matches NodeView::Italic { children: bc }
            && seq_tables_kept(children, bc),
        NodeView::Link { .. } => true,
        NodeView::Table { rows, .. } => b matches NodeView::Table { rows: br, .. }
            && rows_counts_kept(rows, br),
    }
}

pub open spec fn seq_tables_kept(a: Seq<NodeView>, b: Seq<NodeView>) -> bool
    decreases a, 1nat,
{
    if a.len() == 0 {
        b.len() == 0
    } else {
        b.len() == a.len() && seq_tables_kept(a.drop_last(), b.drop_last()) && tables_kept(
            a.last(),
            b.last(),
        )
    }
}

/// Same number of rows, and in every row the same number of cells.
pub open spec fn rows_counts_kept(a: Seq<RowView>, b: Seq<RowView>) -> bool {
    b.len() == a.len() && (forall|i: int|
        0 <= i < a.len() ==> (#[trigger] b[i]).cells.len() == a[i].cells.len())
}

pub broadcast proof fn lemma_seq_tables_kept(a: Seq<NodeView>, b: Seq<NodeView>)
    ensures
        #[trigger] seq_tables_kept(a, b) <==> (b.len() == a.len() && (forall|i: int|
            0 <= i < a.len() ==> tables_kept(#[trigger] a[i], b[i]))),
    decreases a.len(),
{
    if a.len() > 0 && b.len() == a.len() {
        lemma_seq_tables_kept(a.drop_last(), b.drop_last());
        assert forall|i: int| 0 <= i < a.len() - 1 implies #[trigger] a[i] == a.drop_last()[i]
            && b[i] == b.drop_last()[i] by {}
        assert(a[a.len() - 1] == a.last());
        assert(b[a.len() - 1] == b.last());
    }
}

pub proof fn lemma_tables_kept_refl(a: NodeView)
    ensures
        tables_kept(a, a),
    decreases a, 0nat,
{
    broadcast use lemma_seq_tables_kept;

    match a {
        NodeView::Fragment { children } => {
            lemma_seq_tables_kept_refl(children);
        },
        NodeView::Bold { children } => {
            lemma_seq_tables_kept_refl(children);
        },
        NodeView::Italic { children } => {
            lemma_seq_tables_kept_refl(children);
        },
        _ => {},
    }
}

pub proof fn lemma_seq_tables_kept_refl(s: Seq<NodeView>)
    ensures
        seq_tables_kept(s, s),
    decreases s, 1nat,
{
    broadcast use lemma_seq_tables_kept;

    assert forall|i: int| 0 <= i < s.len() implies tables_kept(#[trigger] s[i], s[i]) by {
        lemma_tables_kept_refl(s[i]);
    }
}

pub proof fn lemma_tables_kept_trans(a: NodeView, b: NodeView, c: NodeView)
    requires
        tables_kept(a, b),
        tables_kept(b, c),
    ensures
        tables_kept(a, c),
    decreases a, 0nat,
{
    broadcast use lemma_seq_tables_kept;

    match a {
        NodeView::Fragment { children } => {
            let bc = b->Fragment_children;
            let cc = c->Fragment_children;
            lemma_seq_tables_kept(children, bc);
            lemma_seq_tables_kept(bc, cc);
            assert forall|i: int| 0 <= i < children.len() implies tables_kept(
                #[trigger] children[i],
                cc[i],
            ) by {
                assert(decreases_to!(a => children));
                lemma_tables_kept_trans(children[i], bc[i], cc[i]);
            }
            lemma_seq_tables_kept(children, cc);
        },
        NodeView::Bold { children } => {
            let bc = b->Bold_children;
            let cc = c->Bold_children;
            lemma_seq_tables_kept(children, bc);
            lemma_seq_tables_kept(bc, cc);
            assert forall|i: int| 0 <= i < children.len() implies tables_kept(
                #[trigger] children[i],
                cc[i],
            ) by {
                assert(decreases_to!(a => children));
                lemma_tables_kept_trans(children[i], bc[i], cc[i]);
            }
            lemma_seq_tables_kept(children, cc);
        },
        NodeView::Italic { children } => {
            let bc = b->Italic_children;
            let cc = c->Italic_children;
            lemma_seq_tables_kept(children, bc);
            lemma_seq_tables_kept(bc, cc);
            assert forall|i: int| 0 <= i < children.len() implies tables_kept(
                #[trigger] children[i],
                cc[i],
            ) by {
                assert(decreases_to!(a => children));
                lemma_tables_kept_trans(children[i], bc[i], cc[i]);
            }
            lemma_seq_tables_kept(children, cc);
        },
        _ => {},
    }
}

/// The fix-up relation keeps table boundaries.
pub proof fn lemma_fixup_tables_kept(a: NodeView, b: NodeView)
    requires
        fixup_kept(a, b),
    ensures
        tables_kept(a, b),
    decreases a, 0nat,
{
    broadcast use lemma_seq_tables_kept;

    match a {
        NodeView::Fragment { children } => {
            let bc = b->Fragment_children;
            assert forall|i: int| 0 <= i < children.len() implies tables_kept(
                #[trigger] children[i],
                bc[i],
            ) by {
                assert(decreases_to!(a => children));
                assert(fixup_kept(children[i], bc[i]));
                lemma_fixup_tables_kept(children[i], bc[i]);
            }
            lemma_seq_tables_kept(children, bc);
        },
        NodeView::Table { .. } => {},
        _ => {
            lemma_tables_kept_refl(a);
        },
    }
}

/// A table outside every placeholder default survives any boundary-keeping
/// step as a table.
pub proof fn lemma_proper_table_survives(a: NodeView, b: NodeView)
    requires
        has_proper_table(a),
        tables_kept(a, b),
    ensures
        has_table_node(b),
    decreases a, 0nat,
{
    broadcast use lemma_seq_tables_kept, lemma_any_proper_table, lemma_any_table;

    match a {
        NodeView::Fragment { children } => {
            let bc = b->Fragment_children;
            lemma_seq_tables_kept(children, bc);
            lemma_any_proper_table(children);
            let i = choose|i: int| 0 <= i < children.len() && has_proper_table(children[i]);
            assert(0 <= i < children.len() && has_proper_table(children[i]));
            assert(decreases_to!(a => children));
            assert(decreases_to!(children => children[i]));
            lemma_proper_table_survives(children[i], bc[i]);
            lemma_any_table(bc);
            assert(has_table_node(bc[i]));
        },
        NodeView::Bold { children } => {
            let bc = b->Bold_children;
            lemma_seq_tables_kept(children, bc);
            lemma_any_proper_table(children);
            let i = choose|i: int| 0 <= i < children.len() && has_proper_table(children[i]);
            assert(0 <= i < children.len() && has_proper_table(children[i]));
            assert(decreases_to!(a => children));
            assert(decreases_to!(children => children[i]));
            lemma_proper_table_survives(children[i], bc[i]);
            lemma_any_table(bc);
            assert(has_table_node(bc[i]));
        },
        NodeView::Italic { children } => {
            let bc = b->Italic_children;
            lemma_seq_tables_kept(children, bc);
            lemma_any_proper_table(children);
            let i = choose|i: int| 0 <= i < children.len() && has_proper_table(children[i]);
            assert(0 <= i < children.len() && has_proper_table(children[i]));
            assert(decreases_to!(a => children));
            assert(decreases_to!(children => children[i]));
            lemma_proper_table_survives(children[i], bc[i]);
            lemma_any_table(bc);
            assert(has_table_node(bc[i]));
        },
        _ => {},
    }
}

} // verus!

