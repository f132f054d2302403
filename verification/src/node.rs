//! The document tree: a closed set of node variants for parsed wiki markup.
//!
//! `Node` is the executable tree; `NodeView` is its mathematical model, with
//! `Seq` in place of `Vec` and `Seq<char>` in place of `String`. All contracts
//! in this crate speak about `NodeView`.
//!
//! The variants that carry expansion semantics are `Template` (an unresolved
//! invocation), `TemplateParameterUse` (an unresolved placeholder), `Fragment`
//! (transparent grouping), `Text` (opaque literal content) and `Table` with its
//! rows and cells, whose boundaries must survive expansion. `Bold`, `Italic`
//! and `Link` are inert containers carried through unchanged.

use vstd::prelude::*;

verus! {

/// A caller-supplied argument at a template invocation site; the value is raw,
/// unparsed text captured there.
#[derive(Debug)]
pub struct TemplateParameter {
    pub name: String,
    pub value: String,
}

#[derive(Debug)]
pub struct TableCaption {
    pub attributes: Option<Vec<Node>>,
    pub content: Vec<Node>,
}

#[derive(Debug)]
pub struct TableRow {
    pub attributes: Vec<Node>,
    pub cells: Vec<TableCell>,
}

#[derive(Debug)]
pub struct TableCell {
    pub attributes: Option<Vec<Node>>,
    pub content: Vec<Node>,
}

/// One markup construct in the document tree.
#[derive(Debug)]
pub enum Node {
    Fragment { children: Vec<Node> },
    Template { name: String, parameters: Vec<TemplateParameter> },
    TemplateParameterUse { name: String, default: Option<Vec<Node>> },
    Text { text: String },
    Bold { children: Vec<Node> },
    Italic { children: Vec<Node> },
    Link { text: String, title: String },
    Table { attributes: Vec<Node>, captions: Vec<TableCaption>, rows: Vec<TableRow> },
}

pub struct ParamView {
    pub name: Seq<char>,
    pub value: Seq<char>,
}

pub struct CaptionView {
    pub attributes: Option<Seq<NodeView>>,
    pub content: Seq<NodeView>,
}

pub struct RowView {
    pub attributes: Seq<NodeView>,
    pub cells: Seq<CellView>,
}

pub struct CellView {
    pub attributes: Option<Seq<NodeView>>,
    pub content: Seq<NodeView>,
}

/// The mathematical model of a `Node`.
pub enum NodeView {
    Fragment { children: Seq<NodeView> },
    Template { name: Seq<char>, parameters: Seq<ParamView> },
    TemplateParameterUse { name: Seq<char>, default: Option<Seq<NodeView>> },
    Text { text: Seq<char> },
    Bold { children: Seq<NodeView> },
    Italic { children: Seq<NodeView> },
    Link { text: Seq<char>, title: Seq<char> },
    Table { attributes: Seq<NodeView>, captions: Seq<CaptionView>, rows: Seq<RowView> },
}

pub open spec fn param_views(s: Seq<TemplateParameter>) -> Seq<ParamView> {
    Seq::new(s.len(), |i: int| ParamView { name: s[i].name@, value: s[i].value@ })
}

pub open spec fn node_view(n: Node) -> NodeView
    decreases n, 0nat,
{
    match n {
        Node::Fragment { children } => {
            proof {
                assert(decreases_to!(n => children));
                assert(decreases_to!(children => children@));
            }
            NodeView::Fragment { children: node_views(children@) }
        },
        Node::Template { name, parameters } => NodeView::Template {
            name: name@,
            parameters: param_views(parameters@),
        },
        Node::TemplateParameterUse { name, default } => {
            let dv = match default {
                Some(d) => {
                    proof {
                        assert(decreases_to!(n => default));
                        assert(decreases_to!(default => d));
                        assert(decreases_to!(d => d@));
                    }
                    Some(node_views(d@))
                },
                None => None,
            };
            NodeView::TemplateParameterUse { name: name@, default: dv }
        },
        Node::Text { text } => NodeView::Text { text: text@ },
        Node::Bold { children } => {
            proof {
                assert(decreases_to!(n => children));
                assert(decreases_to!(children => children@));
            }
            NodeView::Bold { children: node_views(children@) }
        },
        Node::Italic { children } => {
            proof {
                assert(decreases_to!(n => children));
                assert(decreases_to!(children => children@));
            }
            NodeView::Italic { children: node_views(children@) }
        },
        Node::Link { text, title } => NodeView::Link { text: text@, title: title@ },
        Node::Table { attributes, captions, rows } => {
            proof {
                assert(decreases_to!(n => attributes));
                assert(decreases_to!(attributes => attributes@));
                assert(decreases_to!(n => captions));
                assert(decreases_to!(captions => captions@));
                assert(decreases_to!(n => rows));
                assert(decreases_to!(rows => rows@));
            }
            NodeView::Table {
                attributes: node_views(attributes@),
                captions: caption_views(captions@),
                rows: row_views(rows@),
            }
        },
    }
}

pub open spec fn node_views(s: Seq<Node>) -> Seq<NodeView>
    decreases s, 1nat,
{
    if s.len() == 0 {
        Seq::empty()
    } else {
        node_views(s.drop_last()).push(node_view(s.last()))
    }
}

pub open spec fn opt_node_views(o: Option<Vec<Node>>) -> Option<Seq<NodeView>>
    decreases o, 1nat,
{
    match o {
        Some(v) => {
            proof {
                assert(decreases_to!(o => v));
                assert(decreases_to!(v => v@));
            }
            Some(node_views(v@))
        },
        None => None,
    }
}

pub open spec fn caption_views(s: Seq<TableCaption>) -> Seq<CaptionView>
    decreases s, 2nat,
{
    if s.len() == 0 {
        Seq::empty()
    } else {
        let c = s.last();
        proof {
            assert(decreases_to!(s => c));
        }
        caption_views(s.drop_last()).push(
            CaptionView { attributes: opt_node_views(c.attributes), content: node_views(c.content@) },
        )
    }
}

pub open spec fn row_views(s: Seq<TableRow>) -> Seq<RowView>
    decreases s, 2nat,
{
    if s.len() == 0 {
        Seq::empty()
    } else {
        let r = s.last();
        proof {
            assert(decreases_to!(s => r));
            assert(decreases_to!(r => r.attributes));
            assert(decreases_to!(r.attributes => r.attributes@));
            assert(decreases_to!(r => r.cells));
            assert(decreases_to!(r.cells => r.cells@));
        }
        row_views(s.drop_last()).push(
            RowView { attributes: node_views(r.attributes@), cells: cell_views(r.cells@) },
        )
    }
}

pub open spec fn cell_views(s: Seq<TableCell>) -> Seq<CellView>
    decreases s, 2nat,
{
    if s.len() == 0 {
        Seq::empty()
    } else {
        let c = s.last();
        proof {
            assert(decreases_to!(s => c));
            assert(decreases_to!(c => c.content));
            assert(decreases_to!(c.content => c.content@));
        }
        cell_views(s.drop_last()).push(
            CellView { attributes: opt_node_views(c.attributes), content: node_views(c.content@) },
        )
    }
}

impl View for Node {
    type V = NodeView;

    open spec fn view(&self) -> NodeView {
        node_view(*self)
    }
}

impl View for TemplateParameter {
    type V = ParamView;

    open spec fn view(&self) -> ParamView {
        ParamView { name: self.name@, value: self.value@ }
    }
}

impl View for TableRow {
    type V = RowView;

    open spec fn view(&self) -> RowView {
        RowView { attributes: node_views(self.attributes@), cells: cell_views(self.cells@) }
    }
}

impl View for TableCell {
    type V = CellView;

    open spec fn view(&self) -> CellView {
        CellView { attributes: opt_node_views(self.attributes), content: node_views(self.content@) }
    }
}

impl View for TableCaption {
    type V = CaptionView;

    open spec fn view(&self) -> CaptionView {
        CaptionView { attributes: opt_node_views(self.attributes), content: node_views(self.content@) }
    }
}

pub broadcast proof fn lemma_node_views(s: Seq<Node>)
    ensures
        (#[trigger] node_views(s)).len() == s.len(),
        forall|i: int| 0 <= i < s.len() ==> node_views(s)[i] == node_view(s[i]),
    decreases s.len(),
{
    if s.len() > 0 {
        lemma_node_views(s.drop_last());
    }
}

pub broadcast proof fn lemma_param_views(s: Seq<TemplateParameter>)
    ensures
        (#[trigger] param_views(s)).len() == s.len(),
        forall|i: int| 0 <= i < s.len() ==> param_views(s)[i] == (ParamView {
            name: s[i].name@,
            value: s[i].value@,
        }),
{
}

pub broadcast proof fn lemma_caption_views(s: Seq<TableCaption>)
    ensures
        (#[trigger] caption_views(s)).len() == s.len(),
        forall|i: int| 0 <= i < s.len() ==> caption_views(s)[i] == (CaptionView {
            attributes: opt_node_views(s[i].attributes),
            content: node_views(s[i].content@),
        }),
    decreases s.len(),
{
    if s.len() > 0 {
        lemma_caption_views(s.drop_last());
    }
}

pub broadcast proof fn lemma_row_views(s: Seq<TableRow>)
    ensures
        (#[trigger] row_views(s)).len() == s.len(),
        forall|i: int| 0 <= i < s.len() ==> row_views(s)[i] == (RowView {
            attributes: node_views(s[i].attributes@),
            cells: cell_views(s[i].cells@),
        }),
    decreases s.len(),
{
    if s.len() > 0 {
        lemma_row_views(s.drop_last());
    }
}

pub broadcast proof fn lemma_cell_views(s: Seq<TableCell>)
    ensures
        (#[trigger] cell_views(s)).len() == s.len(),
        forall|i: int| 0 <= i < s.len() ==> cell_views(s)[i] == (CellView {
            attributes: opt_node_views(s[i].attributes),
            content: node_views(s[i].content@),
        }),
    decreases s.len(),
{
    if s.len() > 0 {
        lemma_cell_views(s.drop_last());
    }
}

pub broadcast group node_view_lemmas {
    lemma_node_views,
    lemma_param_views,
    lemma_caption_views,
    lemma_row_views,
    lemma_cell_views,
}


impl Node {
    /// A deep copy of the tree; the engine clones cached templates before
    /// substituting into them, so the cache itself is never mutated.
    pub fn duplicate(&self) -> (r: Node)
        ensures
            r@ == self@,
        decreases *self, 0nat,
    {
        broadcast use node_view_lemmas;

        match self {
            Node::Fragment { children } => {
                proof {
                    assert(decreases_to!(*self => *children));
                }
                Node::Fragment { children: dup_nodes(children) }
            },
            Node::Template { name, parameters } => Node::Template {
                name: name.clone(),
                parameters: dup_params(parameters),
            },
            Node::TemplateParameterUse { name, default } => {
                proof {
                    assert(decreases_to!(*self => *default));
                }
                Node::TemplateParameterUse { name: name.clone(), default: dup_opt_nodes(default) }
            },
            Node::Text { text } => Node::Text { text: text.clone() },
            Node::Bold { children } => {
                proof {
                    assert(decreases_to!(*self => *children));
                }
                Node::Bold { children: dup_nodes(children) }
            },
            Node::Italic { children } => {
                proof {
                    assert(decreases_to!(*self => *children));
                }
                Node::Italic { children: dup_nodes(children) }
            },
            Node::Link { text, title } => Node::Link { text: text.clone(), title: title.clone() },
            Node::Table { attributes, captions, rows } => {
                proof {
                    assert(decreases_to!(*self => *attributes));
                    assert(decreases_to!(*self => *captions));
                    assert(decreases_to!(*self => *rows));
                }
                Node::Table {
                    attributes: dup_nodes(attributes),
                    captions: dup_captions(captions),
                    rows: dup_rows(rows),
                }
            },
        }
    }
}

#[verifier::loop_isolation(false)]
pub fn dup_nodes(v: &Vec<Node>) -> (r: Vec<Node>)
    ensures
        node_views(r@) == node_views(v@),
        r@.len() == v@.len(),
    decreases *v, 1nat,
{
    broadcast use node_view_lemmas;

    let mut r: Vec<Node> = Vec::new();
    let mut i: usize = 0;
    while i < v.len()
        invariant
            i <= v.len(),
            r@.len() == i,
            forall|j: int| 0 <= j < i ==> node_view(#[trigger] r@[j]) == node_view(v@[j]),
        decreases v.len() - i,
    {
        proof {
            assert(decreases_to!(*v => v[i as int]));
        }
        r.push(v[i].duplicate());
        i = i + 1;
    }
    proof {
        assert(node_views(r@) =~= node_views(v@));
    }
    r
}

#[verifier::loop_isolation(false)]
fn dup_params(v: &Vec<TemplateParameter>) -> (r: Vec<TemplateParameter>)
    ensures
        param_views(r@) == param_views(v@),
{
    broadcast use node_view_lemmas;

    let mut r: Vec<TemplateParameter> = Vec::new();
    let mut i: usize = 0;
    while i < v.len()
        invariant
            i <= v.len(),
            r@.len() == i,
            forall|j: int|
                0 <= j < i ==> (#[trigger] r@[j]).name@ == v@[j].name@ && r@[j].value@
                    == v@[j].value@,
        decreases v.len() - i,
    {
        let p = &v[i];
        r.push(TemplateParameter { name: p.name.clone(), value: p.value.clone() });
        i = i + 1;
    }
    proof {
        assert(param_views(r@) =~= param_views(v@));
    }
    r
}

fn dup_opt_nodes(o: &Option<Vec<Node>>) -> (r: Option<Vec<Node>>)
    ensures
        opt_node_views(r) == opt_node_views(*o),
    decreases *o, 1nat,
{
    match o {
        Some(v) => {
            proof {
                assert(decreases_to!(*o => *v));
            }
            Some(dup_nodes(v))
        },
        None => None,
    }
}

#[verifier::loop_isolation(false)]
fn dup_captions(v: &Vec<TableCaption>) -> (r: Vec<TableCaption>)
    ensures
        caption_views(r@) == caption_views(v@),
    decreases *v, 2nat,
{
    broadcast use node_view_lemmas;

    let mut r: Vec<TableCaption> = Vec::new();
    let mut i: usize = 0;
    while i < v.len()
        invariant
            i <= v.len(),
            r@.len() == i,
            forall|j: int|
                0 <= j < i ==> opt_node_views((#[trigger] r@[j]).attributes) == opt_node_views(
                    v@[j].attributes,
                ) && node_views(r@[j].content@) == node_views(v@[j].content@),
        decreases v.len() - i,
    {
        proof {
            assert(decreases_to!(*v => v[i as int]));
            assert(decreases_to!(v[i as int] => v[i as int].attributes));
            assert(decreases_to!(v[i as int] => v[i as int].content));
        }
        let c = &v[i];
        r.push(TableCaption { attributes: dup_opt_nodes(&c.attributes), content: dup_nodes(&c.content) });
        i = i + 1;
    }
    proof {
        assert(caption_views(r@) =~= caption_views(v@));
    }
    r
}

#[verifier::loop_isolation(false)]
fn dup_rows(v: &Vec<TableRow>) -> (r: Vec<TableRow>)
    ensures
        row_views(r@) == row_views(v@),
    decreases *v, 2nat,
{
    broadcast use node_view_lemmas;

    let mut r: Vec<TableRow> = Vec::new();
    let mut i: usize = 0;
    while i < v.len()
        invariant
            i <= v.len(),
            r@.len() == i,
            forall|j: int|
                0 <= j < i ==> node_views((#[trigger] r@[j]).attributes@) == node_views(
                    v@[j].attributes@,
                ) && cell_views(r@[j].cells@) == cell_views(v@[j].cells@),
        decreases v.len() - i,
    {
        proof {
            assert(decreases_to!(*v => v[i as int]));
            assert(decreases_to!(v[i as int] => v[i as int].attributes));
            assert(decreases_to!(v[i as int] => v[i as int].cells));
        }
        let w = &v[i];
        r.push(TableRow { attributes: dup_nodes(&w.attributes), cells: dup_cells(&w.cells) });
        i = i + 1;
    }
    proof {
        assert(row_views(r@) =~= row_views(v@));
    }
    r
}

#[verifier::loop_isolation(false)]
fn dup_cells(v: &Vec<TableCell>) -> (r: Vec<TableCell>)
    ensures
        cell_views(r@) == cell_views(v@),
    decreases *v, 3nat,
{
    broadcast use node_view_lemmas;

    let mut r: Vec<TableCell> = Vec::new();
    let mut i: usize = 0;
    while i < v.len()
        invariant
            i <= v.len(),
            r@.len() == i,
            forall|j: int|
                0 <= j < i ==> opt_node_views((#[trigger] r@[j]).attributes) == opt_node_views(
                    v@[j].attributes,
                ) && node_views(r@[j].content@) == node_views(v@[j].content@),
        decreases v.len() - i,
    {
        proof {
            assert(decreases_to!(*v => v[i as int]));
            assert(decreases_to!(v[i as int] => v[i as int].attributes));
            assert(decreases_to!(v[i as int] => v[i as int].content));
        }
        let c = &v[i];
        r.push(TableCell { attributes: dup_opt_nodes(&c.attributes), content: dup_nodes(&c.content) });
        i = i + 1;
    }
    proof {
        assert(cell_views(r@) =~= cell_views(v@));
    }
    r
}

} // verus!
