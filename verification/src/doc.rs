//! The generic document tree a text-format reader hands in: nulls,
//! booleans, text scalars, ordered sequences, and ordered mappings. It
//! carries no numbers: the tagging convention keeps them inside scalars.

use vstd::prelude::*;

verus! {

/// One node of a parsed document, independent of the text format.
pub enum DocNode {
    Null,
    Bool(bool),
    Text(String),
    Sequence(Vec<DocNode>),
    Mapping(Vec<(String, DocNode)>),
}

/// Mathematical image of `DocNode`.
pub enum NodeView {
    Null,
    Bool(bool),
    Text(Seq<char>),
    Sequence(Seq<NodeView>),
    Mapping(Seq<(Seq<char>, NodeView)>),
}

pub open spec fn node_view(n: DocNode) -> NodeView
    decreases n,
{
    match n {
        DocNode::Null => NodeView::Null,
        DocNode::Bool(b) => NodeView::Bool(b),
        DocNode::Text(s) => NodeView::Text(s@),
        DocNode::Sequence(es) => NodeView::Sequence(node_views(es@)),
        DocNode::Mapping(ms) => NodeView::Mapping(entry_views(ms@)),
    }
}

pub open spec fn node_views(s: Seq<DocNode>) -> Seq<NodeView>
    decreases s,
{
    if s.len() == 0 {
        Seq::empty()
    } else {
        seq![node_view(s[0])] + node_views(s.drop_first())
    }
}

pub open spec fn entry_views(s: Seq<(String, DocNode)>) -> Seq<(Seq<char>, NodeView)>
    decreases s,
{
    if s.len() == 0 {
        Seq::empty()
    } else {
        seq![(s[0].0@, node_view(s[0].1))] + entry_views(s.drop_first())
    }
}

impl View for DocNode {
    type V = NodeView;

    open spec fn view(&self) -> NodeView {
        node_view(*self)
    }
}

pub proof fn lemma_node_views_len(s: Seq<DocNode>)
    ensures
        node_views(s).len() == s.len(),
    decreases s,
{
    if s.len() > 0 {
        lemma_node_views_len(s.drop_first());
    }
}

pub proof fn lemma_node_views_index(s: Seq<DocNode>, i: int)
    requires
        0 <= i < s.len(),
    ensures
        node_views(s).len() == s.len(),
        node_views(s)[i] == node_view(s[i]),
    decreases s,
{
    lemma_node_views_len(s);
    if i > 0 {
        lemma_node_views_index(s.drop_first(), i - 1);
    }
}

pub proof fn lemma_entry_views_len(s: Seq<(String, DocNode)>)
    ensures
        entry_views(s).len() == s.len(),
    decreases s,
{
    if s.len() > 0 {
        lemma_entry_views_len(s.drop_first());
    }
}

pub proof fn lemma_entry_views_index(s: Seq<(String, DocNode)>, i: int)
    requires
        0 <= i < s.len(),
    ensures
        entry_views(s).len() == s.len(),
        entry_views(s)[i] == (s[i].0@, node_view(s[i].1)),
    decreases s,
{
    lemma_entry_views_len(s);
    if i > 0 {
        lemma_entry_views_index(s.drop_first(), i - 1);
    }
}

} // verus!
