//! The documents that are published, as trees of plain values. Fractional numbers
//! are of a type of the caller's.

use vstd::prelude::*;

verus! {

/// A published document.
pub enum Node<R> {
    Null,
    Bool(bool),
    Int(i128),
    /// A fractional number that is whole, and still written as a fractional one.
    Whole(i64),
    Real(R),
    Text(String),
    List(Vec<Node<R>>),
    Record(Vec<(String, Node<R>)>),
}

/// What a published document says.
#[verifier::ext_equal]
pub enum NodeView<R> {
    Null,
    Bool(bool),
    Int(int),
    Whole(int),
    Real(R),
    Text(Seq<char>),
    List(Seq<NodeView<R>>),
    Record(Seq<(Seq<char>, NodeView<R>)>),
}

impl<R> View for Node<R> {
    type V = NodeView<R>;

    open spec fn view(&self) -> NodeView<R> {
        node_view(*self)
    }
}

pub open spec fn node_view<R>(n: Node<R>) -> NodeView<R>
    decreases n,
{
    match n {
        Node::Null => NodeView::Null,
        Node::Bool(b) => NodeView::Bool(b),
        Node::Int(i) => NodeView::Int(i as int),
        Node::Whole(i) => NodeView::Whole(i as int),
        Node::Real(x) => NodeView::Real(x),
        Node::Text(t) => NodeView::Text(t@),
        Node::List(list) => NodeView::List(
            Seq::new(
                list@.len(),
                |i: int|
                    if 0 <= i < list@.len() {
                        node_view(list@[i])
                    } else {
                        NodeView::Null
                    },
            ),
        ),
        Node::Record(entries) => NodeView::Record(
            Seq::new(
                entries@.len(),
                |i: int|
                    if 0 <= i < entries@.len() {
                        (entries@[i].0@, node_view(entries@[i].1))
                    } else {
                        (Seq::empty(), NodeView::Null)
                    },
            ),
        ),
    }
}

pub open spec fn node_views<R>(list: Seq<Node<R>>) -> Seq<NodeView<R>> {
    Seq::new(list.len(), |i: int| list[i]@)
}

pub open spec fn entry_views<R>(entries: Seq<(String, Node<R>)>) -> Seq<(Seq<char>, NodeView<R>)> {
    Seq::new(entries.len(), |i: int| (entries[i].0@, entries[i].1@))
}

impl<R> NodeView<R> {
    /// The value under a key of a record, where it has the key.
    pub open spec fn get(self, key: Seq<char>) -> Option<NodeView<R>> {
        match self {
            NodeView::Record(entries) => value_under(entries, key),
            _ => None,
        }
    }
}

/// The value of the first entry with a key.
pub open spec fn value_under<R>(
    entries: Seq<(Seq<char>, NodeView<R>)>,
    key: Seq<char>,
) -> Option<NodeView<R>>
    decreases entries.len(),
{
    if entries.len() == 0 {
        None
    } else if entries[0].0 == key {
        Some(entries[0].1)
    } else {
        value_under(entries.drop_first(), key)
    }
}

/// A list.
pub fn list<R>(nodes: Vec<Node<R>>) -> (n: Node<R>)
    ensures
        n@ == NodeView::List(node_views(nodes@)),
{
    let n = Node::List(nodes);
    assert(n@->List_0 =~= node_views(nodes@));
    n
}

/// A record.
pub fn record<R>(entries: Vec<(String, Node<R>)>) -> (n: Node<R>)
    ensures
        n@ == NodeView::Record(entry_views(entries@)),
{
    let n = Node::Record(entries);
    assert(n@->Record_0 =~= entry_views(entries@));
    n
}

/// An entry of a record.
pub fn entry<R>(key: &str, value: Node<R>) -> (e: (String, Node<R>))
    ensures
        e.0@ == key@,
        e.1@ == value@,
{
    (key.to_owned(), value)
}

/// A text.
pub fn text<R>(t: &str) -> (n: Node<R>)
    ensures
        n@ == NodeView::<R>::Text(t@),
{
    Node::Text(t.to_owned())
}

/// A count.
pub fn count<R>(n: usize) -> (r: Node<R>)
    ensures
        r@ == NodeView::<R>::Int(n as int),
{
    Node::Int(n as i128)
}

/// An integer.
pub fn int_node<R>(i: i64) -> (r: Node<R>)
    ensures
        r@ == NodeView::<R>::Int(i as int),
{
    Node::Int(i as i128)
}

} // verus!
