//! The document tree: one node per value of the wire format.

use vstd::prelude::*;

verus! {

broadcast use vstd::std_specs::vec::group_vec_axioms, vstd::seq::group_seq_axioms;

/// One value of the parsed document: an integer, a byte string, a list,
/// or a map given as key-value pairs in their order of appearance.
#[derive(Debug, PartialEq)]
pub enum Node {
    Int(i64),
    Bytes(Vec<u8>),
    List(Vec<Node>),
    Dict(Vec<(Vec<u8>, Node)>),
}

/// The mathematical model of a document node.
pub ghost enum NodeV {
    Int(int),
    Bytes(Seq<u8>),
    List(Seq<NodeV>),
    Dict(Seq<(Seq<u8>, NodeV)>),
}

/// The model of an executable node.
pub open spec fn node_view(n: Node) -> NodeV
    decreases n,
{
    match n {
        Node::Int(i) => NodeV::Int(i as int),
        Node::Bytes(b) => NodeV::Bytes(b@),
        Node::List(items) => NodeV::List(views_of(items@)),
        Node::Dict(pairs) => NodeV::Dict(pair_views_of(pairs@)),
    }
}

/// The models of a sequence of nodes, in order.
pub open spec fn views_of(s: Seq<Node>) -> Seq<NodeV>
    decreases s,
{
    if s.len() == 0 {
        Seq::empty()
    } else {
        views_of(s.subrange(0, s.len() - 1)) + seq![node_view(s[s.len() - 1])]
    }
}

/// The models of a sequence of key-value pairs, in order.
pub open spec fn pair_views_of(s: Seq<(Vec<u8>, Node)>) -> Seq<(Seq<u8>, NodeV)>
    decreases s,
{
    if s.len() == 0 {
        Seq::empty()
    } else {
        pair_views_of(s.subrange(0, s.len() - 1))
            + seq![(s[s.len() - 1].0@, node_view(s[s.len() - 1].1))]
    }
}

impl View for Node {
    type V = NodeV;

    open spec fn view(&self) -> NodeV {
        node_view(*self)
    }
}

/// `views_of` maps each element of the sequence to its model.
pub proof fn lemma_views_of(s: Seq<Node>)
    ensures
        views_of(s).len() == s.len(),
        forall|j: int| 0 <= j < s.len() ==> views_of(s)[j] == node_view(s[j]),
    decreases s.len(),
{
    if s.len() > 0 {
        lemma_views_of(s.subrange(0, s.len() - 1));
    }
}

/// `pair_views_of` maps each pair of the sequence to its model.
pub proof fn lemma_pair_views_of(s: Seq<(Vec<u8>, Node)>)
    ensures
        pair_views_of(s).len() == s.len(),
        forall|j: int|
            0 <= j < s.len() ==> pair_views_of(s)[j] == (s[j].0@, node_view(s[j].1)),
    decreases s.len(),
{
    if s.len() > 0 {
        lemma_pair_views_of(s.subrange(0, s.len() - 1));
    }
}

impl NodeV {
    /// Every integer in the tree fits the signed 64-bit range carried
    /// by the executable representation.
    pub open spec fn wf(self) -> bool
        decreases self,
    {
        match self {
            NodeV::Int(i) => i64::MIN <= i <= i64::MAX,
            NodeV::Bytes(b) => true,
            NodeV::List(l) => forall|j: int| 0 <= j < l.len() ==> (#[trigger] l[j]).wf(),
            NodeV::Dict(d) => forall|j: int| 0 <= j < d.len() ==> (#[trigger] d[j]).1.wf(),
        }
    }
}

/// The model of every executable node is well formed.
pub proof fn lemma_node_view_wf(n: Node)
    ensures
        node_view(n).wf(),
    decreases n,
{
    match n {
        Node::Int(i) => {},
        Node::Bytes(b) => {},
        Node::List(items) => {
            lemma_views_of(items@);
            let l = views_of(items@);
            assert forall|j: int| 0 <= j < l.len() implies (#[trigger] l[j]).wf() by {
                lemma_node_view_wf(items@[j]);
            }
        },
        Node::Dict(pairs) => {
            lemma_pair_views_of(pairs@);
            let d = pair_views_of(pairs@);
            assert forall|j: int| 0 <= j < d.len() implies (#[trigger] d[j]).1.wf() by {
                lemma_node_view_wf(pairs@[j].1);
            }
        },
    }
}

} // verus!
