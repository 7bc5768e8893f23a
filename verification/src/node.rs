use vstd::prelude::*;

verus! {

/// A document tree node as produced by the grammar engine.
///
/// A `Mapping` is an ordered list of key/value pairs; duplicate keys are
/// permitted and insertion order is significant. An `Alias(i)` is a
/// reference to the node at index `i` of the document list. `Float`
/// carries the scalar's original text form. `BadValue` is the grammar
/// engine's non-fatal parse-anomaly sentinel.
#[derive(Debug, PartialEq, Eq)]
pub enum Node {
    Null,
    Bool(bool),
    Int(i64),
    Float(String),
    Str(String),
    Sequence(Vec<Node>),
    Mapping(Vec<(Node, Node)>),
    Alias(usize),
    BadValue,
}

/// The mathematical model of a `Node`: the same tree with text as
/// character sequences and collections as mathematical sequences.
#[verifier::ext_equal]
pub enum NodeV {
    Null,
    Bool(bool),
    Int(i64),
    Float(Seq<char>),
    Str(Seq<char>),
    Sequence(Seq<NodeV>),
    Mapping(Seq<(NodeV, NodeV)>),
    Alias(usize),
    BadValue,
}

impl View for Node {
    type V = NodeV;

    open spec fn view(&self) -> NodeV
        decreases self,
    {
        match self {
            Node::Null => NodeV::Null,
            Node::Bool(b) => NodeV::Bool(*b),
            Node::Int(i) => NodeV::Int(*i),
            Node::Float(s) => NodeV::Float(s@),
            Node::Str(s) => NodeV::Str(s@),
            Node::Sequence(v) => NodeV::Sequence(
                Seq::new(
                    v@.len(),
                    |i: int|
                        if 0 <= i < v@.len() {
                            v@[i]@
                        } else {
                            NodeV::Null
                        },
                ),
            ),
            Node::Mapping(v) => NodeV::Mapping(
                Seq::new(
                    v@.len(),
                    |i: int|
                        if 0 <= i < v@.len() {
                            (v@[i].0@, v@[i].1@)
                        } else {
                            (NodeV::Null, NodeV::Null)
                        },
                ),
            ),
            Node::Alias(i) => NodeV::Alias(*i),
            Node::BadValue => NodeV::BadValue,
        }
    }
}

/// The views of a sequence of nodes, element by element.
pub open spec fn nodes_view(s: Seq<Node>) -> Seq<NodeV> {
    Seq::new(s.len(), |i: int| s[i]@)
}

/// The views of a sequence of key/value pairs, pair by pair.
pub open spec fn pairs_view(s: Seq<(Node, Node)>) -> Seq<(NodeV, NodeV)> {
    Seq::new(s.len(), |i: int| (s[i].0@, s[i].1@))
}

/// The view of a sequence node is the sequence of its elements' views.
pub proof fn lemma_view_sequence(v: Vec<Node>)
    ensures
        Node::Sequence(v)@ == NodeV::Sequence(nodes_view(v@)),
{
    reveal_with_fuel(<Node as View>::view, 2);
    assert(Node::Sequence(v)@->Sequence_0 =~= nodes_view(v@));
    assert(Node::Sequence(v)@ =~= NodeV::Sequence(nodes_view(v@)));
}

/// The view of a mapping node is the sequence of its pairs' views.
pub proof fn lemma_view_mapping(v: Vec<(Node, Node)>)
    ensures
        Node::Mapping(v)@ == NodeV::Mapping(pairs_view(v@)),
{
    reveal_with_fuel(<Node as View>::view, 2);
    assert(Node::Mapping(v)@->Mapping_0 =~= pairs_view(v@));
    assert(Node::Mapping(v)@ =~= NodeV::Mapping(pairs_view(v@)));
}

/// Holds when no `Alias` node is reachable anywhere in the tree.
pub open spec fn alias_free(n: NodeV) -> bool
    decreases n,
{
    match n {
        NodeV::Alias(_) => false,
        NodeV::Sequence(s) => forall|i: int| 0 <= i < s.len() ==> alias_free(#[trigger] s[i]),
        NodeV::Mapping(m) => forall|i: int|
            0 <= i < m.len() ==> alias_free(#[trigger] m[i].0) && alias_free(m[i].1),
        _ => true,
    }
}

impl Node {
    /// Structural equality of two trees, decided against their models.
    pub fn deep_eq(&self, other: &Node) -> (r: bool)
        ensures
            r == (self@ == other@),
        decreases self,
    {
        proof {
            reveal_with_fuel(<Node as View>::view, 2);
        }
        match (self, other) {
            (Node::Null, Node::Null) => true,
            (Node::Bool(x), Node::Bool(y)) => *x == *y,
            (Node::Int(x), Node::Int(y)) => *x == *y,
            (Node::Float(x), Node::Float(y)) => *x == *y,
            (Node::Str(x), Node::Str(y)) => *x == *y,
            (Node::Sequence(x), Node::Sequence(y)) => {
                proof {
                    assert(*self == Node::Sequence(*x));
                    assert(*other == Node::Sequence(*y));
                    lemma_view_sequence(*x);
                    lemma_view_sequence(*y);
                }
                if x.len() != y.len() {
                    proof {
                        assert(nodes_view(x@).len() != nodes_view(y@).len());
                    }
                    return false;
                }
                let mut i: usize = 0;
                while i < x.len()
                    invariant
                        i <= x@.len(),
                        x@.len() == y@.len(),
                        *self == Node::Sequence(*x) && *other == Node::Sequence(*y),
                        self@ == NodeV::Sequence(nodes_view(x@)),
                        other@ == NodeV::Sequence(nodes_view(y@)),
                        forall|j: int| 0 <= j < i ==> nodes_view(x@)[j] == nodes_view(y@)[j],
                    decreases x@.len() - i,
                {
                    proof {
                        assert(decreases_to!(*self => x@[i as int]));
                    }
                    if !x[i].deep_eq(&y[i]) {
                        proof {
                            assert(nodes_view(x@)[i as int] != nodes_view(y@)[i as int]);
                        }
                        return false;
                    }
                    i += 1;
                }
                proof {
                    assert(nodes_view(x@) =~= nodes_view(y@));
                }
                true
            },
            (Node::Mapping(x), Node::Mapping(y)) => {
                proof {
                    assert(*self == Node::Mapping(*x));
                    assert(*other == Node::Mapping(*y));
                    lemma_view_mapping(*x);
                    lemma_view_mapping(*y);
                }
                if x.len() != y.len() {
                    proof {
                        assert(pairs_view(x@).len() != pairs_view(y@).len());
                    }
                    return false;
                }
                let mut i: usize = 0;
                while i < x.len()
                    invariant
                        i <= x@.len(),
                        x@.len() == y@.len(),
                        *self == Node::Mapping(*x) && *other == Node::Mapping(*y),
                        self@ == NodeV::Mapping(pairs_view(x@)),
                        other@ == NodeV::Mapping(pairs_view(y@)),
                        forall|j: int| 0 <= j < i ==> pairs_view(x@)[j] == pairs_view(y@)[j],
                    decreases x@.len() - i,
                {
                    proof {
                        assert(decreases_to!(*self => x@[i as int].0));
                        assert(decreases_to!(*self => x@[i as int].1));
                    }
                    if !x[i].0.deep_eq(&y[i].0) {
                        proof {
                            assert(pairs_view(x@)[i as int] != pairs_view(y@)[i as int]);
                        }
                        return false;
                    }
                    if !x[i].1.deep_eq(&y[i].1) {
                        proof {
                            assert(pairs_view(x@)[i as int] != pairs_view(y@)[i as int]);
                        }
                        return false;
                    }
                    i += 1;
                }
                proof {
                    assert(pairs_view(x@) =~= pairs_view(y@));
                }
                true
            },
            (Node::Alias(x), Node::Alias(y)) => *x == *y,
            (Node::BadValue, Node::BadValue) => true,
            _ => false,
        }
    }
}

} // verus!
