//! The document tree: text leaves and elements with attributes and
//! ordered children, all borrowing from the source text.
use vstd::prelude::*;
use crate::chars::str_eq;

verus! {

broadcast use vstd::std_specs::vec::group_vec_axioms;

/// An attribute map: attribute names to attribute values, names unique,
/// last write wins. Viewed as a `Map<Seq<char>, Seq<char>>`.
#[derive(Debug, PartialEq, Eq)]
pub struct AttrMap<'a> {
    pairs: Vec<(&'a str, &'a str)>,
}

/// The mathematical value of an attribute map.
pub open spec fn pairs_to_map<'a>(s: Seq<(&'a str, &'a str)>) -> Map<Seq<char>, Seq<char>>
    decreases s.len(),
{
    if s.len() == 0 {
        Map::empty()
    } else {
        pairs_to_map(s.drop_last()).insert(s.last().0@, s.last().1@)
    }
}

impl<'a> View for AttrMap<'a> {
    type V = Map<Seq<char>, Seq<char>>;

    closed spec fn view(&self) -> Map<Seq<char>, Seq<char>> {
        pairs_to_map(self.pairs@)
    }
}

impl<'a> AttrMap<'a> {
    /// The names stored are pairwise distinct.
    pub closed spec fn wf(self) -> bool {
        forall|i: int, j: int|
            0 <= i < j < self.pairs@.len() ==> self.pairs@[i].0@ != self.pairs@[j].0@
    }

    /// An empty attribute map.
    pub fn new() -> (r: Self)
        ensures
            r@ == Map::<Seq<char>, Seq<char>>::empty(),
            r.wf(),
    {
        AttrMap { pairs: Vec::new() }
    }

    /// Bind `name` to `value`; an earlier binding of the same name is
    /// overwritten.
    pub fn insert(&mut self, name: &'a str, value: &'a str)
        requires
            old(self).wf(),
        ensures
            final(self).wf(),
            final(self)@ == old(self)@.insert(name@, value@),
    {
        let n = self.pairs.len();
        for i in 0..n
            invariant
                old(self).wf(),
                n == self.pairs@.len(),
                forall|j: int| 0 <= j < i ==> self.pairs@[j].0@ != name@,
                self == old(self),
        {
            let ghost pre = self.pairs@;
            if str_eq(self.pairs[i].0, name) {
                self.pairs.set(i, (name, value));
                proof {
                    lemma_pairs_update(pre, i as int, name, value);
                }
                return;
            }
        }
        let ghost pre = self.pairs@;
        self.pairs.push((name, value));
        proof {
            assert(pre.push((name, value)).drop_last() =~= pre);
            assert(pre.push((name, value)).last() == (name, value));
        }
    }

    /// The value bound to `name`, if any.
    pub fn get(&self, name: &str) -> (r: Option<&'a str>)
        requires
            self.wf(),
        ensures
            match r {
                Some(v) => self@.contains_key(name@) && self@[name@] == v@,
                None => !self@.contains_key(name@),
            },
    {
        let n = self.pairs.len();
        for i in 0..n
            invariant
                self.wf(),
                n == self.pairs@.len(),
                forall|j: int| 0 <= j < i ==> self.pairs@[j].0@ != name@,
        {
            if str_eq(self.pairs[i].0, name) {
                proof {
                    lemma_pairs_lookup(self.pairs@, i as int);
                }
                return Some(self.pairs[i].1);
            }
        }
        proof {
            lemma_pairs_absent(self.pairs@, name@);
        }
        None
    }

    /// How many attributes are bound.
    pub fn len(&self) -> (r: usize)
        requires
            self.wf(),
        ensures
            r == self@.dom().len(),
    {
        proof {
            lemma_pairs_dom_len(self.pairs@);
        }
        self.pairs.len()
    }
}

/// Replacing the pair at a position whose name is `name` yields the same
/// map as inserting over the old map, provided names are distinct.
proof fn lemma_pairs_update<'a>(
    s: Seq<(&'a str, &'a str)>,
    i: int,
    name: &'a str,
    value: &'a str,
)
    requires
        0 <= i < s.len(),
        s[i].0@ == name@,
        forall|p: int, q: int| 0 <= p < q < s.len() ==> s[p].0@ != s[q].0@,
    ensures
        pairs_to_map(s.update(i, (name, value))) == pairs_to_map(s).insert(name@, value@),
        forall|p: int, q: int|
            0 <= p < q < s.len() ==> s.update(i, (name, value))[p].0@ != s.update(
                i,
                (name, value),
            )[q].0@,
    decreases s.len(),
{
    let t = s.update(i, (name, value));
    if i == s.len() - 1 {
        assert(t.drop_last() =~= s.drop_last());
        assert(pairs_to_map(t) == pairs_to_map(s.drop_last()).insert(name@, value@));
        assert(pairs_to_map(s).insert(name@, value@) =~= pairs_to_map(s.drop_last()).insert(
            name@,
            value@,
        ));
    } else {
        assert(t.drop_last() =~= s.drop_last().update(i, (name, value)));
        lemma_pairs_update(s.drop_last(), i, name, value);
        assert(s.last().0@ != name@);
        assert(pairs_to_map(t) == pairs_to_map(s.drop_last()).insert(name@, value@).insert(
            s.last().0@,
            s.last().1@,
        ));
        assert(pairs_to_map(s.drop_last()).insert(name@, value@).insert(s.last().0@, s.last().1@)
            =~= pairs_to_map(s.drop_last()).insert(s.last().0@, s.last().1@).insert(
            name@,
            value@,
        ));
    }
}

/// A stored pair whose name is not repeated later is what the map returns.
proof fn lemma_pairs_lookup<'a>(s: Seq<(&'a str, &'a str)>, i: int)
    requires
        0 <= i < s.len(),
        forall|p: int, q: int| 0 <= p < q < s.len() ==> s[p].0@ != s[q].0@,
    ensures
        pairs_to_map(s).contains_key(s[i].0@),
        pairs_to_map(s)[s[i].0@] == s[i].1@,
    decreases s.len(),
{
    if i < s.len() - 1 {
        lemma_pairs_lookup(s.drop_last(), i);
        assert(s.last().0@ != s[i].0@);
    }
}

/// A name that no stored pair carries is not in the map.
proof fn lemma_pairs_absent<'a>(s: Seq<(&'a str, &'a str)>, name: Seq<char>)
    requires
        forall|j: int| 0 <= j < s.len() ==> s[j].0@ != name,
    ensures
        !pairs_to_map(s).contains_key(name),
    decreases s.len(),
{
    if s.len() > 0 {
        lemma_pairs_absent(s.drop_last(), name);
    }
}

/// With distinct names, the map's domain has one key per stored pair.
proof fn lemma_pairs_dom_len<'a>(s: Seq<(&'a str, &'a str)>)
    requires
        forall|p: int, q: int| 0 <= p < q < s.len() ==> s[p].0@ != s[q].0@,
    ensures
        pairs_to_map(s).dom().finite(),
        pairs_to_map(s).dom().len() == s.len(),
    decreases s.len(),
{
    if s.len() > 0 {
        lemma_pairs_dom_len(s.drop_last());
        lemma_pairs_absent(s.drop_last(), s.last().0@);
    }
}

/// A tree node: a text leaf or an element, plus its ordered children.
#[derive(Debug, PartialEq, Eq)]
pub struct Node<'a> {
    pub node_type: NodeType<'a>,
    pub children: Vec<Node<'a>>,
}

/// What a node is: a run of text, or an element with a tag name and
/// attributes.
#[derive(Debug, PartialEq, Eq)]
pub enum NodeType<'a> {
    Text(&'a str),
    Element(ElementData<'a>),
}

/// The data of an element: its tag name and its attributes.
#[derive(Debug, PartialEq, Eq)]
pub struct ElementData<'a> {
    pub tag_name: &'a str,
    pub attributes: AttrMap<'a>,
}

/// The mathematical value of a node.
pub struct NodeV {
    pub node_type: NodeTypeV,
    pub children: Seq<NodeV>,
}

/// The mathematical value of a node's type.
pub enum NodeTypeV {
    Text(Seq<char>),
    Element(ElementDataV),
}

/// The mathematical value of an element's data.
pub struct ElementDataV {
    pub tag_name: Seq<char>,
    pub attributes: Map<Seq<char>, Seq<char>>,
}

/// The value of a node type.
pub open spec fn node_type_view<'a>(nt: NodeType<'a>) -> NodeTypeV {
    match nt {
        NodeType::Text(s) => NodeTypeV::Text(s@),
        NodeType::Element(e) => NodeTypeV::Element(
            ElementDataV { tag_name: e.tag_name@, attributes: e.attributes@ },
        ),
    }
}

/// The values of the first `i` nodes of a sequence.
pub open spec fn children_view<'a>(s: Seq<Node<'a>>, i: int) -> Seq<NodeV>
    decreases s, i,
{
    if 0 < i <= s.len() {
        children_view(s, i - 1).push(node_view(s[i - 1]))
    } else {
        Seq::empty()
    }
}

/// The value of a node.
pub open spec fn node_view<'a>(n: Node<'a>) -> NodeV
    decreases n, 0int,
{
    NodeV {
        node_type: node_type_view(n.node_type),
        children: children_view(n.children@, n.children@.len() as int),
    }
}

/// The values of a sequence of nodes.
pub open spec fn nodes_view<'a>(s: Seq<Node<'a>>) -> Seq<NodeV> {
    children_view(s, s.len() as int)
}

impl<'a> View for Node<'a> {
    type V = NodeV;

    open spec fn view(&self) -> NodeV {
        node_view(*self)
    }
}

/// Appending a node appends its value.
pub proof fn lemma_nodes_view_push<'a>(s: Seq<Node<'a>>, n: Node<'a>)
    ensures
        nodes_view(s.push(n)) == nodes_view(s).push(n@),
{
    lemma_children_view_prefix(s.push(n), s, s.len() as int);
    assert(s.push(n)[s.len() as int] == n);
}

proof fn lemma_children_view_prefix<'a>(s1: Seq<Node<'a>>, s2: Seq<Node<'a>>, i: int)
    requires
        i <= s1.len(),
        i <= s2.len(),
        forall|j: int| 0 <= j < i ==> s1[j] == s2[j],
    ensures
        children_view(s1, i) == children_view(s2, i),
    decreases i,
{
    if i > 0 {
        lemma_children_view_prefix(s1, s2, i - 1);
    }
}

/// Wrap a string into a text node with no children.
pub fn text<'a>(data: &'a str) -> (r: Node<'a>)
    ensures
        r@ == (NodeV { node_type: NodeTypeV::Text(data@), children: Seq::<NodeV>::empty() }),
{
    Node { children: Vec::new(), node_type: NodeType::Text(data) }
}

/// Wrap a tag name, attributes and children into an element node.
pub fn elem<'a>(name: &'a str, attrs: AttrMap<'a>, children: Vec<Node<'a>>) -> (r: Node<'a>)
    ensures
        r@ == (NodeV {
            node_type: NodeTypeV::Element(
                ElementDataV { tag_name: name@, attributes: attrs@ },
            ),
            children: nodes_view(children@),
        }),
{
    Node {
        children,
        node_type: NodeType::Element(ElementData { tag_name: name, attributes: attrs }),
    }
}

} // verus!
