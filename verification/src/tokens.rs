use vstd::prelude::*;
use crate::record::Record;

verus! {

/// A matched piece of text with the kind its rule assigned and the
/// (row, column) at which the match began.
#[derive(Clone)]
pub struct Token<K> {
    pub value: String,
    pub kind: K,
    pub record: Record,
}

/// A node of the token tree produced by a delimiter pair: the start
/// and end text, the nested nodes between them, and whether a matching
/// end delimiter was actually found.
pub struct Branch<K> {
    pub value: (String, String),
    pub kind: K,
    pub stream: Vec<TreeNode<K>>,
    pub record: Record,
    pub has_end: bool,
}

/// A node of the token tree: either a single token or a nested branch.
pub enum TreeNode<K> {
    Branch(Branch<K>),
    Leaf(Token<K>),
}

/// The mathematical shadow of a `Token`.
pub ghost struct SpecToken<K> {
    pub value: Seq<char>,
    pub kind: K,
    pub record: (int, int),
}

/// The mathematical shadow of a `Branch`.
pub ghost struct SpecBranch<K> {
    pub value: (Seq<char>, Seq<char>),
    pub kind: K,
    pub stream: Seq<SpecNode<K>>,
    pub record: (int, int),
    pub has_end: bool,
}

/// The mathematical shadow of a `TreeNode`.
pub ghost enum SpecNode<K> {
    Branch(SpecBranch<K>),
    Leaf(SpecToken<K>),
}

impl<K> View for Token<K> {
    type V = SpecToken<K>;

    open spec fn view(&self) -> SpecToken<K> {
        SpecToken { value: self.value@, kind: self.kind, record: self.record@ }
    }
}

/// The shadow of one tree node.
pub open spec fn node_view<K>(n: TreeNode<K>) -> SpecNode<K>
    decreases n,
{
    match n {
        TreeNode::Leaf(t) => SpecNode::Leaf(t@),
        TreeNode::Branch(b) => SpecNode::Branch(
            SpecBranch {
                value: (b.value.0@, b.value.1@),
                kind: b.kind,
                stream: nodes_view(b.stream@),
                record: b.record@,
                has_end: b.has_end,
            },
        ),
    }
}

/// The shadow of a sequence of tokens.
pub open spec fn tokens_view<K>(tokens: Seq<Token<K>>) -> Seq<SpecToken<K>> {
    Seq::new(tokens.len(), |i: int| tokens[i]@)
}

/// The shadow of a sequence of tree nodes.
pub open spec fn nodes_view<K>(nodes: Seq<TreeNode<K>>) -> Seq<SpecNode<K>>
    decreases nodes,
{
    if nodes.len() == 0 {
        Seq::empty()
    } else {
        nodes_view(nodes.drop_last()).push(node_view(nodes.last()))
    }
}

/// Appending a node to a sequence appends its shadow.
pub proof fn lemma_nodes_view_push<K>(nodes: Seq<TreeNode<K>>, n: TreeNode<K>)
    ensures
        nodes_view(nodes.push(n)) == nodes_view(nodes).push(node_view(n)),
{
    assert(nodes.push(n).drop_last() =~= nodes);
    assert(nodes.push(n).last() == n);
}

} // verus!
