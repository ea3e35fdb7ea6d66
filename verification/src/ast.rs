use vstd::prelude::*;

verus! {

/// A range of byte offsets into the text being parsed.
#[derive(Debug, Clone, Copy, PartialEq, Eq)]
pub struct Span {
    pub start: usize,
    pub end: usize,
}

/// The kind of a parse node
#[derive(Debug, PartialEq, Eq)]
pub enum NodeKind {
    /// A named non-terminal rule.
    NonTerminal(String),
    /// A terminal token
    /// either a literal string or a single character.
    Terminal(String),
    /// A sequence of nodes
    Sequence(Vec<Node>),
    /// An alternative node (one of many)
    Alternative(Vec<Node>),
    /// Zero or more repetitions
    Many(Vec<Node>),
    /// Optional node
    Optional(Box<Node>),
    /// A character that satisfies a predicate
    Satisfy(String),
}

/// A node in the abstract syntax tree
#[derive(Debug, PartialEq, Eq)]
pub struct Node {
    pub kind: NodeKind,
    pub span: Span,
    pub value: String,
    pub children: Vec<Node>,
}

/// The mathematical model of a `NodeKind`.
pub enum SpecKind {
    NonTerminal(Seq<char>),
    Terminal(Seq<char>),
    Sequence(Seq<SpecNode>),
    Alternative(Seq<SpecNode>),
    Many(Seq<SpecNode>),
    Optional(Box<SpecNode>),
    Satisfy(Seq<char>),
}

/// The mathematical model of a `Node`: strings become character sequences,
/// offsets become natural numbers.
pub struct SpecNode {
    pub kind: SpecKind,
    pub start: nat,
    pub end: nat,
    pub value: Seq<char>,
    pub children: Seq<SpecNode>,
}

impl NodeKind {
    pub open spec fn view(&self) -> SpecKind
        decreases self,
    {
        match self {
            NodeKind::NonTerminal(s) => SpecKind::NonTerminal(s@),
            NodeKind::Terminal(s) => SpecKind::Terminal(s@),
            NodeKind::Sequence(v) => SpecKind::Sequence(node_views(v@)),
            NodeKind::Alternative(v) => SpecKind::Alternative(node_views(v@)),
            NodeKind::Many(v) => SpecKind::Many(node_views(v@)),
            NodeKind::Optional(b) => SpecKind::Optional(Box::new(b.view())),
            NodeKind::Satisfy(s) => SpecKind::Satisfy(s@),
        }
    }
}

impl Node {
    pub open spec fn view(&self) -> SpecNode
        decreases self,
    {
        SpecNode {
            kind: self.kind.view(),
            start: self.span.start as nat,
            end: self.span.end as nat,
            value: self.value@,
            children: node_views(self.children@),
        }
    }
}

/// The models of a sequence of nodes, element by element.
pub open spec fn node_views(s: Seq<Node>) -> Seq<SpecNode>
    decreases s,
{
    if s.len() == 0 {
        Seq::empty()
    } else {
        node_views(s.drop_last()).push(s.last().view())
    }
}

pub broadcast proof fn lemma_node_views(s: Seq<Node>)
    ensures
        #[trigger] node_views(s).len() == s.len(),
        forall|i: int| 0 <= i < s.len() ==> #[trigger] node_views(s)[i] == s[i].view(),
    decreases s.len(),
{
    if s.len() > 0 {
        lemma_node_views(s.drop_last());
    }
}

pub proof fn lemma_node_views_ext(a: Seq<Node>, b: Seq<Node>)
    requires
        a.len() == b.len(),
        forall|i: int| 0 <= i < a.len() ==> a[i].view() == b[i].view(),
    ensures
        node_views(a) == node_views(b),
{
    lemma_node_views(a);
    lemma_node_views(b);
    assert(node_views(a) =~= node_views(b));
}

pub proof fn lemma_node_views_push(s: Seq<Node>, n: Node)
    ensures
        node_views(s.push(n)) == node_views(s).push(n.view()),
{
    assert(s.push(n).drop_last() =~= s);
}

impl Node {
    /// A node without children.
    pub fn new(kind: NodeKind, span: Span, value: String) -> (r: Self)
        ensures
            r.kind == kind,
            r.span == span,
            r.value == value,
            r.children@.len() == 0,
            r.view() == (SpecNode {
                kind: kind.view(),
                start: span.start as nat,
                end: span.end as nat,
                value: value@,
                children: Seq::empty(),
            }),
    {
        Self { kind, span, value, children: Vec::new() }
    }

    /// The same node with the given children.
    pub fn with_children(self, children: Vec<Node>) -> (r: Self)
        ensures
            r.kind == self.kind,
            r.span == self.span,
            r.value == self.value,
            r.children == children,
            r.view() == (SpecNode { children: node_views(children@), ..self.view() }),
    {
        let mut n = self;
        n.children = children;
        n
    }

    /// Whether the node is a terminal.
    pub fn is_terminal(&self) -> (r: bool)
        ensures
            r == (self.kind is Terminal),
    {
        matches!(self.kind, NodeKind::Terminal(_))
    }

    /// Whether the node is a non-terminal.
    pub fn is_non_terminal(&self) -> (r: bool)
        ensures
            r == (self.kind is NonTerminal),
    {
        matches!(self.kind, NodeKind::NonTerminal(_))
    }
}

impl Clone for Node {
    fn clone(&self) -> (r: Self)
        ensures
            r.view() == self.view(),
    {
        copy_node(self)
    }
}

impl Clone for NodeKind {
    fn clone(&self) -> (r: Self)
        ensures
            r.view() == self.view(),
    {
        copy_kind(self)
    }
}

/// A deep copy of a node.
pub fn copy_node(n: &Node) -> (r: Node)
    ensures
        r.view() == n.view(),
    decreases n,
{
    Node {
        kind: copy_kind(&n.kind),
        span: n.span,
        value: n.value.clone(),
        children: copy_nodes(&n.children),
    }
}

/// A deep copy of a node kind.
pub fn copy_kind(k: &NodeKind) -> (r: NodeKind)
    ensures
        r.view() == k.view(),
    decreases k,
{
    match k {
        NodeKind::NonTerminal(s) => NodeKind::NonTerminal(s.clone()),
        NodeKind::Terminal(s) => NodeKind::Terminal(s.clone()),
        NodeKind::Sequence(v) => NodeKind::Sequence(copy_nodes(v)),
        NodeKind::Alternative(v) => NodeKind::Alternative(copy_nodes(v)),
        NodeKind::Many(v) => NodeKind::Many(copy_nodes(v)),
        NodeKind::Optional(b) => NodeKind::Optional(Box::new(copy_node(b))),
        NodeKind::Satisfy(s) => NodeKind::Satisfy(s.clone()),
    }
}

/// A deep copy of a vector of nodes.
pub fn copy_nodes(v: &Vec<Node>) -> (r: Vec<Node>)
    ensures
        node_views(r@) == node_views(v@),
        r@.len() == v@.len(),
    decreases v,
{
    let mut r: Vec<Node> = Vec::new();
    let mut i: usize = 0;
    while i < v.len()
        invariant
            i <= v@.len(),
            r@.len() == i,
            forall|j: int| 0 <= j < i ==> r@[j].view() == v@[j].view(),
        decreases v@.len() - i,
    {
        assert(decreases_to!(v => v@[i as int]));
        let c = copy_node(&v[i]);
        r.push(c);
        i = i + 1;
    }
    proof {
        lemma_node_views_ext(r@, v@);
    }
    r
}

} // verus!
