//! The abstract syntax tree, and a growing window onto its nodes.
use vstd::prelude::*;

use crate::lexer::capture::{
    CaptureResult,
    CaptureResultsMap,
    ResultModel,
    clone_results_map,
    results_model,
};
use crate::modification::gluea::LuaRc;

verus! {

/// A tree of [`Node`]s.
pub struct AbstractSyntaxTree {
    pub nodes: Vec<Node>,
}

/// A node: a subtree, or the named results of a match.
pub enum Node {
    Branch(AbstractSyntaxTree),
    Leaf(CaptureResultsMap),
}

/// The model of a node.
pub enum NodeModel {
    Branch(Seq<NodeModel>),
    Leaf(Seq<(Seq<char>, ResultModel)>),
}

/// The models of a sequence of nodes.
pub open spec fn nodes_model(ns: Seq<Node>) -> Seq<NodeModel>
    decreases ns, 0nat,
{
    if ns.len() == 0 {
        Seq::empty()
    } else {
        nodes_model(ns.drop_last()).push(node_model(ns.last()))
    }
}

/// The model of a node.
pub open spec fn node_model(n: Node) -> NodeModel
    decreases n, 0nat,
{
    match n {
        Node::Branch(t) => NodeModel::Branch(nodes_model(t.nodes@)),
        Node::Leaf(m) => NodeModel::Leaf(results_model(m)),
    }
}

impl View for AbstractSyntaxTree {
    type V = Seq<NodeModel>;

    open spec fn view(&self) -> Seq<NodeModel> {
        nodes_model(self.nodes@)
    }
}

impl View for Node {
    type V = NodeModel;

    open spec fn view(&self) -> NodeModel {
        node_model(*self)
    }
}

/// Element `i` of the models of a sequence is the model of element `i`.
pub proof fn lemma_nodes_model(ns: Seq<Node>)
    ensures
        nodes_model(ns).len() == ns.len(),
        forall|i: int| 0 <= i < ns.len() ==> #[trigger] nodes_model(ns)[i] == node_model(ns[i]),
    decreases ns.len(),
{
    if ns.len() > 0 {
        lemma_nodes_model(ns.drop_last());
    }
}

impl AbstractSyntaxTree {
    /// A tree for `capture_results`; it starts without nodes.
    pub fn new(capture_results: Vec<CaptureResult>) -> (t: Self)
        ensures
            t@ == Seq::<NodeModel>::empty(),
    {
        let t = AbstractSyntaxTree { nodes: Vec::new() };
        proof {
            assert(nodes_model(t.nodes@) =~= Seq::<NodeModel>::empty());
        }
        t
    }
}

/// A copy of a list of nodes.
pub fn clone_nodes(v: &Vec<Node>) -> (r: Vec<Node>)
    ensures
        nodes_model(r@) == nodes_model(v@),
    decreases v,
{
    let mut out: Vec<Node> = Vec::new();
    let mut i: usize = 0;
    while i < v.len()
        invariant
            i <= v@.len(),
            out@.len() == i,
            forall|j: int| 0 <= j < i ==> #[trigger] node_model(out@[j]) == node_model(v@[j]),
        decreases v@.len() - i,
    {
        let c = v[i].clone();
        out.push(c);
        i = i + 1;
    }
    proof {
        lemma_nodes_model(out@);
        lemma_nodes_model(v@);
        assert(nodes_model(out@) =~= nodes_model(v@));
    }
    out
}

impl Clone for Node {
    /// A copy with the same model.
    fn clone(&self) -> (r: Self)
        ensures
            r@ == self@,
        decreases self,
    {
        match self {
            Node::Branch(t) => Node::Branch(AbstractSyntaxTree { nodes: clone_nodes(&t.nodes) }),
            Node::Leaf(m) => Node::Leaf(clone_results_map(m)),
        }
    }
}

impl Clone for AbstractSyntaxTree {
    /// A copy with the same model.
    fn clone(&self) -> (r: Self)
        ensures
            r@ == self@,
    {
        AbstractSyntaxTree { nodes: clone_nodes(&self.nodes) }
    }
}

/// A window onto the nodes of a shared tree: it starts at a position and
/// covers `size` nodes, growing one node at a time.
pub struct Accumulator {
    index: usize,
    size: usize,
    tree_ref: LuaRc<AbstractSyntaxTree>,
}

/// The model of an [`Accumulator`]: where it was made, how many nodes it
/// covers, and the nodes of its tree.
pub struct WindowModel {
    pub start: nat,
    pub size: nat,
    pub tree: Seq<NodeModel>,
}

/// A window made at `start` onto `tree`, covering no nodes.
pub open spec fn window_of(tree: Seq<NodeModel>, start: nat) -> WindowModel {
    WindowModel { start, size: 0, tree }
}

/// The window grown by one node.
pub open spec fn window_next(w: WindowModel) -> WindowModel {
    WindowModel { size: w.size + 1, ..w }
}

/// The window after `n` growth steps.
pub open spec fn window_grown(w: WindowModel, n: nat) -> WindowModel
    decreases n,
{
    if n == 0 {
        w
    } else {
        window_next(window_grown(w, (n - 1) as nat))
    }
}

/// What the window gives for position `j`: the tree's node there, when the
/// window covers that many nodes and the tree has one there.
pub open spec fn window_get(w: WindowModel, j: int) -> Option<NodeModel> {
    if 0 <= j < w.size && j < w.tree.len() {
        Some(w.tree[j])
    } else {
        None
    }
}

/// The model of an optional node.
pub open spec fn opt_node_model(o: &Option<Node>) -> Option<NodeModel> {
    match *o {
        Some(n) => Some(n@),
        None => None,
    }
}

/// A window made at `start` onto `tree` and grown `n` times covers the
/// tree's first `n` nodes: position `j` gives the tree's node `j` when `j`
/// is below `n` and the tree has a node there, and nothing otherwise.  The
/// position it was made at does not shift what it gives.
pub proof fn lemma_window_after_growing(tree: Seq<NodeModel>, start: nat, n: nat, j: int)
    ensures
        window_grown(window_of(tree, start), n) == (WindowModel { start, size: n, tree }),
        window_get(window_grown(window_of(tree, start), n), j) == (if 0 <= j < n && j < tree.len() {
            Some(tree[j])
        } else {
            None
        }),
    decreases n,
{
    if n > 0 {
        lemma_window_after_growing(tree, start, (n - 1) as nat, j);
    }
}

impl View for Accumulator {
    type V = WindowModel;

    closed spec fn view(&self) -> WindowModel {
        WindowModel { start: self.index as nat, size: self.size as nat, tree: self.tree() }
    }
}

impl Accumulator {
    /// The position the window was made at.
    pub closed spec fn start(&self) -> usize {
        self.index
    }

    /// How many nodes the window covers.
    pub closed spec fn size(&self) -> usize {
        self.size
    }

    /// The nodes of the tree behind the window.
    pub closed spec fn tree(&self) -> Seq<NodeModel> {
        (*self.tree_ref.0)@
    }

    /// A window onto `tree` made at `index`, covering no nodes.
    pub fn of(tree: AbstractSyntaxTree, index: usize) -> (a: Self)
        ensures
            a.start() == index,
            a.size() == 0,
            a.tree() == tree@,
            a@ == window_of(tree@, index as nat),
    {
        Accumulator { index, size: 0, tree_ref: LuaRc::new(tree) }
    }

    /// Widens the window by one node.
    pub fn next(&mut self)
        requires
            old(self).size() < usize::MAX,
        ensures
            final(self).size() == old(self).size() + 1,
            final(self).start() == old(self).start(),
            final(self).tree() == old(self).tree(),
            final(self)@ == window_next(old(self)@),
    {
        self.size = self.size + 1;
    }

    /// The node at `index` of the tree, if the window covers that many nodes
    /// and the tree has a node there.
    pub fn get(&self, index: usize) -> (r: Option<Node>)
        ensures
            r is Some <==> index < self.size() && index < self.tree().len(),
            r matches Some(n) ==> n@ == self.tree()[index as int],
            opt_node_model(&r) == window_get(self@, index as int),
    {
        if index >= self.size {
            return None;
        }
        let nodes = &self.tree_ref.0.nodes;
        proof {
            lemma_nodes_model(nodes@);
        }
        if index < nodes.len() {
            Some(nodes[index].clone())
        } else {
            None
        }
    }
}

} // verus!
