//! An in-memory tree: the library's own verified implementation of the node
//! contract. It holds its children directly, so its model is read off the
//! fields, and it is what the tests drive the walk with.

use crate::{HasChildren, Model, Node};
use vstd::prelude::*;

verus! {

/// A node holding its label, its classification and its children directly.
pub struct TreeNode {
    label: String,
    kind: HasChildren,
    children: Vec<TreeNode>,
}

/// The abstract value of an in-memory node, read off field by field.
spec fn tree_model(t: TreeNode) -> Model
    decreases t, t.children@.len() + 1,
{
    Model { label: t.label@, kind: t.kind, children: tree_models(t, t.children@.len() as int) }
}

/// The abstract values of the first `n` children of `t`.
spec fn tree_models(t: TreeNode, n: int) -> Seq<Model>
    decreases t, n,
{
    if n <= 0 || n > t.children@.len() {
        Seq::<Model>::empty()
    } else {
        tree_models(t, n - 1).push(tree_model(t.children@[n - 1]))
    }
}

proof fn lemma_tree_models_index(t: TreeNode, n: int)
    requires
        0 <= n <= t.children@.len(),
    ensures
        tree_models(t, n).len() == n,
        forall|i: int| 0 <= i < n ==> #[trigger] tree_models(t, n)[i] == tree_model(t.children@[i]),
    decreases n,
{
    if n > 0 {
        lemma_tree_models_index(t, n - 1);
    }
}

impl TreeNode {
    /// Builds a node from its label, its classification and its children.
    pub fn new(label: String, kind: HasChildren, children: Vec<TreeNode>) -> (r: TreeNode)
        ensures
            r.model().label == label@,
            r.model().kind == kind,
            r.model().children == crate::order::models_of(children@),
    {
        let r = TreeNode { label, kind, children };
        proof {
            lemma_tree_models_index(r, r.children@.len() as int);
            assert(r.model().children =~= crate::order::models_of(r.children@));
        }
        r
    }

    /// A fresh node of the same abstract value: same label, same
    /// classification, same children all the way down.
    pub fn duplicate(&self) -> (r: TreeNode)
        ensures
            r.model() == self.model(),
        decreases *self,
    {
        let mut kids: Vec<TreeNode> = Vec::new();
        let mut i: usize = 0;
        while i < self.children.len()
            invariant
                i <= self.children@.len(),
                kids@.len() == i,
                forall|j: int|
                    0 <= j < i ==> (#[trigger] kids@[j]).model() == self.children@[j].model(),
            decreases self.children@.len() - i,
        {
            let c = self.children[i].duplicate();
            kids.push(c);
            i += 1;
        }
        let r = TreeNode { label: self.label.clone(), kind: self.kind, children: kids };
        proof {
            lemma_tree_models_index(r, r.children@.len() as int);
            lemma_tree_models_index(*self, self.children@.len() as int);
            assert(r.model().children =~= self.model().children);
            assert(r.model() =~= self.model());
        }
        r
    }
}

impl Node for TreeNode {
    closed spec fn model(&self) -> Model {
        tree_model(*self)
    }

    fn render_label(&self) -> (r: String) {
        self.label.clone()
    }

    fn has_nodes(&self) -> (r: HasChildren) {
        self.kind
    }

    fn nodes(&self) -> (r: Vec<TreeNode>) {
        let mut out: Vec<TreeNode> = Vec::new();
        let mut i: usize = 0;
        while i < self.children.len()
            invariant
                i <= self.children@.len(),
                out@.len() == i,
                forall|j: int|
                    0 <= j < i ==> (#[trigger] out@[j]).model() == self.children@[j].model(),
            decreases self.children@.len() - i,
        {
            let c = self.children[i].duplicate();
            out.push(c);
            i += 1;
        }
        proof {
            lemma_tree_models_index(*self, self.children@.len() as int);
        }
        out
    }
}

} // verus!
