//! The document tree: an arena of nodes linked by indices.
use vstd::prelude::*;

verus! {

/// A `name="value"` pair carried by an element.
#[derive(Debug, Clone)]
pub struct Attribute {
    pub name: String,
    pub value: String,
}

/// An element's tag name and attributes.
#[derive(Debug, Clone)]
pub struct Element {
    pub tag: String,
    pub attributes: Vec<Attribute>,
}

/// What a node of the document tree is.
#[derive(Debug, Clone)]
pub enum NodeKind {
    Document,
    Element(Element),
    Text(String),
}

/// One node of the document tree. Links are indices into the owning
/// `Window`'s arena: `first_child` and `next_sibling` are the owning
/// forward links, the others are back and cross references.
#[derive(Debug, Clone)]
pub struct Node {
    pub kind: NodeKind,
    pub parent: Option<usize>,
    pub first_child: Option<usize>,
    pub last_child: Option<usize>,
    pub previous_sibling: Option<usize>,
    pub next_sibling: Option<usize>,
}

/// Owner of a document tree; node `0` is the Document root.
#[derive(Debug, Clone)]
pub struct Window {
    pub nodes: Vec<Node>,
}

/// The links of node `i` agree with those of the nodes they point to.
pub open spec fn node_wf(n: Seq<Node>, i: int) -> bool {
    let x = n[i];
    &&& (i > 0 ==> (x.parent matches Some(p) && p < i))
    &&& (x.first_child matches Some(c) ==> i < c < n.len() && n[c as int].parent == Some(i as usize)
        && n[c as int].previous_sibling is None)
    &&& (x.last_child matches Some(c) ==> i < c < n.len() && n[c as int].parent == Some(i as usize)
        && n[c as int].next_sibling is None)
    &&& (x.first_child is None <==> x.last_child is None)
    &&& (x.next_sibling matches Some(s) ==> i < s < n.len() && n[s as int].parent == x.parent
        && n[s as int].previous_sibling == Some(i as usize))
    &&& (x.previous_sibling matches Some(s) ==> s < i && n[s as int].next_sibling == Some(i as usize))
    &&& (x.previous_sibling is None ==> (x.parent matches Some(p) ==> n[p as int].first_child
        == Some(i as usize)))
    &&& (x.next_sibling is None ==> (x.parent matches Some(p) ==> n[p as int].last_child == Some(
        i as usize,
    )))
}

/// A node with no links, holding `kind`.
pub open spec fn detached(kind: NodeKind) -> Node {
    Node {
        kind,
        parent: None,
        first_child: None,
        last_child: None,
        previous_sibling: None,
        next_sibling: None,
    }
}

impl Window {
    /// Every node's links are consistent, each node's parent and earlier
    /// siblings precede it, and node `0` is the Document root.
    pub open spec fn wf(&self) -> bool {
        let n = self.nodes@;
        &&& n.len() >= 1
        &&& n.len() < usize::MAX
        &&& n[0].kind is Document
        &&& n[0].parent is None
        &&& n[0].next_sibling is None
        &&& n[0].previous_sibling is None
        &&& forall|i: int| 0 <= i < n.len() ==> #[trigger] node_wf(n, i)
    }

    /// A window holding only an empty Document.
    pub fn new() -> (w: Window)
        ensures
            w.wf(),
            w.nodes@ == seq![detached(NodeKind::Document)],
    {
        let mut nodes: Vec<Node> = Vec::new();
        nodes.push(
            Node {
                kind: NodeKind::Document,
                parent: None,
                first_child: None,
                last_child: None,
                previous_sibling: None,
                next_sibling: None,
            },
        );
        let w = Window { nodes };
        assert(node_wf(w.nodes@, 0));
        w
    }

    /// Index of the Document root.
    pub fn document(&self) -> (r: usize)
        ensures
            r == 0,
    {
        0
    }

    /// Appends a new node holding `kind` as the last child of `parent`,
    /// reaching the tail by walking the sibling chain from `first_child`.
    #[verifier::rlimit(40)]
    pub fn append_child(&mut self, parent: usize, kind: NodeKind) -> (r: usize)
        requires
            old(self).wf(),
            parent < old(self).nodes@.len(),
            old(self).nodes@.len() + 1 < usize::MAX,
        ensures
            final(self).wf(),
            r == old(self).nodes@.len(),
            final(self).nodes@.len() == r + 1,
            final(self).nodes@[r as int] == (Node {
                kind,
                parent: Some(parent),
                first_child: None,
                last_child: None,
                previous_sibling: old(self).nodes@[parent as int].last_child,
                next_sibling: None,
            }),
            final(self).nodes@[parent as int] == (Node {
                first_child: if old(self).nodes@[parent as int].first_child is None {
                    Some(r)
                } else {
                    old(self).nodes@[parent as int].first_child
                },
                last_child: Some(r),
                ..old(self).nodes@[parent as int]
            }),
            old(self).nodes@[parent as int].last_child matches Some(l) ==> final(self).nodes@[l as int]
                == (Node { next_sibling: Some(r), ..old(self).nodes@[l as int] }),
            forall|i: int|
                0 <= i < r && i != parent && Some(i as usize) != old(self).nodes@[parent as int].last_child
                    ==> final(self).nodes@[i] == old(self).nodes@[i],
    {
        let r = self.nodes.len();
        let first = self.nodes[parent].first_child;
        assert(node_wf(self.nodes@, parent as int));
        let ghost old_nodes = self.nodes@;
        let prev = match first {
            None => None,
            Some(f) => {
                let mut cur = f;
                while self.nodes[cur].next_sibling.is_some()
                    invariant
                        self.wf(),
                        parent < self.nodes@.len(),
                        cur < self.nodes@.len(),
                        self.nodes@[cur as int].parent == Some(parent),
                    decreases self.nodes@.len() - cur,
                {
                    assert(node_wf(self.nodes@, cur as int));
                    cur = self.nodes[cur].next_sibling.unwrap();
                }
                assert(node_wf(self.nodes@, cur as int));
                assert(old_nodes[parent as int].last_child == Some(cur));
                self.nodes[cur].next_sibling = Some(r);
                Some(cur)
            },
        };
        self.nodes.push(
            Node {
                kind,
                parent: Some(parent),
                first_child: None,
                last_child: None,
                previous_sibling: prev,
                next_sibling: None,
            },
        );
        if first.is_none() {
            self.nodes[parent].first_child = Some(r);
        }
        self.nodes[parent].last_child = Some(r);
        proof {
            let n = self.nodes@;
            let last = old_nodes[parent as int].last_child;
            assert(prev == last);
            assert forall|i: int| 0 <= i < n.len() implies #[trigger] node_wf(n, i) by {
                if i < r {
                    assert(node_wf(old_nodes, i));
                    if i == parent {
                    } else if last == Some(i as usize) {
                    } else {
                        assert(n[i] == old_nodes[i]);
                    }
                }
            }
        }
        r
    }
}

} // verus!
