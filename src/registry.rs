use vstd::prelude::*;

use crate::grid::{Direction, GridPosition, ObjectId};

verus! {

/// What a placed object does with a beam.
#[derive(Clone, Copy, Debug, PartialEq, Eq, Structural, Hash)]
pub enum IntersectorType {
    /// The root of a chain: projects a beam in its own direction.
    Emitter,
    /// Turns every incoming beam into its own fixed direction.
    Reflector,
    /// Absorbs an incoming beam.
    Collector,
}

/// The registry's record of one placed object.
#[derive(Clone, Copy, Debug, PartialEq, Eq, Structural)]
pub struct Node {
    pub id: ObjectId,
    pub kind: IntersectorType,
    pub direction: Direction,
    pub position: GridPosition,
}

pub open spec fn ids_unique(nodes: Seq<Node>) -> bool {
    forall|i: int, j: int| 0 <= i < nodes.len() && 0 <= j < nodes.len() && i != j
        ==> #[trigger] nodes[i].id != #[trigger] nodes[j].id
}

pub open spec fn has_id(nodes: Seq<Node>, id: ObjectId) -> bool {
    exists|i: int| 0 <= i < nodes.len() && #[trigger] nodes[i].id == id
}

/// The position of the record of `id` (meaningful when there is one).
pub open spec fn index_of(nodes: Seq<Node>, id: ObjectId) -> int {
    choose|i: int| 0 <= i < nodes.len() && #[trigger] nodes[i].id == id
}

/// The record of `id`, if the registry holds one.
pub open spec fn node_of(nodes: Seq<Node>, id: ObjectId) -> Option<Node> {
    if has_id(nodes, id) {
        Some(nodes[index_of(nodes, id)])
    } else {
        None
    }
}

/// With unique ids, the record found at `i` is the record of its id.
pub proof fn lemma_node_of_index(nodes: Seq<Node>, i: int)
    requires
        ids_unique(nodes),
        0 <= i < nodes.len(),
    ensures
        has_id(nodes, nodes[i].id),
        index_of(nodes, nodes[i].id) == i,
        node_of(nodes, nodes[i].id) == Some(nodes[i]),
{
    assert(nodes[i].id == nodes[i].id);
    let j = index_of(nodes, nodes[i].id);
    assert(nodes[j].id == nodes[i].id);
}

/// Per-identity classification of the placed objects, in order of placement.
pub struct NodeRegistry {
    nodes: Vec<Node>,
}

impl View for NodeRegistry {
    type V = Seq<Node>;

    closed spec fn view(&self) -> Seq<Node> {
        self.nodes@
    }
}

impl NodeRegistry {
    pub open spec fn wf(&self) -> bool {
        ids_unique(self@)
    }

    pub fn new() -> (r: NodeRegistry)
        ensures
            r.wf(),
            r@ == Seq::<Node>::empty(),
    {
        NodeRegistry { nodes: Vec::new() }
    }

    pub fn len(&self) -> (r: usize)
        ensures
            r == self@.len(),
    {
        self.nodes.len()
    }

    /// The record at a position of the placement order.
    pub fn at(&self, i: usize) -> (r: Node)
        requires
            i < self@.len(),
        ensures
            r == self@[i as int],
    {
        self.nodes[i]
    }

    /// Where the record of `id` stands, if there is one.
    pub fn find(&self, id: ObjectId) -> (r: Option<usize>)
        requires
            self.wf(),
        ensures
            r is None <==> !has_id(self@, id),
            r matches Some(i) ==> i == index_of(self@, id) && i < self@.len(),
    {
        let mut i: usize = 0;
        while i < self.nodes.len()
            invariant
                i <= self.nodes@.len(),
                ids_unique(self.nodes@),
                forall|j: int| 0 <= j < i ==> #[trigger] self.nodes@[j].id != id,
            decreases self.nodes@.len() - i,
        {
            if self.nodes[i].id == id {
                proof {
                    lemma_node_of_index(self.nodes@, i as int);
                }
                return Some(i);
            }
            i += 1;
        }
        None
    }

    /// The record of `id`, if there is one.
    pub fn get(&self, id: ObjectId) -> (r: Option<Node>)
        requires
            self.wf(),
        ensures
            r == node_of(self@, id),
    {
        match self.find(id) {
            Some(i) => Some(self.nodes[i]),
            None => None,
        }
    }

    /// Adds the record of an identity that the registry does not hold yet.
    pub fn insert(&mut self, node: Node)
        requires
            old(self).wf(),
            !has_id(old(self)@, node.id),
        ensures
            final(self).wf(),
            final(self)@ == old(self)@.push(node),
    {
        self.nodes.push(node);
    }

    /// Removes the record of `id`, keeping the order of the others.
    pub fn remove(&mut self, id: ObjectId) -> (r: Option<Node>)
        requires
            old(self).wf(),
        ensures
            final(self).wf(),
            r == node_of(old(self)@, id),
            has_id(old(self)@, id) ==> final(self)@ == old(self)@.remove(index_of(old(self)@, id)),
            !has_id(old(self)@, id) ==> final(self)@ == old(self)@,
    {
        match self.find(id) {
            Some(i) => {
                let n = self.nodes.remove(i);
                assert(ids_unique(self.nodes@)) by {
                    assert forall|a: int, b: int| 0 <= a < self.nodes@.len() && 0 <= b < self.nodes@.len() && a != b
                        implies #[trigger] self.nodes@[a].id != #[trigger] self.nodes@[b].id by {
                        let a0 = if a < i { a } else { a + 1 };
                        let b0 = if b < i { b } else { b + 1 };
                        assert(self.nodes@[a] == old(self).nodes@[a0]);
                        assert(self.nodes@[b] == old(self).nodes@[b0]);
                    }
                }
                Some(n)
            },
            None => None,
        }
    }
}

} // verus!
