use vstd::prelude::*;

use crate::beam::{beams, build_layer, compute_beams, missing, missing_from, Laser};
use crate::grid::{Direction, GridLayer, GridMap, GridPosition, ObjectId};
use crate::registry::{has_id, index_of, lemma_node_of_index, node_of, ids_unique, IntersectorType, Node, NodeRegistry};

verus! {

/// What an intent asks of the playfield.
#[derive(Clone, Copy, Debug, PartialEq, Eq, Structural)]
pub enum UpdateType {
    Remove,
    Update,
    Place,
}

/// An intent from the input layer: place an object, remove the object at a
/// cell, or recompute the beams.
#[derive(Clone, Copy, Debug, PartialEq, Eq, Structural)]
pub struct LaserUpdateEvent {
    pub entity: ObjectId,
    pub update_type: UpdateType,
    pub intersector: IntersectorType,
    pub grid_position: GridPosition,
    pub direction: Direction,
}

/// Why an intent was rejected; a rejected intent changes nothing.
#[derive(Clone, Copy, Debug, PartialEq, Eq, Structural)]
pub enum TopologyError {
    /// The build cell already holds an object.
    CellOccupied,
    /// The build cell holds no object.
    CellEmpty,
    /// The identity is already placed.
    IdInUse,
    /// An emitter needs a resource on the ground cell below it.
    NoResource,
    /// Only an emitter may stand on a resource.
    OnResource,
}

/// The stretches of beam to materialize and to destroy after a change.
pub struct BeamChanges {
    pub created: Vec<Laser>,
    pub destroyed: Vec<Laser>,
}

pub type Cells = Map<(GridLayer, GridPosition), ObjectId>;

/// The build layer of the grid and the registry describe the same objects:
/// each record's cell holds its identity, and each occupied build cell holds
/// the identity of a record placed there.
pub open spec fn consistent(cells: Cells, nodes: Seq<Node>) -> bool {
    &&& forall|i: int| 0 <= i < nodes.len()
        ==> cells.contains_key((GridLayer::Build, #[trigger] nodes[i].position))
            && cells[(GridLayer::Build, nodes[i].position)] == nodes[i].id
    &&& forall|p: GridPosition| #[trigger] cells.contains_key((GridLayer::Build, p))
        ==> (node_of(nodes, cells[(GridLayer::Build, p)]) matches Some(n) && n.position == p)
}

/// The grid and registry after placing an object, or why it is rejected.
pub open spec fn placed(
    cells: Cells,
    nodes: Seq<Node>,
    id: ObjectId,
    kind: IntersectorType,
    direction: Direction,
    position: GridPosition,
) -> Result<(Cells, Seq<Node>), TopologyError> {
    let ground = cells.contains_key((GridLayer::Ground, position));
    if kind == IntersectorType::Emitter && !ground {
        Err(TopologyError::NoResource)
    } else if kind != IntersectorType::Emitter && ground {
        Err(TopologyError::OnResource)
    } else if cells.contains_key((GridLayer::Build, position)) {
        Err(TopologyError::CellOccupied)
    } else if has_id(nodes, id) {
        Err(TopologyError::IdInUse)
    } else {
        Ok((
            cells.insert((GridLayer::Build, position), id),
            nodes.push(Node { id, kind, direction, position }),
        ))
    }
}

/// The grid and registry after removing the object at a build cell, or why
/// it is rejected.
pub open spec fn removed(cells: Cells, nodes: Seq<Node>, position: GridPosition) -> Result<(Cells, Seq<Node>), TopologyError> {
    if !cells.contains_key((GridLayer::Build, position)) {
        Err(TopologyError::CellEmpty)
    } else {
        let id = cells[(GridLayer::Build, position)];
        Ok((
            cells.remove((GridLayer::Build, position)),
            if has_id(nodes, id) { nodes.remove(index_of(nodes, id)) } else { nodes },
        ))
    }
}

/// The grid and registry after an intent, or why it is rejected.
pub open spec fn applied(cells: Cells, nodes: Seq<Node>, ev: LaserUpdateEvent) -> Result<(Cells, Seq<Node>), TopologyError> {
    match ev.update_type {
        UpdateType::Place => placed(cells, nodes, ev.entity, ev.intersector, ev.direction, ev.grid_position),
        UpdateType::Remove => removed(cells, nodes, ev.grid_position),
        UpdateType::Update => Ok((cells, nodes)),
    }
}

/// `ch` lists the stretches that `after` adds to `before`, and those it drops.
pub open spec fn reports(ch: BeamChanges, before: Seq<Laser>, after: Seq<Laser>) -> bool {
    &&& ch.created@ == missing_from(after, before)
    &&& ch.destroyed@ == missing_from(before, after)
}

/// Owns the grid and the registry, applies placements and removals to them, and
/// keeps the beams equal to what routing computes from them.
pub struct TopologyChangeHandler {
    grid: GridMap,
    registry: NodeRegistry,
    lasers: Vec<Laser>,
}

impl TopologyChangeHandler {
    pub closed spec fn cells(&self) -> Cells {
        self.grid@
    }

    pub closed spec fn nodes(&self) -> Seq<Node> {
        self.registry@
    }

    pub closed spec fn segments(&self) -> Seq<Laser> {
        self.lasers@
    }

    pub open spec fn wf(&self) -> bool {
        &&& ids_unique(self.nodes())
        &&& consistent(self.cells(), self.nodes())
        &&& self.segments() == beams(build_layer(self.cells()), self.nodes())
    }

    /// The outcome of an operation: `r` and the new state follow `res`.
    pub open spec fn follows(&self, before: &Self, res: Result<(Cells, Seq<Node>), TopologyError>, r: Result<BeamChanges, TopologyError>) -> bool {
        match res {
            Err(e) => {
                &&& r == Err::<BeamChanges, TopologyError>(e)
                &&& self.cells() == before.cells()
                &&& self.nodes() == before.nodes()
                &&& self.segments() == before.segments()
            },
            Ok(st) => {
                &&& r is Ok
                &&& self.cells() == st.0
                &&& self.nodes() == st.1
                &&& reports(r->Ok_0, before.segments(), self.segments())
            },
        }
    }

    pub fn new() -> (r: TopologyChangeHandler)
        ensures
            r.wf(),
            r.cells() == Cells::empty(),
            r.nodes() == Seq::<Node>::empty(),
            r.segments() == Seq::<Laser>::empty(),
    {
        TopologyChangeHandler { grid: GridMap::new(), registry: NodeRegistry::new(), lasers: Vec::new() }
    }

    pub fn grid(&self) -> (r: &GridMap)
        ensures
            r@ == self.cells(),
    {
        &self.grid
    }

    pub fn registry(&self) -> (r: &NodeRegistry)
        ensures
            r@ == self.nodes(),
    {
        &self.registry
    }

    /// The beams now materialized, chain after chain.
    pub fn lasers(&self) -> (r: &Vec<Laser>)
        ensures
            r@ == self.segments(),
    {
        &self.lasers
    }

    /// Recomputes the beams and replaces the stored ones, reporting the difference.
    fn settle(&mut self) -> (r: BeamChanges)
        requires
            ids_unique(old(self).nodes()),
        ensures
            final(self).cells() == old(self).cells(),
            final(self).nodes() == old(self).nodes(),
            final(self).segments() == beams(build_layer(old(self).cells()), old(self).nodes()),
            reports(r, old(self).segments(), final(self).segments()),
    {
        let new = compute_beams(&self.grid, &self.registry);
        let created = missing(&new, &self.lasers);
        let destroyed = missing(&self.lasers, &new);
        self.lasers = new;
        BeamChanges { created, destroyed }
    }

    /// Puts a resource well on a ground cell. Beams do not depend on the ground.
    pub fn place_resource(&mut self, id: ObjectId, position: GridPosition) -> (r: Result<(), TopologyError>)
        requires
            old(self).wf(),
        ensures
            final(self).wf(),
            final(self).nodes() == old(self).nodes(),
            final(self).segments() == old(self).segments(),
            old(self).cells().contains_key((GridLayer::Ground, position)) ==> r == Err::<(), TopologyError>(TopologyError::CellOccupied)
                && final(self).cells() == old(self).cells(),
            !old(self).cells().contains_key((GridLayer::Ground, position)) ==> r is Ok
                && final(self).cells() == old(self).cells().insert((GridLayer::Ground, position), id),
    {
        let ghost c = self.grid@;
        match self.grid.set(GridLayer::Ground, position, id) {
            Ok(()) => {
                assert(build_layer(self.grid@) =~= build_layer(c));
                Ok(())
            },
            Err(_) => Err(TopologyError::CellOccupied),
        }
    }

    /// Places an object and recomputes every beam, so that chains that ended at
    /// its cell, or passed through it, follow the new topology.
    pub fn place(&mut self, id: ObjectId, kind: IntersectorType, direction: Direction, position: GridPosition) -> (r: Result<BeamChanges, TopologyError>)
        requires
            old(self).wf(),
        ensures
            final(self).wf(),
            final(self).follows(old(self), placed(old(self).cells(), old(self).nodes(), id, kind, direction, position), r),
    {
        let ground = self.grid.contains(GridLayer::Ground, position);
        match kind {
            IntersectorType::Emitter => {
                if !ground {
                    return Err(TopologyError::NoResource);
                }
            },
            _ => {
                if ground {
                    return Err(TopologyError::OnResource);
                }
            },
        }
        if self.grid.contains(GridLayer::Build, position) {
            return Err(TopologyError::CellOccupied);
        }
        if self.registry.find(id).is_some() {
            return Err(TopologyError::IdInUse);
        }
        let ghost c = self.grid@;
        let ghost nodes = self.registry@;
        let node = Node { id, kind, direction, position };
        let _ = self.grid.set(GridLayer::Build, position, id);
        self.registry.insert(node);
        proof {
            lemma_consistent_after_place(c, nodes, node);
        }
        Ok(self.settle())
    }

    /// Removes the object at a build cell and recomputes every beam: its own
    /// chain, if it is an emitter, goes; chains through it are routed anew.
    pub fn remove(&mut self, position: GridPosition) -> (r: Result<BeamChanges, TopologyError>)
        requires
            old(self).wf(),
        ensures
            final(self).wf(),
            final(self).follows(old(self), removed(old(self).cells(), old(self).nodes(), position), r),
    {
        let id = match self.grid.get(GridLayer::Build, position) {
            None => {
                return Err(TopologyError::CellEmpty);
            },
            Some(id) => id,
        };
        let ghost c = self.grid@;
        let ghost nodes = self.registry@;
        let _ = self.grid.remove(GridLayer::Build, position);
        let _ = self.registry.remove(id);
        proof {
            lemma_consistent_after_remove(c, nodes, position);
        }
        Ok(self.settle())
    }

    /// Recomputes every beam. On a settled playfield nothing is created or destroyed.
    pub fn recompute(&mut self) -> (r: BeamChanges)
        requires
            old(self).wf(),
        ensures
            final(self).wf(),
            final(self).cells() == old(self).cells(),
            final(self).nodes() == old(self).nodes(),
            final(self).segments() == old(self).segments(),
            r.created@ == Seq::<Laser>::empty(),
            r.destroyed@ == Seq::<Laser>::empty(),
    {
        let r = self.settle();
        proof {
            lemma_missing_from_self(self.lasers@);
        }
        r
    }

    /// Applies one intent.
    pub fn update(&mut self, ev: &LaserUpdateEvent) -> (r: Result<BeamChanges, TopologyError>)
        requires
            old(self).wf(),
        ensures
            final(self).wf(),
            final(self).follows(old(self), applied(old(self).cells(), old(self).nodes(), *ev), r),
    {
        match ev.update_type {
            UpdateType::Place => self.place(ev.entity, ev.intersector, ev.direction, ev.grid_position),
            UpdateType::Remove => self.remove(ev.grid_position),
            UpdateType::Update => {
                let r = self.recompute();
                proof {
                    lemma_missing_from_self(self.lasers@);
                }
                Ok(r)
            },
        }
    }
}

/// Nothing of a sequence is missing from itself.
pub proof fn lemma_missing_from_self(s: Seq<Laser>)
    ensures
        missing_from(s, s) == Seq::<Laser>::empty(),
{
    let f = missing_from(s, s);
    let pred = |x: Laser| !s.contains(x);
    if f.len() > 0 {
        s.lemma_filter_pred(pred, 0);
        s.lemma_filter_contains_rev(pred, f[0]);
        assert(f.contains(f[0]));
    }
    assert(f =~= Seq::<Laser>::empty());
}

proof fn lemma_consistent_after_place(c: Cells, nodes: Seq<Node>, node: Node)
    requires
        ids_unique(nodes),
        ids_unique(nodes.push(node)),
        consistent(c, nodes),
        !c.contains_key((GridLayer::Build, node.position)),
    ensures
        consistent(c.insert((GridLayer::Build, node.position), node.id), nodes.push(node)),
{
    let c2 = c.insert((GridLayer::Build, node.position), node.id);
    let n2 = nodes.push(node);
    assert forall|i: int| 0 <= i < n2.len()
        implies c2.contains_key((GridLayer::Build, #[trigger] n2[i].position))
            && c2[(GridLayer::Build, n2[i].position)] == n2[i].id by {
        if i < nodes.len() {
            assert(n2[i] == nodes[i]);
            assert(c.contains_key((GridLayer::Build, nodes[i].position)));
        }
    }
    assert forall|p: GridPosition| #[trigger] c2.contains_key((GridLayer::Build, p))
        implies (node_of(n2, c2[(GridLayer::Build, p)]) matches Some(n) && n.position == p) by {
        if p == node.position {
            lemma_node_of_index(n2, nodes.len() as int);
        } else {
            assert(c.contains_key((GridLayer::Build, p)));
            let id2 = c[(GridLayer::Build, p)];
            assert(node_of(nodes, id2) is Some);
            let i = index_of(nodes, id2);
            lemma_node_of_index(nodes, i);
            assert(n2[i] == nodes[i]);
            lemma_node_of_index(n2, i);
        }
    }
}

proof fn lemma_consistent_after_remove(c: Cells, nodes: Seq<Node>, pos: GridPosition)
    requires
        ids_unique(nodes),
        consistent(c, nodes),
        c.contains_key((GridLayer::Build, pos)),
    ensures
        has_id(nodes, c[(GridLayer::Build, pos)]),
        ids_unique(nodes.remove(index_of(nodes, c[(GridLayer::Build, pos)]))),
        consistent(
            c.remove((GridLayer::Build, pos)),
            nodes.remove(index_of(nodes, c[(GridLayer::Build, pos)])),
        ),
{
    let id = c[(GridLayer::Build, pos)];
    assert(node_of(nodes, id) is Some);
    let k = index_of(nodes, id);
    lemma_node_of_index(nodes, k);
    let c2 = c.remove((GridLayer::Build, pos));
    let n2 = nodes.remove(k);
    assert forall|a: int, b: int| 0 <= a < n2.len() && 0 <= b < n2.len() && a != b
        implies #[trigger] n2[a].id != #[trigger] n2[b].id by {
        let a0 = if a < k { a } else { a + 1 };
        let b0 = if b < k { b } else { b + 1 };
        assert(n2[a] == nodes[a0]);
        assert(n2[b] == nodes[b0]);
    }
    assert forall|i: int| 0 <= i < n2.len()
        implies c2.contains_key((GridLayer::Build, #[trigger] n2[i].position))
            && c2[(GridLayer::Build, n2[i].position)] == n2[i].id by {
        let i0 = if i < k { i } else { i + 1 };
        assert(n2[i] == nodes[i0]);
        assert(c.contains_key((GridLayer::Build, nodes[i0].position)));
        assert(nodes[i0].id != nodes[k].id);
    }
    assert forall|p: GridPosition| #[trigger] c2.contains_key((GridLayer::Build, p))
        implies (node_of(n2, c2[(GridLayer::Build, p)]) matches Some(n) && n.position == p) by {
        assert(c.contains_key((GridLayer::Build, p)));
        let id2 = c[(GridLayer::Build, p)];
        assert(node_of(nodes, id2) is Some);
        let i = index_of(nodes, id2);
        lemma_node_of_index(nodes, i);
        assert(i != k);
        let i2 = if i < k { i } else { i - 1 };
        assert(n2[i2] == nodes[i]);
        lemma_node_of_index(n2, i2);
    }
}

} // verus!
