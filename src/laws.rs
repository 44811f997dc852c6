use vstd::prelude::*;

use crate::beam::{beams, beams_upto, build_layer, chain, departs, march, route_spec, step, Laser, Occupancy, MAX_STEPS};
use crate::grid::{Direction, GridMap, GridPosition, ObjectId};
use crate::registry::{ids_unique, lemma_node_of_index, node_of, IntersectorType, Node, NodeRegistry};
use crate::topology::TopologyChangeHandler;

verus! {

/// Every stretch departs from an object, and no object has two stretches
/// departing from it.
pub open spec fn forest(s: Seq<Laser>) -> bool {
    &&& forall|i: int| 0 <= i < s.len() ==> (#[trigger] s[i]).from_intersector is Some
    &&& forall|i: int, j: int| 0 <= i < s.len() && 0 <= j < s.len() && i != j
        ==> #[trigger] s[i].from_intersector != #[trigger] s[j].from_intersector
}

/// `o` names a registered reflector.
pub open spec fn is_reflector(nodes: Seq<Node>, o: Option<ObjectId>) -> bool {
    match o {
        Some(x) => match node_of(nodes, x) {
            Some(n) => n.kind == IntersectorType::Reflector,
            None => false,
        },
        None => false,
    }
}

proof fn lemma_chain_forest(
    g: Occupancy,
    nodes: Seq<Node>,
    root: ObjectId,
    from: ObjectId,
    start: GridPosition,
    d: Direction,
    index: usize,
    prior: Seq<Laser>,
    fuel: nat,
)
    requires
        forest(prior),
        !departs(prior, from),
    ensures
        forest(prior + chain(g, nodes, root, from, start, d, index, prior, fuel)),
        forall|i: int| 0 <= i < chain(g, nodes, root, from, start, d, index, prior, fuel).len()
            ==> #[trigger] chain(g, nodes, root, from, start, d, index, prior, fuel)[i].from_intersector == Some(from)
                || is_reflector(nodes, chain(g, nodes, root, from, start, d, index, prior, fuel)[i].from_intersector),
    decreases fuel,
{
    let c = chain(g, nodes, root, from, start, d, index, prior, fuel);
    let m = march(g, start, d, MAX_STEPS as nat);
    let seg = c[0];
    let p1 = prior.push(seg);
    assert forall|i: int, j: int| 0 <= i < p1.len() && 0 <= j < p1.len() && i != j
        implies #[trigger] p1[i].from_intersector != #[trigger] p1[j].from_intersector by {
        if i == prior.len() {
            assert(prior[j].from_intersector != Some(from));
        } else if j == prior.len() {
            assert(prior[i].from_intersector != Some(from));
        } else {
            assert(p1[i] == prior[i] && p1[j] == prior[j]);
        }
    }
    assert(forest(p1));
    if fuel > 0 && crate::beam::passes_on(nodes, p1, m.1) {
        let o = m.1.unwrap();
        let rest = chain(g, nodes, root, o, m.0, node_of(nodes, o).unwrap().direction, (index + 1) as usize, p1, (fuel - 1) as nat);
        lemma_chain_forest(g, nodes, root, o, m.0, node_of(nodes, o).unwrap().direction, (index + 1) as usize, p1, (fuel - 1) as nat);
        assert(c == seq![seg] + rest);
        assert(prior + c =~= p1 + rest);
        assert forall|i: int| 0 <= i < c.len()
            implies #[trigger] c[i].from_intersector == Some(from) || is_reflector(nodes, c[i].from_intersector) by {
            if i > 0 {
                assert(c[i] == rest[i - 1]);
            }
        }
    } else {
        assert(prior + c =~= p1);
    }
}

proof fn lemma_beams_forest(g: Occupancy, nodes: Seq<Node>, k: nat)
    requires
        ids_unique(nodes),
        k <= nodes.len(),
    ensures
        forest(beams_upto(g, nodes, k)),
        forall|i: int| 0 <= i < beams_upto(g, nodes, k).len()
            ==> is_reflector(nodes, #[trigger] beams_upto(g, nodes, k)[i].from_intersector)
                || exists|j: int| 0 <= j < k && nodes[j].kind == IntersectorType::Emitter
                    && beams_upto(g, nodes, k)[i].from_intersector == Some(#[trigger] nodes[j].id),
    decreases k,
{
    if k > 0 {
        let prev = beams_upto(g, nodes, (k - 1) as nat);
        lemma_beams_forest(g, nodes, (k - 1) as nat);
        let n = nodes[k - 1];
        if n.kind == IntersectorType::Emitter {
            assert(!departs(prev, n.id)) by {
                if departs(prev, n.id) {
                    let i = choose|i: int| 0 <= i < prev.len() && #[trigger] prev[i].from_intersector == Some(n.id);
                    lemma_node_of_index(nodes, k - 1);
                    if !is_reflector(nodes, prev[i].from_intersector) {
                        let j = choose|j: int| 0 <= j < k - 1 && nodes[j].kind == IntersectorType::Emitter
                            && prev[i].from_intersector == Some(#[trigger] nodes[j].id);
                        assert(nodes[j].id == nodes[k - 1].id);
                    }
                }
            }
            let c = route_spec(g, nodes, n.id, n.position, n.direction, prev);
            lemma_chain_forest(g, nodes, n.id, n.id, n.position, n.direction, 0, prev, nodes.len());
            let b = beams_upto(g, nodes, k);
            assert(b == prev + c);
            assert forall|i: int| 0 <= i < b.len()
                implies is_reflector(nodes, #[trigger] b[i].from_intersector)
                    || exists|j: int| 0 <= j < k && nodes[j].kind == IntersectorType::Emitter
                        && b[i].from_intersector == Some(#[trigger] nodes[j].id) by {
                if i < prev.len() {
                    assert(b[i] == prev[i]);
                } else {
                    assert(b[i] == c[i - prev.len()]);
                    if !is_reflector(nodes, b[i].from_intersector) {
                        assert(b[i].from_intersector == Some(nodes[k - 1].id));
                    }
                }
            }
        }
    }
}

/// The beams of every playfield the operations can reach form a forest rooted
/// at the emitters: no object has more than one stretch departing from it, and
/// each stretch arrives at one object at most.
pub proof fn lemma_forest(h: &TopologyChangeHandler)
    requires
        h.wf(),
    ensures
        forest(h.segments()),
{
    lemma_beams_forest(build_layer(h.cells()), h.nodes(), h.nodes().len());
}

/// Routing reads nothing but the grid and the registry: with the same contents,
/// the same chain comes out.
pub proof fn lemma_route_deterministic(
    grid_a: &GridMap,
    grid_b: &GridMap,
    registry_a: &NodeRegistry,
    registry_b: &NodeRegistry,
    root: ObjectId,
    origin: GridPosition,
    direction: Direction,
    prior: Seq<Laser>,
)
    requires
        grid_a@ == grid_b@,
        registry_a@ == registry_b@,
    ensures
        route_spec(build_layer(grid_a@), registry_a@, root, origin, direction, prior)
            == route_spec(build_layer(grid_b@), registry_b@, root, origin, direction, prior),
{
}

/// The unit step of a direction along x.
pub open spec fn dx(d: Direction) -> int {
    match d {
        Direction::PosX => 1,
        Direction::NegX => -1,
        _ => 0,
    }
}

/// The unit step of a direction along y.
pub open spec fn dy(d: Direction) -> int {
    match d {
        Direction::PosY => 1,
        Direction::NegY => -1,
        _ => 0,
    }
}

/// The coordinates `k` steps from `p` in direction `d`.
pub open spec fn offset(p: GridPosition, d: Direction, k: int) -> (int, int) {
    (p.x + k * dx(d), p.y + k * dy(d))
}

/// The `k` cells after `p` in direction `d` have coordinates within `i32`
/// and hold no build-layer object.
pub open spec fn clear_path(g: Occupancy, p: GridPosition, d: Direction, k: int) -> bool {
    forall|j: int| 1 <= j <= k ==> {
        let c = #[trigger] offset(p, d, j);
        &&& i32::MIN <= c.0 <= i32::MAX
        &&& i32::MIN <= c.1 <= i32::MAX
        &&& !g.contains_key(GridPosition { x: c.0 as i32, y: c.1 as i32 })
    }
}

proof fn lemma_march_clear(g: Occupancy, p: GridPosition, d: Direction, n: nat)
    requires
        clear_path(g, p, d, n as int),
    ensures
        march(g, p, d, n).1 is None,
        march(g, p, d, n).0.x == offset(p, d, n as int).0,
        march(g, p, d, n).0.y == offset(p, d, n as int).1,
    decreases n,
{
    if n > 0 {
        let c = offset(p, d, 1);
        assert(i32::MIN <= c.0 <= i32::MAX && i32::MIN <= c.1 <= i32::MAX);
        let next = GridPosition { x: c.0 as i32, y: c.1 as i32 };
        assert(step(p, d) == Some(next));
        assert forall|j: int| 1 <= j <= n - 1 implies #[trigger] offset(next, d, j) == offset(p, d, j + 1) by {
            assert(offset(next, d, j) == offset(p, d, j + 1)) by (nonlinear_arith)
                requires
                    next.x == p.x + dx(d),
                    next.y == p.y + dy(d),
            {}
        }
        assert(clear_path(g, next, d, n - 1)) by {
            assert forall|j: int| 1 <= j <= n - 1 implies {
                let c = #[trigger] offset(next, d, j);
                &&& i32::MIN <= c.0 <= i32::MAX
                &&& i32::MIN <= c.1 <= i32::MAX
                &&& !g.contains_key(GridPosition { x: c.0 as i32, y: c.1 as i32 })
            } by {
                assert(offset(next, d, j) == offset(p, d, j + 1));
            }
        }
        lemma_march_clear(g, next, d, (n - 1) as nat);
        assert(offset(next, d, n - 1) == offset(p, d, n as int));
    }
}

/// A beam with nothing in its way for the whole bound ends open, exactly the
/// bound's number of cells from its start.
pub proof fn lemma_bound_respected(
    grid: &GridMap,
    registry: &NodeRegistry,
    root: ObjectId,
    origin: GridPosition,
    direction: Direction,
    prior: Seq<Laser>,
)
    requires
        clear_path(build_layer(grid@), origin, direction, MAX_STEPS as int),
    ensures
        route_spec(build_layer(grid@), registry@, root, origin, direction, prior).len() == 1,
        route_spec(build_layer(grid@), registry@, root, origin, direction, prior)[0].to_intersector is None,
        route_spec(build_layer(grid@), registry@, root, origin, direction, prior)[0].start == origin,
        route_spec(build_layer(grid@), registry@, root, origin, direction, prior)[0].end.x
            == origin.x + MAX_STEPS * dx(direction),
        route_spec(build_layer(grid@), registry@, root, origin, direction, prior)[0].end.y
            == origin.y + MAX_STEPS * dy(direction),
{
    lemma_march_clear(build_layer(grid@), origin, direction, MAX_STEPS as nat);
}

/// The stretch ends on its own line, at most the bound's number of cells past
/// its start.
pub open spec fn within_bound(s: Laser) -> bool {
    exists|k: int| 0 <= k <= MAX_STEPS && #[trigger] offset(s.start, s.direction, k) == (s.end.x as int, s.end.y as int)
}

proof fn lemma_march_within(g: Occupancy, p: GridPosition, d: Direction, n: nat)
    ensures
        exists|k: int| 0 <= k <= n && #[trigger] offset(p, d, k) == (march(g, p, d, n).0.x as int, march(g, p, d, n).0.y as int),
    decreases n,
{
    let e = march(g, p, d, n).0;
    if n == 0 {
        assert(offset(p, d, 0) == (e.x as int, e.y as int));
    } else {
        match step(p, d) {
            None => {
                assert(offset(p, d, 0) == (e.x as int, e.y as int));
            },
            Some(next) => {
                assert(next.x == p.x + dx(d) && next.y == p.y + dy(d));
                if g.contains_key(next) {
                    assert(offset(p, d, 1) == (e.x as int, e.y as int));
                } else {
                    lemma_march_within(g, next, d, (n - 1) as nat);
                    let k = choose|k: int| 0 <= k <= n - 1 && #[trigger] offset(next, d, k) == (e.x as int, e.y as int);
                    assert(offset(next, d, k) == offset(p, d, k + 1)) by (nonlinear_arith)
                        requires
                            next.x == p.x + dx(d),
                            next.y == p.y + dy(d),
                    {}
                }
            },
        }
    }
}

proof fn lemma_chain_within(
    g: Occupancy,
    nodes: Seq<Node>,
    root: ObjectId,
    from: ObjectId,
    start: GridPosition,
    d: Direction,
    index: usize,
    prior: Seq<Laser>,
    fuel: nat,
)
    ensures
        forall|i: int| 0 <= i < chain(g, nodes, root, from, start, d, index, prior, fuel).len()
            ==> within_bound(#[trigger] chain(g, nodes, root, from, start, d, index, prior, fuel)[i]),
    decreases fuel,
{
    let c = chain(g, nodes, root, from, start, d, index, prior, fuel);
    let m = march(g, start, d, MAX_STEPS as nat);
    lemma_march_within(g, start, d, MAX_STEPS as nat);
    assert(c[0].start == start && c[0].direction == d && c[0].end == m.0);
    let k = choose|k: int| 0 <= k <= MAX_STEPS && #[trigger] offset(start, d, k) == (m.0.x as int, m.0.y as int);
    assert(offset(c[0].start, c[0].direction, k) == (c[0].end.x as int, c[0].end.y as int));
    assert(within_bound(c[0]));
    let p1 = prior.push(c[0]);
    if fuel > 0 && crate::beam::passes_on(nodes, p1, m.1) {
        let o = m.1.unwrap();
        let nd = node_of(nodes, o).unwrap().direction;
        lemma_chain_within(g, nodes, root, o, m.0, nd, (index + 1) as usize, p1, (fuel - 1) as nat);
        let rest = chain(g, nodes, root, o, m.0, nd, (index + 1) as usize, p1, (fuel - 1) as nat);
        assert forall|i: int| 0 <= i < c.len() implies within_bound(#[trigger] c[i]) by {
            if i > 0 {
                assert(c[i] == rest[i - 1]);
            }
        }
    }
}

proof fn lemma_beams_within(g: Occupancy, nodes: Seq<Node>, k: nat)
    ensures
        forall|i: int| 0 <= i < beams_upto(g, nodes, k).len() ==> within_bound(#[trigger] beams_upto(g, nodes, k)[i]),
    decreases k,
{
    if k > 0 && k <= nodes.len() {
        let prev = beams_upto(g, nodes, (k - 1) as nat);
        lemma_beams_within(g, nodes, (k - 1) as nat);
        let n = nodes[k - 1];
        if n.kind == IntersectorType::Emitter {
            let c = route_spec(g, nodes, n.id, n.position, n.direction, prev);
            lemma_chain_within(g, nodes, n.id, n.id, n.position, n.direction, 0, prev, nodes.len());
            let b = beams_upto(g, nodes, k);
            assert forall|i: int| 0 <= i < b.len() implies within_bound(#[trigger] b[i]) by {
                if i < prev.len() {
                    assert(b[i] == prev[i]);
                } else {
                    assert(b[i] == c[i - prev.len()]);
                }
            }
        }
    }
}

/// No stretch of beam on a reachable playfield goes past the bound: each ends
/// on its own line, at most the bound's number of cells from its start.
pub proof fn lemma_never_beyond(h: &TopologyChangeHandler)
    requires
        h.wf(),
    ensures
        forall|i: int| 0 <= i < h.segments().len() ==> within_bound(#[trigger] h.segments()[i]),
{
    lemma_beams_within(build_layer(h.cells()), h.nodes(), h.nodes().len());
}

} // verus!
