use vstd::prelude::*;

use crate::grid::{Direction, GridLayer, GridMap, GridPosition, ObjectId};
use crate::registry::{node_of, IntersectorType, Node, NodeRegistry};

verus! {

/// How many cells a beam travels from its start before it ends open.
pub const MAX_STEPS: usize = 10;

/// One straight stretch of beam.
#[derive(Clone, Copy, Debug, PartialEq, Eq, Structural)]
pub struct Laser {
    /// The emitter at the root of the chain.
    pub source: Option<ObjectId>,
    /// The object the stretch departs from: the emitter, or a reflector.
    pub from_intersector: Option<ObjectId>,
    /// The object the stretch arrives at; `None` when it ends open.
    pub to_intersector: Option<ObjectId>,
    /// The position of the stretch within its chain.
    pub index: usize,
    pub direction: Direction,
    pub start: GridPosition,
    pub end: GridPosition,
}

/// What occupies the cells of the build layer.
pub type Occupancy = Map<GridPosition, ObjectId>;

/// The build layer of a grid.
pub open spec fn build_layer(g: Map<(GridLayer, GridPosition), ObjectId>) -> Occupancy {
    Map::new(
        |p: GridPosition| g.contains_key((GridLayer::Build, p)),
        |p: GridPosition| g[(GridLayer::Build, p)],
    )
}

/// The neighbouring cell in direction `d`, if its coordinates fit in `i32`.
pub open spec fn step(p: GridPosition, d: Direction) -> Option<GridPosition> {
    match d {
        Direction::PosX => if p.x < i32::MAX { Some(GridPosition { x: (p.x + 1) as i32, y: p.y }) } else { None },
        Direction::NegX => if p.x > i32::MIN { Some(GridPosition { x: (p.x - 1) as i32, y: p.y }) } else { None },
        Direction::PosY => if p.y < i32::MAX { Some(GridPosition { x: p.x, y: (p.y + 1) as i32 }) } else { None },
        Direction::NegY => if p.y > i32::MIN { Some(GridPosition { x: p.x, y: (p.y - 1) as i32 }) } else { None },
    }
}

/// Walks at most `n` cells from `cur` in direction `d`: the cell where the walk
/// ends and the build-layer object found there, if any.
pub open spec fn march(g: Occupancy, cur: GridPosition, d: Direction, n: nat) -> (GridPosition, Option<ObjectId>)
    decreases n,
{
    if n == 0 {
        (cur, None)
    } else {
        match step(cur, d) {
            None => (cur, None),
            Some(next) => if g.contains_key(next) {
                (next, Some(g[next]))
            } else {
                march(g, next, d, (n - 1) as nat)
            },
        }
    }
}

/// Whether some stretch of `s` departs from `o`.
pub open spec fn departs(s: Seq<Laser>, o: ObjectId) -> bool {
    exists|j: int| 0 <= j < s.len() && #[trigger] s[j].from_intersector == Some(o)
}

/// Whether the beam goes on from the object it hit: a registered reflector
/// that no stretch so far departs from.
pub open spec fn passes_on(nodes: Seq<Node>, so_far: Seq<Laser>, hit: Option<ObjectId>) -> bool {
    match hit {
        Some(o) => match node_of(nodes, o) {
            Some(n) => n.kind == IntersectorType::Reflector && !departs(so_far, o),
            None => false,
        },
        None => false,
    }
}

/// The stretches of a chain from the stretch that leaves `from` at `start` on,
/// after the stretches `prior`; at most `fuel` more reflectors are passed.
pub open spec fn chain(
    g: Occupancy,
    nodes: Seq<Node>,
    root: ObjectId,
    from: ObjectId,
    start: GridPosition,
    d: Direction,
    index: usize,
    prior: Seq<Laser>,
    fuel: nat,
) -> Seq<Laser>
    decreases fuel,
{
    let m = march(g, start, d, MAX_STEPS as nat);
    let seg = Laser {
        source: Some(root),
        from_intersector: Some(from),
        to_intersector: m.1,
        index,
        direction: d,
        start,
        end: m.0,
    };
    if fuel > 0 && passes_on(nodes, prior.push(seg), m.1) {
        let o = m.1.unwrap();
        seq![seg] + chain(
            g,
            nodes,
            root,
            o,
            m.0,
            node_of(nodes, o).unwrap().direction,
            (index + 1) as usize,
            prior.push(seg),
            (fuel - 1) as nat,
        )
    } else {
        seq![seg]
    }
}

/// The chain of emitter `root` leaving `origin` in direction `d`, given the
/// stretches `prior` already laid: a reflector that one of them departs from
/// passes nothing on. At most as many reflectors are passed as there are records.
pub open spec fn route_spec(
    g: Occupancy,
    nodes: Seq<Node>,
    root: ObjectId,
    origin: GridPosition,
    d: Direction,
    prior: Seq<Laser>,
) -> Seq<Laser> {
    chain(g, nodes, root, root, origin, d, 0, prior, nodes.len())
}

/// The chains of the first `k` records' emitters, in placement order.
pub open spec fn beams_upto(g: Occupancy, nodes: Seq<Node>, k: nat) -> Seq<Laser>
    decreases k,
{
    if k == 0 || k > nodes.len() {
        Seq::empty()
    } else {
        let prev = beams_upto(g, nodes, (k - 1) as nat);
        let n = nodes[k - 1];
        if n.kind == IntersectorType::Emitter {
            prev + route_spec(g, nodes, n.id, n.position, n.direction, prev)
        } else {
            prev
        }
    }
}

/// Every beam of the playfield.
pub open spec fn beams(g: Occupancy, nodes: Seq<Node>) -> Seq<Laser> {
    beams_upto(g, nodes, nodes.len())
}

/// The stretches of `a` that `b` does not hold, in the order of `a`.
pub open spec fn missing_from(a: Seq<Laser>, b: Seq<Laser>) -> Seq<Laser> {
    a.filter(|s: Laser| !b.contains(s))
}

fn step_exec(p: GridPosition, d: Direction) -> (r: Option<GridPosition>)
    ensures
        r == step(p, d),
{
    match d {
        Direction::PosX => if p.x < i32::MAX { Some(GridPosition { x: p.x + 1, y: p.y }) } else { None },
        Direction::NegX => if p.x > i32::MIN { Some(GridPosition { x: p.x - 1, y: p.y }) } else { None },
        Direction::PosY => if p.y < i32::MAX { Some(GridPosition { x: p.x, y: p.y + 1 }) } else { None },
        Direction::NegY => if p.y > i32::MIN { Some(GridPosition { x: p.x, y: p.y - 1 }) } else { None },
    }
}

/// Walks from `start` in direction `d` until a build-layer object, the bound,
/// or the edge of the coordinate range.
pub fn march_exec(grid: &GridMap, start: GridPosition, d: Direction) -> (r: (GridPosition, Option<ObjectId>))
    ensures
        r == march(build_layer(grid@), start, d, MAX_STEPS as nat),
{
    let mut cur = start;
    let mut left: usize = MAX_STEPS;
    while left > 0
        invariant
            left <= MAX_STEPS,
            march(build_layer(grid@), cur, d, left as nat) == march(build_layer(grid@), start, d, MAX_STEPS as nat),
        decreases left,
    {
        match step_exec(cur, d) {
            None => {
                return (cur, None);
            },
            Some(next) => {
                match grid.get(GridLayer::Build, next) {
                    Some(o) => {
                        return (next, Some(o));
                    },
                    None => {
                        cur = next;
                        left -= 1;
                    },
                }
            },
        }
    }
    (cur, None)
}

/// Whether some stretch of `v` departs from `o`.
pub fn departs_exec(v: &Vec<Laser>, o: ObjectId) -> (r: bool)
    ensures
        r == departs(v@, o),
{
    let mut i: usize = 0;
    while i < v.len()
        invariant
            i <= v@.len(),
            forall|j: int| 0 <= j < i ==> #[trigger] v@[j].from_intersector != Some(o),
        decreases v@.len() - i,
    {
        if v[i].from_intersector == Some(o) {
            return true;
        }
        i += 1;
    }
    false
}

proof fn lemma_departs_concat(a: Seq<Laser>, b: Seq<Laser>, o: ObjectId)
    ensures
        departs(a + b, o) == (departs(a, o) || departs(b, o)),
{
    if departs(a + b, o) {
        let j = choose|j: int| 0 <= j < (a + b).len() && #[trigger] (a + b)[j].from_intersector == Some(o);
        if j < a.len() {
            assert(a[j].from_intersector == Some(o));
        } else {
            assert(b[j - a.len()].from_intersector == Some(o));
        }
    }
    if departs(a, o) {
        let j = choose|j: int| 0 <= j < a.len() && #[trigger] a[j].from_intersector == Some(o);
        assert((a + b)[j].from_intersector == Some(o));
    }
    if departs(b, o) {
        let j = choose|j: int| 0 <= j < b.len() && #[trigger] b[j].from_intersector == Some(o);
        assert((a + b)[a.len() + j].from_intersector == Some(o));
    }
}

/// Computes the chain of emitter `root` leaving `origin` in direction `direction`:
/// a ray march from each stretch's start that ends at the first build-layer
/// object, or open after the bound; a reflector that no stretch of `prior` or
/// of this chain departs from starts the next stretch in its own direction.
pub fn route(
    grid: &GridMap,
    registry: &NodeRegistry,
    root: ObjectId,
    origin: GridPosition,
    direction: Direction,
    prior: &Vec<Laser>,
) -> (r: Vec<Laser>)
    requires
        registry.wf(),
    ensures
        r@ == route_spec(build_layer(grid@), registry@, root, origin, direction, prior@),
{
    let mut out: Vec<Laser> = Vec::new();
    let mut from = root;
    let mut start = origin;
    let mut d = direction;
    let mut index: usize = 0;
    let mut fuel: usize = registry.len();
    assert(prior@ + out@ =~= prior@);
    loop
        invariant
            registry.wf(),
            index + fuel == registry@.len(),
            registry@.len() <= usize::MAX,
            out@ + chain(build_layer(grid@), registry@, root, from, start, d, index, prior@ + out@, fuel as nat)
                == route_spec(build_layer(grid@), registry@, root, origin, direction, prior@),
        decreases fuel,
    {
        let m = march_exec(grid, start, d);
        let seg = Laser {
            source: Some(root),
            from_intersector: Some(from),
            to_intersector: m.1,
            index,
            direction: d,
            start,
            end: m.0,
        };
        let ghost old_out = out@;
        let ghost rest = chain(build_layer(grid@), registry@, root, from, start, d, index, prior@ + out@, fuel as nat);
        out.push(seg);
        assert(prior@ + out@ =~= (prior@ + old_out).push(seg));
        assert(old_out + seq![seg] =~= out@);
        if fuel == 0 {
            return out;
        }
        let o = match m.1 {
            None => {
                return out;
            },
            Some(o) => o,
        };
        let n = match registry.get(o) {
            None => {
                return out;
            },
            Some(n) => n,
        };
        match n.kind {
            IntersectorType::Reflector => {},
            _ => {
                return out;
            },
        }
        let taken = departs_exec(prior, o) || departs_exec(&out, o);
        proof {
            lemma_departs_concat(prior@, out@, o);
        }
        if taken {
            return out;
        }
        from = o;
        start = m.0;
        d = n.direction;
        index += 1;
        fuel -= 1;
        assert(old_out + rest =~= out@ + chain(build_layer(grid@), registry@, root, from, start, d, index, prior@ + out@, fuel as nat));
    }
}

/// Computes every beam: the chains of the registered emitters in placement order,
/// each laid after the ones before it.
pub fn compute_beams(grid: &GridMap, registry: &NodeRegistry) -> (r: Vec<Laser>)
    requires
        registry.wf(),
    ensures
        r@ == beams(build_layer(grid@), registry@),
{
    let mut out: Vec<Laser> = Vec::new();
    let mut i: usize = 0;
    let len = registry.len();
    while i < len
        invariant
            registry.wf(),
            len == registry@.len(),
            i <= len,
            out@ == beams_upto(build_layer(grid@), registry@, i as nat),
        decreases len - i,
    {
        let n = registry.at(i);
        match n.kind {
            IntersectorType::Emitter => {
                let mut c = route(grid, registry, n.id, n.position, n.direction, &out);
                out.append(&mut c);
            },
            _ => {},
        }
        i += 1;
    }
    out
}

/// The stretches of `a` that `b` does not hold, in the order of `a`.
pub fn missing(a: &Vec<Laser>, b: &Vec<Laser>) -> (r: Vec<Laser>)
    ensures
        r@ == missing_from(a@, b@),
{
    let mut out: Vec<Laser> = Vec::new();
    let mut i: usize = 0;
    while i < a.len()
        invariant
            i <= a@.len(),
            out@ == missing_from(a@.subrange(0, i as int), b@),
        decreases a@.len() - i,
    {
        let s = a[i];
        let mut found = false;
        let mut j: usize = 0;
        while j < b.len()
            invariant
                j <= b@.len(),
                found == (exists|k: int| 0 <= k < j && #[trigger] b@[k] == s),
            decreases b@.len() - j,
        {
            if b[j] == s {
                found = true;
            }
            j += 1;
        }
        proof {
            reveal(Seq::filter);
            assert(a@.subrange(0, i + 1).drop_last() =~= a@.subrange(0, i as int));
            assert(a@.subrange(0, i + 1).last() == s);
            if found {
                let k = choose|k: int| 0 <= k < j && #[trigger] b@[k] == s;
                assert(b@.contains(s));
            }
        }
        if !found {
            out.push(s);
        }
        i += 1;
    }
    assert(a@.subrange(0, a@.len() as int) =~= a@);
    out
}

} // verus!
