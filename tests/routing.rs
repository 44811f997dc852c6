use spectrum::beam::{compute_beams, march_exec, missing, route, Laser, MAX_STEPS};
use spectrum::grid::{Direction, GridError, GridLayer, GridMap, GridPosition, ObjectId};
use spectrum::registry::{IntersectorType, Node, NodeRegistry};
use spectrum::topology::{LaserUpdateEvent, TopologyChangeHandler, TopologyError, UpdateType};

fn pos(x: i32, y: i32) -> GridPosition {
    GridPosition { x, y }
}

fn seg(
    root: u64,
    from: u64,
    to: Option<u64>,
    index: usize,
    direction: Direction,
    start: GridPosition,
    end: GridPosition,
) -> Laser {
    Laser {
        source: Some(ObjectId(root)),
        from_intersector: Some(ObjectId(from)),
        to_intersector: to.map(ObjectId),
        index,
        direction,
        start,
        end,
    }
}

/// A playfield with a resource well at (0,0) and an emitter on it facing +y.
fn with_emitter() -> TopologyChangeHandler {
    let mut h = TopologyChangeHandler::new();
    h.place_resource(ObjectId(100), pos(0, 0)).unwrap();
    h.place(ObjectId(1), IntersectorType::Emitter, Direction::PosY, pos(0, 0)).unwrap();
    h
}

#[test]
fn scenario_a_open_segment() {
    let h = with_emitter();
    assert_eq!(
        h.lasers().clone(),
        vec![seg(1, 1, None, 0, Direction::PosY, pos(0, 0), pos(0, MAX_STEPS as i32))]
    );
}

#[test]
fn scenario_b_reflector_turns_beam() {
    let mut h = with_emitter();
    let ch = h
        .place(ObjectId(2), IntersectorType::Reflector, Direction::PosX, pos(0, 3))
        .unwrap();
    let expected = vec![
        seg(1, 1, Some(2), 0, Direction::PosY, pos(0, 0), pos(0, 3)),
        seg(1, 2, None, 1, Direction::PosX, pos(0, 3), pos(10, 3)),
    ];
    assert_eq!(h.lasers().clone(), expected);
    assert_eq!(ch.created, expected);
    assert_eq!(
        ch.destroyed,
        vec![seg(1, 1, None, 0, Direction::PosY, pos(0, 0), pos(0, 10))]
    );
}

#[test]
fn scenario_c_remove_reflector() {
    let mut h = with_emitter();
    h.place(ObjectId(2), IntersectorType::Reflector, Direction::PosX, pos(0, 3))
        .unwrap();
    let ch = h.remove(pos(0, 3)).unwrap();
    let open = seg(1, 1, None, 0, Direction::PosY, pos(0, 0), pos(0, 10));
    assert_eq!(h.lasers().clone(), vec![open]);
    assert_eq!(ch.created, vec![open]);
    assert_eq!(ch.destroyed.len(), 2);
    assert!(!h.grid().contains(GridLayer::Build, pos(0, 3)));
    assert_eq!(h.registry().get(ObjectId(2)), None);
}

#[test]
fn scenario_d_occupied_cell_rejected() {
    let mut h = with_emitter();
    h.place(ObjectId(2), IntersectorType::Reflector, Direction::PosX, pos(0, 3))
        .unwrap();
    let before = h.lasers().clone();
    let r = h.place(ObjectId(3), IntersectorType::Reflector, Direction::NegX, pos(0, 3));
    assert!(matches!(r, Err(TopologyError::CellOccupied)));
    assert_eq!(h.lasers().clone(), before);
    assert_eq!(h.grid().get(GridLayer::Build, pos(0, 3)), Some(ObjectId(2)));
    assert_eq!(h.registry().len(), 2);
    assert_eq!(h.registry().get(ObjectId(3)), None);
}

#[test]
fn scenario_e_remove_emitter_with_two_hops() {
    let mut h = with_emitter();
    h.place(ObjectId(2), IntersectorType::Reflector, Direction::PosX, pos(0, 3))
        .unwrap();
    h.place(ObjectId(3), IntersectorType::Reflector, Direction::NegY, pos(4, 3))
        .unwrap();
    assert_eq!(
        h.lasers().clone(),
        vec![
            seg(1, 1, Some(2), 0, Direction::PosY, pos(0, 0), pos(0, 3)),
            seg(1, 2, Some(3), 1, Direction::PosX, pos(0, 3), pos(4, 3)),
            seg(1, 3, None, 2, Direction::NegY, pos(4, 3), pos(4, -7)),
        ]
    );
    let ch = h.remove(pos(0, 0)).unwrap();
    assert!(h.lasers().is_empty());
    assert_eq!(ch.destroyed.len(), 3);
    assert!(ch.created.is_empty());
    assert_eq!(h.grid().get(GridLayer::Build, pos(0, 3)), Some(ObjectId(2)));
    assert_eq!(h.grid().get(GridLayer::Build, pos(4, 3)), Some(ObjectId(3)));
    assert_eq!(h.registry().len(), 2);
}

#[test]
fn route_twice_gives_the_same_chain() {
    let h = {
        let mut h = with_emitter();
        h.place(ObjectId(2), IntersectorType::Reflector, Direction::PosX, pos(0, 3))
            .unwrap();
        h
    };
    let a = route(h.grid(), h.registry(), ObjectId(1), pos(0, 0), Direction::PosY, &Vec::new());
    let b = route(h.grid(), h.registry(), ObjectId(1), pos(0, 0), Direction::PosY, &Vec::new());
    assert_eq!(a, b);
    assert_eq!(a.len(), 2);
}

#[test]
fn recompute_on_unchanged_topology_is_quiet() {
    let mut h = with_emitter();
    h.place(ObjectId(2), IntersectorType::Reflector, Direction::PosX, pos(0, 3))
        .unwrap();
    let before = h.lasers().clone();
    let ch = h.recompute();
    assert!(ch.created.is_empty());
    assert!(ch.destroyed.is_empty());
    assert_eq!(h.lasers().clone(), before);
}

#[test]
fn unobstructed_march_stops_at_the_bound() {
    let grid = GridMap::new();
    assert_eq!(march_exec(&grid, pos(5, -2), Direction::NegX), (pos(-5, -2), None));
}

#[test]
fn object_at_the_bound_is_hit() {
    let mut grid = GridMap::new();
    grid.set(GridLayer::Build, pos(0, 10), ObjectId(9)).unwrap();
    assert_eq!(
        march_exec(&grid, pos(0, 0), Direction::PosY),
        (pos(0, 10), Some(ObjectId(9)))
    );
}

#[test]
fn object_past_the_bound_is_not_seen() {
    let mut grid = GridMap::new();
    grid.set(GridLayer::Build, pos(0, 11), ObjectId(9)).unwrap();
    grid.set(GridLayer::Ground, pos(0, 4), ObjectId(8)).unwrap();
    assert_eq!(march_exec(&grid, pos(0, 0), Direction::PosY), (pos(0, 10), None));
}

#[test]
fn march_stops_at_the_edge_of_the_coordinates() {
    let grid = GridMap::new();
    assert_eq!(
        march_exec(&grid, pos(0, i32::MAX - 2), Direction::PosY),
        (pos(0, i32::MAX), None)
    );
}

#[test]
fn two_emitters_into_one_reflector_give_it_one_outgoing_beam() {
    let mut h = TopologyChangeHandler::new();
    h.place_resource(ObjectId(100), pos(0, 0)).unwrap();
    h.place_resource(ObjectId(101), pos(6, 3)).unwrap();
    h.place(ObjectId(1), IntersectorType::Emitter, Direction::PosY, pos(0, 0)).unwrap();
    h.place(ObjectId(2), IntersectorType::Emitter, Direction::NegX, pos(6, 3)).unwrap();
    h.place(ObjectId(3), IntersectorType::Reflector, Direction::NegY, pos(0, 3)).unwrap();
    assert_eq!(
        h.lasers().clone(),
        vec![
            seg(1, 1, Some(3), 0, Direction::PosY, pos(0, 0), pos(0, 3)),
            seg(1, 3, Some(1), 1, Direction::NegY, pos(0, 3), pos(0, 0)),
            seg(2, 2, Some(3), 0, Direction::NegX, pos(6, 3), pos(0, 3)),
        ]
    );
    let from: Vec<_> = h.lasers().iter().map(|l| l.from_intersector).collect();
    for i in 0..from.len() {
        for j in 0..from.len() {
            if i != j {
                assert_ne!(from[i], from[j]);
            }
        }
    }
}

#[test]
fn reflector_cycle_ends() {
    let mut h = with_emitter();
    h.place(ObjectId(2), IntersectorType::Reflector, Direction::PosX, pos(0, 2)).unwrap();
    h.place(ObjectId(3), IntersectorType::Reflector, Direction::PosY, pos(2, 2)).unwrap();
    h.place(ObjectId(4), IntersectorType::Reflector, Direction::NegX, pos(2, 4)).unwrap();
    h.place(ObjectId(5), IntersectorType::Reflector, Direction::NegY, pos(0, 4)).unwrap();
    assert_eq!(
        h.lasers().clone(),
        vec![
            seg(1, 1, Some(2), 0, Direction::PosY, pos(0, 0), pos(0, 2)),
            seg(1, 2, Some(3), 1, Direction::PosX, pos(0, 2), pos(2, 2)),
            seg(1, 3, Some(4), 2, Direction::PosY, pos(2, 2), pos(2, 4)),
            seg(1, 4, Some(5), 3, Direction::NegX, pos(2, 4), pos(0, 4)),
            seg(1, 5, Some(2), 4, Direction::NegY, pos(0, 4), pos(0, 2)),
        ]
    );
}

#[test]
fn collector_absorbs_the_beam() {
    let mut h = with_emitter();
    h.place(ObjectId(2), IntersectorType::Collector, Direction::PosX, pos(0, 5)).unwrap();
    assert_eq!(
        h.lasers().clone(),
        vec![seg(1, 1, Some(2), 0, Direction::PosY, pos(0, 0), pos(0, 5))]
    );
}

#[test]
fn emitter_needs_a_resource() {
    let mut h = TopologyChangeHandler::new();
    let r = h.place(ObjectId(1), IntersectorType::Emitter, Direction::PosY, pos(0, 0));
    assert!(matches!(r, Err(TopologyError::NoResource)));
    assert_eq!(h.registry().len(), 0);
}

#[test]
fn reflector_cannot_stand_on_a_resource() {
    let mut h = TopologyChangeHandler::new();
    h.place_resource(ObjectId(100), pos(0, 0)).unwrap();
    let r = h.place(ObjectId(1), IntersectorType::Reflector, Direction::PosY, pos(0, 0));
    assert!(matches!(r, Err(TopologyError::OnResource)));
    assert!(!h.grid().contains(GridLayer::Build, pos(0, 0)));
}

#[test]
fn identity_placed_twice_is_rejected() {
    let mut h = with_emitter();
    let r = h.place(ObjectId(1), IntersectorType::Reflector, Direction::PosX, pos(0, 3));
    assert!(matches!(r, Err(TopologyError::IdInUse)));
    assert!(!h.grid().contains(GridLayer::Build, pos(0, 3)));
}

#[test]
fn removing_an_empty_cell_is_rejected() {
    let mut h = with_emitter();
    let before = h.lasers().clone();
    assert!(matches!(h.remove(pos(3, 3)), Err(TopologyError::CellEmpty)));
    assert_eq!(h.lasers().clone(), before);
}

#[test]
fn resource_twice_is_rejected() {
    let mut h = TopologyChangeHandler::new();
    h.place_resource(ObjectId(100), pos(1, 1)).unwrap();
    assert_eq!(h.place_resource(ObjectId(101), pos(1, 1)), Err(TopologyError::CellOccupied));
    assert_eq!(h.grid().get(GridLayer::Ground, pos(1, 1)), Some(ObjectId(100)));
}

#[test]
fn update_events_dispatch() {
    let mut h = TopologyChangeHandler::new();
    h.place_resource(ObjectId(100), pos(0, 0)).unwrap();
    let place = LaserUpdateEvent {
        entity: ObjectId(1),
        update_type: UpdateType::Place,
        intersector: IntersectorType::Emitter,
        grid_position: pos(0, 0),
        direction: Direction::PosY,
    };
    let ch = h.update(&place).unwrap();
    assert_eq!(ch.created.len(), 1);
    let again = LaserUpdateEvent { update_type: UpdateType::Update, ..place };
    let ch = h.update(&again).unwrap();
    assert!(ch.created.is_empty() && ch.destroyed.is_empty());
    let gone = LaserUpdateEvent { update_type: UpdateType::Remove, ..place };
    let ch = h.update(&gone).unwrap();
    assert_eq!(ch.destroyed.len(), 1);
    assert!(h.lasers().is_empty());
    assert!(matches!(h.update(&gone), Err(TopologyError::CellEmpty)));
}

#[test]
fn grid_map_set_get_remove() {
    let mut g = GridMap::new();
    assert_eq!(g.get(GridLayer::Build, pos(2, 3)), None);
    assert_eq!(g.set(GridLayer::Build, pos(2, 3), ObjectId(7)), Ok(()));
    assert_eq!(g.set(GridLayer::Build, pos(2, 3), ObjectId(8)), Err(GridError::Occupied));
    assert_eq!(g.get(GridLayer::Build, pos(2, 3)), Some(ObjectId(7)));
    assert_eq!(g.get(GridLayer::Ground, pos(2, 3)), None);
    assert_eq!(g.get(GridLayer::Build, pos(3, 2)), None);
    assert_eq!(g.set(GridLayer::Ground, pos(2, 3), ObjectId(7)), Ok(()));
    assert!(g.contains(GridLayer::Ground, pos(2, 3)));
    assert_eq!(g.remove(GridLayer::Build, pos(2, 3)), Ok(()));
    assert_eq!(g.remove(GridLayer::Build, pos(2, 3)), Err(GridError::Empty));
    assert!(!g.contains(GridLayer::Build, pos(2, 3)));
    assert!(g.contains(GridLayer::Ground, pos(2, 3)));
}

#[test]
fn registry_keeps_order_on_removal() {
    let mut r = NodeRegistry::new();
    let n = |i: u64| Node {
        id: ObjectId(i),
        kind: IntersectorType::Reflector,
        direction: Direction::PosX,
        position: pos(i as i32, 0),
    };
    r.insert(n(1));
    r.insert(n(2));
    r.insert(n(3));
    assert_eq!(r.remove(ObjectId(2)), Some(n(2)));
    assert_eq!(r.remove(ObjectId(2)), None);
    assert_eq!(r.len(), 2);
    assert_eq!(r.at(0), n(1));
    assert_eq!(r.at(1), n(3));
    assert_eq!(r.find(ObjectId(3)), Some(1));
}

#[test]
fn route_after_prior_beam_stops_at_taken_reflector() {
    let h = {
        let mut h = with_emitter();
        h.place(ObjectId(2), IntersectorType::Reflector, Direction::PosX, pos(0, 3)).unwrap();
        h
    };
    let prior = vec![seg(9, 2, None, 0, Direction::PosX, pos(0, 3), pos(10, 3))];
    let r = route(h.grid(), h.registry(), ObjectId(1), pos(0, 0), Direction::PosY, &prior);
    assert_eq!(r, vec![seg(1, 1, Some(2), 0, Direction::PosY, pos(0, 0), pos(0, 3))]);
    assert_eq!(compute_beams(h.grid(), h.registry()).len(), 2);
}

#[test]
fn missing_keeps_order() {
    let a = seg(1, 1, None, 0, Direction::PosY, pos(0, 0), pos(0, 10));
    let b = seg(1, 2, None, 1, Direction::PosX, pos(0, 3), pos(10, 3));
    let c = seg(1, 3, None, 2, Direction::NegX, pos(0, 5), pos(-10, 5));
    assert_eq!(missing(&vec![a, b, c], &vec![b]), vec![a, c]);
    assert!(missing(&vec![a, b], &vec![b, a]).is_empty());
}
