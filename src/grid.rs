use vstd::prelude::*;

verus! {

/// A cell of the playfield.
#[derive(Clone, Copy, Debug, PartialEq, Eq, Structural, Hash)]
pub struct GridPosition {
    pub x: i32,
    pub y: i32,
}

/// The layers of the grid: resource wells on the ground, placed objects on
/// the build layer, and a layer reserved for beams.
#[derive(Clone, Copy, Debug, PartialEq, Eq, Structural, Hash)]
pub enum GridLayer {
    Ground,
    Build,
    Laser,
}

/// The identity of a placed object (the bits of the engine's entity).
#[derive(Clone, Copy, Debug, PartialEq, Eq, Structural, Hash)]
pub struct ObjectId(pub u64);

/// One of the four axis-aligned unit steps.
#[derive(Clone, Copy, Debug, PartialEq, Eq, Structural, Hash)]
pub enum Direction {
    PosX,
    NegX,
    PosY,
    NegY,
}

pub open spec fn layer_code(layer: GridLayer) -> u8 {
    match layer {
        GridLayer::Ground => 0,
        GridLayer::Build => 1,
        GridLayer::Laser => 2,
    }
}

fn layer_code_exec(layer: GridLayer) -> (r: u8)
    ensures
        r == layer_code(layer),
{
    match layer {
        GridLayer::Ground => 0,
        GridLayer::Build => 1,
        GridLayer::Laser => 2,
    }
}

/// The key under which a cell is stored in the backing table.
pub open spec fn cell_key(layer: GridLayer, pos: GridPosition) -> (u8, i32, i32) {
    (layer_code(layer), pos.x, pos.y)
}

/// The backing hash table of a [`GridMap`], keyed by layer code and coordinates.
#[verifier::external_body]
pub struct CellTable {
    map: bevy::utils::HashMap<(u8, i32, i32), u64>,
}

/// What the backing table holds.
pub uninterp spec fn table_cells(t: CellTable) -> Map<(u8, i32, i32), u64>;

/// Relies on `Default` for `bevy::utils::HashMap` (hashbrown's `HashMap`):
/// a new map holds no entry.
#[verifier::external_body]
fn table_new() -> (r: CellTable)
    ensures
        table_cells(r).dom() == Set::<(u8, i32, i32)>::empty(),
{
    CellTable { map: bevy::utils::HashMap::default() }
}

/// Relies on hashbrown's `HashMap::get`: the value stored under the key, if any.
#[verifier::external_body]
fn table_get(t: &CellTable, k: (u8, i32, i32)) -> (r: Option<u64>)
    ensures
        r == (if table_cells(*t).contains_key(k) {
            Some(table_cells(*t)[k])
        } else {
            None::<u64>
        }),
{
    t.map.get(&k).copied()
}

/// Relies on hashbrown's `HashMap::contains_key`: whether the key has a value.
#[verifier::external_body]
fn table_contains(t: &CellTable, k: (u8, i32, i32)) -> (r: bool)
    ensures
        r == table_cells(*t).contains_key(k),
{
    t.map.contains_key(&k)
}

/// Relies on hashbrown's `HashMap::insert`: the key maps to the value afterwards,
/// other keys are untouched.
#[verifier::external_body]
fn table_insert(t: &mut CellTable, k: (u8, i32, i32), v: u64)
    ensures
        table_cells(*final(t)) == table_cells(*old(t)).insert(k, v),
{
    t.map.insert(k, v);
}

/// Relies on hashbrown's `HashMap::remove`: the key has no value afterwards,
/// other keys are untouched.
#[verifier::external_body]
fn table_remove(t: &mut CellTable, k: (u8, i32, i32))
    ensures
        table_cells(*final(t)) == table_cells(*old(t)).remove(k),
{
    t.map.remove(&k);
}

/// Which object occupies each (layer, cell) pair.
pub struct GridMap {
    cells: CellTable,
}

/// The error of a grid write: the cell was occupied, or empty.
#[derive(Clone, Copy, Debug, PartialEq, Eq, Structural)]
pub enum GridError {
    Occupied,
    Empty,
}

impl View for GridMap {
    type V = Map<(GridLayer, GridPosition), ObjectId>;

    closed spec fn view(&self) -> Map<(GridLayer, GridPosition), ObjectId> {
        Map::new(
            |k: (GridLayer, GridPosition)| table_cells(self.cells).contains_key(cell_key(k.0, k.1)),
            |k: (GridLayer, GridPosition)| ObjectId(table_cells(self.cells)[cell_key(k.0, k.1)]),
        )
    }
}

proof fn lemma_cell_key_injective(a: (GridLayer, GridPosition), b: (GridLayer, GridPosition))
    ensures
        cell_key(a.0, a.1) == cell_key(b.0, b.1) ==> a == b,
{
}

impl GridMap {
    pub fn new() -> (r: GridMap)
        ensures
            r@ == Map::<(GridLayer, GridPosition), ObjectId>::empty(),
    {
        let r = GridMap { cells: table_new() };
        assert(r@ =~= Map::<(GridLayer, GridPosition), ObjectId>::empty());
        r
    }

    /// The object at the cell, if any.
    pub fn get(&self, layer: GridLayer, position: GridPosition) -> (r: Option<ObjectId>)
        ensures
            r == (if self@.contains_key((layer, position)) {
                Some(self@[(layer, position)])
            } else {
                None::<ObjectId>
            }),
    {
        match table_get(&self.cells, (layer_code_exec(layer), position.x, position.y)) {
            Some(v) => Some(ObjectId(v)),
            None => None,
        }
    }

    pub fn contains(&self, layer: GridLayer, position: GridPosition) -> (r: bool)
        ensures
            r == self@.contains_key((layer, position)),
    {
        table_contains(&self.cells, (layer_code_exec(layer), position.x, position.y))
    }

    /// Puts an object into an empty cell; an occupied cell is left as it is.
    pub fn set(&mut self, layer: GridLayer, position: GridPosition, value: ObjectId) -> (r: Result<(), GridError>)
        ensures
            old(self)@.contains_key((layer, position)) ==> r == Err::<(), GridError>(GridError::Occupied)
                && final(self)@ == old(self)@,
            !old(self)@.contains_key((layer, position)) ==> r is Ok
                && final(self)@ == old(self)@.insert((layer, position), value),
    {
        if self.contains(layer, position) {
            return Err(GridError::Occupied);
        }
        let ghost before = self@;
        table_insert(&mut self.cells, (layer_code_exec(layer), position.x, position.y), value.0);
        proof {
            assert forall|k: (GridLayer, GridPosition)| #![auto] cell_key(k.0, k.1) == cell_key(layer, position) implies k == (layer, position) by {
                lemma_cell_key_injective(k, (layer, position));
            }
        }
        assert(self@ =~= before.insert((layer, position), value));
        Ok(())
    }

    /// Empties an occupied cell; an empty cell is an error.
    pub fn remove(&mut self, layer: GridLayer, position: GridPosition) -> (r: Result<(), GridError>)
        ensures
            !old(self)@.contains_key((layer, position)) ==> r == Err::<(), GridError>(GridError::Empty)
                && final(self)@ == old(self)@,
            old(self)@.contains_key((layer, position)) ==> r is Ok
                && final(self)@ == old(self)@.remove((layer, position)),
    {
        if !self.contains(layer, position) {
            return Err(GridError::Empty);
        }
        let ghost before = self@;
        table_remove(&mut self.cells, (layer_code_exec(layer), position.x, position.y));
        proof {
            assert forall|k: (GridLayer, GridPosition)| #![auto] cell_key(k.0, k.1) == cell_key(layer, position) implies k == (layer, position) by {
                lemma_cell_key_injective(k, (layer, position));
            }
        }
        assert(self@ =~= before.remove((layer, position)));
        Ok(())
    }
}

} // verus!
