//! Tile model and wire vocabulary.
use vstd::prelude::*;

verus! {

/// Payload of a turret cell.
#[derive(PartialEq, Debug, Clone)]
pub struct TurretData {
    pub level: u32,
    /// Free-form data the client may keep on the cell.
    pub state: String,
}

/// Payload of a mine cell.
#[derive(PartialEq, Debug, Clone)]
pub struct MineData {
    pub level: u32,
    /// Gold currently held.
    pub count: u32,
    /// Most gold the mine can hold.
    pub capacity: u32,
    /// Free-form data the client may keep on the cell.
    pub state: String,
    /// Gold offered to the network.
    pub trade_value: u32,
}

/// Content of one grid cell.
#[derive(PartialEq, Debug, Clone)]
pub enum HexTile {
    Wild,
    Mine(MineData),
    Turret(TurretData),
    Slime,
}

/// The variant of a tile, without its payload.
#[derive(PartialEq, Eq, Structural, Debug, Clone, Copy)]
pub enum TileKind {
    Wild,
    Slime,
    Mine,
    Turret,
}

/// Level of a mine that slime has just spread onto.
pub const SPAWN_MINE_LEVEL: u32 = 1;

/// Gold held by a mine that slime has just spread onto.
pub const SPAWN_MINE_COUNT: u32 = 1;

/// Capacity of a mine that slime has just spread onto.
pub const SPAWN_MINE_CAPACITY: u32 = 1;

impl HexTile {
    pub open spec fn spec_kind(&self) -> TileKind {
        match self {
            HexTile::Wild => TileKind::Wild,
            HexTile::Mine(_) => TileKind::Mine,
            HexTile::Turret(_) => TileKind::Turret,
            HexTile::Slime => TileKind::Slime,
        }
    }

    /// The variant of this tile.
    #[verifier::when_used_as_spec(spec_kind)]
    pub fn kind(&self) -> (k: TileKind)
        ensures
            k == self.spec_kind(),
    {
        match self {
            HexTile::Wild => TileKind::Wild,
            HexTile::Mine(_) => TileKind::Mine,
            HexTile::Turret(_) => TileKind::Turret,
            HexTile::Slime => TileKind::Slime,
        }
    }

    /// A copy of this tile, equal to it in every field.
    pub fn duplicate(&self) -> (r: HexTile)
        ensures
            r == *self,
    {
        match self {
            HexTile::Wild => HexTile::Wild,
            HexTile::Mine(m) => HexTile::Mine(
                MineData {
                    level: m.level,
                    count: m.count,
                    capacity: m.capacity,
                    state: m.state.clone(),
                    trade_value: m.trade_value,
                },
            ),
            HexTile::Turret(t) => HexTile::Turret(TurretData { level: t.level, state: t.state.clone() }),
            HexTile::Slime => HexTile::Slime,
        }
    }

    /// The variant's name, as a label for logs.
    pub fn variant_name(&self) -> (r: &'static str)
        ensures
            r@ == kind_name(self.spec_kind()),
    {
        proof {
            reveal_strlit("Wild");
            reveal_strlit("Mine");
            reveal_strlit("Turret");
            reveal_strlit("Slime");
        }
        match self {
            HexTile::Wild => "Wild",
            HexTile::Mine(_) => "Mine",
            HexTile::Turret(_) => "Turret",
            HexTile::Slime => "Slime",
        }
    }
}

/// The label of each variant.
pub open spec fn kind_name(k: TileKind) -> Seq<char> {
    match k {
        TileKind::Wild => seq!['W', 'i', 'l', 'd'],
        TileKind::Mine => seq!['M', 'i', 'n', 'e'],
        TileKind::Turret => seq!['T', 'u', 'r', 'r', 'e', 't'],
        TileKind::Slime => seq!['S', 'l', 'i', 'm', 'e'],
    }
}

/// A mine as slime leaves it: level one, the spawn stock and capacity, an
/// empty note and nothing offered.
pub open spec fn is_fresh_mine(t: HexTile) -> bool {
    match t {
        HexTile::Mine(m) => m.level == SPAWN_MINE_LEVEL && m.count == SPAWN_MINE_COUNT
            && m.capacity == SPAWN_MINE_CAPACITY && m.state@ == Seq::<char>::empty()
            && m.trade_value == 0,
        _ => false,
    }
}

/// A new mine, as slime leaves it.
pub fn fresh_mine() -> (r: HexTile)
    ensures
        is_fresh_mine(r),
{
    HexTile::Mine(
        MineData {
            level: SPAWN_MINE_LEVEL,
            count: SPAWN_MINE_COUNT,
            capacity: SPAWN_MINE_CAPACITY,
            state: String::new(),
            trade_value: 0,
        },
    )
}

/// One cell's position and content: the unit of a propagated change.
#[derive(PartialEq, Debug, Clone)]
pub struct TileState {
    pub col: i32,
    pub row: i32,
    pub data: HexTile,
}

/// A request from a peer.
#[derive(PartialEq, Debug, Clone)]
pub enum ClientMessage {
    RequestGridState,
    TileUpdate { col: i32, row: i32, data: HexTile },
}

/// An event sent to a peer.
#[derive(PartialEq, Debug, Clone)]
pub enum ServerMessage {
    GridState { width: usize, height: usize, tiles: Vec<TileState> },
    TileUpdate { col: i32, row: i32, data: HexTile },
    /// A tile update named a position outside the grid; nothing changed.
    OutOfBounds { col: i32, row: i32 },
}

} // verus!
