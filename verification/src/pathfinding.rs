//! Tile grid, climbable tiles, the rules for standing, climbing and moving between tiles,
//! and the search for a path of such moves.

use vstd::prelude::*;

verus! {

/// The largest width or height of a terrain grid, in tiles.
pub const MAX_MAP_SIDE: u32 = 32768;

/// The largest tile coordinate a path search accepts for its start and target.
pub const MAX_SEARCH_COORD: u32 = 0x1000_0000;

/// The position of a tile: column `x`, row `y`.
#[derive(Clone, Copy, Debug, PartialEq, Eq, Hash, Structural)]
pub struct TilePos {
    pub x: u32,
    pub y: u32,
}

/// The size of a tile grid: `x` columns and `y` rows.
#[derive(Clone, Copy, Debug, PartialEq, Eq, Hash, Structural)]
pub struct TilemapSize {
    pub x: u32,
    pub y: u32,
}

/// The eight neighbours of a tile on a square grid.
#[derive(Clone, Copy, Debug, PartialEq, Eq, Hash, Structural)]
pub enum SquareDirection {
    North,
    NorthEast,
    East,
    SouthEast,
    South,
    SouthWest,
    West,
    NorthWest,
}

/// The column and row step of a direction: north is one row up, east one column right.
pub open spec fn direction_delta(direction: SquareDirection) -> (int, int) {
    match direction {
        SquareDirection::North => (0, 1),
        SquareDirection::NorthEast => (1, 1),
        SquareDirection::East => (1, 0),
        SquareDirection::SouthEast => (1, -1),
        SquareDirection::South => (0, -1),
        SquareDirection::SouthWest => (-1, -1),
        SquareDirection::West => (-1, 0),
        SquareDirection::NorthWest => (-1, 1),
    }
}

/// The neighbour of `pos` in `direction`, when it lies inside a grid of `size`.
pub open spec fn offset(pos: TilePos, direction: SquareDirection, size: TilemapSize) -> Option<TilePos> {
    let x = pos.x + direction_delta(direction).0;
    let y = pos.y + direction_delta(direction).1;
    if 0 <= x < size.x && 0 <= y < size.y {
        Some(TilePos { x: x as u32, y: y as u32 })
    } else {
        None
    }
}

impl TilePos {
    /// A tile position.
    pub fn new(x: u32, y: u32) -> (pos: TilePos)
        ensures
            pos == (TilePos { x, y }),
    {
        TilePos { x, y }
    }

    /// The neighbour of this tile in `direction`, or `None` when it lies outside a grid of
    /// `map_size`.
    pub fn square_offset(&self, direction: &SquareDirection, map_size: &TilemapSize) -> (neighbour: Option<TilePos>)
        ensures
            neighbour == offset(*self, *direction, *map_size),
    {
        let (dx, dy): (i64, i64) = match direction {
            SquareDirection::North => (0, 1),
            SquareDirection::NorthEast => (1, 1),
            SquareDirection::East => (1, 0),
            SquareDirection::SouthEast => (1, -1),
            SquareDirection::South => (0, -1),
            SquareDirection::SouthWest => (-1, -1),
            SquareDirection::West => (-1, 0),
            SquareDirection::NorthWest => (-1, 1),
        };
        let x: i64 = self.x as i64 + dx;
        let y: i64 = self.y as i64 + dy;
        if x < 0 || y < 0 || x >= map_size.x as i64 || y >= map_size.y as i64 {
            None
        } else {
            Some(TilePos { x: x as u32, y: y as u32 })
        }
    }
}

/// The terrain as a value: columns, rows, and the tile kinds row by row (0 is open air).
pub type TerrainV = (u32, u32, Seq<u8>);

/// The grid of terrain tiles. Each tile holds a kind; kind 0 is open air, any other kind
/// is solid ground.
pub struct TerrainData {
    width: u32,
    height: u32,
    tiles: Vec<u8>,
}

impl View for TerrainData {
    type V = TerrainV;

    closed spec fn view(&self) -> TerrainV {
        (self.width, self.height, self.tiles@)
    }
}

/// The grid size of a terrain.
pub open spec fn terrain_size(terrain: TerrainV) -> TilemapSize {
    TilemapSize { x: terrain.0, y: terrain.1 }
}

/// The kind of the tile at `pos`, or `None` outside the grid.
pub open spec fn tile_at(terrain: TerrainV, pos: TilePos) -> Option<u8> {
    if pos.x < terrain.0 && pos.y < terrain.1 {
        Some(terrain.2[pos.y * terrain.0 + pos.x])
    } else {
        None
    }
}

/// The tile at `pos` is inside the grid and solid.
pub open spec fn is_solid(terrain: TerrainV, pos: TilePos) -> bool {
    tile_at(terrain, pos) matches Some(kind) && kind != 0
}

/// The tile at `pos` is inside the grid and open.
pub open spec fn is_open(terrain: TerrainV, pos: TilePos) -> bool {
    tile_at(terrain, pos) == Some(0u8)
}

/// A well-formed terrain: a tile for every cell, and sides of at most `MAX_MAP_SIDE`.
pub open spec fn terrain_wf(terrain: TerrainV) -> bool {
    &&& terrain.0 <= MAX_MAP_SIDE
    &&& terrain.1 <= MAX_MAP_SIDE
    &&& terrain.2.len() == terrain.0 * terrain.1
}

impl TerrainData {
    #[verifier::type_invariant]
    spec fn inv(&self) -> bool {
        terrain_wf(self@)
    }

    /// A terrain of `width` by `height` open tiles.
    pub fn new(width: u32, height: u32) -> (terrain: TerrainData)
        requires
            width <= MAX_MAP_SIDE,
            height <= MAX_MAP_SIDE,
        ensures
            terrain@.0 == width,
            terrain@.1 == height,
            forall|p: TilePos| p.x < width && p.y < height ==> #[trigger] tile_at(terrain@, p) == Some(0u8),
    {
        proof {
            vstd::arithmetic::mul::lemma_mul_upper_bound(width as int, MAX_MAP_SIDE as int, height as int, MAX_MAP_SIDE as int);
        }
        let count: usize = width as usize * height as usize;
        let mut tiles: Vec<u8> = Vec::new();
        let mut k: usize = 0;
        while k < count
            invariant
                k <= count,
                count == width * height,
                tiles@.len() == k,
                forall|m: int| 0 <= m < k ==> tiles@[m] == 0u8,
            decreases count - k,
        {
            tiles.push(0u8);
            k = k + 1;
        }
        let terrain = TerrainData { width, height, tiles };
        proof {
            assert forall|p: TilePos| p.x < width && p.y < height implies #[trigger] tile_at(terrain@, p) == Some(0u8) by {
                lemma_cell_index(p, width, height);
            }
        }
        terrain
    }

    /// The number of columns and rows.
    pub fn map_size(&self) -> (size: TilemapSize)
        ensures
            size == terrain_size(self@),
    {
        TilemapSize { x: self.width, y: self.height }
    }

    /// The kind of the tile at `pos`, or `None` outside the grid.
    pub fn get_tile(&self, pos: TilePos) -> (kind: Option<u8>)
        ensures
            kind == tile_at(self@, pos),
            terrain_wf(self@),
    {
        proof {
            use_type_invariant(self);
        }
        if pos.x < self.width && pos.y < self.height {
            proof {
                lemma_cell_index(pos, self.width, self.height);
            }
            let index: usize = pos.y as usize * self.width as usize + pos.x as usize;
            Some(self.tiles[index])
        } else {
            None
        }
    }

    /// Sets the kind of the tile at `pos`; outside the grid nothing changes.
    pub fn set_tile(&mut self, pos: TilePos, kind: u8)
        ensures
            terrain_size(final(self)@) == terrain_size(old(self)@),
            forall|p: TilePos| #[trigger] tile_at(final(self)@, p) == if p == pos && tile_at(old(self)@, p) is Some {
                Some(kind)
            } else {
                tile_at(old(self)@, p)
            },
    {
        proof {
            use_type_invariant(&*self);
        }
        if pos.x < self.width && pos.y < self.height {
            proof {
                lemma_cell_index(pos, self.width, self.height);
            }
            let index: usize = pos.y as usize * self.width as usize + pos.x as usize;
            let ghost before = *self;
            self.tiles[index] = kind;
            proof {
                assert forall|p: TilePos| #[trigger] tile_at(self@, p) == if p == pos && tile_at(before@, p) is Some {
                    Some(kind)
                } else {
                    tile_at(before@, p)
                } by {
                    if p.x < self.width && p.y < self.height {
                        lemma_cell_index(p, self.width, self.height);
                        if p != pos {
                            lemma_cell_distinct(p, pos, self.width);
                        }
                    }
                }
            }
        }
    }
}

/// A cell inside the grid has an index inside the tile list, and that index fits a `usize`.
proof fn lemma_cell_index(p: TilePos, width: u32, height: u32)
    requires
        p.x < width,
        p.y < height,
        width <= MAX_MAP_SIDE,
        height <= MAX_MAP_SIDE,
    ensures
        0 <= p.y * width + p.x < width * height,
        width * height <= MAX_MAP_SIDE * MAX_MAP_SIDE,
        p.y * width + p.x < usize::MAX,
{
    assert(p.y * width + p.x < width * height) by (nonlinear_arith)
        requires
            p.x < width,
            p.y < height,
    ;
    assert(0 <= p.y * width) by (nonlinear_arith)
        requires
            p.y >= 0,
            width >= 0,
    ;
    assert(width * height <= MAX_MAP_SIDE * MAX_MAP_SIDE) by (nonlinear_arith)
        requires
            width <= MAX_MAP_SIDE,
            height <= MAX_MAP_SIDE,
    ;
}

/// Two different cells of a grid have different indices.
proof fn lemma_cell_distinct(p: TilePos, q: TilePos, width: u32)
    requires
        p.x < width,
        q.x < width,
        p != q,
    ensures
        p.y * width + p.x != q.y * width + q.x,
{
    if p.y == q.y {
    } else if p.y < q.y {
        assert(p.y * width + width <= q.y * width) by (nonlinear_arith)
            requires
                p.y < q.y,
        ;
    } else {
        assert(q.y * width + width <= p.y * width) by (nonlinear_arith)
            requires
                q.y < p.y,
        ;
    }
}


/// The set of tiles a worker can climb in, kept in a hash set.
#[verifier::external_body]
pub struct ClimbableMap {
    tiles: bevy::utils::HashSet<TilePos>,
}

/// The tiles, by position, that a climbable map holds.
pub uninterp spec fn climbable_tiles(map: ClimbableMap) -> Set<TilePos>;

impl ClimbableMap {
    /// `HashSet::default` (hashbrown, through bevy's alias): a set that holds nothing.
    #[verifier::external_body]
    fn empty_set() -> (map: ClimbableMap)
        ensures
            climbable_tiles(map) == Set::<TilePos>::empty(),
    {
        ClimbableMap { tiles: bevy::utils::HashSet::default() }
    }

    /// `HashSet::insert` (hashbrown): afterwards the set holds `tile_pos` too, and nothing
    /// else changes.
    #[verifier::external_body]
    fn insert_tile(&mut self, tile_pos: TilePos)
        ensures
            climbable_tiles(*final(self)) == climbable_tiles(*old(self)).insert(tile_pos),
    {
        self.tiles.insert(tile_pos);
    }

    /// `HashSet::contains` (hashbrown): whether the set holds `tile_pos`.
    #[verifier::external_body]
    fn contains_tile(&self, tile_pos: &TilePos) -> (found: bool)
        ensures
            found == climbable_tiles(*self).contains(*tile_pos),
    {
        self.tiles.contains(tile_pos)
    }

    /// A map in which no tile is climbable.
    pub fn new() -> (map: ClimbableMap)
        ensures
            climbable_tiles(map) == Set::<TilePos>::empty(),
    {
        ClimbableMap::empty_set()
    }

    /// Marks the tile as climbable.
    pub fn mark_climbable(&mut self, tile_pos: TilePos)
        ensures
            climbable_tiles(*final(self)) == climbable_tiles(*old(self)).insert(tile_pos),
    {
        self.insert_tile(tile_pos);
    }

    /// Whether the tile is climbable.
    pub fn is_climbable(&self, tile_pos: TilePos) -> (climbable: bool)
        ensures
            climbable == climbable_tiles(*self).contains(tile_pos),
    {
        self.contains_tile(&tile_pos)
    }
}

/// The climbable tiles of an optional map.
pub open spec fn climbable_view(map: Option<&ClimbableMap>) -> Option<Set<TilePos>> {
    match map {
        Some(m) => Some(climbable_tiles(*m)),
        None => None,
    }
}

/// There is a climbable map and it marks `pos`.
pub open spec fn climbable_at(climbable: Option<Set<TilePos>>, pos: TilePos) -> bool {
    climbable matches Some(tiles) && tiles.contains(pos)
}

/// A worker can stand at `pos`: the tile is not solid and the tile below it is solid.
pub open spec fn stand_ok(terrain: TerrainV, pos: TilePos) -> bool {
    &&& !is_solid(terrain, pos)
    &&& offset(pos, SquareDirection::South, terrain_size(terrain)) matches Some(below) && is_solid(terrain, below)
}

/// A worker can be at `pos`: the tile is open, and it is climbable or can be stood on.
pub open spec fn stand_or_climb_ok(terrain: TerrainV, climbable: Option<Set<TilePos>>, pos: TilePos) -> bool {
    &&& is_open(terrain, pos)
    &&& climbable_at(climbable, pos) || stand_ok(terrain, pos)
}

/// A worker may move from `pos` in `direction`: the neighbour exists and is open; with a
/// climbable map, a move south is allowed from a climbable tile and a move north only into
/// a climbable tile; a diagonal move up needs the tile above to be open, a diagonal move
/// down needs the tile beside, on the side of the move, to be open; east and west are
/// allowed; north and south are not allowed otherwise.
pub open spec fn move_ok(terrain: TerrainV, climbable: Option<Set<TilePos>>, pos: TilePos, direction: SquareDirection) -> bool {
    let size = terrain_size(terrain);
    match offset(pos, direction, size) {
        None => false,
        Some(next) => {
            if !is_open(terrain, next) {
                false
            } else if climbable is Some && direction == SquareDirection::South && climbable_at(climbable, pos) {
                true
            } else if climbable is Some && direction == SquareDirection::North {
                climbable_at(climbable, next)
            } else {
                match direction {
                    SquareDirection::NorthEast | SquareDirection::NorthWest =>
                        offset(pos, SquareDirection::North, size) matches Some(up) && is_open(terrain, up),
                    SquareDirection::SouthEast =>
                        offset(pos, SquareDirection::East, size) matches Some(side) && is_open(terrain, side),
                    SquareDirection::SouthWest =>
                        offset(pos, SquareDirection::West, size) matches Some(side) && is_open(terrain, side),
                    SquareDirection::West | SquareDirection::East => true,
                    _ => false,
                }
            }
        },
    }
}

/// The step from `pos` in `direction` is a move of a path: the neighbour exists, a worker
/// can stand there (for a diagonal step down) or stand or climb there (otherwise), and
/// the move is allowed.
pub open spec fn step_ok(terrain: TerrainV, climbable: Option<Set<TilePos>>, pos: TilePos, direction: SquareDirection) -> bool {
    match offset(pos, direction, terrain_size(terrain)) {
        None => false,
        Some(next) => {
            &&& if direction == SquareDirection::SouthWest || direction == SquareDirection::SouthEast {
                stand_ok(terrain, next)
            } else {
                stand_or_climb_ok(terrain, climbable, next)
            }
            &&& move_ok(terrain, climbable, pos, direction)
        },
    }
}

/// The directions in the order the search tries them: clockwise from north.
pub open spec fn direction_at(i: int) -> SquareDirection {
    if i == 0 {
        SquareDirection::North
    } else if i == 1 {
        SquareDirection::NorthEast
    } else if i == 2 {
        SquareDirection::East
    } else if i == 3 {
        SquareDirection::SouthEast
    } else if i == 4 {
        SquareDirection::South
    } else if i == 5 {
        SquareDirection::SouthWest
    } else if i == 6 {
        SquareDirection::West
    } else {
        SquareDirection::NorthWest
    }
}

/// The moves from `pos` over the first `n` directions, each with cost 1.
pub open spec fn neighbours_upto(terrain: TerrainV, climbable: Option<Set<TilePos>>, pos: TilePos, n: nat) -> Seq<(TilePos, i32)>
    decreases n,
{
    if n == 0 {
        Seq::empty()
    } else {
        let before = neighbours_upto(terrain, climbable, pos, (n - 1) as nat);
        let direction = direction_at(n - 1);
        if step_ok(terrain, climbable, pos, direction) {
            before.push((offset(pos, direction, terrain_size(terrain)).unwrap(), 1i32))
        } else {
            before
        }
    }
}

/// All moves from `pos`, in the order of `direction_at`, each with cost 1.
pub open spec fn neighbours(terrain: TerrainV, climbable: Option<Set<TilePos>>, pos: TilePos) -> Seq<(TilePos, i32)> {
    neighbours_upto(terrain, climbable, pos, 8)
}

/// Every step of the path is a move from one tile to the next.
pub open spec fn is_walk(terrain: TerrainV, climbable: Option<Set<TilePos>>, path: Seq<TilePos>) -> bool {
    forall|i: int| 0 <= i < path.len() - 1 ==> neighbours(terrain, climbable, #[trigger] path[i]).contains((path[i + 1], 1i32))
}

/// Some walk leads from `start` to `target`.
pub open spec fn reachable(terrain: TerrainV, climbable: Option<Set<TilePos>>, start: TilePos, target: TilePos) -> bool {
    exists|path: Seq<TilePos>| {
        &&& path.len() >= 1
        &&& path[0] == start
        &&& path.last() == target
        &&& #[trigger] is_walk(terrain, climbable, path)
    }
}

/// Whether the terrain is open at `pos`; `false` outside the grid.
fn open_at(terrain: &TerrainData, pos: TilePos) -> (open: bool)
    ensures
        open == is_open(terrain@, pos),
{
    match terrain.get_tile(pos) {
        Some(kind) => kind == 0,
        None => false,
    }
}

/// Whether the terrain is solid at `pos`; `false` outside the grid.
fn solid_at(terrain: &TerrainData, pos: TilePos) -> (solid: bool)
    ensures
        solid == is_solid(terrain@, pos),
{
    match terrain.get_tile(pos) {
        Some(kind) => kind != 0,
        None => false,
    }
}

/// Whether a worker can be at `tile_pos`; see `stand_or_climb_ok`.
pub fn can_stand_or_climb(terrain_data: &TerrainData, climbable_map: Option<&ClimbableMap>, tile_pos: TilePos) -> (ok: bool)
    ensures
        ok == stand_or_climb_ok(terrain_data@, climbable_view(climbable_map), tile_pos),
{
    let tile_is_empty = open_at(terrain_data, tile_pos);
    if !tile_is_empty {
        return false;
    }
    let can_climb_in_tile = can_climb(climbable_map, tile_pos);
    let can_stand_in_tile = can_stand(terrain_data, tile_pos);
    can_climb_in_tile || can_stand_in_tile
}

/// Whether there is a climbable map that marks `tile_pos`.
pub fn can_climb(climbable_map: Option<&ClimbableMap>, tile_pos: TilePos) -> (climbable: bool)
    ensures
        climbable == climbable_at(climbable_view(climbable_map), tile_pos),
{
    match climbable_map {
        Some(map) => map.is_climbable(tile_pos),
        None => false,
    }
}

/// Whether a worker can stand at `tile_pos`; see `stand_ok`.
pub fn can_stand(terrain_data: &TerrainData, tile_pos: TilePos) -> (ok: bool)
    ensures
        ok == stand_ok(terrain_data@, tile_pos),
{
    let map_size = terrain_data.map_size();
    if solid_at(terrain_data, tile_pos) {
        return false;
    }
    match tile_pos.square_offset(&SquareDirection::South, &map_size) {
        None => false,
        Some(south_tile_pos) => solid_at(terrain_data, south_tile_pos),
    }
}

/// Whether a worker may move from `tile_pos` in `direction`; see `move_ok`.
pub fn can_move_to(
    terrain_data: &TerrainData,
    climbable_map: Option<&ClimbableMap>,
    tile_pos: TilePos,
    direction: SquareDirection,
) -> (ok: bool)
    ensures
        ok == move_ok(terrain_data@, climbable_view(climbable_map), tile_pos, direction),
{
    let map_size = terrain_data.map_size();
    let new_tile_pos = match tile_pos.square_offset(&direction, &map_size) {
        None => {
            return false;
        },
        Some(p) => p,
    };
    if !open_at(terrain_data, new_tile_pos) {
        return false;
    }
    match climbable_map {
        Some(map) => {
            if direction == SquareDirection::South {
                if map.is_climbable(tile_pos) {
                    return true;
                }
            } else if direction == SquareDirection::North {
                return map.is_climbable(new_tile_pos);
            }
        },
        None => {},
    }
    match direction {
        SquareDirection::NorthEast | SquareDirection::NorthWest => {
            match tile_pos.square_offset(&SquareDirection::North, &map_size) {
                None => false,
                Some(north_tile_pos) => open_at(terrain_data, north_tile_pos),
            }
        },
        SquareDirection::SouthEast => {
            match tile_pos.square_offset(&SquareDirection::East, &map_size) {
                None => false,
                Some(east_tile_pos) => open_at(terrain_data, east_tile_pos),
            }
        },
        SquareDirection::SouthWest => {
            match tile_pos.square_offset(&SquareDirection::West, &map_size) {
                None => false,
                Some(west_tile_pos) => open_at(terrain_data, west_tile_pos),
            }
        },
        SquareDirection::West | SquareDirection::East => true,
        _ => false,
    }
}

/// The direction tried in place `i`; see `direction_at`.
fn direction_from_index(i: usize) -> (direction: SquareDirection)
    requires
        i < 8,
    ensures
        direction == direction_at(i as int),
{
    if i == 0 {
        SquareDirection::North
    } else if i == 1 {
        SquareDirection::NorthEast
    } else if i == 2 {
        SquareDirection::East
    } else if i == 3 {
        SquareDirection::SouthEast
    } else if i == 4 {
        SquareDirection::South
    } else if i == 5 {
        SquareDirection::SouthWest
    } else if i == 6 {
        SquareDirection::West
    } else {
        SquareDirection::NorthWest
    }
}

/// The moves from a tile, each with cost 1; see `neighbours`.
pub fn successors(terrain_data: &TerrainData, climbable_map: Option<&ClimbableMap>, pos: &TilePos) -> (moves: Vec<(TilePos, i32)>)
    ensures
        moves@ == neighbours(terrain_data@, climbable_view(climbable_map), *pos),
{
    let tile_pos = *pos;
    let map_size = terrain_data.map_size();
    proof {
        use_type_invariant(terrain_data);
    }
    let mut moves: Vec<(TilePos, i32)> = Vec::new();
    let mut i: usize = 0;
    while i < 8
        invariant
            i <= 8,
            map_size == terrain_size(terrain_data@),
            tile_pos == *pos,
            terrain_wf(terrain_data@),
            moves@ == neighbours_upto(terrain_data@, climbable_view(climbable_map), tile_pos, i as nat),
        decreases 8 - i,
    {
        let direction = direction_from_index(i);
        match tile_pos.square_offset(&direction, &map_size) {
            None => {},
            Some(target_tile_pos) => {
                let diagonal_down = direction == SquareDirection::SouthWest || direction == SquareDirection::SouthEast;
                let fits = if diagonal_down {
                    can_stand(terrain_data, target_tile_pos)
                } else {
                    can_stand_or_climb(terrain_data, climbable_map, target_tile_pos)
                };
                if fits && can_move_to(terrain_data, climbable_map, tile_pos, direction) {
                    moves.push((target_tile_pos, 1i32));
                }
            },
        }
        i = i + 1;
    }
    moves
}


/// Both coordinates are below `MAX_SEARCH_COORD`, small enough for the search's cost plus
/// distance estimate to fit in `i32`.
pub open spec fn searchable(pos: TilePos) -> bool {
    pos.x < MAX_SEARCH_COORD && pos.y < MAX_SEARCH_COORD
}

/// The number of columns plus the number of rows between two tiles.
pub open spec fn manhattan(a: TilePos, b: TilePos) -> int {
    (if a.x >= b.x { a.x - b.x } else { b.x - a.x }) + (if a.y >= b.y { a.y - b.y } else { b.y - a.y })
}

/// The estimate the search uses for the cost from `pos` to `target`; see `manhattan`.
pub fn manhattan_distance(pos: &TilePos, target: &TilePos) -> (distance: i32)
    requires
        searchable(*pos),
        searchable(*target),
    ensures
        distance == manhattan(*pos, *target),
{
    let px = pos.x as i32;
    let py = pos.y as i32;
    let tx = target.x as i32;
    let ty = target.y as i32;
    let dx = if px >= tx { px - tx } else { tx - px };
    let dy = if py >= ty { py - ty } else { ty - py };
    dx + dy
}

/// Whether two tiles are the same.
pub fn same_tile(a: &TilePos, b: &TilePos) -> (same: bool)
    ensures
        same == (*a == *b),
{
    a.x == b.x && a.y == b.y
}

/// A path of tiles, from the first to the last.
#[derive(Clone, Debug, PartialEq, Eq)]
pub struct Path(pub Vec<TilePos>);

/// The result of a search as values: the path and its cost.
pub open spec fn search_view(found: Option<(Vec<TilePos>, i32)>) -> Option<(Seq<TilePos>, i32)> {
    match found {
        Some((nodes, cost)) => Some((nodes@, cost)),
        None => None,
    }
}

/// The tiles of an optional path.
pub open spec fn path_view(path: Option<Path>) -> Option<Seq<TilePos>> {
    match path {
        Some(p) => Some(p.0@),
        None => None,
    }
}

/// The path a search result stands for: none when the search found nothing or found an
/// empty list of tiles.
pub open spec fn path_of_search(search: Option<(Seq<TilePos>, i32)>) -> Option<Seq<TilePos>> {
    match search {
        Some((nodes, _)) => if nodes.len() == 0 { None } else { Some(nodes) },
        None => None,
    }
}

/// No tile occurs twice in the sequence.
pub open spec fn no_repeats(path: Seq<TilePos>) -> bool {
    forall|i: int, j: int| 0 <= i < path.len() && 0 <= j < path.len() && i != j ==> path[i] != path[j]
}

/// `pos` lies on the grid of the terrain.
pub open spec fn on_grid(terrain: TerrainV, pos: TilePos) -> bool {
    pos.x < terrain.0 && pos.y < terrain.1
}

/// What the A* search of the `pathfinding` crate returns for this terrain, these climbable
/// tiles, start and target, with the moves of `neighbours` and the estimate `manhattan`.
pub uninterp spec fn astar_search(
    terrain: TerrainV,
    climbable: Option<Set<TilePos>>,
    start: TilePos,
    target: TilePos,
) -> Option<(Seq<TilePos>, i32)>;

/// `pathfinding::directed::astar::astar` from `start`, with the moves of `successors`, the
/// estimate `manhattan_distance` towards `target`, and `target` as the goal. Its result is
/// a function of these arguments. As its documentation and source state: a path it returns
/// holds the start and the goal, starts at `start`, ends at `target`, goes from each tile
/// to one of that tile's moves, and holds no tile twice; it returns `None` exactly when no
/// path can be found. The estimate may exceed the true cost (a diagonal move costs 1), so
/// nothing is claimed of the path's length or cost. The search adds the estimate of each
/// tile it meets to the cost so far in `i32`. Every tile it meets but the start is a move,
/// so it lies on a grid of at most `MAX_MAP_SIDE` by `MAX_MAP_SIDE` tiles; a cost is the
/// length of a chain of distinct tiles, at most that grid's size plus one; start and target
/// lie below `MAX_SEARCH_COORD` in both coordinates, so an estimate is at most twice
/// `MAX_SEARCH_COORD + MAX_MAP_SIDE`, and the sum stays below `i32::MAX`.
#[verifier::external_body]
fn astar_path(terrain_data: &TerrainData, climbable_map: Option<&ClimbableMap>, start: TilePos, target: TilePos) -> (found: Option<(Vec<TilePos>, i32)>)
    requires
        searchable(start),
        searchable(target),
        terrain_wf(terrain_data@),
    ensures
        search_view(found) == astar_search(terrain_data@, climbable_view(climbable_map), start, target),
        found matches Some((nodes, _)) ==> {
            &&& nodes@.len() >= 1
            &&& nodes@[0] == start
            &&& nodes@.last() == target
            &&& is_walk(terrain_data@, climbable_view(climbable_map), nodes@)
            &&& no_repeats(nodes@)
        },
        found is None <==> !reachable(terrain_data@, climbable_view(climbable_map), start, target),
{
    pathfinding::directed::astar::astar(
        &start,
        |p: &TilePos| successors(terrain_data, climbable_map, p),
        |p: &TilePos| manhattan_distance(p, &target),
        |p: &TilePos| same_tile(p, &target),
    )
}

/// The path a search result stands for; see `path_of_search`.
pub fn path_from_search(search: Option<(Vec<TilePos>, i32)>) -> (path: Option<Path>)
    ensures
        path_view(path) == path_of_search(search_view(search)),
{
    let (nodes, _cost) = match search {
        Some(found) => found,
        None => (Vec::new(), 0i32),
    };
    if nodes.len() == 0 {
        None
    } else {
        Some(Path(nodes))
    }
}

/// Searches a path of moves from `start_tile_pos` to `target_tile_pos`, on the grid or off
/// it, with coordinates below `MAX_SEARCH_COORD`. A path found starts at the start, ends at the target, moves from tile to tile and holds no
/// tile twice; there is none exactly when the target cannot be reached. From a tile to
/// itself the path is that tile alone.
pub fn find_path(
    terrain_data: &TerrainData,
    climbable_map: Option<&ClimbableMap>,
    start_tile_pos: TilePos,
    target_tile_pos: TilePos,
) -> (path: Option<Path>)
    requires
        searchable(start_tile_pos),
        searchable(target_tile_pos),
    ensures
        path_view(path) == path_of_search(astar_search(terrain_data@, climbable_view(climbable_map), start_tile_pos, target_tile_pos)),
        path matches Some(p) ==> {
            &&& p.0@.len() >= 1
            &&& p.0@[0] == start_tile_pos
            &&& p.0@.last() == target_tile_pos
            &&& is_walk(terrain_data@, climbable_view(climbable_map), p.0@)
            &&& no_repeats(p.0@)
        },
        path is None <==> !reachable(terrain_data@, climbable_view(climbable_map), start_tile_pos, target_tile_pos),
        start_tile_pos == target_tile_pos ==> path_view(path) == Some(seq![start_tile_pos]),
{
    proof {
        use_type_invariant(terrain_data);
    }
    let found = astar_path(terrain_data, climbable_map, start_tile_pos, target_tile_pos);
    let path = path_from_search(found);
    proof {
        if start_tile_pos == target_tile_pos {
            lemma_tile_reaches_itself(terrain_data@, climbable_view(climbable_map), start_tile_pos);
            lemma_loop_free_round_trip(path.unwrap().0@);
        }
    }
    path
}

/// A tile can be reached from itself: the walk of that tile alone.
proof fn lemma_tile_reaches_itself(terrain: TerrainV, climbable: Option<Set<TilePos>>, pos: TilePos)
    ensures
        reachable(terrain, climbable, pos, pos),
{
    let single = seq![pos];
    assert(is_walk(terrain, climbable, single));
}

/// A sequence without repeats that starts and ends at the same tile is that tile alone.
proof fn lemma_loop_free_round_trip(p: Seq<TilePos>)
    requires
        p.len() >= 1,
        p[0] == p.last(),
        no_repeats(p),
    ensures
        p =~= seq![p[0]],
{
    if p.len() >= 2 {
        assert(p[0] == p[p.len() - 1]);
    }
}

/// The first path found, in the order of `sites`, from `start` to one of them.
pub open spec fn first_found(
    terrain: TerrainV,
    climbable: Option<Set<TilePos>>,
    start: TilePos,
    sites: Seq<TilePos>,
) -> Option<Seq<TilePos>>
    decreases sites.len(),
{
    if sites.len() == 0 {
        None
    } else {
        match path_of_search(astar_search(terrain, climbable, start, sites[0])) {
            Some(p) => Some(p),
            None => first_found(terrain, climbable, start, sites.drop_first()),
        }
    }
}

/// Searching from the site at `i` on: the path to that site if one is found, else the
/// search from the next site on.
proof fn lemma_first_found_skip(
    terrain: TerrainV,
    climbable: Option<Set<TilePos>>,
    start: TilePos,
    sites: Seq<TilePos>,
    i: int,
)
    requires
        0 <= i < sites.len(),
    ensures
        first_found(terrain, climbable, start, sites.skip(i)) == match path_of_search(
            astar_search(terrain, climbable, start, sites[i]),
        ) {
            Some(p) => Some(p),
            None => first_found(terrain, climbable, start, sites.skip(i + 1)),
        },
{
    assert(sites.skip(i).drop_first() =~= sites.skip(i + 1));
    assert(sites.skip(i)[0] == sites[i]);
}

/// None of `sites` can be reached from `start`.
#[verifier::opaque]
spec fn none_reachable(terrain: TerrainV, climbable: Option<Set<TilePos>>, start: TilePos, sites: Seq<TilePos>) -> bool {
    forall|k: int| 0 <= k < sites.len() ==> !reachable(terrain, climbable, start, #[trigger] sites[k])
}

/// The path to the first of `sites`, in their order, that can be reached from `start`; see
/// `first_found`. `None` exactly when none of them can be reached.
pub fn first_reachable_path(
    terrain_data: &TerrainData,
    climbable_map: Option<&ClimbableMap>,
    start: TilePos,
    sites: &Vec<TilePos>,
) -> (path: Option<Path>)
    requires
        searchable(start),
        forall|k: int| 0 <= k < sites@.len() ==> searchable(#[trigger] sites@[k]),
    ensures
        path_view(path) == first_found(terrain_data@, climbable_view(climbable_map), start, sites@),
        path is None <==> forall|k: int| 0 <= k < sites@.len()
            ==> !reachable(terrain_data@, climbable_view(climbable_map), start, #[trigger] sites@[k]),
{
    let ghost terrain = terrain_data@;
    let ghost climbable = climbable_view(climbable_map);
    let mut i: usize = 0;
    assert(sites@.skip(0) =~= sites@);
    proof {
        reveal(none_reachable);
    }
    while i < sites.len()
        invariant
            i <= sites@.len(),
            terrain == terrain_data@,
            climbable == climbable_view(climbable_map),
            searchable(start),
            forall|k: int| 0 <= k < sites@.len() ==> searchable(#[trigger] sites@[k]),
            first_found(terrain, climbable, start, sites@) == first_found(terrain, climbable, start, sites@.skip(i as int)),
            none_reachable(terrain, climbable, start, sites@.take(i as int)),
        decreases sites.len() - i,
    {
        proof {
            lemma_first_found_skip(terrain, climbable, start, sites@, i as int);
        }
        let found = find_path(terrain_data, climbable_map, start, sites[i]);
        if found.is_some() {
            return found;
        }
        proof {
            reveal(none_reachable);
            let done = sites@.take(i + 1);
            assert forall|k: int| 0 <= k < done.len() implies !reachable(terrain, climbable, start, #[trigger] done[k]) by {
                if k < i {
                    assert(done[k] == sites@.take(i as int)[k]);
                }
            }
        }
        i = i + 1;
    }
    proof {
        assert(sites@.skip(i as int) =~= Seq::<TilePos>::empty());
        reveal(none_reachable);
        assert(sites@.take(i as int) =~= sites@);
    }
    None
}

/// The steps from a tile to the sites from which it is dug, in the order they are tried:
/// northwest, northeast, east, southeast, south, southwest, west.
pub open spec fn dig_offsets() -> Seq<(i64, i64)> {
    seq![(-1i64, 1i64), (1i64, 1i64), (1i64, 0i64), (1i64, -1i64), (0i64, -1i64), (-1i64, -1i64), (-1i64, 0i64)]
}

/// The tiles `offsets` away from `tile` that lie on the grid, in the order of `offsets`.
pub open spec fn sites_around(terrain: TerrainV, tile: TilePos, offsets: Seq<(i64, i64)>) -> Seq<TilePos>
    decreases offsets.len(),
{
    if offsets.len() == 0 {
        seq![]
    } else {
        let before = sites_around(terrain, tile, offsets.drop_last());
        let x = tile.x + offsets.last().0;
        let y = tile.y + offsets.last().1;
        if 0 <= x < terrain.0 && 0 <= y < terrain.1 {
            before.push(TilePos { x: x as u32, y: y as u32 })
        } else {
            before
        }
    }
}

/// The sites around `tile` from which it is dug: the tiles of `dig_offsets` around it that
/// lie on the grid, in that order.
pub fn dig_work_area(terrain_data: &TerrainData, tile: TilePos) -> (sites: Vec<TilePos>)
    ensures
        sites@ == sites_around(terrain_data@, tile, dig_offsets()),
        forall|k: int| 0 <= k < sites@.len() ==> on_grid(terrain_data@, #[trigger] sites@[k]),
{
    let offsets: [(i64, i64); 7] = [(-1, 1), (1, 1), (1, 0), (1, -1), (0, -1), (-1, -1), (-1, 0)];
    assert(offsets@ =~= dig_offsets());
    let size = terrain_data.map_size();
    let mut sites: Vec<TilePos> = Vec::new();
    let mut i: usize = 0;
    assert(offsets@.take(0) =~= Seq::<(i64, i64)>::empty());
    while i < 7
        invariant
            i <= 7,
            offsets@ == dig_offsets(),
            size == terrain_size(terrain_data@),
            sites@ == sites_around(terrain_data@, tile, offsets@.take(i as int)),
            forall|k: int| 0 <= k < sites@.len() ==> on_grid(terrain_data@, #[trigger] sites@[k]),
        decreases 7 - i,
    {
        let (dx, dy) = offsets[i];
        let x: i64 = tile.x as i64 + dx;
        let y: i64 = tile.y as i64 + dy;
        assert(offsets@.take(i as int + 1).drop_last() =~= offsets@.take(i as int));
        assert(offsets@.take(i as int + 1).last() == offsets@[i as int]);
        if 0 <= x && x < size.x as i64 && 0 <= y && y < size.y as i64 {
            sites.push(TilePos { x: x as u32, y: y as u32 });
        }
        i = i + 1;
    }
    assert(offsets@.take(7) =~= offsets@);
    sites
}

/// The neighbour of `pos` in `direction` is inside the grid and open.
pub open spec fn open_towards(terrain: TerrainV, pos: TilePos, direction: SquareDirection) -> bool {
    offset(pos, direction, terrain_size(terrain)) matches Some(next) && is_open(terrain, next)
}

/// Whether a dig site can be worked from beside or above: the tile north, west or east of
/// it is inside the grid and open.
pub fn tile_is_accessible(terrain_data: &TerrainData, tile_pos: TilePos) -> (accessible: bool)
    ensures
        accessible == (open_towards(terrain_data@, tile_pos, SquareDirection::North)
            || open_towards(terrain_data@, tile_pos, SquareDirection::West)
            || open_towards(terrain_data@, tile_pos, SquareDirection::East)),
{
    let map_size = terrain_data.map_size();
    let up = tile_pos.square_offset(&SquareDirection::North, &map_size);
    let left = tile_pos.square_offset(&SquareDirection::West, &map_size);
    let right = tile_pos.square_offset(&SquareDirection::East, &map_size);
    let up_open = match up {
        Some(p) => open_at(terrain_data, p),
        None => false,
    };
    let left_open = match left {
        Some(p) => open_at(terrain_data, p),
        None => false,
    };
    let right_open = match right {
        Some(p) => open_at(terrain_data, p),
        None => false,
    };
    up_open || left_open || right_open
}


/// Two different tiles that touch, along a side or at a corner.
pub open spec fn adjacent(a: TilePos, b: TilePos) -> bool {
    &&& a != b
    &&& -1 <= a.x - b.x <= 1
    &&& -1 <= a.y - b.y <= 1
}

/// A move listed among the first `n` directions comes from one of them: it costs 1, and
/// the step in that direction is allowed and leads to the listed tile.
proof fn lemma_listed_move(terrain: TerrainV, climbable: Option<Set<TilePos>>, pos: TilePos, next: TilePos, cost: i32, n: nat)
    requires
        neighbours_upto(terrain, climbable, pos, n).contains((next, cost)),
    ensures
        cost == 1,
        exists|i: int| 0 <= i < n && step_ok(terrain, climbable, pos, #[trigger] direction_at(i))
            && offset(pos, direction_at(i), terrain_size(terrain)) == Some(next),
    decreases n,
{
    if n > 0 {
        let before = neighbours_upto(terrain, climbable, pos, (n - 1) as nat);
        let direction = direction_at(n - 1);
        if step_ok(terrain, climbable, pos, direction) {
            let list = before.push((offset(pos, direction, terrain_size(terrain)).unwrap(), 1i32));
            let k = choose|k: int| 0 <= k < list.len() && list[k] == (next, cost);
            if k < before.len() {
                assert(before[k] == list[k]);
                lemma_listed_move(terrain, climbable, pos, next, cost, (n - 1) as nat);
            } else {
                assert(step_ok(terrain, climbable, pos, direction_at(n - 1)));
            }
        } else {
            lemma_listed_move(terrain, climbable, pos, next, cost, (n - 1) as nat);
        }
    }
}

/// Every tile a walk enters touches the one before it, is open air inside the grid, and
/// can hold a worker: it is climbable or can be stood on.
#[verifier::rlimit(40)]
pub proof fn law_walk_is_safe(terrain: TerrainV, climbable: Option<Set<TilePos>>, path: Seq<TilePos>)
    requires
        is_walk(terrain, climbable, path),
    ensures
        forall|i: int| 1 <= i < path.len() ==> {
            &&& adjacent(path[i - 1], #[trigger] path[i])
            &&& is_open(terrain, path[i])
            &&& climbable_at(climbable, path[i]) || stand_ok(terrain, path[i])
        },
{
    assert forall|i: int| 1 <= i < path.len() implies {
        &&& adjacent(path[i - 1], #[trigger] path[i])
        &&& is_open(terrain, path[i])
        &&& climbable_at(climbable, path[i]) || stand_ok(terrain, path[i])
    } by {
        let prev = path[i - 1];
        assert(neighbours(terrain, climbable, path[i - 1]).contains((path[(i - 1) + 1], 1i32)));
        assert(path[(i - 1) + 1] == path[i]);
        lemma_listed_move(terrain, climbable, prev, path[i], 1i32, 8);
        let k = choose|k: int| 0 <= k < 8 && step_ok(terrain, climbable, prev, #[trigger] direction_at(k))
            && offset(prev, direction_at(k), terrain_size(terrain)) == Some(path[i]);
        let direction = direction_at(k);
        assert(move_ok(terrain, climbable, prev, direction));
    }
}

/// A worker never climbs diagonally out from under a ceiling: a move up and to the side
/// (northeast or northwest) is allowed only when the tile straight above the worker lies on
/// the grid and is open, whatever tiles can be climbed.
pub proof fn law_no_diagonal_climb_under_a_ceiling(
    terrain: TerrainV,
    climbable: Option<Set<TilePos>>,
    pos: TilePos,
    direction: SquareDirection,
)
    requires
        direction == SquareDirection::NorthEast || direction == SquareDirection::NorthWest,
    ensures
        move_ok(terrain, climbable, pos, direction) ==> {
            &&& pos.y + 1 < terrain.1
            &&& is_open(terrain, TilePos { x: pos.x, y: (pos.y + 1) as u32 })
        },
{
}

/// The neighbour of `pos` in `direction` lies on the grid and is open.
pub open spec fn open_toward(terrain: TerrainV, pos: TilePos, direction: SquareDirection) -> bool {
    offset(pos, direction, terrain_size(terrain)) matches Some(next) && is_open(terrain, next)
}

/// The rules of a single move, told by where it goes: it must end on an open tile of the
/// grid; straight up needs a climbable tile to climb into and straight down a climbable tile
/// to climb out of; sideways is free; diagonally up needs the tile above open, diagonally
/// down the tile beside on that side.
pub proof fn law_move_rules(terrain: TerrainV, climbable: Option<Set<TilePos>>, pos: TilePos, direction: SquareDirection)
    ensures
        move_ok(terrain, climbable, pos, direction) ==> open_toward(terrain, pos, direction),
        direction == SquareDirection::North ==> (move_ok(terrain, climbable, pos, direction) <==> (open_toward(
            terrain,
            pos,
            direction,
        ) && climbable_at(climbable, offset(pos, direction, terrain_size(terrain)).unwrap()))),
        direction == SquareDirection::South ==> (move_ok(terrain, climbable, pos, direction) <==> (open_toward(
            terrain,
            pos,
            direction,
        ) && climbable_at(climbable, pos))),
        direction == SquareDirection::East || direction == SquareDirection::West ==> (move_ok(terrain, climbable, pos, direction)
            <==> open_toward(terrain, pos, direction)),
        direction == SquareDirection::NorthEast || direction == SquareDirection::NorthWest ==> (move_ok(
            terrain,
            climbable,
            pos,
            direction,
        ) <==> (open_toward(terrain, pos, direction) && open_toward(terrain, pos, SquareDirection::North))),
        direction == SquareDirection::SouthEast ==> (move_ok(terrain, climbable, pos, direction) <==> (open_toward(
            terrain,
            pos,
            direction,
        ) && open_toward(terrain, pos, SquareDirection::East))),
        direction == SquareDirection::SouthWest ==> (move_ok(terrain, climbable, pos, direction) <==> (open_toward(
            terrain,
            pos,
            direction,
        ) && open_toward(terrain, pos, SquareDirection::West))),
{
}

/// No walk, so no path that `find_path` returns, steps diagonally upward from a tile whose
/// upper neighbour is solid or off the grid: wherever a walk goes one row up and one column
/// to the side, the tile straight above where it came from is open.
#[verifier::rlimit(40)]
pub proof fn law_walks_never_cut_a_ceiling_corner(terrain: TerrainV, climbable: Option<Set<TilePos>>, path: Seq<TilePos>)
    requires
        is_walk(terrain, climbable, path),
    ensures
        forall|i: int| 0 <= i < path.len() - 1 && path[i + 1].y == path[i].y + 1 && path[i + 1].x != #[trigger] path[i].x
            ==> {
                &&& path[i].y + 1 < terrain.1
                &&& is_open(terrain, TilePos { x: path[i].x, y: (path[i].y + 1) as u32 })
            },
{
    assert forall|i: int| 0 <= i < path.len() - 1 && path[i + 1].y == path[i].y + 1 && path[i + 1].x != #[trigger] path[i].x
        implies {
            &&& path[i].y + 1 < terrain.1
            &&& is_open(terrain, TilePos { x: path[i].x, y: (path[i].y + 1) as u32 })
        } by {
        let prev = path[i];
        let next = path[i + 1];
        assert(neighbours(terrain, climbable, path[i]).contains((path[i + 1], 1i32)));
        lemma_listed_move(terrain, climbable, prev, next, 1i32, 8);
        let k = choose|k: int| 0 <= k < 8 && step_ok(terrain, climbable, prev, #[trigger] direction_at(k))
            && offset(prev, direction_at(k), terrain_size(terrain)) == Some(next);
        let direction = direction_at(k);
        assert(move_ok(terrain, climbable, prev, direction));
        assert(direction == SquareDirection::NorthEast || direction == SquareDirection::NorthWest);
        law_no_diagonal_climb_under_a_ceiling(terrain, climbable, prev, direction);
    }
}

/// A worker heading from `walker` to the neighbouring tile `tile` climbs: the tile is
/// straight above or below.
pub open spec fn climbing(walker: TilePos, tile: TilePos) -> bool {
    walker.y != tile.y && walker.x == tile.x
}

/// Whether a worker on `walker` climbs to reach `tile`; see `climbing`.
pub fn climbing_towards(walker: TilePos, tile: TilePos) -> (climbs: bool)
    ensures
        climbs == climbing(walker, tile),
{
    walker.y != tile.y && walker.x == tile.x
}

/// Where a worker following a path heads next.
pub enum PathStep {
    /// Towards this tile, climbing or walking.
    Toward { tile: TilePos, climbing: bool },
    /// The path is used up: the worker has arrived.
    Arrived,
}

/// One step of following a path. When the worker has `reached_first` (got to the middle of
/// the first tile of the path), that tile is dropped; then the worker heads for the new
/// first tile, or has arrived when none is left.
pub fn follow_path_step(path: &mut Path, walker: TilePos, reached_first: bool) -> (step: PathStep)
    ensures
        final(path).0@ == if reached_first && old(path).0@.len() > 0 {
            old(path).0@.drop_first()
        } else {
            old(path).0@
        },
        match step {
            PathStep::Toward { tile, climbing: climbs } => {
                &&& final(path).0@.len() > 0
                &&& tile == final(path).0@[0]
                &&& climbs == climbing(walker, tile)
            },
            PathStep::Arrived => final(path).0@.len() == 0,
        },
{
    if reached_first && path.0.len() > 0 {
        path.0.remove(0);
    }
    if path.0.len() > 0 {
        let tile = path.0[0];
        PathStep::Toward { tile, climbing: climbing_towards(walker, tile) }
    } else {
        PathStep::Arrived
    }
}

/// `a` comes before `b` when the tiles are listed column by column, bottom to top.
pub open spec fn column_order(a: TilePos, b: TilePos) -> bool {
    a.x < b.x || (a.x == b.x && a.y < b.y)
}

/// The tiles of the first `width` columns and `height` rows on which a worker can stand,
/// column by column, bottom to top.
pub fn walkable_tiles(terrain_data: &TerrainData, width: u32, height: u32) -> (tiles: Vec<TilePos>)
    requires
        width < i32::MAX,
        height < i32::MAX,
    ensures
        forall|p: TilePos| tiles@.contains(p) <==> (p.x < width && p.y < height && stand_ok(terrain_data@, p)),
        forall|i: int, j: int| 0 <= i < j < tiles@.len() ==> column_order(#[trigger] tiles@[i], #[trigger] tiles@[j]),
{
    let mut tiles: Vec<TilePos> = Vec::new();
    let mut x: u32 = 0;
    while x < width
        invariant
            x <= width,
            width < i32::MAX,
            height < i32::MAX,
            forall|p: TilePos| tiles@.contains(p) <==> (p.x < x && p.y < height && stand_ok(terrain_data@, p)),
            forall|i: int, j: int| 0 <= i < j < tiles@.len() ==> column_order(#[trigger] tiles@[i], #[trigger] tiles@[j]),
            forall|i: int| 0 <= i < tiles@.len() ==> (#[trigger] tiles@[i]).x < x,
        decreases width - x,
    {
        let mut y: u32 = 0;
        while y < height
            invariant
                x < width,
                y <= height,
                width < i32::MAX,
                height < i32::MAX,
                forall|p: TilePos| tiles@.contains(p) <==> (
                    (p.x < x && p.y < height && stand_ok(terrain_data@, p))
                    || (p.x == x && p.y < y && stand_ok(terrain_data@, p))),
                forall|i: int, j: int| 0 <= i < j < tiles@.len() ==> column_order(#[trigger] tiles@[i], #[trigger] tiles@[j]),
                forall|i: int| 0 <= i < tiles@.len() ==> column_order(#[trigger] tiles@[i], TilePos { x, y }),
            decreases height - y,
        {
            let tile_pos = TilePos { x, y };
            if can_stand(terrain_data, tile_pos) {
                let ghost before = tiles@;
                tiles.push(tile_pos);
                proof {
                    assert forall|p: TilePos| tiles@.contains(p) <==> (
                        (p.x < x && p.y < height && stand_ok(terrain_data@, p))
                        || (p.x == x && p.y < y + 1 && stand_ok(terrain_data@, p))) by {
                        if tiles@.contains(p) && p != tile_pos {
                            let k = choose|k: int| 0 <= k < tiles@.len() && tiles@[k] == p;
                            assert(before[k] == p);
                        }
                        if before.contains(p) {
                            let k = choose|k: int| 0 <= k < before.len() && before[k] == p;
                            assert(tiles@[k] == p);
                        }
                        if p == tile_pos {
                            assert(tiles@[before.len() as int] == p);
                        }
                    }
                }
            } else {
                proof {
                    assert forall|p: TilePos| tiles@.contains(p) <==> (
                        (p.x < x && p.y < height && stand_ok(terrain_data@, p))
                        || (p.x == x && p.y < y + 1 && stand_ok(terrain_data@, p))) by {
                        if p == tile_pos {
                            assert(!stand_ok(terrain_data@, p));
                        }
                    }
                }
            }
            y = y + 1;
        }
        proof {
            assert forall|i: int| 0 <= i < tiles@.len() implies (#[trigger] tiles@[i]).x < x + 1 by {
                assert(column_order(tiles@[i], TilePos { x, y }));
            }
        }
        x = x + 1;
    }
    tiles
}

} // verus!
