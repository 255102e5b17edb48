//! The world model: tile levels (a grid of wall values, 0 = open floor,
//! 1..3 = wall kinds, with a floor texture per tile), entity kinds and the
//! ambient-occlusion field of a level.

use vstd::prelude::*;
use crate::texture::FloorTexture;
use rand::seq::IndexedRandom;

verus! {

/// The byte rows of a level as sequences.
pub open spec fn grid(tiles: Seq<Vec<u8>>) -> Seq<Seq<u8>> {
    tiles.map_values(|r: Vec<u8>| r@)
}

/// The floor rows of a level as sequences.
pub open spec fn floor_grid(rows: Seq<Vec<FloorTexture>>) -> Seq<Seq<FloorTexture>> {
    rows.map_values(|r: Vec<FloorTexture>| r@)
}

/// `(x, y)` lies inside row `y` of `g`.
pub open spec fn in_grid<T>(g: Seq<Seq<T>>, x: int, y: int) -> bool {
    0 <= y < g.len() && 0 <= x < g[y].len()
}

/// Open tiles among the first `n` tiles of row `y`, left to right.
pub open spec fn empty_in_row(row: Seq<u8>, y: int, n: int) -> Seq<(usize, usize)>
    decreases n,
{
    if n <= 0 {
        Seq::empty()
    } else {
        empty_in_row(row, y, n - 1) + if row[n - 1] == 0 {
            seq![((n - 1) as usize, y as usize)]
        } else {
            Seq::empty()
        }
    }
}

/// Open tiles of the first `m` rows of `g`, in row-major order.
pub open spec fn empty_in_rows(g: Seq<Seq<u8>>, m: int) -> Seq<(usize, usize)>
    decreases m,
{
    if m <= 0 {
        Seq::empty()
    } else {
        empty_in_rows(g, m - 1) + empty_in_row(g[m - 1], m - 1, g[m - 1].len() as int)
    }
}

/// What a pickup gives.
#[derive(Clone, Copy, Debug, PartialEq, Eq, Structural)]
pub enum PickupKind {
    Medkit,
}

/// What an entity is, with the data its kind carries.
#[derive(Clone, Copy, Debug, PartialEq, Eq, Structural)]
pub enum EntityKind {
    Pawn { owner_id: Option<u64> },
    StaticProp { blocks_movement: bool },
    Pickup { pickup_kind: PickupKind },
    Projectile { owner_id: Option<u64>, ttl_ticks: u32, damage: u32 },
}

/// Whether an entity of this kind stops movement: only a static prop that
/// is marked as blocking does.
pub fn blocks_movement(kind: &EntityKind) -> (r: bool)
    ensures
        r == (*kind == EntityKind::StaticProp { blocks_movement: true }),
{
    match kind {
        EntityKind::StaticProp { blocks_movement } => *blocks_movement,
        _ => false,
    }
}

/// Ambient-occlusion light at the four corners of each tile of a
/// `width` x `height` level, row-major.
pub struct AoField {
    pub width: usize,
    pub height: usize,
    pub corners: Vec<[u8; 4]>,
}

impl AoField {
    /// One corner set per tile.
    pub open spec fn wf(&self) -> bool {
        &&& self.corners@.len() == self.width * self.height
        &&& self.width * self.height <= usize::MAX
    }
}

/// The corner lights of tile (`x`, `y`); tiles outside the field are fully
/// lit.
pub fn tile_corners(ao: &AoField, x: usize, y: usize) -> (r: [u8; 4])
    requires
        ao.wf(),
    ensures
        r == if x < ao.width && y < ao.height { ao.corners@[y * ao.width + x] } else { [255u8, 255, 255, 255] },
{
    if x >= ao.width || y >= ao.height {
        return [255, 255, 255, 255];
    }
    proof {
        assert(y * ao.width + x < ao.width * ao.height && y * ao.width <= y * ao.width + x) by (nonlinear_arith)
            requires x < ao.width, y < ao.height;
    }
    ao.corners[y * ao.width + x]
}

/// A level: wall values per tile and the floor texture of each tile.
#[derive(Clone, Debug)]
pub struct Level {
    pub tiles: Vec<Vec<u8>>,
    pub floor_tiles: Vec<Vec<FloorTexture>>,
}

impl Level {
    /// The wall grid.
    pub open spec fn walls(&self) -> Seq<Seq<u8>> {
        grid(self.tiles@)
    }

    /// The floor grid.
    pub open spec fn floors(&self) -> Seq<Seq<FloorTexture>> {
        floor_grid(self.floor_tiles@)
    }

    /// A level with the given walls and a smooth floor under every tile; the
    /// floor grid has as many rows as `tiles`, each as wide as its first row.
    pub fn new(tiles: Vec<Vec<u8>>) -> (l: Self)
        ensures
            l.walls() == grid(tiles@),
            l.floors().len() == tiles@.len(),
            forall|y: int| 0 <= y < tiles@.len() ==> #[trigger] l.floors()[y] == Seq::new(
                tiles@[0]@.len(),
                |x: int| FloorTexture::Smooth,
            ),
    {
        let height: usize = tiles.len();
        let width: usize = if tiles.len() > 0 { tiles[0].len() } else { 0 };
        let mut row: Vec<FloorTexture> = Vec::new();
        let mut x: usize = 0;
        while x < width
            invariant
                x <= width,
                row@ == Seq::new(x as nat, |i: int| FloorTexture::Smooth),
            decreases width - x,
        {
            row.push(FloorTexture::Smooth);
            x = x + 1;
            proof {
                assert(row@ =~= Seq::new(x as nat, |i: int| FloorTexture::Smooth));
            }
        }
        let mut floor_tiles: Vec<Vec<FloorTexture>> = Vec::new();
        let mut y: usize = 0;
        while y < height
            invariant
                y <= height,
                height == tiles@.len(),
                height > 0 ==> width == tiles@[0]@.len(),
                row@ == Seq::new(width as nat, |i: int| FloorTexture::Smooth),
                floor_tiles@.len() == y,
                forall|k: int| 0 <= k < y ==> #[trigger] floor_tiles@[k]@ == row@,
            decreases height - y,
        {
            let copy = clone_floor_row(&row);
            floor_tiles.push(copy);
            y = y + 1;
        }
        Level { tiles, floor_tiles }
    }

    /// A level with explicit floor textures, which must have the shape of the walls.
    pub fn with_floor_tiles(tiles: Vec<Vec<u8>>, floor_tiles: Vec<Vec<FloorTexture>>) -> (l: Self)
        requires
            tiles@.len() == floor_tiles@.len(),
            forall|y: int| 0 <= y < tiles@.len() ==> (#[trigger] tiles@[y])@.len() == floor_tiles@[y]@.len(),
        ensures
            l.walls() == grid(tiles@),
            l.floors() == floor_grid(floor_tiles@),
    {
        Level { tiles, floor_tiles }
    }

    /// Whether the tile at column `x`, row `y` is a wall (non-zero).
    pub fn is_wall(&self, x: usize, y: usize) -> (r: bool)
        requires
            in_grid(self.walls(), x as int, y as int),
        ensures
            r == (self.walls()[y as int][x as int] > 0),
    {
        self.tiles[y][x] > 0
    }

    /// The wall value at column `x`, row `y`.
    pub fn tile_at(&self, x: usize, y: usize) -> (r: u8)
        requires
            in_grid(self.walls(), x as int, y as int),
        ensures
            r == self.walls()[y as int][x as int],
    {
        self.tiles[y][x]
    }

    /// The floor texture at column `x`, row `y`.
    pub fn floor_at(&self, x: usize, y: usize) -> (r: FloorTexture)
        requires
            in_grid(self.floors(), x as int, y as int),
        ensures
            r == self.floors()[y as int][x as int],
    {
        self.floor_tiles[y][x]
    }

    /// All open tiles `(x, y)`, in row-major order.
    pub fn get_empty_tiles(&self) -> (r: Vec<(usize, usize)>)
        ensures
            r@ == empty_in_rows(self.walls(), self.walls().len() as int),
    {
        let mut empty_tiles: Vec<(usize, usize)> = Vec::new();
        let mut y: usize = 0;
        while y < self.tiles.len()
            invariant
                y <= self.tiles@.len(),
                empty_tiles@ == empty_in_rows(self.walls(), y as int),
            decreases self.tiles@.len() - y,
        {
            let row = &self.tiles[y];
            let ghost before = empty_tiles@;
            let mut x: usize = 0;
            while x < row.len()
                invariant
                    x <= row@.len(),
                    row@ == self.walls()[y as int],
                    empty_tiles@ == before + empty_in_row(row@, y as int, x as int),
                decreases row@.len() - x,
            {
                if row[x] == 0 {
                    empty_tiles.push((x, y));
                }
                x = x + 1;
                proof {
                    assert(empty_tiles@ =~= before + empty_in_row(row@, y as int, x as int));
                }
            }
            y = y + 1;
        }
        empty_tiles
    }
}

fn clone_floor_row(row: &Vec<FloorTexture>) -> (r: Vec<FloorTexture>)
    ensures
        r@ == row@,
{
    let mut r: Vec<FloorTexture> = Vec::new();
    let mut i: usize = 0;
    while i < row.len()
        invariant
            i <= row@.len(),
            r@ == row@.take(i as int),
        decreases row@.len() - i,
    {
        r.push(row[i]);
        i = i + 1;
        proof {
            assert(r@ =~= row@.take(i as int));
        }
    }
    proof {
        assert(row@.take(row@.len() as int) =~= row@);
    }
    r
}

proof fn lemma_empty_in_row_members(row: Seq<u8>, y: int, n: int, t: (usize, usize))
    requires
        0 <= n <= row.len(),
        0 <= y <= usize::MAX,
        n <= usize::MAX + 1,
    ensures
        empty_in_row(row, y, n).contains(t) <==> (t.1 == y && t.0 < n && row[t.0 as int] == 0),
    decreases n,
{
    if n > 0 {
        lemma_empty_in_row_members(row, y, n - 1, t);
        let tail = if row[n - 1] == 0 {
            seq![((n - 1) as usize, y as usize)]
        } else {
            Seq::<(usize, usize)>::empty()
        };
        let prefix = empty_in_row(row, y, n - 1);
        assert(empty_in_row(row, y, n) == prefix + tail);
        if (prefix + tail).contains(t) {
            let i = choose|i: int| 0 <= i < (prefix + tail).len() && (prefix + tail)[i] == t;
            if i < prefix.len() {
                assert(prefix[i] == t);
            } else {
                assert(tail[i - prefix.len()] == t);
            }
        }
        if t.1 == y && t.0 < n && row[t.0 as int] == 0 {
            if t.0 < n - 1 {
                let i = choose|i: int| 0 <= i < prefix.len() && prefix[i] == t;
                assert((prefix + tail)[i] == t);
            } else {
                assert((prefix + tail)[prefix.len() as int] == t);
            }
        }
    }
}

/// The open-tile list holds exactly the in-bounds tiles whose value is 0.
pub proof fn lemma_empty_tiles_members(g: Seq<Seq<u8>>, m: int, t: (usize, usize))
    requires
        0 <= m <= g.len(),
        m <= usize::MAX + 1,
        forall|y: int| 0 <= y < g.len() ==> (#[trigger] g[y]).len() <= usize::MAX,
    ensures
        empty_in_rows(g, m).contains(t) <==> (t.1 < m && in_grid(g, t.0 as int, t.1 as int) && g[t.1 as int][t.0 as int] == 0),
    decreases m,
{
    if m > 0 {
        lemma_empty_tiles_members(g, m - 1, t);
        lemma_empty_in_row_members(g[m - 1], m - 1, g[m - 1].len() as int, t);
        let prefix = empty_in_rows(g, m - 1);
        let tail = empty_in_row(g[m - 1], m - 1, g[m - 1].len() as int);
        assert(empty_in_rows(g, m) == prefix + tail);
        if (prefix + tail).contains(t) {
            let i = choose|i: int| 0 <= i < (prefix + tail).len() && (prefix + tail)[i] == t;
            if i < prefix.len() {
                assert(prefix[i] == t);
            } else {
                assert(tail[i - prefix.len()] == t);
            }
        }
        if t.1 < m && in_grid(g, t.0 as int, t.1 as int) && g[t.1 as int][t.0 as int] == 0 {
            if t.1 < m - 1 {
                let i = choose|i: int| 0 <= i < prefix.len() && prefix[i] == t;
                assert((prefix + tail)[i] == t);
            } else {
                let i = choose|i: int| 0 <= i < tail.len() && tail[i] == t;
                assert((prefix + tail)[prefix.len() + i] == t);
            }
        }
    }
}

/// Picks one of `tiles` at random (uniformly, with the thread-local
/// generator of `rand`); `None` exactly when `tiles` is empty.
#[verifier::external_body]
fn choose_tile(tiles: &Vec<(usize, usize)>) -> (r: Option<(usize, usize)>)
    ensures
        (tiles@.len() == 0) == (r is None),
        r matches Some(t) ==> tiles@.contains(t),
{
    tiles.choose(&mut rand::rng()).copied()
}

/// A random open tile of `level` (the waypoint is its centre), or `None`
/// when the level has no open tile.
pub fn random_empty_waypoint(level: &Level) -> (r: Option<(usize, usize)>)
    ensures
        (r is None) == (empty_in_rows(level.walls(), level.walls().len() as int).len() == 0),
        r matches Some(t) ==> empty_in_rows(level.walls(), level.walls().len() as int).contains(t),
{
    let empty_tiles = level.get_empty_tiles();
    if empty_tiles.len() == 0 {
        return None;
    }
    choose_tile(&empty_tiles)
}

} // verus!
