//! Which faces the static level mesh is made of: a floor face under every
//! open tile, and on every wall tile one face for each side that borders
//! open floor or the edge of the level, each with the atlas slot of its
//! texture. The floating-point geometry of the faces is the renderer's.

use vstd::prelude::*;
use crate::model::{Level, in_grid};
use crate::texture::{FloorTexture, TextureKey, TextureManager, key_rank, spec_wall_texture};

verus! {

/// Which face of a tile a mesh face is: its floor, or one of a wall's four
/// sides (west, east, north, south).
#[derive(Clone, Copy, Debug, PartialEq, Eq, Structural)]
pub enum FaceSide {
    Floor,
    Left,
    Right,
    North,
    South,
}

/// One quad of the static mesh: tile (`x`, `z`), which face, and the atlas
/// slot of its texture.
#[derive(Clone, Copy, Debug, PartialEq, Eq, Structural)]
pub struct MeshFace {
    pub x: usize,
    pub z: usize,
    pub side: FaceSide,
    pub texture: usize,
}

/// The atlas slot used for texture `rank` in an atlas of `atlas_len`
/// slots: the rank itself, or the last slot when the rank is past it.
pub open spec fn atlas_slot(rank: int, atlas_len: int) -> int {
    let last = if atlas_len > 0 { atlas_len - 1 } else { 0 };
    if rank < last { rank } else { last }
}

/// Tile (`x`, `z`) holds a wall.
pub open spec fn wall_at(g: Seq<Seq<u8>>, x: int, z: int) -> bool {
    g[z][x] > 0
}

/// A one-face sequence when `present`, else nothing.
pub open spec fn face_if(present: bool, x: int, z: int, side: FaceSide, texture: int) -> Seq<MeshFace> {
    if present {
        seq![MeshFace { x: x as usize, z: z as usize, side, texture: texture as usize }]
    } else {
        Seq::empty()
    }
}

/// The faces of tile (`x`, `z`) of a level `width` tiles wide: the floor of
/// an open tile; the west, east, north and south sides of a wall, in that
/// order, each where the neighbour there is open or outside the level.
pub open spec fn tile_faces(
    g: Seq<Seq<u8>>,
    f: Seq<Seq<FloorTexture>>,
    width: int,
    x: int,
    z: int,
    atlas_len: int,
) -> Seq<MeshFace> {
    if !wall_at(g, x, z) {
        face_if(true, x, z, FaceSide::Floor, atlas_slot(key_rank(TextureKey::Floor(f[z][x])), atlas_len))
    } else {
        let t = atlas_slot(key_rank(spec_wall_texture(g[z][x])), atlas_len);
        face_if(x == 0 || !wall_at(g, x - 1, z), x, z, FaceSide::Left, t)
            + face_if(x + 1 >= width || !wall_at(g, x + 1, z), x, z, FaceSide::Right, t)
            + face_if(z == 0 || !wall_at(g, x, z - 1), x, z, FaceSide::North, t)
            + face_if(z + 1 >= g.len() || !wall_at(g, x, z + 1), x, z, FaceSide::South, t)
    }
}

/// The faces of the first `n` tiles of row `z`, left to right.
pub open spec fn row_faces(
    g: Seq<Seq<u8>>,
    f: Seq<Seq<FloorTexture>>,
    width: int,
    z: int,
    n: int,
    atlas_len: int,
) -> Seq<MeshFace>
    decreases n,
{
    if n <= 0 {
        Seq::empty()
    } else {
        row_faces(g, f, width, z, n - 1, atlas_len) + tile_faces(g, f, width, n - 1, z, atlas_len)
    }
}

/// The faces of the first `m` rows, row by row.
pub open spec fn mesh_faces(
    g: Seq<Seq<u8>>,
    f: Seq<Seq<FloorTexture>>,
    width: int,
    m: int,
    atlas_len: int,
) -> Seq<MeshFace>
    decreases m,
{
    if m <= 0 {
        Seq::empty()
    } else {
        mesh_faces(g, f, width, m - 1, atlas_len) + row_faces(g, f, width, m - 1, width, atlas_len)
    }
}

/// The level is as wide as its first row, every row has at least that many
/// tiles and floor entries, and every wall value names a wall texture.
pub open spec fn mesh_ready(g: Seq<Seq<u8>>, f: Seq<Seq<FloorTexture>>) -> bool {
    let width = if g.len() > 0 { g[0].len() as int } else { 0 };
    &&& f.len() == g.len()
    &&& forall|z: int| 0 <= z < g.len() ==> (#[trigger] g[z]).len() >= width && f[z].len() >= width
    &&& forall|z: int, x: int| 0 <= z < g.len() && 0 <= x < width ==> #[trigger] g[z][x] <= 3
}

fn atlas_slot_of(rank: usize, atlas_len: usize) -> (r: usize)
    ensures
        r == atlas_slot(rank as int, atlas_len as int),
{
    let last: usize = if atlas_len > 0 { atlas_len - 1 } else { 0 };
    if rank < last { rank } else { last }
}

/// Appends the faces of tile (`x`, `z`).
fn push_tile_faces(
    level: &Level,
    textures: &TextureManager,
    atlas_len: usize,
    width: usize,
    x: usize,
    z: usize,
    out: &mut Vec<MeshFace>,
)
    requires
        mesh_ready(level.walls(), level.floors()),
        level.walls().len() > 0,
        width == level.walls()[0].len(),
        x < width,
        z < level.walls().len(),
    ensures
        final(out)@ == old(out)@ + tile_faces(level.walls(), level.floors(), width as int, x as int, z as int, atlas_len as int),
{
    let ghost g = level.walls();
    let ghost f = level.floors();
    let h: usize = level.tiles.len();
    proof {
        assert(mesh_ready(g, f));
        assert(g[0].len() == width);
        assert(g[z as int].len() >= width);
        assert(f[z as int].len() >= width);
        assert(in_grid(g, x as int, z as int));
        assert(in_grid(f, x as int, z as int));
    }
    let ghost faces = tile_faces(g, f, width as int, x as int, z as int, atlas_len as int);
    if !level.is_wall(x, z) {
        let floor = level.floor_at(x, z);
        let rank: usize = textures.texture_index(TextureKey::Floor(floor));
        let texture: usize = atlas_slot_of(rank, atlas_len);
        out.push(MeshFace { x, z, side: FaceSide::Floor, texture });
        proof {
            assert(faces =~= seq![MeshFace { x, z, side: FaceSide::Floor, texture }]);
        }
        return;
    }
    let tile: u8 = level.tile_at(x, z);
    proof {
        assert(g[z as int][x as int] <= 3);
    }
    let key = textures.wall_texture(tile);
    let rank: usize = textures.texture_index(key);
    let texture: usize = atlas_slot_of(rank, atlas_len);
    let ghost t = texture as int;
    let ghost before = out@;
    let left_empty: bool = x == 0 || !level.is_wall(x - 1, z);
    let right_empty: bool = x + 1 >= width || !level.is_wall(x + 1, z);
    let north_empty: bool = if z == 0 {
        true
    } else {
        proof {
            assert(g[z - 1].len() >= width);
        }
        !level.is_wall(x, z - 1)
    };
    let south_empty: bool = if z + 1 >= h {
        true
    } else {
        proof {
            assert(g[z + 1].len() >= width);
        }
        !level.is_wall(x, z + 1)
    };
    if left_empty {
        out.push(MeshFace { x, z, side: FaceSide::Left, texture });
    }
    let ghost a = before + face_if(left_empty, x as int, z as int, FaceSide::Left, t);
    proof {
        assert(out@ =~= a);
    }
    if right_empty {
        out.push(MeshFace { x, z, side: FaceSide::Right, texture });
    }
    let ghost b = a + face_if(right_empty, x as int, z as int, FaceSide::Right, t);
    proof {
        assert(out@ =~= b);
    }
    if north_empty {
        out.push(MeshFace { x, z, side: FaceSide::North, texture });
    }
    let ghost c = b + face_if(north_empty, x as int, z as int, FaceSide::North, t);
    proof {
        assert(out@ =~= c);
    }
    if south_empty {
        out.push(MeshFace { x, z, side: FaceSide::South, texture });
    }
    proof {
        let d = c + face_if(south_empty, x as int, z as int, FaceSide::South, t);
        assert(out@ =~= d);
        assert(faces == face_if(left_empty, x as int, z as int, FaceSide::Left, t)
            + face_if(right_empty, x as int, z as int, FaceSide::Right, t)
            + face_if(north_empty, x as int, z as int, FaceSide::North, t)
            + face_if(south_empty, x as int, z as int, FaceSide::South, t));
        assert(d =~= before + faces);
    }
}

/// The faces of the static level mesh, row by row and left to right within
/// a row, in an atlas of `atlas_len` slots: a floor face (with the floor's
/// texture) for every open tile, and for every wall tile a face (with the
/// wall value's texture) on each side whose neighbour is open or outside the
/// level, in the order west, east, north, south. A texture past the last
/// atlas slot takes the last slot.
pub fn static_mesh_faces(level: &Level, textures: &TextureManager, atlas_len: usize) -> (r: Vec<MeshFace>)
    requires
        mesh_ready(level.walls(), level.floors()),
    ensures
        r@ == mesh_faces(
            level.walls(),
            level.floors(),
            if level.walls().len() > 0 { level.walls()[0].len() as int } else { 0 },
            level.walls().len() as int,
            atlas_len as int,
        ),
{
    let ghost g = level.walls();
    let ghost f = level.floors();
    let h: usize = level.tiles.len();
    let width: usize = if h > 0 { level.tiles[0].len() } else { 0 };
    proof {
        if h > 0 {
            assert(g[0] == level.tiles@[0]@);
        }
    }
    let mut out: Vec<MeshFace> = Vec::new();
    let mut z: usize = 0;
    while z < h
        invariant
            g == level.walls(),
            f == level.floors(),
            h == g.len(),
            mesh_ready(g, f),
            width == if h > 0 { g[0].len() as int } else { 0 },
            z <= h,
            out@ == mesh_faces(g, f, width as int, z as int, atlas_len as int),
        decreases h - z,
    {
        let mut x: usize = 0;
        while x < width
            invariant
                g == level.walls(),
                f == level.floors(),
                h == g.len(),
                mesh_ready(g, f),
                h > 0,
                width == g[0].len(),
                z < h,
                x <= width,
                out@ == mesh_faces(g, f, width as int, z as int, atlas_len as int)
                    + row_faces(g, f, width as int, z as int, x as int, atlas_len as int),
            decreases width - x,
        {
            let ghost prev = out@;
            push_tile_faces(level, textures, atlas_len, width, x, z, &mut out);
            proof {
                assert(out@ =~= mesh_faces(g, f, width as int, z as int, atlas_len as int)
                    + row_faces(g, f, width as int, z as int, x + 1, atlas_len as int));
            }
            x = x + 1;
        }
        proof {
            assert(out@ =~= mesh_faces(g, f, width as int, z + 1, atlas_len as int));
        }
        z = z + 1;
    }
    out
}

} // verus!
