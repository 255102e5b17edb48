//! Texture assets: their keys, the canonical order of the keys, the
//! visual of each kind of entity, and the manager that decodes the asset
//! files and finds a texture by key.

use vstd::prelude::*;
use crate::chars::{chars_of, chars_equal};

verus! {

#[derive(Clone, Copy, Debug, PartialEq, Eq, Hash, Structural)]
pub enum WallTexture {
    Green,
    Orange,
    Grey,
}

#[derive(Clone, Copy, Debug, PartialEq, Eq, Hash, Structural)]
pub enum FloorTexture {
    Smooth,
    MilkVeins,
}

/// The floor texture a level byte denotes: 0 smooth, 1 milk veins.
pub open spec fn spec_floor_texture(v: u8) -> Option<FloorTexture> {
    if v == 0 {
        Some(FloorTexture::Smooth)
    } else if v == 1 {
        Some(FloorTexture::MilkVeins)
    } else {
        None
    }
}

impl FloorTexture {
    /// 0 is smooth, 1 is milk veins, anything else names no floor.
    pub fn from_u8(v: u8) -> (r: Option<Self>)
        ensures
            r == spec_floor_texture(v),
    {
        match v {
            0 => Some(FloorTexture::Smooth),
            1 => Some(FloorTexture::MilkVeins),
            _ => None,
        }
    }
}

#[derive(Clone, Copy, Debug, PartialEq, Eq, Hash, Structural)]
pub enum ItemTexture {
    Health,
}

#[derive(Clone, Copy, Debug, PartialEq, Eq, Hash, Structural)]
pub enum ActorTexture {
    Red,
}

#[derive(Clone, Copy, Debug, PartialEq, Eq, Hash, Structural)]
pub enum ProjectileTexture {
    Spiral,
}

/// Identifies one texture asset.
#[derive(Clone, Copy, Debug, PartialEq, Eq, Hash, Structural)]
pub enum TextureKey {
    Wall(WallTexture),
    Floor(FloorTexture),
    Item(ItemTexture),
    Actor(ActorTexture),
    Projectile(ProjectileTexture),
}

#[derive(Clone, Copy, Debug, PartialEq, Eq, Hash, Structural)]
pub enum VisualId {
    PlayerActor,
    StaticProp,
    Pickup,
    Projectile,
}

#[derive(Clone, Copy, Debug, PartialEq, Eq, Structural)]
pub enum FacingMode {
    Fixed,
    Movement,
}

#[derive(Clone, Copy, Debug, PartialEq, Eq, Structural)]
pub enum AnimationStyle {
    Static,
    WalkPingPong,
    LoopStrip,
}

#[derive(Clone, Copy, Debug, PartialEq, Eq, Structural)]
pub enum AnimationPlayback {
    PingPong,
    Loop,
}

/// The texture key an asset file stem names, if any.
pub open spec fn spec_texture_key(stem: Seq<char>) -> Option<TextureKey> {
    if stem == "wall.green"@ {
        Some(TextureKey::Wall(WallTexture::Green))
    } else if stem == "wall.orange"@ {
        Some(TextureKey::Wall(WallTexture::Orange))
    } else if stem == "wall.grey"@ {
        Some(TextureKey::Wall(WallTexture::Grey))
    } else if stem == "floor.smooth"@ {
        Some(TextureKey::Floor(FloorTexture::Smooth))
    } else if stem == "floor.milkveins"@ {
        Some(TextureKey::Floor(FloorTexture::MilkVeins))
    } else if stem == "item.health"@ {
        Some(TextureKey::Item(ItemTexture::Health))
    } else if stem == "actor.red"@ {
        Some(TextureKey::Actor(ActorTexture::Red))
    } else if stem == "projectile.spiral"@ {
        Some(TextureKey::Projectile(ProjectileTexture::Spiral))
    } else {
        None
    }
}

/// Maps an asset file stem such as `wall.green` to its texture key.
pub fn parse_texture_key(stem: &str) -> (r: Option<TextureKey>)
    ensures
        r == spec_texture_key(stem@),
{
    let s = chars_of(stem);
    if chars_equal(&s, "wall.green") {
        Some(TextureKey::Wall(WallTexture::Green))
    } else if chars_equal(&s, "wall.orange") {
        Some(TextureKey::Wall(WallTexture::Orange))
    } else if chars_equal(&s, "wall.grey") {
        Some(TextureKey::Wall(WallTexture::Grey))
    } else if chars_equal(&s, "floor.smooth") {
        Some(TextureKey::Floor(FloorTexture::Smooth))
    } else if chars_equal(&s, "floor.milkveins") {
        Some(TextureKey::Floor(FloorTexture::MilkVeins))
    } else if chars_equal(&s, "item.health") {
        Some(TextureKey::Item(ItemTexture::Health))
    } else if chars_equal(&s, "actor.red") {
        Some(TextureKey::Actor(ActorTexture::Red))
    } else if chars_equal(&s, "projectile.spiral") {
        Some(TextureKey::Projectile(ProjectileTexture::Spiral))
    } else {
        None
    }
}

/// The canonical (category, index) order of texture keys.
pub open spec fn spec_sort_key(key: TextureKey) -> (u8, u8) {
    match key {
        TextureKey::Wall(WallTexture::Green) => (0, 0),
        TextureKey::Wall(WallTexture::Orange) => (0, 1),
        TextureKey::Wall(WallTexture::Grey) => (0, 2),
        TextureKey::Floor(FloorTexture::Smooth) => (1, 0),
        TextureKey::Floor(FloorTexture::MilkVeins) => (1, 1),
        TextureKey::Item(ItemTexture::Health) => (2, 0),
        TextureKey::Actor(ActorTexture::Red) => (3, 0),
        TextureKey::Projectile(ProjectileTexture::Spiral) => (4, 0),
    }
}

/// The (category, index) pair textures are ordered by.
pub fn texture_sort_key(key: TextureKey) -> (r: (u8, u8))
    ensures
        r == spec_sort_key(key),
{
    match key {
        TextureKey::Wall(WallTexture::Green) => (0, 0),
        TextureKey::Wall(WallTexture::Orange) => (0, 1),
        TextureKey::Wall(WallTexture::Grey) => (0, 2),
        TextureKey::Floor(FloorTexture::Smooth) => (1, 0),
        TextureKey::Floor(FloorTexture::MilkVeins) => (1, 1),
        TextureKey::Item(ItemTexture::Health) => (2, 0),
        TextureKey::Actor(ActorTexture::Red) => (3, 0),
        TextureKey::Projectile(ProjectileTexture::Spiral) => (4, 0),
    }
}

/// Distinct texture keys have distinct sort keys, so sorting by them orders
/// the keys totally.
pub proof fn lemma_sort_key_injective(a: TextureKey, b: TextureKey)
    requires
        spec_sort_key(a) == spec_sort_key(b),
    ensures
        a == b,
{
}

/// The wall texture a level tile value (1, 2 or 3) is drawn with.
pub open spec fn spec_wall_texture(tile: u8) -> TextureKey {
    if tile == 1 {
        TextureKey::Wall(WallTexture::Green)
    } else if tile == 2 {
        TextureKey::Wall(WallTexture::Orange)
    } else {
        TextureKey::Wall(WallTexture::Grey)
    }
}

/// How an entity kind is drawn: its texture, whether it turns to face its
/// movement, and its animation. (The billboard size is kept by the
/// renderer.)
#[derive(Clone, Copy, Debug, PartialEq, Eq, Structural)]
pub struct VisualDefinition {
    pub texture: TextureKey,
    pub facing_mode: FacingMode,
    pub animation: AnimationStyle,
}

/// The visual of each entity kind.
pub open spec fn visual_of(visual: VisualId) -> VisualDefinition {
    match visual {
        VisualId::PlayerActor => VisualDefinition {
            texture: TextureKey::Actor(ActorTexture::Red),
            facing_mode: FacingMode::Movement,
            animation: AnimationStyle::WalkPingPong,
        },
        VisualId::StaticProp => VisualDefinition {
            texture: TextureKey::Wall(WallTexture::Grey),
            facing_mode: FacingMode::Fixed,
            animation: AnimationStyle::Static,
        },
        VisualId::Pickup => VisualDefinition {
            texture: TextureKey::Item(ItemTexture::Health),
            facing_mode: FacingMode::Fixed,
            animation: AnimationStyle::Static,
        },
        VisualId::Projectile => VisualDefinition {
            texture: TextureKey::Projectile(ProjectileTexture::Spiral),
            facing_mode: FacingMode::Fixed,
            animation: AnimationStyle::LoopStrip,
        },
    }
}

/// The visual of `visual`: players are red walking actors facing their
/// movement, props grey walls, pickups health items, projectiles spinning
/// spirals.
pub fn visual_definition(visual: VisualId) -> (d: VisualDefinition)
    ensures
        d == visual_of(visual),
{
    match visual {
        VisualId::PlayerActor => VisualDefinition {
            texture: TextureKey::Actor(ActorTexture::Red),
            facing_mode: FacingMode::Movement,
            animation: AnimationStyle::WalkPingPong,
        },
        VisualId::StaticProp => VisualDefinition {
            texture: TextureKey::Wall(WallTexture::Grey),
            facing_mode: FacingMode::Fixed,
            animation: AnimationStyle::Static,
        },
        VisualId::Pickup => VisualDefinition {
            texture: TextureKey::Item(ItemTexture::Health),
            facing_mode: FacingMode::Fixed,
            animation: AnimationStyle::Static,
        },
        VisualId::Projectile => VisualDefinition {
            texture: TextureKey::Projectile(ProjectileTexture::Spiral),
            facing_mode: FacingMode::Fixed,
            animation: AnimationStyle::LoopStrip,
        },
    }
}

/// Every texture key, in canonical order; each one is a required asset.
pub open spec fn all_keys() -> Seq<TextureKey> {
    seq![
        TextureKey::Wall(WallTexture::Green),
        TextureKey::Wall(WallTexture::Orange),
        TextureKey::Wall(WallTexture::Grey),
        TextureKey::Floor(FloorTexture::Smooth),
        TextureKey::Floor(FloorTexture::MilkVeins),
        TextureKey::Item(ItemTexture::Health),
        TextureKey::Actor(ActorTexture::Red),
        TextureKey::Projectile(ProjectileTexture::Spiral),
    ]
}

/// The position of `key` in canonical order.
pub open spec fn key_rank(key: TextureKey) -> int {
    match key {
        TextureKey::Wall(WallTexture::Green) => 0,
        TextureKey::Wall(WallTexture::Orange) => 1,
        TextureKey::Wall(WallTexture::Grey) => 2,
        TextureKey::Floor(FloorTexture::Smooth) => 3,
        TextureKey::Floor(FloorTexture::MilkVeins) => 4,
        TextureKey::Item(ItemTexture::Health) => 5,
        TextureKey::Actor(ActorTexture::Red) => 6,
        TextureKey::Projectile(ProjectileTexture::Spiral) => 7,
    }
}

/// Canonical order is the order of the sort keys.
pub proof fn lemma_canonical_order_sorted(i: int, j: int)
    requires
        0 <= i < j < 8,
    ensures
        spec_sort_key(all_keys()[i]).0 < spec_sort_key(all_keys()[j]).0
            || (spec_sort_key(all_keys()[i]).0 == spec_sort_key(all_keys()[j]).0
                && spec_sort_key(all_keys()[i]).1 < spec_sort_key(all_keys()[j]).1),
{
}

/// A key's canonical position and the key at a canonical position undo
/// each other.
pub proof fn lemma_rank_round_trip(key: TextureKey, i: int)
    ensures
        0 <= key_rank(key) < 8,
        all_keys()[key_rank(key)] == key,
        0 <= i < 8 ==> key_rank(all_keys()[i]) == i,
{
}

fn rank_of(key: TextureKey) -> (r: usize)
    ensures
        r == key_rank(key),
        r < 8,
        all_keys()[r as int] == key,
{
    match key {
        TextureKey::Wall(WallTexture::Green) => 0,
        TextureKey::Wall(WallTexture::Orange) => 1,
        TextureKey::Wall(WallTexture::Grey) => 2,
        TextureKey::Floor(FloorTexture::Smooth) => 3,
        TextureKey::Floor(FloorTexture::MilkVeins) => 4,
        TextureKey::Item(ItemTexture::Health) => 5,
        TextureKey::Actor(ActorTexture::Red) => 6,
        TextureKey::Projectile(ProjectileTexture::Spiral) => 7,
    }
}

/// The three wall values name the three wall textures, in asset order:
/// wall value `v` (1..=3) takes the `v`-th wall texture (green, orange,
/// grey), so different wall values are drawn with different textures.
pub proof fn lemma_wall_values_name_wall_textures(v: u8, u: u8)
    requires
        1 <= v <= 3,
        1 <= u <= 3,
    ensures
        spec_wall_texture(v) is Wall,
        key_rank(spec_wall_texture(v)) == v - 1,
        v != u ==> spec_wall_texture(v) != spec_wall_texture(u),
{
}

fn key_at(r: usize) -> (k: TextureKey)
    requires
        r < 8,
    ensures
        k == all_keys()[r as int],
{
    match r {
        0 => TextureKey::Wall(WallTexture::Green),
        1 => TextureKey::Wall(WallTexture::Orange),
        2 => TextureKey::Wall(WallTexture::Grey),
        3 => TextureKey::Floor(FloorTexture::Smooth),
        4 => TextureKey::Floor(FloorTexture::MilkVeins),
        5 => TextureKey::Item(ItemTexture::Health),
        6 => TextureKey::Actor(ActorTexture::Red),
        _ => TextureKey::Projectile(ProjectileTexture::Spiral),
    }
}

/// What `image` decodes a file's bytes to, converted to 8-bit RGBA: width,
/// height and the row-major pixel bytes.
pub uninterp spec fn decoded_rgba8(bytes: Seq<u8>) -> Option<(u32, u32, Seq<u8>)>;

/// Decodes an image with `image::load_from_memory` and converts it with
/// `DynamicImage::to_rgba8`. The result is named by `decoded_rgba8`; the
/// buffer of an `ImageBuffer` holds at least width x height x 4 bytes.
#[verifier::external_body]
fn decode_rgba8(bytes: &[u8]) -> (r: Option<(u32, u32, Vec<u8>)>)
    ensures
        match r {
            None => decoded_rgba8(bytes@) is None,
            Some((w, h, px)) => decoded_rgba8(bytes@) == Some((w, h, px@)) && px@.len() >= w * h * 4,
        },
{
    match image::load_from_memory(bytes) {
        Ok(img) => {
            let rgba = img.to_rgba8();
            Some((rgba.width(), rgba.height(), rgba.into_raw()))
        },
        Err(_) => None,
    }
}

/// A decoded texture: `width` x `height` RGBA pixels, row-major.
pub struct RgbaTexture {
    pub width: u32,
    pub height: u32,
    pub pixels: Vec<u8>,
}

impl RgbaTexture {
    /// (width, height, pixel bytes).
    pub open spec fn view(&self) -> (u32, u32, Seq<u8>) {
        (self.width, self.height, self.pixels@)
    }
}

/// Decodes one image file's bytes to an RGBA texture, as the presenter
/// does for an input image: `None` when `image` cannot decode them,
/// otherwise exactly what it decodes them to, with at least width x height
/// x 4 pixel bytes.
pub fn decode_image(bytes: &[u8]) -> (r: Option<RgbaTexture>)
    ensures
        match r {
            None => decoded_rgba8(bytes@) is None,
            Some(t) => decoded_rgba8(bytes@) == Some(t.view()) && t.pixels@.len() >= t.width * t.height * 4,
        },
{
    match decode_rgba8(bytes) {
        Some((width, height, pixels)) => Some(RgbaTexture { width, height, pixels }),
        None => None,
    }
}

/// Why the texture assets could not be loaded.
pub enum TextureError {
    /// The file with this stem names a texture but does not decode.
    Decode(String),
    /// Two files name this texture.
    Duplicate(TextureKey),
    /// No file names this required texture.
    Missing(TextureKey),
}

/// The key named by the stem of file `i`.
pub open spec fn file_key(files: Seq<(String, Vec<u8>)>, i: int) -> Option<TextureKey> {
    spec_texture_key(files[i].0@)
}

/// How many of the first `n` files name `key`.
pub open spec fn key_count(files: Seq<(String, Vec<u8>)>, n: int, key: TextureKey) -> nat
    decreases n,
{
    if n <= 0 {
        0
    } else {
        key_count(files, n - 1, key) + if file_key(files, n - 1) == Some(key) { 1nat } else { 0nat }
    }
}

/// The first of the first `n` files that names `key`, or -1.
pub open spec fn first_with_key(files: Seq<(String, Vec<u8>)>, n: int, key: TextureKey) -> int
    decreases n,
{
    if n <= 0 {
        -1
    } else if first_with_key(files, n - 1, key) >= 0 {
        first_with_key(files, n - 1, key)
    } else if file_key(files, n - 1) == Some(key) {
        n - 1
    } else {
        -1
    }
}

/// The first of the first `n` files that names a texture but does not
/// decode, or -1.
pub open spec fn first_undecodable(files: Seq<(String, Vec<u8>)>, n: int) -> int
    decreases n,
{
    if n <= 0 {
        -1
    } else if first_undecodable(files, n - 1) >= 0 {
        first_undecodable(files, n - 1)
    } else if file_key(files, n - 1) is Some && decoded_rgba8(files[n - 1].1@) is None {
        n - 1
    } else {
        -1
    }
}

/// The first of the first `m` keys (canonical order) named by two or more
/// files, or -1.
pub open spec fn first_duplicate(files: Seq<(String, Vec<u8>)>, m: int) -> int
    decreases m,
{
    if m <= 0 {
        -1
    } else if first_duplicate(files, m - 1) >= 0 {
        first_duplicate(files, m - 1)
    } else if key_count(files, files.len() as int, all_keys()[m - 1]) >= 2 {
        m - 1
    } else {
        -1
    }
}

/// The first of the first `m` keys (canonical order) named by no file, or
/// -1.
pub open spec fn first_missing(files: Seq<(String, Vec<u8>)>, m: int) -> int
    decreases m,
{
    if m <= 0 {
        -1
    } else if first_missing(files, m - 1) >= 0 {
        first_missing(files, m - 1)
    } else if key_count(files, files.len() as int, all_keys()[m - 1]) == 0 {
        m - 1
    } else {
        -1
    }
}

/// The decoded texture asset files, one per texture key, in canonical order.
pub struct TextureManager {
    textures: Vec<RgbaTexture>,
    keys_by_index: Vec<TextureKey>,
}

impl TextureManager {
    #[verifier::type_invariant]
    spec fn inv(self) -> bool {
        &&& self.keys_by_index@ == all_keys()
        &&& self.textures@.len() == 8
    }

    /// The texture keys by index.
    pub closed spec fn keys(&self) -> Seq<TextureKey> {
        self.keys_by_index@
    }

    /// The textures by index, as (width, height, pixel bytes).
    pub closed spec fn textures(&self) -> Seq<(u32, u32, Seq<u8>)> {
        self.textures@.map_values(|t: RgbaTexture| t.view())
    }

    /// Decodes the texture asset files, given as (file stem, contents).
    /// Files whose stem names no texture are skipped. Fails on the first
    /// file that names a texture and does not decode; then on the first key
    /// (canonical order) named by two files; then on the first key named by
    /// none. Otherwise texture `i` is the file naming the `i`-th key.
    pub fn from_files(files: &Vec<(String, Vec<u8>)>) -> (r: Result<TextureManager, TextureError>)
        ensures
            ({
                let n = files@.len() as int;
                let bad = first_undecodable(files@, n);
                let dup = first_duplicate(files@, 8);
                let missing = first_missing(files@, 8);
                if bad >= 0 {
                    r matches Err(TextureError::Decode(stem)) && stem@ == files@[bad].0@
                } else if dup >= 0 {
                    r matches Err(TextureError::Duplicate(k)) && k == all_keys()[dup]
                } else if missing >= 0 {
                    r matches Err(TextureError::Missing(k)) && k == all_keys()[missing]
                } else {
                    r matches Ok(m) && m.keys() == all_keys() && forall|i: int| 0 <= i < 8 ==>
                        Some(#[trigger] m.textures()[i]) == decoded_rgba8(files@[first_with_key(files@, n, all_keys()[i])].1@)
                }
            }),
    {
        let ghost fs = files@;
        let mut slots: Vec<Option<RgbaTexture>> = Vec::new();
        let mut counts: Vec<usize> = Vec::new();
        let mut r: usize = 0;
        while r < 8
            invariant
                r <= 8,
                slots@ == Seq::new(r as nat, |q: int| None::<RgbaTexture>),
                counts@ == Seq::new(r as nat, |q: int| 0usize),
            decreases 8 - r,
        {
            slots.push(None);
            counts.push(0);
            r = r + 1;
            proof {
                assert(slots@ =~= Seq::new(r as nat, |q: int| None::<RgbaTexture>));
                assert(counts@ =~= Seq::new(r as nat, |q: int| 0usize));
            }
        }
        let mut i: usize = 0;
        while i < files.len()
            invariant
                fs == files@,
                i <= fs.len(),
                slots@.len() == 8,
                counts@.len() == 8,
                first_undecodable(fs, i as int) < 0,
                forall|q: int| 0 <= q < 8 ==> #[trigger] counts@[q] == key_count(fs, i as int, all_keys()[q]),
                forall|q: int| 0 <= q < 8 ==> (#[trigger] slots@[q] is Some) == (first_with_key(fs, i as int, all_keys()[q]) >= 0),
                forall|q: int| 0 <= q < 8 && first_with_key(fs, i as int, all_keys()[q]) >= 0 ==>
                    Some((#[trigger] slots@[q]).unwrap().view())
                        == decoded_rgba8(fs[first_with_key(fs, i as int, all_keys()[q])].1@),
                forall|q: int| 0 <= q < 8 ==> 0 <= #[trigger] counts@[q] <= i,
            decreases fs.len() - i,
        {
            let key = parse_texture_key(files[i].0.as_str());
            match key {
                None => {},
                Some(k) => {
                    match decode_rgba8(files[i].1.as_slice()) {
                        None => {
                            proof {
                                assert(first_undecodable(fs, i + 1) == i);
                                lemma_first_undecodable_stable(fs, i + 1, fs.len() as int);
                            }
                            return Err(TextureError::Decode(files[i].0.clone()));
                        },
                        Some((w, h, px)) => {
                            let q: usize = rank_of(k);
                            let c: usize = counts[q];
                            counts.set(q, c + 1);
                            if slots[q].is_none() {
                                slots.set(q, Some(RgbaTexture { width: w, height: h, pixels: px }));
                            }
                        },
                    }
                },
            }
            proof {
                assert forall|q: int| 0 <= q < 8 implies #[trigger] counts@[q] == key_count(fs, i + 1, all_keys()[q]) by {
                    assert(key_count(fs, i + 1, all_keys()[q]) == key_count(fs, i as int, all_keys()[q])
                        + if file_key(fs, i as int) == Some(all_keys()[q]) { 1nat } else { 0nat });
                }
            }
            i = i + 1;
        }
        let mut r: usize = 0;
        while r < 8
            invariant
                fs == files@,
                i == fs.len(),
                r <= 8,
                counts@.len() == 8,
                forall|q: int| 0 <= q < 8 ==> #[trigger] counts@[q] == key_count(fs, i as int, all_keys()[q]),
                first_duplicate(fs, r as int) < 0,
                first_undecodable(fs, i as int) < 0,
            decreases 8 - r,
        {
            if counts[r] >= 2 {
                proof {
                    assert(first_duplicate(fs, r + 1) == r);
                    lemma_first_duplicate_stable(fs, r + 1, 8);
                }
                return Err(TextureError::Duplicate(key_at(r)));
            }
            r = r + 1;
        }
        let mut r: usize = 0;
        while r < 8
            invariant
                fs == files@,
                i == fs.len(),
                r <= 8,
                counts@.len() == 8,
                forall|q: int| 0 <= q < 8 ==> #[trigger] counts@[q] == key_count(fs, i as int, all_keys()[q]),
                first_missing(fs, r as int) < 0,
                first_duplicate(fs, 8) < 0,
                first_undecodable(fs, i as int) < 0,
            decreases 8 - r,
        {
            if counts[r] == 0 {
                proof {
                    assert(first_missing(fs, r + 1) == r);
                    lemma_first_missing_stable(fs, r + 1, 8);
                }
                return Err(TextureError::Missing(key_at(r)));
            }
            r = r + 1;
        }
        let ghost full = slots@;
        proof {
            assert forall|q: int| 0 <= q < 8 implies (#[trigger] full[q]) is Some by {
                lemma_first_with_key_counted(fs, i as int, all_keys()[q]);
                lemma_first_missing_monotone(fs, q + 1, 8);
                lemma_first_missing_monotone(fs, q, 8);
                assert(counts@[q] != 0);
            }
        }
        let mut textures: Vec<RgbaTexture> = Vec::new();
        let mut keys_by_index: Vec<TextureKey> = Vec::new();
        let mut q: usize = 0;
        while q < 8
            invariant
                q <= 8,
                full.len() == 8,
                slots@ == full.skip(q as int),
                textures@.len() == q,
                keys_by_index@ == all_keys().take(q as int),
                forall|j: int| 0 <= j < 8 ==> (#[trigger] full[j]) is Some,
                forall|j: int| 0 <= j < q ==> Some((#[trigger] textures@[j]).view()) == Some(full[j].unwrap().view()),
            decreases 8 - q,
        {
            let slot = slots.remove(0);
            proof {
                assert(slot == full[q as int]);
                assert(slots@ =~= full.skip(q + 1));
            }
            let t = match slot {
                Some(t) => t,
                None => {
                    proof {
                        assert(false);
                    }
                    RgbaTexture { width: 0, height: 0, pixels: Vec::new() }
                },
            };
            textures.push(t);
            keys_by_index.push(key_at(q));
            proof {
                assert(keys_by_index@ =~= all_keys().take(q + 1));
            }
            q = q + 1;
        }
        proof {
            assert(keys_by_index@ =~= all_keys());
        }
        let m = TextureManager { textures, keys_by_index };
        proof {
            assert forall|j: int| 0 <= j < 8 implies
                Some(#[trigger] m.textures()[j]) == decoded_rgba8(fs[first_with_key(fs, i as int, all_keys()[j])].1@) by {
                lemma_first_with_key_counted(fs, i as int, all_keys()[j]);
            }
        }
        Ok(m)
    }

    /// All textures, by index.
    pub fn images(&self) -> (r: &[RgbaTexture])
        ensures
            r@.len() == 8,
            forall|i: int| 0 <= i < 8 ==> (#[trigger] r@[i]).view() == self.textures()[i],
    {
        proof {
            use_type_invariant(self);
        }
        self.textures.as_slice()
    }

    /// The index of the texture of `key`: its position in canonical order.
    pub fn texture_index(&self, key: TextureKey) -> (r: usize)
        ensures
            r == key_rank(key),
            r < 8,
            self.keys()[r as int] == key,
    {
        proof {
            use_type_invariant(self);
        }
        let mut i: usize = 0;
        while i < self.keys_by_index.len()
            invariant
                self.keys_by_index@ == all_keys(),
                i <= key_rank(key),
            decreases 8 - i,
        {
            if self.keys_by_index[i] == key {
                return i;
            }
            i = i + 1;
        }
        i
    }

    /// The texture of `key`.
    pub fn image(&self, key: TextureKey) -> (r: &RgbaTexture)
        ensures
            r.view() == self.textures()[key_rank(key)],
    {
        proof {
            use_type_invariant(self);
        }
        let index: usize = self.texture_index(key);
        &self.textures[index]
    }

    /// The texture at `index` (below 8).
    pub fn image_by_index(&self, index: usize) -> (r: &RgbaTexture)
        requires
            index < 8,
        ensures
            r.view() == self.textures()[index as int],
    {
        proof {
            use_type_invariant(self);
        }
        &self.textures[index]
    }

    /// The key of the texture at `index` (below 8).
    pub fn key_at_index(&self, index: usize) -> (k: TextureKey)
        requires
            index < 8,
        ensures
            k == all_keys()[index as int],
            k == self.keys()[index as int],
    {
        proof {
            use_type_invariant(self);
        }
        self.keys_by_index[index]
    }

    /// The wall texture of a tile value: 1 green, 2 orange, 3 grey.
    pub fn wall_texture(&self, tile: u8) -> (k: TextureKey)
        requires
            1 <= tile <= 3,
        ensures
            k == spec_wall_texture(tile),
    {
        match tile {
            1 => TextureKey::Wall(WallTexture::Green),
            2 => TextureKey::Wall(WallTexture::Orange),
            _ => TextureKey::Wall(WallTexture::Grey),
        }
    }
}

/// A key has a first file naming it exactly when some file names it.
proof fn lemma_first_with_key_counted(files: Seq<(String, Vec<u8>)>, n: int, key: TextureKey)
    requires
        n >= 0,
    ensures
        (first_with_key(files, n, key) >= 0) == (key_count(files, n, key) > 0),
        first_with_key(files, n, key) < n,
        first_with_key(files, n, key) >= 0 ==> file_key(files, first_with_key(files, n, key)) == Some(key),
    decreases n,
{
    if n > 0 {
        lemma_first_with_key_counted(files, n - 1, key);
    }
}

/// Once found among the first `m` files, the first undecodable file stays
/// the first.
proof fn lemma_first_undecodable_stable(files: Seq<(String, Vec<u8>)>, m: int, n: int)
    requires
        0 <= m <= n,
        first_undecodable(files, m) >= 0,
    ensures
        first_undecodable(files, n) == first_undecodable(files, m),
    decreases n - m,
{
    if m < n {
        lemma_first_undecodable_stable(files, m, n - 1);
    }
}

/// Once found among the first `m` keys, the first duplicated key stays the
/// first.
proof fn lemma_first_duplicate_stable(files: Seq<(String, Vec<u8>)>, m: int, n: int)
    requires
        0 <= m <= n,
        first_duplicate(files, m) >= 0,
    ensures
        first_duplicate(files, n) == first_duplicate(files, m),
    decreases n - m,
{
    if m < n {
        lemma_first_duplicate_stable(files, m, n - 1);
    }
}

/// Once found among the first `m` keys, the first missing key stays the
/// first.
proof fn lemma_first_missing_stable(files: Seq<(String, Vec<u8>)>, m: int, n: int)
    requires
        0 <= m <= n,
        first_missing(files, m) >= 0,
    ensures
        first_missing(files, n) == first_missing(files, m),
    decreases n - m,
{
    if m < n {
        lemma_first_missing_stable(files, m, n - 1);
    }
}

/// Once a missing key is found among the first `m` keys it stays found.
proof fn lemma_first_missing_monotone(files: Seq<(String, Vec<u8>)>, m: int, m2: int)
    requires
        0 <= m <= m2,
        first_missing(files, m2) < 0,
    ensures
        first_missing(files, m) < 0,
    decreases m2 - m,
{
    if m < m2 {
        lemma_first_missing_monotone(files, m + 1, m2);
    }
}

} // verus!
