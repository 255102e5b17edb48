use cpu_game::mesh::{static_mesh_faces, FaceSide, MeshFace};
use cpu_game::atlas::{build_texture_atlas, AtlasSlot};
use cpu_game::animation::{
    animation_frame_column, animation_frame_row, animation_grid, side_to_row, sprite_frame_origin,
    walk_frame_col, VisibleSide,
};
use cpu_game::color::{hex_digit, hex_pair, modulate_rgb_u8, rgba_from_hex, srgb_to_u32};
use cpu_game::launch::{parse_port, StartupMode, DEFAULT_PORT};
use cpu_game::model::{blocks_movement, random_empty_waypoint, tile_corners, AoField, EntityKind, Level, PickupKind};
use cpu_game::path::{compute_path, manhattan_distance};
use cpu_game::texture::{
    decode_image, parse_texture_key, texture_sort_key, visual_definition, AnimationPlayback, AnimationStyle, FacingMode,
    FloorTexture, ItemTexture, RgbaTexture, TextureError, TextureKey, TextureManager, VisualId, WallTexture,
};

fn args(list: &[&str]) -> Vec<String> {
    list.iter().map(|s| s.to_string()).collect()
}

fn png_bytes(width: u32, height: u32, shade: u8) -> Vec<u8> {
    let img = image::RgbaImage::from_pixel(width, height, image::Rgba([shade, 0, 0, 255]));
    let mut bytes = Vec::new();
    img.write_to(&mut std::io::Cursor::new(&mut bytes), image::ImageFormat::Png).unwrap();
    bytes
}

const STEMS: [&str; 8] = [
    "wall.green",
    "wall.orange",
    "wall.grey",
    "floor.smooth",
    "floor.milkveins",
    "item.health",
    "actor.red",
    "projectile.spiral",
];

fn texture_files() -> Vec<(String, Vec<u8>)> {
    let mut files: Vec<(String, Vec<u8>)> = STEMS
        .iter()
        .enumerate()
        .rev()
        .map(|(i, stem)| (stem.to_string(), png_bytes(i as u32 + 1, 2, i as u8)))
        .collect();
    files.push(("map".to_string(), vec![0, 1, 2]));
    files
}

#[test]
fn test_load_texture_manager() {
    let textures = match TextureManager::from_files(&texture_files()) {
        Ok(manager) => manager,
        Err(_) => panic!("texture assets should load"),
    };
    for (i, texture) in textures.images().iter().enumerate() {
        println!("Loaded texture: {} ({}x{})", i, texture.width, texture.height);
    }
}

#[test]
fn texture_manager_orders_by_key() {
    let manager = match TextureManager::from_files(&texture_files()) {
        Ok(manager) => manager,
        Err(_) => panic!("texture assets should load"),
    };
    assert_eq!(manager.images().len(), 8);
    for (i, stem) in STEMS.iter().enumerate() {
        let key = parse_texture_key(stem).unwrap();
        assert_eq!(manager.texture_index(key), i);
        assert_eq!(manager.key_at_index(i), key);
        let texture = manager.image(key);
        assert_eq!((texture.width, texture.height), (i as u32 + 1, 2));
        assert_eq!(texture.pixels[0], i as u8);
        assert_eq!(manager.image_by_index(i).width, i as u32 + 1);
    }
    assert_eq!(manager.wall_texture(2), TextureKey::Wall(WallTexture::Orange));
}

#[test]
fn texture_manager_reports_bad_assets() {
    let mut files = texture_files();
    files[0].1 = vec![1, 2, 3];
    match TextureManager::from_files(&files) {
        Err(TextureError::Decode(stem)) => assert_eq!(stem, "projectile.spiral"),
        _ => panic!("expected a decode error"),
    }

    let mut files = texture_files();
    files.push(("item.health".to_string(), png_bytes(1, 1, 0)));
    files.push(("wall.grey".to_string(), png_bytes(1, 1, 0)));
    match TextureManager::from_files(&files) {
        Err(TextureError::Duplicate(key)) => assert_eq!(key, TextureKey::Wall(WallTexture::Grey)),
        _ => panic!("expected a duplicate error"),
    }

    let files: Vec<(String, Vec<u8>)> =
        texture_files().into_iter().filter(|(stem, _)| stem != "floor.smooth" && stem != "item.health").collect();
    match TextureManager::from_files(&files) {
        Err(TextureError::Missing(key)) => assert_eq!(key, TextureKey::Floor(FloorTexture::Smooth)),
        _ => panic!("expected a missing-asset error"),
    }
}

#[test]
fn texture_keys_parse_and_sort() {
    assert_eq!(parse_texture_key("wall.grey"), Some(TextureKey::Wall(WallTexture::Grey)));
    assert_eq!(parse_texture_key("item.health"), Some(TextureKey::Item(ItemTexture::Health)));
    assert_eq!(parse_texture_key("wall"), None);
    assert_eq!(parse_texture_key("Wall.grey"), None);
    assert_eq!(texture_sort_key(TextureKey::Floor(FloorTexture::MilkVeins)), (1, 1));
    assert_eq!(FloorTexture::from_u8(1), Some(FloorTexture::MilkVeins));
    assert_eq!(FloorTexture::from_u8(2), None);
    let player = visual_definition(VisualId::PlayerActor);
    assert_eq!(player.facing_mode, FacingMode::Movement);
    assert_eq!(player.animation, AnimationStyle::WalkPingPong);
    assert_eq!(visual_definition(VisualId::Pickup).texture, TextureKey::Item(ItemTexture::Health));
}

#[test]
fn level_queries_and_empty_tiles() {
    let level = Level::new(vec![vec![1, 0, 2], vec![0, 3, 0]]);
    assert!(level.is_wall(0, 0));
    assert!(!level.is_wall(1, 0));
    assert_eq!(level.tile_at(1, 1), 3);
    assert_eq!(level.floor_at(2, 1), FloorTexture::Smooth);
    assert_eq!(level.get_empty_tiles(), vec![(1, 0), (0, 1), (2, 1)]);
    let tile = random_empty_waypoint(&level).unwrap();
    assert!(level.get_empty_tiles().contains(&tile));
    assert_eq!(random_empty_waypoint(&Level::new(vec![vec![1, 1]])), None);

    let floors = vec![vec![FloorTexture::MilkVeins, FloorTexture::Smooth]];
    let level = Level::with_floor_tiles(vec![vec![0, 1]], floors);
    assert_eq!(level.floor_at(0, 0), FloorTexture::MilkVeins);
}

#[test]
fn path_search_finds_routes_around_walls() {
    let tiles = vec![
        vec![1, 1, 1, 1, 1, 1],
        vec![1, 0, 0, 0, 0, 1],
        vec![1, 1, 1, 1, 0, 1],
        vec![1, 0, 0, 0, 0, 1],
        vec![1, 1, 1, 1, 1, 1],
    ];
    let level = Level::new(tiles);
    let path = compute_path(&level, (1, 1), (1, 3)).unwrap();
    assert_eq!(path.first(), Some(&(1, 1)));
    assert_eq!(path.last(), Some(&(1, 3)));
    assert_eq!(path.len(), 9);
    for pair in path.windows(2) {
        assert_eq!(manhattan_distance(pair[0], pair[1]), 1);
        assert!(!level.is_wall(pair[1].0 as usize, pair[1].1 as usize));
    }
    assert_eq!(compute_path(&level, (2, 1), (2, 1)).unwrap(), vec![(2, 1)]);

    let walled = Level::new(vec![
        vec![1, 1, 1, 1, 1],
        vec![1, 0, 1, 0, 1],
        vec![1, 1, 1, 1, 1],
    ]);
    assert_eq!(compute_path(&walled, (1, 1), (3, 1)), None);
    assert_eq!(compute_path(&walled, (1, 1), (2, 1)), None);
    assert_eq!(manhattan_distance((-2, 3), (4, -1)), 10);
}

#[test]
fn entity_kinds_and_ao_lookup() {
    assert!(blocks_movement(&EntityKind::StaticProp { blocks_movement: true }));
    assert!(!blocks_movement(&EntityKind::StaticProp { blocks_movement: false }));
    assert!(!blocks_movement(&EntityKind::Pickup { pickup_kind: PickupKind::Medkit }));
    assert!(!blocks_movement(&EntityKind::Pawn { owner_id: Some(1) }));
    let ao = AoField { width: 2, height: 1, corners: vec![[1, 2, 3, 4], [5, 6, 7, 8]] };
    assert_eq!(tile_corners(&ao, 1, 0), [5, 6, 7, 8]);
    assert_eq!(tile_corners(&ao, 2, 0), [255; 4]);
    assert_eq!(tile_corners(&ao, 0, 1), [255; 4]);
}

#[test]
fn sprite_frames_follow_playback_and_facing() {
    assert_eq!(side_to_row(VisibleSide::Left), 2);
    assert_eq!(walk_frame_col(0, true), 0);
    assert_eq!(walk_frame_col(2, true), 2);
    assert_eq!(walk_frame_col(3, true), 1);
    assert_eq!(walk_frame_col(6, true), 2);
    assert_eq!(walk_frame_col(6, false), 1);
    let walk = animation_grid(AnimationStyle::WalkPingPong).unwrap();
    assert_eq!((walk.columns, walk.rows, walk.frame_width), (3, 4, 64));
    assert_eq!(walk.playback, AnimationPlayback::PingPong);
    let strip = animation_grid(AnimationStyle::LoopStrip).unwrap();
    assert_eq!(animation_frame_column(strip, 6, false), 2);
    assert_eq!(animation_frame_row(strip, 6), 0);
    assert_eq!(animation_frame_row(walk, 6), 0);
    assert!(animation_grid(AnimationStyle::Static).is_none());

    let (x, y, grid) =
        sprite_frame_origin(AnimationStyle::WalkPingPong, 192, 256, 5, true, FacingMode::Movement, VisibleSide::Back)
            .unwrap();
    assert_eq!((x, y), (64, 64));
    assert_eq!(grid.frame_height, 64);
    let (x, y, _) =
        sprite_frame_origin(AnimationStyle::WalkPingPong, 192, 256, 5, true, FacingMode::Fixed, VisibleSide::Back)
            .unwrap();
    assert_eq!((x, y), (64, 0));
    let (x, y, _) =
        sprite_frame_origin(AnimationStyle::LoopStrip, 64, 16, 7, false, FacingMode::Fixed, VisibleSide::Front).unwrap();
    assert_eq!((x, y), (48, 0));
    assert!(sprite_frame_origin(AnimationStyle::WalkPingPong, 191, 256, 0, true, FacingMode::Fixed, VisibleSide::Front)
        .is_none());
    assert!(sprite_frame_origin(AnimationStyle::Static, 64, 64, 0, true, FacingMode::Fixed, VisibleSide::Front)
        .is_none());
}

#[test]
fn hex_colors_and_packing() {
    assert_eq!(hex_digit(b'7'), 7);
    assert_eq!(hex_digit(b'c'), 12);
    assert_eq!(hex_digit(b'F'), 15);
    assert_eq!(hex_pair(b'a', b'0'), 0xa0);
    assert_eq!(rgba_from_hex("#1a2B3c", 200), [0x1a, 0x2b, 0x3c, 200]);
    assert_eq!(srgb_to_u32(0x12, 0x34, 0x56), 0x0012_3456);
    assert_eq!(modulate_rgb_u8(255, 128, 10, 255), 0x00ff_800a);
    assert_eq!(modulate_rgb_u8(200, 100, 50, 128), (100 << 16) | (50 << 8) | 25);
    assert_eq!(modulate_rgb_u8(200, 100, 50, 0), 0);
}

#[test]
fn ports_parse_like_u16() {
    assert_eq!(parse_port("3456"), Ok(3456));
    assert_eq!(parse_port("+80"), Ok(80));
    assert_eq!(parse_port("0065535"), Ok(65535));
    assert_eq!(parse_port("65536"), Err("invalid port: 65536".to_string()));
    assert_eq!(parse_port(""), Err("invalid port: ".to_string()));
    assert_eq!(parse_port("+"), Err("invalid port: +".to_string()));
    assert_eq!(parse_port("-1"), Err("invalid port: -1".to_string()));
    assert_eq!(parse_port("8o"), Err("invalid port: 8o".to_string()));
}

#[test]
fn launch_arguments_select_mode() {
    match StartupMode::from_args(&args(&[])) {
        Ok(StartupMode::Client(o)) => {
            assert_eq!(o.server_ip, None);
            assert_eq!(o.server_port, DEFAULT_PORT);
        },
        _ => panic!("default is a client"),
    }
    match StartupMode::from_args(&args(&["--server", "--port", "4000"])) {
        Ok(StartupMode::Server(o)) => assert_eq!(o.port, 4000),
        _ => panic!("expected server"),
    }
    match StartupMode::from_args(&args(&["host", "--port=99", "--mode=client", "--ip=10.0.0.2"])) {
        Ok(StartupMode::Client(o)) => {
            assert_eq!(o.server_ip.as_deref(), Some("10.0.0.2"));
            assert_eq!(o.server_port, 99);
        },
        _ => panic!("last mode wins"),
    }
    match StartupMode::from_args(&args(&["--ip", "1.2.3.4", "--host"])) {
        Ok(StartupMode::Host(o)) => assert_eq!(o.port, DEFAULT_PORT),
        _ => panic!("expected host"),
    }
    let err = |list: &[&str]| match StartupMode::from_args(&args(list)) {
        Err(e) => e,
        Ok(_) => panic!("expected an error"),
    };
    assert_eq!(err(&["--ip"]), "missing value after --ip");
    assert_eq!(err(&["--port"]), "missing value after --port");
    assert_eq!(err(&["--port", "x"]), "invalid port: x");
    assert_eq!(err(&["--port=70000"]), "invalid port: 70000");
    assert_eq!(err(&["--bogus", "--help"]), "unrecognized argument: --bogus");
    assert!(err(&["-h", "--bogus"]).starts_with("usage: cpu-game"));
}

fn solid(width: u32, height: u32, value: u8) -> RgbaTexture {
    RgbaTexture { width, height, pixels: vec![value; (width * height * 4) as usize] }
}

#[test]
fn atlas_places_textures_in_padded_strips() {
    let textures = vec![solid(2, 3, 7), solid(1, 1, 9)];
    let (atlas, slots) = build_texture_atlas(&textures);
    assert_eq!((atlas.width, atlas.height), (6, 5));
    assert_eq!(atlas.pixels.len(), 6 * 5 * 4);
    assert_eq!(slots, vec![
        AtlasSlot { x: 1, y: 1, width: 2, height: 3 },
        AtlasSlot { x: 4, y: 1, width: 1, height: 1 },
    ]);
    let px = |x: usize, y: usize| atlas.pixels[(y * 6 + x) * 4];
    assert_eq!(px(0, 0), 0);
    assert_eq!(px(1, 1), 7);
    assert_eq!(px(2, 3), 7);
    assert_eq!(px(3, 1), 0);
    assert_eq!(px(4, 1), 9);
    assert_eq!(px(4, 2), 0);
    assert_eq!(px(5, 1), 0);
    assert_eq!(px(1, 4), 0);

    let (empty, slots) = build_texture_atlas(&[]);
    assert_eq!((empty.width, empty.height), (1, 3));
    assert!(empty.pixels.iter().all(|&b| b == 0));
    assert!(slots.is_empty());
}

#[test]
fn atlas_copies_pixels_in_row_order() {
    let mut t = solid(2, 2, 0);
    for (i, b) in t.pixels.iter_mut().enumerate() {
        *b = i as u8;
    }
    let (atlas, _) = build_texture_atlas(&[t]);
    // atlas is 4 x 4; texture pixel (1, 1) starts at byte 12 of the texture
    let at = |x: usize, y: usize, c: usize| atlas.pixels[(y * 4 + x) * 4 + c];
    assert_eq!(at(2, 2, 0), 12);
    assert_eq!(at(2, 2, 3), 15);
    assert_eq!(at(1, 1, 1), 1);
}

#[test]
fn decodes_one_input_image_to_rgba() {
    let texture = decode_image(&png_bytes(3, 2, 77)).expect("png decodes");
    assert_eq!((texture.width, texture.height), (3, 2));
    assert_eq!(texture.pixels.len(), 3 * 2 * 4);
    assert_eq!(&texture.pixels[0..4], &[77, 0, 0, 255]);
    assert!(texture.pixels.chunks(4).all(|p| p == [77, 0, 0, 255]));
    assert!(decode_image(&[1, 2, 3, 4]).is_none());
    assert!(decode_image(&[]).is_none());
}

#[test]
fn path_search_needs_only_the_expanded_region_walled_in() {
    // Open floor outside a walled pocket, and rows of different lengths.
    let level = Level::new(vec![
        vec![0, 0, 0, 0, 0, 0],
        vec![0, 1, 1, 1, 1, 0],
        vec![0, 1, 0, 0, 1],
        vec![0, 1, 1, 1, 1, 0, 0],
    ]);
    assert_eq!(compute_path(&level, (2, 2), (3, 2)), Some(vec![(2, 2), (3, 2)]));
    assert_eq!(compute_path(&level, (2, 2), (0, 0)), None);
    assert_eq!(compute_path(&level, (2, 2), (40, -7)), None);
    assert_eq!(compute_path(&level, (-5, -5), (-5, -5)), Some(vec![(-5, -5)]));
}

#[test]
fn static_mesh_has_floors_and_exposed_wall_sides() {
    let textures = match TextureManager::from_files(&texture_files()) {
        Ok(manager) => manager,
        Err(_) => panic!("texture assets should load"),
    };
    let level = Level::new(vec![vec![1, 1, 1], vec![1, 0, 2]]);
    let face = |x: usize, z: usize, side: FaceSide, texture: usize| MeshFace { x, z, side, texture };
    let expected = vec![
        face(0, 0, FaceSide::Left, 0),
        face(0, 0, FaceSide::North, 0),
        face(1, 0, FaceSide::North, 0),
        face(1, 0, FaceSide::South, 0),
        face(2, 0, FaceSide::Right, 0),
        face(2, 0, FaceSide::North, 0),
        face(0, 1, FaceSide::Left, 0),
        face(0, 1, FaceSide::Right, 0),
        face(0, 1, FaceSide::South, 0),
        face(1, 1, FaceSide::Floor, 3),
        face(2, 1, FaceSide::Left, 1),
        face(2, 1, FaceSide::Right, 1),
        face(2, 1, FaceSide::South, 1),
    ];
    assert_eq!(static_mesh_faces(&level, &textures, 8), expected);
    let clamped = static_mesh_faces(&level, &textures, 2);
    assert_eq!(clamped[9], face(1, 1, FaceSide::Floor, 1));
    assert_eq!(clamped[12], face(2, 1, FaceSide::South, 1));
    assert!(static_mesh_faces(&Level::new(vec![]), &textures, 8).is_empty());
}
