use ruga::levels::{build_castle, register_music, Castle, CastleSetting, Dungeon, DungeonSetting, Level};

fn castle(rooms: usize) -> Castle {
    Castle {
        name: "keep".to_string(),
        music: 0,
        dungeons: vec![Dungeon { name: "cellar".to_string(), music: 0, rooms: (0..rooms).map(|i| format!("r{}", i)).collect() }],
    }
}

#[test]
fn next_room_then_corridor() {
    let castles = vec![castle(3)];
    let l = Level::Room { castle: 0, dungeon: 0, room: 0 };
    assert_eq!(l.next(&castles), Level::Room { castle: 0, dungeon: 0, room: 1 });
    let l = Level::Room { castle: 0, dungeon: 0, room: 2 };
    assert_eq!(l.next(&castles), Level::Corridor { castle: 0 });
}

#[test]
fn music_registered_once() {
    let mut musics = vec!["a".to_string(), "b".to_string()];
    assert_eq!(register_music(&mut musics, "b".to_string()), 1);
    assert_eq!(musics.len(), 2);
    assert_eq!(register_music(&mut musics, "c".to_string()), 2);
    assert_eq!(musics, vec!["a".to_string(), "b".to_string(), "c".to_string()]);
}

#[test]
fn castle_music_always_added_dungeon_music_shared() {
    let mut musics = vec!["entry".to_string()];
    let setting = CastleSetting {
        music: "castle".to_string(),
        dungeons: vec![
            DungeonSetting { name: "one".to_string(), music: "dark".to_string(), rooms: vec!["x".to_string()] },
            DungeonSetting { name: "two".to_string(), music: "castle".to_string(), rooms: vec![] },
            DungeonSetting { name: "three".to_string(), music: "dark".to_string(), rooms: vec!["y".to_string(), "z".to_string()] },
        ],
    };
    let c = build_castle(&mut musics, "keep".to_string(), setting);
    assert_eq!(c.name, "keep");
    assert_eq!(c.music, 1);
    assert_eq!(musics, vec!["entry".to_string(), "castle".to_string(), "dark".to_string()]);
    let got: Vec<(String, usize, usize)> = c.dungeons.iter().map(|d| (d.name.clone(), d.music, d.rooms.len())).collect();
    assert_eq!(got, vec![("one".to_string(), 2, 1), ("two".to_string(), 1, 0), ("three".to_string(), 2, 2)]);
}

use ruga::layout::{corridor_layout, text_level_layout, Placement};
use ruga::levels::{classify, level_source, read_map, room_music, Color, EntityKind, LevelSource, LoadLevelError, Palette};
use ruga::maze::{generate_partial_reverse_randomized_kruskal, raise_wall, Wall};

fn palette() -> Palette {
    Palette {
        empty: Color { r: 255, g: 255, b: 255 },
        character: Color { r: 0, g: 0, b: 255 },
        portal: Color { r: 0, g: 255, b: 0 },
        laser: Color { r: 255, g: 0, b: 0 },
        monster: Color { r: 255, g: 255, b: 0 },
        column: Color { r: 0, g: 255, b: 255 },
        wall: Color { r: 0, g: 0, b: 0 },
    }
}

#[test]
fn level_source_needs_exactly_one_file() {
    assert!(matches!(level_source(true, true), Err(LoadLevelError::AmbiguousLevelDefinition)));
    assert!(matches!(level_source(false, false), Err(LoadLevelError::NoLevelDefinition)));
    assert!(matches!(level_source(true, false), Ok(LevelSource::Text)));
    assert!(matches!(level_source(false, true), Ok(LevelSource::Image)));
}

#[test]
fn room_lookup_reports_first_missing_part() {
    let mut c = castle(2);
    c.dungeons[0].music = 4;
    let castles = vec![c];
    assert!(matches!(room_music(&castles, 1, 0, 0), Err(LoadLevelError::GetCastleError)));
    assert!(matches!(room_music(&castles, 0, 1, 0), Err(LoadLevelError::GetDungeonError)));
    assert!(matches!(room_music(&castles, 0, 0, 2), Err(LoadLevelError::GetRoomError)));
    assert!(matches!(room_music(&castles, 0, 0, 1), Ok(4)));
}

#[test]
fn pixels_classify_by_palette() {
    let p = palette();
    assert!(matches!(classify(Color { r: 255, g: 255, b: 255 }, &p), Ok(None)));
    assert!(matches!(classify(Color { r: 0, g: 0, b: 0 }, &p), Ok(Some(EntityKind::Wall))));
    assert!(matches!(classify(Color { r: 0, g: 255, b: 0 }, &p), Ok(Some(EntityKind::Portal))));
    assert!(matches!(classify(Color { r: 1, g: 2, b: 3 }, &p), Err(LoadLevelError::UnexpectedColor)));
}

#[test]
fn map_is_read_column_by_column_with_y_pointing_down() {
    // 2 x 2 image: (0,0) wall, (1,0) empty, (0,1) character, (1,1) portal
    let data = vec![0, 0, 0, 255, 255, 255, 0, 0, 255, 0, 255, 0];
    let placed = read_map(&data, 2, 2, &palette()).ok().unwrap();
    assert_eq!(
        placed,
        vec![(EntityKind::Wall, (0, 0)), (EntityKind::Character, (0, -1)), (EntityKind::Portal, (1, -1))]
    );
    let bad = vec![0, 0, 0, 9, 9, 9, 0, 0, 255, 0, 255, 0];
    assert!(matches!(read_map(&bad, 2, 2, &palette()), Err(LoadLevelError::UnexpectedColor)));
}

fn walls(v: &[Placement]) -> Vec<(i64, i64)> {
    v.iter().filter_map(|p| if let Placement::Wall(x, y) = p { Some((*x, *y)) } else { None }).collect()
}

#[test]
fn text_level_has_floor_ceiling_and_ends() {
    let next = Level::Corridor { castle: 2 };
    let v = text_level_layout(next, "hello".to_string(), -10, 10, -5);
    assert!(matches!(&v[0], Placement::CameraText(t) if t == "hello"));
    assert!(v.iter().any(|p| matches!(p, Placement::Character(-9, -4))));
    assert!(v.iter().any(|p| matches!(p, Placement::Portal(3, -4, Level::Corridor { castle: 2 }))));
    let w = walls(&v);
    assert_eq!(w.len(), 2 + 2 * 15);
    assert!(w.contains(&(-10, -4)) && w.contains(&(4, -4)));
    assert!(w.contains(&(4, -3)) && w.contains(&(-10, -5)));
}

#[test]
fn corridor_has_one_portal_per_exit() {
    let levels = vec![
        ("a".to_string(), Level::Room { castle: 0, dungeon: 0, room: 0 }),
        ("b".to_string(), Level::Room { castle: 0, dungeon: 1, room: 0 }),
        ("c".to_string(), Level::Room { castle: 0, dungeon: 2, room: 0 }),
    ];
    let v = corridor_layout(Some(Level::Entry), &levels, 4, 3);
    let portals: Vec<(i64, i64, Level)> =
        v.iter().filter_map(|p| if let Placement::Portal(x, y, l) = p { Some((*x, *y, *l)) } else { None }).collect();
    assert_eq!(
        portals,
        vec![
            (-5, -2, Level::Entry),
            (7, 0, Level::Room { castle: 0, dungeon: 0, room: 0 }),
            (7, -2, Level::Room { castle: 0, dungeon: 1, room: 0 }),
            (7, -4, Level::Room { castle: 0, dungeon: 2, room: 0 }),
        ]
    );
    let chars: Vec<&Placement> = v.iter().filter(|p| matches!(p, Placement::Character(..))).collect();
    assert_eq!(chars.len(), 1);
    assert!(matches!(chars[0], Placement::Character(-5, 0)));
    let w = walls(&v);
    for i in 0..3i64 {
        assert!(w.contains(&(8, -2 * i)));
        assert!(w.contains(&(7, -2 * i - 1)));
    }
    assert!(v.iter().any(|p| matches!(p, Placement::Text { x4: -40, y4: -7, title: false, text } if text == "Exit")));
    let entry = corridor_layout(None, &levels, 4, 3);
    assert!(entry.iter().any(|p| matches!(p, Placement::Character(7, 2))));
    assert!(entry.iter().any(|p| matches!(p, Placement::Text { x4: -28, y4: 22, title: true, text } if text == "Ruga")));
    assert!(entry.iter().any(|p| matches!(p, Placement::Text { x4: 38, y4: -7, title: false, text } if text == "b")));
}

#[test]
fn maze_border_walled_and_rooms_open() {
    for percent in [0u64, 30, 100] {
        let (w, h) = (17usize, 11usize);
        let m = generate_partial_reverse_randomized_kruskal(w, h, percent);
        assert_eq!(m.len(), w * h);
        for x in 0..w {
            for y in 0..h {
                let v = m[y * w + x];
                if x == 0 || y == 0 || x == w - 1 || y == h - 1 {
                    assert!(v);
                } else if x % 2 == 1 && y % 2 == 1 {
                    assert!(!v);
                }
            }
        }
        if percent == 0 {
            assert_eq!(m.iter().filter(|b| **b).count(), 2 * w + 2 * h - 4);
        }
    }
}

#[test]
fn raising_a_wall_merges_groups() {
    let (w, h) = (7usize, 7usize);
    let mut grid: Vec<(bool, usize)> = (0..w * h).map(|i| (false, i)).collect();
    raise_wall(&mut grid, w, h, Wall::Vertical(2, 3));
    for (x, y) in [(2, 2), (2, 3), (2, 4)] {
        assert_eq!(grid[y * w + x], (true, 2 * w + 2));
    }
    let before = grid.clone();
    raise_wall(&mut grid, w, h, Wall::Vertical(2, 3));
    assert_eq!(grid, before);
    raise_wall(&mut grid, w, h, Wall::Horizontal(3, 2));
    assert_eq!(grid[2 * w + 4], (true, 2 * w + 2));
    assert_eq!(grid[2 * w + 3], (true, 2 * w + 2));
}

#[test]
fn smallest_maze_is_border_only() {
    let m = generate_partial_reverse_randomized_kruskal(5, 5, 30);
    assert_eq!(
        m,
        vec![
            true, true, true, true, true, true, false, false, false, true, true, false, false, false, true, true, false,
            false, false, true, true, true, true, true, true
        ]
    );
}
