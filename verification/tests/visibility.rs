use gridwalker::Cell;
use gridwalker::Character;
use gridwalker::DrawBuffer;
use gridwalker::Walker;

fn walker_from_rows(rows: &[&str]) -> Walker {
    let height = rows.len();
    let width = rows[0].len();
    let mut map = Vec::new();
    for row in rows {
        for ch in row.chars() {
            map.push(match ch {
                '#' => Cell::Wall,
                ',' => Cell::Floor,
                '.' => Cell::Corridor,
                _ => Cell::Void,
            });
        }
    }
    Walker {
        screen_dims: (width, height),
        map,
        map_seen: vec![false; width * height],
        rooms: Vec::new(),
        player_pos: (0, 0),
        player_char: Default::default(),
        should_run: true,
    }
}

#[test]
fn a_cell_always_sees_itself() {
    let w = walker_from_rows(&[",,#", "#,,", ",,#"]);
    for y in 0..3 {
        for x in 0..3 {
            assert!(w.has_lineofsight((x, y), (x, y), 10, false));
            assert!(w.has_lineofsight((x, y), (x, y), 10, true));
        }
    }
}

#[test]
fn corner_checking_is_not_symmetric() {
    // Only (2,0) is a wall. The ray (0,0) -> (2,1) samples (1,1) then the
    // target and passes its one corner test, but the reverse ray's first
    // diagonal step tests the corner pair {(2,0), (1,1)} and hits the wall.
    let w = walker_from_rows(&[",,#", ",,,"]);
    assert!(w.has_lineofsight((0, 0), (2, 1), 10, true));
    assert!(!w.has_lineofsight((2, 1), (0, 0), 10, true));
}

#[test]
fn walls_block_sight_but_a_wall_target_is_visible() {
    let w = walker_from_rows(&[",#,"]);
    // The wall is the target itself: visible.
    assert!(w.has_lineofsight((0, 0), (1, 0), 10, false));
    // The wall stands between origin and target: blocked.
    assert!(!w.has_lineofsight((0, 0), (2, 0), 10, false));
}

fn stamped_scenario() -> Walker {
    let width = 20usize;
    let height = 10usize;
    let mut w = Walker {
        screen_dims: (width, height),
        map: vec![Cell::Void; width * height],
        map_seen: vec![false; width * height],
        rooms: vec![(2, 2, 6, 4)],
        player_pos: (4, 4),
        player_char: Default::default(),
        should_run: true,
    };
    w.stamp_rooms();
    w
}

#[test]
fn stamped_room_scenario() {
    let mut w = stamped_scenario();
    assert!(w.is_position_walkable((4, 4)));
    assert!(!w.is_position_walkable((2, 2)));
    assert!(w.has_lineofsight((4, 4), (7, 4), 10, true));
    assert!(!w.has_lineofsight((4, 4), (1, 1), 10, true));
}

#[test]
fn seen_memory_is_monotonic() {
    // From (3,0) the cell (3,1) is visible; after stepping behind the wall
    // the cell goes dark but stays remembered.
    let mut w = walker_from_rows(&[",,,,", ",,#,", ",,,,"]);
    w.player_pos = (3, 0);
    let mut db = DrawBuffer::new(4, 3);
    w.draw(&mut db);
    assert!(w.map_seen[1 * 4 + 3]);

    // Move the player so that the wall hides (3,1).
    w.player_pos = (1, 1);
    assert!(!w.has_lineofsight((1, 1), (3, 1), 10, false));
    w.draw(&mut db);
    assert!(w.map_seen[1 * 4 + 3]);
}

#[test]
fn draw_renders_visible_remembered_and_unknown_cells() {
    let mut w = walker_from_rows(&[",,#,"]);
    w.player_pos = (0, 0);
    w.player_char = Character { symbol: '@', ..Default::default() };
    let mut db = DrawBuffer::new(4, 1);
    w.draw(&mut db);

    // The player's own cell shows the player character.
    assert_eq!(db.characters[0].symbol, '@');
    // (1,0) is visible floor.
    assert_eq!(db.characters[1].symbol, ',');
    assert_eq!(db.characters[1].color.r, 50);
    // (2,0) is the visible wall face.
    assert_eq!(db.characters[2].symbol, '#');
    // (3,0) is hidden behind the wall and never seen: blank.
    assert_eq!(db.characters[3].symbol, ' ');
    assert!(!w.map_seen[3]);

    // Let the player see (3,0) from the right, then hide again: dimmed.
    w.player_pos = (3, 0);
    w.draw(&mut db);
    assert!(w.map_seen[3]);
    w.player_pos = (0, 0);
    w.draw(&mut db);
    // Remembered floor: dimmed foreground 50 - 30 = 20, background 1 - 20
    // clamps to 0.
    assert_eq!(db.characters[3].symbol, ',');
    assert_eq!(db.characters[3].color.r, 20);
    assert_eq!(db.characters[3].color_back.r, 0);
}
