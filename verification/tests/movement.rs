use gridwalker::Cell;
use gridwalker::Walker;

fn sample_walker() -> Walker {
    let width = 4usize;
    let height = 3usize;
    let mut map = vec![Cell::Void; width * height];
    map[0] = Cell::Wall;
    map[1] = Cell::Floor;
    map[2] = Cell::Corridor;
    map[4] = Cell::Floor;
    Walker {
        screen_dims: (width, height),
        map,
        map_seen: vec![false; width * height],
        rooms: Vec::new(),
        player_pos: (1, 0),
        player_char: Default::default(),
        should_run: true,
    }
}

#[test]
fn out_of_bounds_is_never_walkable() {
    let mut w = sample_walker();
    assert!(!w.is_position_walkable((-1, 0)));
    assert!(!w.is_position_walkable((0, -1)));
    assert!(!w.is_position_walkable((4, 0)));
    assert!(!w.is_position_walkable((0, 3)));
    assert!(!w.is_position_walkable((-7, -7)));
    assert!(!w.is_position_walkable((100, 100)));
}

#[test]
fn walkability_agrees_with_the_cell_tag() {
    let mut w = sample_walker();
    for y in 0..3i32 {
        for x in 0..4i32 {
            let cell = w.get_cell(x as usize, y as usize);
            let expected = cell == Cell::Floor || cell == Cell::Corridor;
            assert_eq!(w.is_position_walkable((x, y)), expected);
        }
    }
}

#[test]
fn get_cell_reads_row_major() {
    let w = sample_walker();
    assert_eq!(w.get_cell(0, 0), Cell::Wall);
    assert_eq!(w.get_cell(1, 0), Cell::Floor);
    assert_eq!(w.get_cell(2, 0), Cell::Corridor);
    assert_eq!(w.get_cell(0, 1), Cell::Floor);
    assert_eq!(w.get_cell(3, 2), Cell::Void);
}
