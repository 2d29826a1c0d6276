use gridwalker::Cell;
use gridwalker::Character;
use gridwalker::Color;
use gridwalker::DrawBuffer;
use gridwalker::GameRng;
use gridwalker::KeyState;
use gridwalker::KeyState::Down;
use gridwalker::KeyState::Held;
use gridwalker::KeyState::Pressed;
use gridwalker::KeyState::PressedAndReleased;
use gridwalker::KeyState::Released;
use gridwalker::KeyState::Unactive;
use gridwalker::RuntimeError;
use gridwalker::Walker;
use gridwalker::WindowBuffer;

#[test]
fn draw_buffer_starts_blank() {
    let db = DrawBuffer::new(4, 3);
    assert_eq!(db.width, 4);
    assert_eq!(db.height, 3);
    assert!(db.text_changed);
    assert_eq!(db.characters.len(), 12);
    for c in &db.characters {
        assert_eq!(c.symbol, ' ');
        assert_eq!(c.color, Color { r: 255, g: 255, b: 255 });
        assert_eq!(c.color_back, Color { r: 0, g: 0, b: 0 });
    }
}

#[test]
fn set_char_writes_row_major_and_tracks_changes() {
    let mut db = DrawBuffer::new(4, 3);
    db.text_changed = false;
    let glyph = Character {
        symbol: 'x',
        color: Color { r: 1, g: 2, b: 3 },
        color_back: Color { r: 4, g: 5, b: 6 },
    };
    db.set_char(2, 1, glyph);
    assert_eq!(db.characters[1 * 4 + 2], glyph);
    assert!(db.text_changed);

    // Writing the same character again records no change.
    db.text_changed = false;
    db.set_char(2, 1, glyph);
    assert!(!db.text_changed);
}

#[test]
fn fill_and_clear_cover_every_cell() {
    let mut db = DrawBuffer::new(3, 2);
    let glyph = Character {
        symbol: '+',
        color: Color { r: 9, g: 9, b: 9 },
        color_back: Color { r: 0, g: 0, b: 0 },
    };
    db.fill_char(glyph);
    for c in &db.characters {
        assert_eq!(c.symbol, '+');
    }
    db.clear();
    for c in &db.characters {
        assert_eq!(c.symbol, ' ');
    }
}

#[test]
fn resize_keeps_prefix_and_pads_with_blanks() {
    let mut db = DrawBuffer::new(2, 2);
    let glyph = Character {
        symbol: 'q',
        color: Color { r: 1, g: 1, b: 1 },
        color_back: Color { r: 0, g: 0, b: 0 },
    };
    db.set_char(0, 0, glyph);
    db.resize(3, 3);
    assert_eq!(db.width, 3);
    assert_eq!(db.height, 3);
    assert_eq!(db.characters.len(), 9);
    assert_eq!(db.characters[0].symbol, 'q');
    assert_eq!(db.characters[8].symbol, ' ');
    assert_eq!(db.get_size_usize(), (3, 3));
}

#[test]
fn dimming_clamps_at_zero() {
    let c = Character {
        symbol: ',',
        color: Color { r: 50, g: 10, b: 0 },
        color_back: Color { r: 25, g: 19, b: 200 },
    };
    let dimmed = c.dim_background_safe(20).dim_color_safe(30);
    assert_eq!(dimmed.symbol, ',');
    assert_eq!(dimmed.color, Color { r: 20, g: 0, b: 0 });
    assert_eq!(dimmed.color_back, Color { r: 5, g: 0, b: 180 });
}

#[test]
fn cell_characters_match_their_tags() {
    let mut w = Walker {
        screen_dims: (1, 1),
        map: vec![Cell::Void],
        map_seen: vec![false],
        rooms: Vec::new(),
        player_pos: (0, 0),
        player_char: Default::default(),
        should_run: true,
    };
    assert_eq!(w.get_cell_char(Cell::Void).symbol, ' ');
    assert_eq!(w.get_cell_char(Cell::Wall).symbol, '#');
    assert_eq!(w.get_cell_char(Cell::Wall).color, Color { r: 100, g: 100, b: 100 });
    assert_eq!(w.get_cell_char(Cell::Floor).symbol, ',');
    assert_eq!(w.get_cell_char(Cell::Corridor).symbol, '.');
    assert_eq!(w.get_cell_char(Cell::Corridor).color_back, Color { r: 1, g: 1, b: 1 });
}

#[test]
fn key_bindings_trigger_on_the_right_states() {
    assert!(Down.triggers(&Pressed));
    assert!(Down.triggers(&Held));
    assert!(Down.triggers(&PressedAndReleased));
    assert!(!Down.triggers(&Unactive));
    assert!(!Down.triggers(&Released));

    assert!(Pressed.triggers(&Pressed));
    assert!(Pressed.triggers(&PressedAndReleased));
    assert!(!Pressed.triggers(&Held));

    assert!(Released.triggers(&Released));
    assert!(Released.triggers(&PressedAndReleased));
    assert!(!Released.triggers(&Unactive));

    assert!(Held.triggers(&Held));
    assert!(!Held.triggers(&Pressed));
}

#[test]
fn key_states_cycle_between_frames() {
    assert_eq!(Pressed.cycled(), Held);
    assert_eq!(Released.cycled(), Unactive);
    assert_eq!(PressedAndReleased.cycled(), Unactive);
    assert_eq!(Held.cycled(), Held);
    assert_eq!(Unactive.cycled(), Unactive);
}

#[test]
fn key_states_follow_raw_events() {
    assert_eq!(Unactive.after_press(), Pressed);
    assert_eq!(Released.after_press(), Pressed);
    assert_eq!(Held.after_press(), Held);
    assert_eq!(Unactive.after_repeat(), Held);
    assert_eq!(Pressed.after_release(), PressedAndReleased);
    assert_eq!(Held.after_release(), Released);
}

#[test]
fn runtime_error_wraps_narrowing_failures() {
    let narrow = u8::try_from(300i32).unwrap_err();
    let err = RuntimeError::TryFromIntError(narrow, "value does not fit");
    match err {
        RuntimeError::TryFromIntError { context, .. } => {
            assert_eq!(context, "value does not fit");
        }
        _ => panic!("wrong variant"),
    }
}

#[test]
fn window_buffer_smoke() {
    let sink: Vec<u8> = Vec::new();
    let mut wb = WindowBuffer::new(4, 3, sink).expect("construction cannot fail");
    let glyph = Character {
        symbol: 'w',
        color: Color { r: 1, g: 1, b: 1 },
        color_back: Color { r: 0, g: 0, b: 0 },
    };
    wb.set_char(1, 2, glyph);
    wb.fill_char(glyph);
    wb.clear();
    assert!(wb.flush().is_ok());
}

#[test]
fn random_range_stays_in_bounds() {
    let mut rng = GameRng::from_seed(123);
    for _ in 0..200 {
        let v = rng.random_range(5, 20);
        assert!((5..20).contains(&v));
    }
}

#[test]
fn seeded_generators_replay_the_same_stream() {
    let mut a = GameRng::from_seed(77);
    let mut b = GameRng::from_seed(77);
    for _ in 0..50 {
        assert_eq!(a.random_range(0, 1000), b.random_range(0, 1000));
    }
}
