use vstd::prelude::*;

use crate::cell::Cell;
use crate::character::Character;
use crate::character::Color;
use crate::grid::lemma_grid_size_bound;
use crate::grid::lemma_row_major_bound;
use crate::grid::lemma_row_major_distinct;
use crate::grid::row_major;
use crate::rng::GameRng;
use crate::draw_buffer::DrawBuffer;
use crate::gs_funcs::spec_cell_char;
use crate::gs_funcs::spec_has_sight;
use crate::gs_funcs::sight_blocked_at;
use crate::gs_funcs::sight_dmax;
use crate::gs_funcs::valid_corridor_path;
use vstd::arithmetic::div_mod::lemma_div_pos_is_pos;
use vstd::arithmetic::div_mod::lemma_fundamental_div_mod;
use vstd::arithmetic::div_mod::lemma_mod_division_less_than_divisor;

verus! {

/// One rectangular room: top-left corner and size, all in grid cells.
pub type Room = (usize, usize, usize, usize);

/// The game state of one run: the generated dungeon grid, the fog-of-war
/// memory, and the player.
///
/// The map and the seen grid are stored row-major (`y * width + x`), one
/// entry per cell of a `screen_dims.0 x screen_dims.1` grid. The map is
/// written only during generation; `map_seen` flips cells to `true` during
/// the per-frame visibility pass and never resets them.
pub struct Walker {
    pub screen_dims: (usize, usize),
    pub map: Vec<Cell>,
    pub map_seen: Vec<bool>,
    pub rooms: Vec<Room>,

    pub player_pos: (i32, i32),
    pub player_char: Character,

    pub should_run: bool,
}

/// The room lies inside a `w x h` grid and has a nonempty extent on both
/// axes.
pub open spec fn room_in_grid(r: Room, w: int, h: int) -> bool {
    &&& 1 <= r.2
    &&& 1 <= r.3
    &&& r.0 + r.2 <= w
    &&& r.1 + r.3 <= h
}

/// The cell `(x, y)` lies inside the room's bounding rectangle.
pub open spec fn in_room(r: Room, x: int, y: int) -> bool {
    r.0 <= x < r.0 + r.2 && r.1 <= y < r.1 + r.3
}

/// The cell `(x, y)` lies strictly inside the room, off its one-cell wall
/// border.
pub open spec fn in_room_interior(r: Room, x: int, y: int) -> bool {
    r.0 + 1 <= x < r.0 + r.2 - 1 && r.1 + 1 <= y < r.1 + r.3 - 1
}

/// The cell `(x, y)` lies on the room's one-cell wall border.
pub open spec fn on_room_perimeter(r: Room, x: int, y: int) -> bool {
    in_room(r, x, y) && !in_room_interior(r, x, y)
}

/// The cell `(x, y)` is one of the room's four candidate door points: the
/// midpoints of its left, right, top and bottom walls.
pub open spec fn is_door(r: Room, x: int, y: int) -> bool {
    ||| (x, y) == (r.0 as int, r.1 + r.3 / 2)
    ||| (x, y) == (r.0 + r.2 - 1, r.1 + r.3 / 2)
    ||| (x, y) == (r.0 + r.2 / 2, r.1 as int)
    ||| (x, y) == (r.0 + r.2 / 2, r.1 + r.3 - 1)
}

/// A candidate door point lies on its room's wall perimeter.
pub proof fn lemma_door_on_perimeter(r: Room, x: int, y: int)
    requires
        r.2 >= 1,
        r.3 >= 1,
        is_door(r, x, y),
    ensures
        on_room_perimeter(r, x, y),
{
    lemma_fundamental_div_mod(r.2 as int, 2);
    lemma_mod_division_less_than_divisor(r.2 as int, 2);
    lemma_div_pos_is_pos(r.2 as int, 2);
    lemma_fundamental_div_mod(r.3 as int, 2);
    lemma_mod_division_less_than_divisor(r.3 as int, 2);
    lemma_div_pos_is_pos(r.3 as int, 2);
}

/// Disjoint rooms share no cell.
pub proof fn lemma_disjoint_rooms_no_shared_cell(a: Room, b: Room, x: int, y: int)
    requires
        rooms_disjoint(a, b),
        in_room(a, x, y),
    ensures
        !in_room(b, x, y),
{
}

/// Line of sight depends only on the map and the grid size, not on the
/// fog-of-war memory or the player: two states that agree on those agree
/// on every sight query.
pub proof fn lemma_sight_ignores_seen(
    w1: Walker,
    w2: Walker,
    o: (int, int),
    t: (int, int),
    check_corners: bool,
)
    requires
        w1.map == w2.map,
        w1.screen_dims == w2.screen_dims,
    ensures
        spec_has_sight(w1, o, t, check_corners) == spec_has_sight(w2, o, t, check_corners),
{
    assert forall|i: int| 1 <= i <= sight_dmax(o, t) implies sight_blocked_at(
        w1,
        o,
        t,
        check_corners,
        i,
    ) == sight_blocked_at(w2, o, t, check_corners, i) by {
    }
    if spec_has_sight(w1, o, t, check_corners) {
        assert forall|i: int| 1 <= i <= sight_dmax(o, t) implies !sight_blocked_at(
            w2,
            o,
            t,
            check_corners,
            i,
        ) by {
            assert(!sight_blocked_at(w1, o, t, check_corners, i));
        }
    }
    if spec_has_sight(w2, o, t, check_corners) {
        assert forall|i: int| 1 <= i <= sight_dmax(o, t) implies !sight_blocked_at(
            w1,
            o,
            t,
            check_corners,
            i,
        ) by {
            assert(!sight_blocked_at(w2, o, t, check_corners, i));
        }
    }
}

/// The two rooms' bounding rectangles do not overlap; sharing an edge is
/// allowed.
pub open spec fn rooms_disjoint(a: Room, b: Room) -> bool {
    ||| a.0 + a.2 - 1 < b.0
    ||| b.0 + b.2 - 1 < a.0
    ||| a.1 + a.3 - 1 < b.1
    ||| b.1 + b.3 - 1 < a.1
}

impl Walker {
    /// The grid width in cells.
    pub open spec fn width(self) -> int {
        self.screen_dims.0 as int
    }

    /// The grid height in cells.
    pub open spec fn height(self) -> int {
        self.screen_dims.1 as int
    }

    /// `(x, y)` lies inside the grid.
    pub open spec fn in_bounds(self, x: int, y: int) -> bool {
        0 <= x < self.width() && 0 <= y < self.height()
    }

    /// The row-major index of a position in this grid.
    pub open spec fn lin(self, p: (usize, usize)) -> int {
        row_major(p.0 as int, p.1 as int, self.width())
    }

    /// The map cell at column `x`, row `y`.
    pub open spec fn cell_at(self, x: int, y: int) -> Cell {
        self.map@[row_major(x, y, self.width())]
    }

    /// Whether the cell at column `x`, row `y` was ever visible.
    pub open spec fn seen_at(self, x: int, y: int) -> bool {
        self.map_seen@[row_major(x, y, self.width())]
    }

    /// Every accepted room lies inside the grid.
    pub open spec fn rooms_in_grid(self) -> bool {
        forall|k: int|
            0 <= k < self.rooms@.len() ==> room_in_grid(
                #[trigger] self.rooms@[k],
                self.width(),
                self.height(),
            )
    }

    /// No two accepted rooms' bounding rectangles overlap.
    pub open spec fn rooms_pairwise_disjoint(self) -> bool {
        forall|i: int, j: int|
            0 <= i < j < self.rooms@.len() ==> rooms_disjoint(
                #[trigger] self.rooms@[i],
                #[trigger] self.rooms@[j],
            )
    }

    /// Structural invariant: the grid dimensions are small enough for exact
    /// `i32` sight arithmetic, the map and the seen grid each hold one entry
    /// per cell, and every accepted room lies inside the grid.
    pub open spec fn well_formed(self) -> bool {
        &&& self.screen_dims.0 <= 0x8000
        &&& self.screen_dims.1 <= 0x8000
        &&& self.map@.len() == self.width() * self.height()
        &&& self.map_seen@.len() == self.width() * self.height()
        &&& self.rooms_in_grid()
    }

    /// Write one map cell, leaving every other cell and every other field
    /// unchanged.
    fn set_cell(&mut self, x: usize, y: usize, c: Cell)
        requires
            old(self).well_formed(),
            x < old(self).screen_dims.0,
            y < old(self).screen_dims.1,
        ensures
            final(self).screen_dims == old(self).screen_dims,
            final(self).map_seen == old(self).map_seen,
            final(self).rooms == old(self).rooms,
            final(self).player_pos == old(self).player_pos,
            final(self).player_char == old(self).player_char,
            final(self).should_run == old(self).should_run,
            final(self).well_formed(),
            final(self).cell_at(x as int, y as int) == c,
            forall|a: int, b: int|
                old(self).in_bounds(a, b) && (a, b) != (x as int, y as int)
                    ==> final(self).cell_at(a, b) == old(self).cell_at(a, b),
    {
        proof {
            lemma_row_major_bound(x as int, y as int, self.width(), self.height());
            lemma_grid_size_bound(self.width(), self.height());
        }
        let idx = y * self.screen_dims.0 + x;
        self.map.set(idx, c);
        proof {
            assert forall|a: int, b: int|
                old(self).in_bounds(a, b) && (a, b) != (x as int, y as int) implies self.cell_at(
                a,
                b,
            ) == old(self).cell_at(a, b) by {
                lemma_row_major_bound(a, b, self.width(), self.height());
                lemma_row_major_distinct(a, b, x as int, y as int, self.width());
            }
        }
    }

    /// RoomPlacer: sample up to `num_rooms` random square rooms that fit in
    /// a `width x height` grid, accepting each candidate only if its
    /// bounding rectangle overlaps no previously accepted room (sharing an
    /// edge is allowed), and abandoning a slot after its tries run out —
    /// the level may end up with fewer rooms than asked for.
    #[verifier::loop_isolation(false)]
    pub fn place_rooms(
        rng: &mut GameRng,
        width: usize,
        height: usize,
        num_rooms: usize,
        min_room_size: usize,
        max_room_size: usize,
    ) -> (rooms: Vec<Room>)
        requires
            1 <= min_room_size < max_room_size,
            max_room_size <= width,
            max_room_size <= height,
            width <= 0x8000,
            height <= 0x8000,
        ensures
            rooms@.len() <= num_rooms,
            num_rooms >= 1 ==> rooms@.len() >= 1,
            forall|k: int|
                0 <= k < rooms@.len() ==> room_in_grid(
                    #[trigger] rooms@[k],
                    width as int,
                    height as int,
                ),
            forall|k: int|
                0 <= k < rooms@.len() ==> (#[trigger] rooms@[k]).0 + rooms@[k].2 < width
                    && rooms@[k].1 + rooms@[k].3 < height,
            forall|k: int|
                0 <= k < rooms@.len() ==> min_room_size <= (#[trigger] rooms@[k]).2
                    < max_room_size && rooms@[k].3 == rooms@[k].2,
            forall|i: int, j: int|
                0 <= i < j < rooms@.len() ==> rooms_disjoint(
                    #[trigger] rooms@[i],
                    #[trigger] rooms@[j],
                ),
    {
        let mut rooms: Vec<Room> = Vec::new();

        let mut room_index: usize = 0;
        while room_index < num_rooms
            invariant
                room_index <= num_rooms,
                rooms@.len() <= room_index,
                room_index >= 1 ==> rooms@.len() >= 1,
                forall|k: int|
                    0 <= k < rooms@.len() ==> room_in_grid(
                        #[trigger] rooms@[k],
                        width as int,
                        height as int,
                    ),
                forall|k: int|
                    0 <= k < rooms@.len() ==> (#[trigger] rooms@[k]).0 + rooms@[k].2 < width
                        && rooms@[k].1 + rooms@[k].3 < height,
                forall|k: int|
                    0 <= k < rooms@.len() ==> min_room_size <= (#[trigger] rooms@[k]).2
                        < max_room_size && rooms@[k].3 == rooms@[k].2,
                forall|i: int, j: int|
                    0 <= i < j < rooms@.len() ==> rooms_disjoint(
                        #[trigger] rooms@[i],
                        #[trigger] rooms@[j],
                    ),
            decreases num_rooms - room_index,
        {
            let ghost len0 = rooms@.len();
            let mut tries: i32 = 0;
            let mut failed = true;

            while failed && tries <= 100
                invariant
                    0 <= tries <= 101,
                    len0 <= rooms@.len() <= len0 + 1,
                    failed ==> rooms@.len() == len0,
                    len0 == 0 && tries >= 1 ==> rooms@.len() >= 1,
                    len0 == 0 && !failed ==> rooms@.len() >= 1,
                    forall|k: int|
                        0 <= k < rooms@.len() ==> room_in_grid(
                            #[trigger] rooms@[k],
                            width as int,
                            height as int,
                        ),
                    forall|k: int|
                        0 <= k < rooms@.len() ==> (#[trigger] rooms@[k]).0 + rooms@[k].2 < width
                            && rooms@[k].1 + rooms@[k].3 < height,
                    forall|k: int|
                        0 <= k < rooms@.len() ==> min_room_size <= (#[trigger] rooms@[k]).2
                            < max_room_size && rooms@[k].3 == rooms@[k].2,
                    forall|i: int, j: int|
                        0 <= i < j < rooms@.len() ==> rooms_disjoint(
                            #[trigger] rooms@[i],
                            #[trigger] rooms@[j],
                        ),
                decreases 101 - tries,
            {
                failed = false;
                tries += 1;

                let size = rng.random_range(min_room_size, max_room_size);
                let px = rng.random_range(0, width - size);
                let py = rng.random_range(0, height - size);
                let candidate: Room = (px, py, size, size);

                let mut j: usize = 0;
                while j < rooms.len()
                    invariant
                        j <= rooms@.len(),
                        rooms@.len() == len0,
                        len0 == 0 ==> !failed,
                        forall|k: int|
                            0 <= k < rooms@.len() ==> room_in_grid(
                                #[trigger] rooms@[k],
                                width as int,
                                height as int,
                            ),
                        !failed ==> forall|k: int|
                            0 <= k < j ==> rooms_disjoint(candidate, #[trigger] rooms@[k]),
                    decreases rooms@.len() - j,
                {
                    let room = rooms[j];
                    let new_x1 = px + size - 1;
                    let new_y1 = py + size - 1;
                    let old_x1 = room.0 + room.2 - 1;
                    let old_y1 = room.1 + room.3 - 1;

                    if !((new_x1 < room.0 || old_x1 < px) || (new_y1 < room.1 || old_y1 < py)) {
                        failed = true;
                    }
                    j += 1;
                }

                if !failed {
                    proof {
                        assert forall|k: int|
                            0 <= k < rooms@.len() implies rooms_disjoint(
                            #[trigger] rooms@[k],
                            candidate,
                        ) by {
                            assert(rooms_disjoint(candidate, rooms@[k]));
                        }
                    }
                    rooms.push(candidate);
                }
            }
            room_index += 1;
        }
        rooms
    }

    /// Stamp one room into the map: Wall along its one-cell perimeter,
    /// Floor on its interior, every cell outside the room untouched.
    #[verifier::loop_isolation(false)]
    fn stamp_room(&mut self, r: Room)
        requires
            old(self).well_formed(),
            room_in_grid(r, old(self).width(), old(self).height()),
        ensures
            final(self).screen_dims == old(self).screen_dims,
            final(self).map_seen == old(self).map_seen,
            final(self).rooms == old(self).rooms,
            final(self).player_pos == old(self).player_pos,
            final(self).player_char == old(self).player_char,
            final(self).should_run == old(self).should_run,
            final(self).well_formed(),
            forall|x: int, y: int|
                on_room_perimeter(r, x, y) ==> final(self).cell_at(x, y) == Cell::Wall,
            forall|x: int, y: int|
                in_room_interior(r, x, y) ==> final(self).cell_at(x, y) == Cell::Floor,
            forall|x: int, y: int|
                old(self).in_bounds(x, y) && !in_room(r, x, y)
                    ==> final(self).cell_at(x, y) == old(self).cell_at(x, y),
    {
        let mut x: usize = 0;
        while x < r.2
            invariant
                x <= r.2,
                self.screen_dims == old(self).screen_dims,
                self.map_seen == old(self).map_seen,
                self.rooms == old(self).rooms,
                self.player_pos == old(self).player_pos,
                self.player_char == old(self).player_char,
                self.should_run == old(self).should_run,
                self.well_formed(),
                forall|a: int, b: int|
                    r.0 <= a < r.0 + x && (b == r.1 as int || b == r.1 + r.3 - 1)
                        ==> self.cell_at(a, b) == Cell::Wall,
                forall|a: int, b: int|
                    old(self).in_bounds(a, b) && !(r.0 <= a < r.0 + x && (b == r.1 as int || b
                        == r.1 + r.3 - 1)) ==> self.cell_at(a, b) == old(self).cell_at(a, b),
            decreases r.2 - x,
        {
            self.set_cell(r.0 + x, r.1, Cell::Wall);
            self.set_cell(r.0 + x, r.1 + r.3 - 1, Cell::Wall);
            x += 1;
        }

        let ghost snap1 = *self;
        let mut y: usize = 0;
        while y < r.3
            invariant
                y <= r.3,
                self.screen_dims == old(self).screen_dims,
                self.map_seen == old(self).map_seen,
                self.rooms == old(self).rooms,
                self.player_pos == old(self).player_pos,
                self.player_char == old(self).player_char,
                self.should_run == old(self).should_run,
                self.well_formed(),
                forall|a: int, b: int|
                    (a == r.0 as int || a == r.0 + r.2 - 1) && r.1 <= b < r.1 + y
                        ==> self.cell_at(a, b) == Cell::Wall,
                forall|a: int, b: int|
                    old(self).in_bounds(a, b) && !((a == r.0 as int || a == r.0 + r.2 - 1) && r.1
                        <= b < r.1 + y) ==> self.cell_at(a, b) == snap1.cell_at(a, b),
            decreases r.3 - y,
        {
            self.set_cell(r.0, r.1 + y, Cell::Wall);
            self.set_cell(r.0 + r.2 - 1, r.1 + y, Cell::Wall);
            y += 1;
        }

        let ghost snap2 = *self;
        if r.3 >= 2 && r.2 >= 2 {
            let mut iy: usize = 1;
            while iy < r.3 - 1
                invariant
                    1 <= iy <= r.3 - 1,
                    r.2 >= 2,
                    self.screen_dims == old(self).screen_dims,
                    self.map_seen == old(self).map_seen,
                    self.rooms == old(self).rooms,
                    self.player_pos == old(self).player_pos,
                    self.player_char == old(self).player_char,
                    self.should_run == old(self).should_run,
                    self.well_formed(),
                    forall|a: int, b: int|
                        r.0 + 1 <= a < r.0 + r.2 - 1 && r.1 + 1 <= b < r.1 + iy
                            ==> self.cell_at(a, b) == Cell::Floor,
                    forall|a: int, b: int|
                        old(self).in_bounds(a, b) && !(r.0 + 1 <= a < r.0 + r.2 - 1 && r.1 + 1
                            <= b < r.1 + iy) ==> self.cell_at(a, b) == snap2.cell_at(a, b),
                decreases r.3 - 1 - iy,
            {
                let mut ix: usize = 1;
                while ix < r.2 - 1
                    invariant
                        1 <= iy < r.3 - 1,
                        1 <= ix <= r.2 - 1,
                        self.screen_dims == old(self).screen_dims,
                        self.map_seen == old(self).map_seen,
                        self.rooms == old(self).rooms,
                        self.player_pos == old(self).player_pos,
                        self.player_char == old(self).player_char,
                        self.should_run == old(self).should_run,
                        self.well_formed(),
                        forall|a: int, b: int|
                            r.0 + 1 <= a < r.0 + r.2 - 1 && r.1 + 1 <= b < r.1 + iy
                                ==> self.cell_at(a, b) == Cell::Floor,
                        forall|a: int|
                            r.0 + 1 <= a < r.0 + ix ==> #[trigger] self.cell_at(a, r.1 + iy)
                                == Cell::Floor,
                        forall|a: int, b: int|
                            old(self).in_bounds(a, b) && !(r.0 + 1 <= a < r.0 + r.2 - 1 && r.1 + 1
                                <= b < r.1 + iy) && !(r.0 + 1 <= a < r.0 + ix && b == r.1 + iy)
                                ==> self.cell_at(a, b) == snap2.cell_at(a, b),
                    decreases r.2 - 1 - ix,
                {
                    self.set_cell(r.0 + ix, r.1 + iy, Cell::Floor);
                    ix += 1;
                }
                iy += 1;
            }
        }
        proof {
            assert forall|x: int, y: int| on_room_perimeter(r, x, y) implies self.cell_at(x, y)
                == Cell::Wall by {
                assert(old(self).in_bounds(x, y));
                assert(!(r.0 + 1 <= x < r.0 + r.2 - 1 && r.1 + 1 <= y < r.1 + r.3 - 1));
                assert(self.cell_at(x, y) == snap2.cell_at(x, y));
                if x == r.0 as int || x == r.0 + r.2 - 1 {
                    assert(snap2.cell_at(x, y) == Cell::Wall);
                } else {
                    assert(y == r.1 as int || y == r.1 + r.3 - 1);
                    assert(snap2.cell_at(x, y) == snap1.cell_at(x, y));
                    assert(snap1.cell_at(x, y) == Cell::Wall);
                }
            }
        }
    }

    /// Stamp every accepted room into the map. Rooms never overlap, so the
    /// stamping order is irrelevant: afterwards every room perimeter cell
    /// is Wall, every room interior cell is Floor, and everything else is
    /// untouched.
    #[verifier::loop_isolation(false)]
    pub fn stamp_rooms(&mut self)
        requires
            old(self).well_formed(),
            old(self).rooms_pairwise_disjoint(),
        ensures
            final(self).screen_dims == old(self).screen_dims,
            final(self).map_seen == old(self).map_seen,
            final(self).rooms == old(self).rooms,
            final(self).player_pos == old(self).player_pos,
            final(self).player_char == old(self).player_char,
            final(self).should_run == old(self).should_run,
            final(self).well_formed(),
            forall|k: int, x: int, y: int|
                0 <= k < old(self).rooms@.len() && #[trigger] on_room_perimeter(
                    old(self).rooms@[k],
                    x,
                    y,
                ) ==> final(self).cell_at(x, y) == Cell::Wall,
            forall|k: int, x: int, y: int|
                0 <= k < old(self).rooms@.len() && #[trigger] in_room_interior(
                    old(self).rooms@[k],
                    x,
                    y,
                ) ==> final(self).cell_at(x, y) == Cell::Floor,
            forall|x: int, y: int|
                old(self).in_bounds(x, y) && (forall|k: int|
                    0 <= k < old(self).rooms@.len() ==> !in_room(#[trigger] old(self).rooms@[k], x, y))
                    ==> final(self).cell_at(x, y) == old(self).cell_at(x, y),
    {
        let n_rooms = self.rooms.len();
        let mut k: usize = 0;
        while k < n_rooms
            invariant
                k <= n_rooms,
                n_rooms == self.rooms@.len(),
                self.screen_dims == old(self).screen_dims,
                self.map_seen == old(self).map_seen,
                self.rooms == old(self).rooms,
                self.player_pos == old(self).player_pos,
                self.player_char == old(self).player_char,
                self.should_run == old(self).should_run,
                self.well_formed(),
                forall|i: int, x: int, y: int|
                    0 <= i < k && #[trigger] on_room_perimeter(old(self).rooms@[i], x, y)
                        ==> self.cell_at(x, y) == Cell::Wall,
                forall|i: int, x: int, y: int|
                    0 <= i < k && #[trigger] in_room_interior(old(self).rooms@[i], x, y)
                        ==> self.cell_at(x, y) == Cell::Floor,
                forall|x: int, y: int|
                    old(self).in_bounds(x, y) && (forall|i: int|
                        0 <= i < k ==> !in_room(#[trigger] old(self).rooms@[i], x, y))
                        ==> self.cell_at(x, y) == old(self).cell_at(x, y),
            decreases n_rooms - k,
        {
            let r = self.rooms[k];
            let ghost before = *self;
            self.stamp_room(r);
            proof {
                assert forall|i: int, x: int, y: int|
                    0 <= i < k + 1 && #[trigger] on_room_perimeter(old(self).rooms@[i], x, y)
                    implies self.cell_at(x, y) == Cell::Wall by {
                    if i < k {
                        assert(rooms_disjoint(old(self).rooms@[i], old(self).rooms@[k as int]));
                        lemma_disjoint_rooms_no_shared_cell(old(self).rooms@[i], r, x, y);
                    }
                }
                assert forall|i: int, x: int, y: int|
                    0 <= i < k + 1 && #[trigger] in_room_interior(old(self).rooms@[i], x, y)
                    implies self.cell_at(x, y) == Cell::Floor by {
                    if i < k {
                        assert(rooms_disjoint(old(self).rooms@[i], old(self).rooms@[k as int]));
                        lemma_disjoint_rooms_no_shared_cell(old(self).rooms@[i], r, x, y);
                    }
                }
            }
            k += 1;
        }
    }

    /// The cell `(x, y)` lies inside some accepted room.
    pub open spec fn covered_by_room(self, x: int, y: int) -> bool {
        exists|k: int| 0 <= k < self.rooms@.len() && in_room(#[trigger] self.rooms@[k], x, y)
    }

    /// The cell `(x, y)` is a candidate door point of some accepted room.
    pub open spec fn is_door_cell(self, x: int, y: int) -> bool {
        exists|k: int| 0 <= k < self.rooms@.len() && is_door(#[trigger] self.rooms@[k], x, y)
    }

    /// The only map change the corridor router makes: a cell either keeps
    /// its value, or becomes Corridor — and then it was Void before, or it
    /// is a candidate door point of a room (a corridor's endpoints are
    /// carved through the door cells on the rooms' walls).
    pub open spec fn corridor_change_only(self, from: Walker) -> bool {
        forall|x: int, y: int|
            from.in_bounds(x, y) ==> #[trigger] self.cell_at(x, y) == from.cell_at(x, y) || (
            self.cell_at(x, y) == Cell::Corridor && (from.cell_at(x, y) == Cell::Void
                || from.is_door_cell(x, y)))
    }

    /// One of the four candidate door points of `r`, picked by index.
    fn door_of(r: Room, pick: usize) -> (door: (usize, usize))
        requires
            r.2 >= 1,
            r.3 >= 1,
            r.0 + r.2 <= 0x8000,
            r.1 + r.3 <= 0x8000,
        ensures
            is_door(r, door.0 as int, door.1 as int),
            in_room(r, door.0 as int, door.1 as int),
            pick == 0 ==> (door.0 as int, door.1 as int) == (r.0 as int, r.1 + r.3 / 2),
            pick == 1 ==> (door.0 as int, door.1 as int) == (r.0 + r.2 - 1, r.1 + r.3 / 2),
            pick == 2 ==> (door.0 as int, door.1 as int) == (r.0 + r.2 / 2, r.1 as int),
            pick >= 3 ==> (door.0 as int, door.1 as int) == (r.0 + r.2 / 2, r.1 + r.3 - 1),
    {
        proof {
            lemma_fundamental_div_mod(r.2 as int, 2);
            lemma_mod_division_less_than_divisor(r.2 as int, 2);
            lemma_div_pos_is_pos(r.2 as int, 2);
            lemma_fundamental_div_mod(r.3 as int, 2);
            lemma_mod_division_less_than_divisor(r.3 as int, 2);
            lemma_div_pos_is_pos(r.3 as int, 2);
        }
        if pick == 0 {
            (r.0, r.1 + r.3 / 2)
        } else if pick == 1 {
            (r.0 + r.2 - 1, r.1 + r.3 / 2)
        } else if pick == 2 {
            (r.0 + r.2 / 2, r.1)
        } else {
            (r.0 + r.2 / 2, r.1 + r.3 - 1)
        }
    }

    /// CorridorRouter: connect each room to the next one (cyclically) by
    /// carving a corridor between one randomly picked candidate door of
    /// each, searching breadth-first and retrying a bounded number of times
    /// with fresh doors; a connection that keeps failing is skipped, so the
    /// dungeon may end up with disconnected regions. Carving only turns
    /// Void cells (and the two door cells) into Corridor: it never
    /// overwrites another room's walls or floor.
    #[verifier::loop_isolation(false)]
    pub fn connect_rooms(&mut self, rng: &mut GameRng)
        requires
            old(self).well_formed(),
        ensures
            final(self).screen_dims == old(self).screen_dims,
            final(self).map_seen == old(self).map_seen,
            final(self).rooms == old(self).rooms,
            final(self).player_pos == old(self).player_pos,
            final(self).player_char == old(self).player_char,
            final(self).should_run == old(self).should_run,
            final(self).well_formed(),
            final(self).corridor_change_only(*old(self)),
    {
        let n_rooms = self.rooms.len();
        if n_rooms == 0 {
            return ;
        }

        let mut iteration: usize = 0;
        while iteration < n_rooms
            invariant
                iteration <= n_rooms,
                n_rooms == self.rooms@.len(),
                self.screen_dims == old(self).screen_dims,
                self.map_seen == old(self).map_seen,
                self.rooms == old(self).rooms,
                self.player_pos == old(self).player_pos,
                self.player_char == old(self).player_char,
                self.should_run == old(self).should_run,
                self.well_formed(),
                self.corridor_change_only(*old(self)),
            decreases n_rooms - iteration,
        {
            let mut tries: usize = 0;
            let mut connected = false;

            while !connected && tries < 20
                invariant
                    tries <= 20,
                    n_rooms == self.rooms@.len(),
                    iteration < n_rooms,
                    self.screen_dims == old(self).screen_dims,
                    self.map_seen == old(self).map_seen,
                    self.rooms == old(self).rooms,
                    self.player_pos == old(self).player_pos,
                    self.player_char == old(self).player_char,
                    self.should_run == old(self).should_run,
                    self.well_formed(),
                    self.corridor_change_only(*old(self)),
                decreases (if connected { 0int } else { 1int }) + 20 - tries,
            {
                let room1 = self.rooms[iteration];
                let room2 = self.rooms[(iteration + 1) % n_rooms];
                proof {
                    lemma_mod_division_less_than_divisor((iteration + 1) as int, n_rooms as int);
                }

                let pick1 = rng.random_range(0, 4);
                let pick2 = rng.random_range(0, 4);
                let door1 = Self::door_of(room1, pick1);
                let door2 = Self::door_of(room2, pick2);

                let ghost at_search = *self;
                let corridor = self.bfs_to_pos(rng, door1, door2);

                match corridor {
                    Some(cells) => {
                        let mut ci: usize = 0;
                        while ci < cells.len()
                            invariant
                                ci <= cells@.len(),
                                n_rooms == self.rooms@.len(),
                                iteration < n_rooms,
                                self.screen_dims == old(self).screen_dims,
                                self.map_seen == old(self).map_seen,
                                self.rooms == old(self).rooms,
                                self.player_pos == old(self).player_pos,
                                self.player_char == old(self).player_char,
                                self.should_run == old(self).should_run,
                                self.well_formed(),
                                self.corridor_change_only(*old(self)),
                                at_search.corridor_change_only(*old(self)),
                                at_search.screen_dims == old(self).screen_dims,
                                at_search.rooms == old(self).rooms,
                                valid_corridor_path(at_search, door1, door2, cells@),
                                is_door(old(self).rooms@[iteration as int], door1.0 as int, door1.1 as int),
                                is_door(
                                    old(self).rooms@[((iteration + 1) as int % n_rooms as int)],
                                    door2.0 as int,
                                    door2.1 as int,
                                ),
                            decreases cells@.len() - ci,
                        {
                            let cell = cells[ci];
                            proof {
                                assert(at_search.in_bounds(cell.0 as int, cell.1 as int));
                            }
                            let ghost before_write = *self;
                            self.set_cell(cell.0, cell.1, Cell::Corridor);
                            proof {
                                assert forall|x: int, y: int|
                                    old(self).in_bounds(x, y) implies #[trigger] self.cell_at(x, y)
                                    == old(self).cell_at(x, y) || (self.cell_at(x, y)
                                    == Cell::Corridor && (old(self).cell_at(x, y) == Cell::Void
                                    || old(self).is_door_cell(x, y))) by {
                                    if (x, y) == (cell.0 as int, cell.1 as int) {
                                        if ci == 0 {
                                            assert(old(self).is_door_cell(x, y));
                                        } else if ci == cells@.len() - 1 {
                                            assert(old(self).is_door_cell(x, y));
                                        } else {
                                            assert(at_search.cell_at(x, y).is_carveable());
                                        }
                                    } else {
                                        assert(self.cell_at(x, y) == before_write.cell_at(x, y));
                                    }
                                }
                            }
                            ci += 1;
                        }
                        connected = true;
                    },
                    None => {
                        tries += 1;
                    },
                }
            }
            iteration += 1;
        }
    }

    /// Construction entry point: generate a complete level.
    ///
    /// Places up to `num_rooms` non-overlapping square rooms with sizes in
    /// `[min_room_size, max_room_size)`, stamps their walls and floors into
    /// an initially Void grid, carves corridors between successive rooms
    /// (cyclically), and seeds the player two cells inside the first
    /// accepted room. Generation never fails hard: a level with fewer rooms
    /// than asked for, or none, is degenerate but valid.
    #[verifier::loop_isolation(false)]
    pub fn new(
        rng: &mut GameRng,
        screen_dims: (usize, usize),
        num_rooms: usize,
        min_room_size: usize,
        max_room_size: usize,
    ) -> (walker: Walker)
        requires
            screen_dims.0 <= 0x8000,
            screen_dims.1 <= 0x8000,
            2 <= min_room_size,
            min_room_size < max_room_size,
            max_room_size <= screen_dims.0,
            max_room_size <= screen_dims.1,
        ensures
            walker.well_formed(),
            walker.screen_dims == screen_dims,
            walker.should_run,
            walker.player_char == (Character {
                symbol: '@',
                color: Color { r: 255, g: 255, b: 255 },
                color_back: Color { r: 0, g: 0, b: 0 },
            }),
            walker.rooms@.len() <= num_rooms,
            num_rooms >= 1 ==> walker.rooms@.len() >= 1,
            walker.rooms_pairwise_disjoint(),
            forall|k: int|
                0 <= k < walker.rooms@.len() ==> min_room_size <= (#[trigger] walker.rooms@[k]).2
                    < max_room_size && walker.rooms@[k].3 == walker.rooms@[k].2,
            walker.rooms@.len() > 0 ==> walker.player_pos.0 == walker.rooms@[0].0 + 2
                && walker.player_pos.1 == walker.rooms@[0].1 + 2 && walker.in_bounds(
                walker.player_pos.0 as int,
                walker.player_pos.1 as int,
            ),
            walker.rooms@.len() == 0 ==> walker.player_pos.0 == 10 && walker.player_pos.1 == 10,
            min_room_size >= 4 && walker.rooms@.len() > 0 ==> walker.cell_at(
                walker.player_pos.0 as int,
                walker.player_pos.1 as int,
            ) == Cell::Floor,
            forall|x: int, y: int| walker.in_bounds(x, y) ==> !walker.seen_at(x, y),
            forall|k: int, x: int, y: int|
                0 <= k < walker.rooms@.len() && #[trigger] on_room_perimeter(
                    walker.rooms@[k],
                    x,
                    y,
                ) ==> walker.cell_at(x, y) == Cell::Wall || (walker.cell_at(x, y) == Cell::Corridor
                    && walker.is_door_cell(x, y)),
            forall|k: int, x: int, y: int|
                0 <= k < walker.rooms@.len() && #[trigger] in_room_interior(walker.rooms@[k], x, y)
                    ==> walker.cell_at(x, y) == Cell::Floor,
            forall|x: int, y: int|
                walker.in_bounds(x, y) && !walker.covered_by_room(x, y) ==> walker.cell_at(x, y)
                    == Cell::Void || walker.cell_at(x, y) == Cell::Corridor,
    {
        let swidth = screen_dims.0;
        let sheight = screen_dims.1;
        proof {
            lemma_grid_size_bound(swidth as int, sheight as int);
        }
        let n = swidth * sheight;

        let mut map: Vec<Cell> = Vec::new();
        let mut map_seen: Vec<bool> = Vec::new();
        let mut k0: usize = 0;
        while k0 < n
            invariant
                k0 <= n,
                map@.len() == k0,
                map_seen@.len() == k0,
                forall|i: int| 0 <= i < k0 ==> (#[trigger] map@[i]) == Cell::Void,
                forall|i: int| 0 <= i < k0 ==> !(#[trigger] map_seen@[i]),
            decreases n - k0,
        {
            map.push(Cell::Void);
            map_seen.push(false);
            k0 += 1;
        }

        let rooms = Self::place_rooms(
            rng,
            swidth,
            sheight,
            num_rooms,
            min_room_size,
            max_room_size,
        );

        let player_pos: (i32, i32) = if rooms.len() > 0 {
            let r0 = rooms[0];
            ((r0.0 + 2) as i32, (r0.1 + 2) as i32)
        } else {
            (10, 10)
        };

        let mut walker = Walker {
            screen_dims,
            map,
            map_seen,
            rooms,
            player_pos,
            player_char: Character { symbol: '@', ..Character::default() },
            should_run: true,
        };
        let ghost blank = walker;

        walker.stamp_rooms();
        let ghost stamped = walker;

        walker.connect_rooms(rng);

        proof {
            assert forall|x: int, y: int| walker.in_bounds(x, y) implies !walker.seen_at(x, y) by {
                lemma_row_major_bound(x, y, walker.width(), walker.height());
            }
            assert forall|k: int, x: int, y: int|
                0 <= k < walker.rooms@.len() && #[trigger] on_room_perimeter(
                    walker.rooms@[k],
                    x,
                    y,
                ) implies walker.cell_at(x, y) == Cell::Wall || (walker.cell_at(x, y)
                == Cell::Corridor && walker.is_door_cell(x, y)) by {
                assert(stamped.cell_at(x, y) == Cell::Wall);
                assert(stamped.in_bounds(x, y));
            }
            assert forall|k: int, x: int, y: int|
                0 <= k < walker.rooms@.len() && #[trigger] in_room_interior(
                    walker.rooms@[k],
                    x,
                    y,
                ) implies walker.cell_at(x, y) == Cell::Floor by {
                assert(stamped.cell_at(x, y) == Cell::Floor);
                assert(stamped.in_bounds(x, y));
                if walker.cell_at(x, y) != stamped.cell_at(x, y) {
                    assert(stamped.is_door_cell(x, y));
                    let j = choose|j: int|
                        0 <= j < stamped.rooms@.len() && is_door(#[trigger] stamped.rooms@[j], x, y);
                    lemma_door_on_perimeter(stamped.rooms@[j], x, y);
                    if j != k {
                        if j < k {
                            assert(rooms_disjoint(walker.rooms@[j], walker.rooms@[k]));
                        } else {
                            assert(rooms_disjoint(walker.rooms@[k], walker.rooms@[j]));
                        }
                        lemma_disjoint_rooms_no_shared_cell(walker.rooms@[k], walker.rooms@[j], x, y);
                    }
                    assert(false);
                }
            }
            if min_room_size >= 4 && walker.rooms@.len() > 0 {
                let r0 = walker.rooms@[0];
                assert(in_room_interior(r0, r0.0 + 2, r0.1 + 2));
            }
            assert forall|x: int, y: int|
                walker.in_bounds(x, y) && !walker.covered_by_room(x, y) implies walker.cell_at(
                x,
                y,
            ) == Cell::Void || walker.cell_at(x, y) == Cell::Corridor by {
                lemma_row_major_bound(x, y, walker.width(), walker.height());
                assert(blank.cell_at(x, y) == Cell::Void);
                assert(forall|i: int|
                    0 <= i < walker.rooms@.len() ==> !in_room(#[trigger] blank.rooms@[i], x, y));
                assert(stamped.cell_at(x, y) == Cell::Void);
            }
        }

        walker
    }

    /// Whether the cell at column `x`, row `y` was ever visible.
    fn is_seen(&self, x: usize, y: usize) -> (r: bool)
        requires
            self.well_formed(),
            x < self.screen_dims.0,
            y < self.screen_dims.1,
        ensures
            r == self.seen_at(x as int, y as int),
    {
        proof {
            lemma_row_major_bound(x as int, y as int, self.width(), self.height());
            lemma_grid_size_bound(self.width(), self.height());
        }
        self.map_seen[y * self.screen_dims.0 + x]
    }

    /// Record that the cell at column `x`, row `y` is visible now, leaving
    /// every other seen flag and every other field unchanged.
    fn set_seen(&mut self, x: usize, y: usize)
        requires
            old(self).well_formed(),
            x < old(self).screen_dims.0,
            y < old(self).screen_dims.1,
        ensures
            final(self).screen_dims == old(self).screen_dims,
            final(self).map == old(self).map,
            final(self).rooms == old(self).rooms,
            final(self).player_pos == old(self).player_pos,
            final(self).player_char == old(self).player_char,
            final(self).should_run == old(self).should_run,
            final(self).well_formed(),
            final(self).seen_at(x as int, y as int),
            forall|a: int, b: int|
                old(self).in_bounds(a, b) && (a, b) != (x as int, y as int)
                    ==> final(self).seen_at(a, b) == old(self).seen_at(a, b),
    {
        proof {
            lemma_row_major_bound(x as int, y as int, self.width(), self.height());
            lemma_grid_size_bound(self.width(), self.height());
        }
        let idx = y * self.screen_dims.0 + x;
        self.map_seen.set(idx, true);
        proof {
            assert forall|a: int, b: int|
                old(self).in_bounds(a, b) && (a, b) != (x as int, y as int) implies self.seen_at(
                a,
                b,
            ) == old(self).seen_at(a, b) by {
                lemma_row_major_bound(a, b, self.width(), self.height());
                lemma_row_major_distinct(a, b, x as int, y as int, self.width());
            }
        }
    }

    /// The player's position as a spec point.
    pub open spec fn player_point(self) -> (int, int) {
        (self.player_pos.0 as int, self.player_pos.1 as int)
    }

    /// How the visibility pass renders the cell at `(x, y)`: at full
    /// brightness when it is visible from the player, dimmed when it is
    /// only remembered, and blank when it was never seen. The player's own
    /// cell is drawn over this afterwards.
    pub open spec fn spec_fog_char(self, x: int, y: int) -> Character {
        if spec_has_sight(self, self.player_point(), (x, y), false) {
            spec_cell_char(self.cell_at(x, y))
        } else if self.seen_at(x, y) {
            let c = spec_cell_char(self.cell_at(x, y));
            Character {
                color: c.color.spec_dimmed(30),
                color_back: c.color_back.spec_dimmed(20),
                ..c
            }
        } else {
            Character::spec_default()
        }
    }

    /// The per-frame visibility pass. For every grid cell, tests line of
    /// sight from the player: visible cells are drawn at full brightness
    /// and marked seen; cells remembered from earlier frames are drawn
    /// dimmed; unknown cells are drawn blank. Finally the player's own cell
    /// is drawn over with the player character. A seen flag, once set, is
    /// never cleared.
    #[verifier::loop_isolation(false)]
    #[verifier::rlimit(100)]
    pub fn draw(&mut self, db: &mut DrawBuffer)
        requires
            old(self).well_formed(),
            old(db).well_formed(),
            old(db).width as int == old(self).width(),
            old(db).height as int == old(self).height(),
            0 <= old(self).player_pos.0 < old(self).screen_dims.0,
            0 <= old(self).player_pos.1 < old(self).screen_dims.1,
        ensures
            final(self).screen_dims == old(self).screen_dims,
            final(self).map == old(self).map,
            final(self).rooms == old(self).rooms,
            final(self).player_pos == old(self).player_pos,
            final(self).player_char == old(self).player_char,
            final(self).should_run == old(self).should_run,
            final(self).well_formed(),
            forall|x: int, y: int|
                old(self).in_bounds(x, y) ==> final(self).seen_at(x, y) == (old(self).seen_at(x, y)
                    || spec_has_sight(*old(self), old(self).player_point(), (x, y), false)),
            forall|x: int, y: int|
                old(self).in_bounds(x, y) && old(self).seen_at(x, y) ==> final(self).seen_at(x, y),
            final(db).width == old(db).width,
            final(db).height == old(db).height,
            final(db).well_formed(),
            forall|x: int, y: int|
                old(self).in_bounds(x, y) ==> final(db).char_at(x, y) == (if (x, y) == old(
                    self,
                ).player_point() {
                    old(self).player_char
                } else {
                    old(self).spec_fog_char(x, y)
                }),
    {
        let (width, height) = db.get_size_usize();
        let player = (self.player_pos.0 as usize, self.player_pos.1 as usize);

        let mut y: usize = 0;
        while y < height
            invariant
                y <= height,
                self.screen_dims == old(self).screen_dims,
                self.map == old(self).map,
                self.rooms == old(self).rooms,
                self.player_pos == old(self).player_pos,
                self.player_char == old(self).player_char,
                self.should_run == old(self).should_run,
                self.well_formed(),
                forall|a: int, b: int|
                    old(self).in_bounds(a, b) && b < y ==> self.seen_at(a, b) == (old(
                        self,
                    ).seen_at(a, b) || spec_has_sight(
                        *old(self),
                        old(self).player_point(),
                        (a, b),
                        false,
                    )),
                forall|a: int, b: int|
                    old(self).in_bounds(a, b) && b >= y ==> self.seen_at(a, b) == old(
                        self,
                    ).seen_at(a, b),
                db.width == old(db).width,
                db.height == old(db).height,
                db.well_formed(),
                forall|a: int, b: int|
                    old(self).in_bounds(a, b) && b < y ==> db.char_at(a, b) == old(
                        self,
                    ).spec_fog_char(a, b),
            decreases height - y,
        {
            let mut x: usize = 0;
            while x < width
                invariant
                    y < height,
                    x <= width,
                    self.screen_dims == old(self).screen_dims,
                    self.map == old(self).map,
                    self.rooms == old(self).rooms,
                    self.player_pos == old(self).player_pos,
                    self.player_char == old(self).player_char,
                    self.should_run == old(self).should_run,
                    self.well_formed(),
                    forall|a: int, b: int|
                        old(self).in_bounds(a, b) && (b < y || (b == y && a < x))
                            ==> self.seen_at(a, b) == (old(self).seen_at(a, b) || spec_has_sight(
                            *old(self),
                            old(self).player_point(),
                            (a, b),
                            false,
                        )),
                    forall|a: int, b: int|
                        old(self).in_bounds(a, b) && !(b < y || (b == y && a < x))
                            ==> self.seen_at(a, b) == old(self).seen_at(a, b),
                    db.width == old(db).width,
                    db.height == old(db).height,
                    db.well_formed(),
                    forall|a: int, b: int|
                        old(self).in_bounds(a, b) && (b < y || (b == y && a < x)) ==> db.char_at(
                            a,
                            b,
                        ) == old(self).spec_fog_char(a, b),
                decreases width - x,
            {
                proof {
                    lemma_sight_ignores_seen(
                        *self,
                        *old(self),
                        old(self).player_point(),
                        (x as int, y as int),
                        false,
                    );
                }
                let cell_char: Character;
                if self.has_lineofsight(player, (x, y), 10, false) {
                    cell_char = self.get_cell_char(self.get_cell(x, y));
                    self.set_seen(x, y);
                } else {
                    if self.is_seen(x, y) {
                        cell_char = self.get_cell_char(self.get_cell(x, y)).dim_background_safe(
                            20,
                        ).dim_color_safe(30);
                    } else {
                        cell_char = Character::default();
                    }
                }
                db.set_char(x as u32, y as u32, cell_char);
                x += 1;
            }
            y += 1;
        }

        db.set_char(player.0 as u32, player.1 as u32, self.player_char);
    }

    /// Whether the frame loop should keep running.
    pub fn should_run(&mut self) -> (r: bool)
        ensures
            *final(self) == *old(self),
            r == old(self).should_run,
    {
        self.should_run
    }
}

} // verus!
