use vstd::prelude::*;

use crate::character::Character;
use crate::runtime_error::RuntimeError;

verus! {

/// The terminal-side screen buffer: a grid of characters, stored as one
/// `Vec` of rows, plus the writing handle a drawn frame is flushed to.
pub struct WindowBuffer<W> {
    width: u16,
    height: u16,
    characters: Vec<Vec<Character>>,
    writing_handle: W,
}

impl<W> WindowBuffer<W> {
    /// The buffer's size as a `(width, height)` pair.
    pub closed spec fn spec_size(self) -> (u16, u16) {
        (self.width, self.height)
    }

    /// The screen contents, row by row.
    pub closed spec fn grid(self) -> Seq<Seq<Character>> {
        self.characters@.map_values(|row: Vec<Character>| row@)
    }

    /// One row per grid line, one character per grid column.
    pub open spec fn well_formed(self) -> bool {
        &&& self.grid().len() == self.spec_size().1 as int
        &&& forall|i: int|
            0 <= i < self.grid().len() ==> (#[trigger] self.grid()[i]).len() == self.spec_size().0
                as int
    }

    /// The character shown at row `row`, column `col`.
    pub open spec fn char_at(self, row: int, col: int) -> Character {
        self.grid()[row][col]
    }

    /// A buffer of the given size over the given writing handle, with
    /// every cell blank.
    pub fn new(p_width: u16, p_height: u16, p_writing_handle: W) -> (r: Result<
        Self,
        RuntimeError,
    >)
        ensures
            (r matches Ok(wb) && wb.spec_size() == (p_width, p_height) && wb.well_formed()
                && forall|row: int, col: int|
                0 <= row < p_height && 0 <= col < p_width ==> wb.char_at(row, col)
                    == Character::spec_default()),
    {
        let w_us: usize = p_width as usize;
        let h_us: usize = p_height as usize;

        let mut characters: Vec<Vec<Character>> = Vec::new();
        let mut i: usize = 0;
        while i < h_us
            invariant
                i <= h_us,
                characters@.len() == i,
                forall|r: int|
                    0 <= r < i ==> (#[trigger] characters@[r])@.len() == w_us as int,
                forall|r: int, c: int|
                    0 <= r < i && 0 <= c < w_us ==> (#[trigger] characters@[r]@[c])
                        == Character::spec_default(),
            decreases h_us - i,
        {
            let mut row: Vec<Character> = Vec::new();
            let mut j: usize = 0;
            while j < w_us
                invariant
                    j <= w_us,
                    row@.len() == j,
                    forall|c: int|
                        0 <= c < j ==> (#[trigger] row@[c]) == Character::spec_default(),
                decreases w_us - j,
            {
                row.push(Character::default());
                j += 1;
            }
            characters.push(row);
            i += 1;
        }

        let wb = WindowBuffer {
            width: p_width,
            height: p_height,
            characters,
            writing_handle: p_writing_handle,
        };
        Ok(wb)
    }

    /// Write one character at row `row`, column `col`; the caller must
    /// bounds-check.
    pub fn set_char(&mut self, row: u16, col: u16, character: Character)
        requires
            old(self).well_formed(),
            row < old(self).spec_size().1,
            col < old(self).spec_size().0,
        ensures
            final(self).spec_size() == old(self).spec_size(),
            final(self).well_formed(),
            final(self).char_at(row as int, col as int) == character,
            forall|r: int, c: int|
                0 <= r < old(self).spec_size().1 && 0 <= c < old(self).spec_size().0 && (r, c) != (
                row as int,
                col as int,
            ) ==> final(self).char_at(r, c) == old(self).char_at(r, c),
    {
        proof {
            assert(self.grid().len() == self.characters@.len());
            assert(self.grid()[row as int] == self.characters@[row as int]@);
        }
        let line = &mut self.characters[row as usize];
        line.set(col as usize, character);
        proof {
            assert(self.grid().len() == old(self).grid().len());
            assert(self.grid()[row as int] =~= old(self).grid()[row as int].update(
                col as int,
                character,
            ));
            assert forall|r: int|
                0 <= r < self.grid().len() && r != row implies #[trigger] self.grid()[r] == old(
                self,
            ).grid()[r] by {
                assert(self.characters@[r] == old(self).characters@[r]);
            }
        }
    }

    /// Set every cell to the given character.
    pub fn fill_char(&mut self, character: Character)
        requires
            old(self).well_formed(),
        ensures
            final(self).spec_size() == old(self).spec_size(),
            final(self).well_formed(),
            forall|r: int, c: int|
                0 <= r < old(self).spec_size().1 && 0 <= c < old(self).spec_size().0
                    ==> final(self).char_at(r, c) == character,
    {
        let height: usize = self.height as usize;
        let width: usize = self.width as usize;
        let mut i: usize = 0;
        while i < height
            invariant
                i <= height,
                self.width == old(self).width,
                self.height == old(self).height,
                width == self.width as int,
                height == self.height as int,
                self.well_formed(),
                forall|r: int, c: int|
                    0 <= r < i && 0 <= c < width ==> (#[trigger] self.char_at(r, c)) == character,
            decreases height - i,
        {
            let mut j: usize = 0;
            while j < width
                invariant
                    i < height,
                    j <= width,
                    self.width == old(self).width,
                    self.height == old(self).height,
                    width == self.width as int,
                    height == self.height as int,
                    self.well_formed(),
                    forall|r: int, c: int|
                        0 <= r < i && 0 <= c < width ==> (#[trigger] self.char_at(r, c))
                            == character,
                    forall|c: int|
                        0 <= c < j ==> (#[trigger] self.char_at(i as int, c)) == character,
                decreases width - j,
            {
                self.set_char(i as u16, j as u16, character);
                j += 1;
            }
            i += 1;
        }
    }

    /// Reset every cell to the blank character.
    pub fn clear(&mut self)
        requires
            old(self).well_formed(),
        ensures
            final(self).spec_size() == old(self).spec_size(),
            final(self).well_formed(),
            forall|r: int, c: int|
                0 <= r < old(self).spec_size().1 && 0 <= c < old(self).spec_size().0
                    ==> final(self).char_at(r, c) == Character::spec_default(),
    {
        self.fill_char(Character::default());
    }
}

impl<W: std::io::Write> WindowBuffer<W> {
    /// Relies on std::io::Write::flush: pushes everything buffered in the
    /// writing handle out to its destination. Whether the I/O succeeds
    /// cannot be promised; the screen contents are untouched either way,
    /// and a failure comes back as the engine's I/O error with an empty
    /// context.
    #[verifier::external_body]
    pub fn flush(&mut self) -> (r: Result<(), RuntimeError>)
        ensures
            final(self).spec_size() == old(self).spec_size(),
            final(self).grid() == old(self).grid(),
            (r matches Err(e) ==> e matches RuntimeError::IoError {
                source: _,
                context,
            } && context@.len() == 0),
    {
        match self.writing_handle.flush() {
            Ok(_) => Ok(()),
            Err(e) => Err(RuntimeError::IoError { source: e, context: String::new() }),
        }
    }
}

} // verus!
