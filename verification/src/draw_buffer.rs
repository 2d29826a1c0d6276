use vstd::prelude::*;

use crate::character::Character;
use crate::grid::lemma_row_major_bound;
use crate::grid::lemma_row_major_distinct;
use crate::grid::lemma_row_major_inverse;
use crate::grid::row_major;

verus! {

/// The off-screen grid of characters a frame is composed into.
///
/// Cells are stored row-major: the cell at column `x`, row `y` sits at linear
/// index `y * width + x`. `text_changed` records whether anything was written
/// since the flag was last set, so a renderer can skip unchanged frames.
pub struct DrawBuffer {
    pub width: u32,
    pub height: u32,
    pub characters: Vec<Character>,
    pub text_changed: bool,
}

impl DrawBuffer {
    /// The cell store holds exactly one character per grid position.
    pub open spec fn well_formed(self) -> bool {
        self.characters@.len() == self.width as int * self.height as int
    }

    /// The character shown at column `x`, row `y`.
    pub open spec fn char_at(self, x: int, y: int) -> Character {
        self.characters@[row_major(x, y, self.width as int)]
    }

    /// A buffer of the given size with every cell blank.
    pub fn new(p_width: u32, p_height: u32) -> (r: DrawBuffer)
        requires
            p_width as int * p_height as int <= usize::MAX as int,
        ensures
            r.width == p_width,
            r.height == p_height,
            r.text_changed,
            r.well_formed(),
            forall|x: int, y: int|
                0 <= x < p_width && 0 <= y < p_height ==> r.char_at(x, y)
                    == Character::spec_default(),
    {
        let w_us = p_width as usize;
        let h_us = p_height as usize;
        let characters: Vec<Character> = vec![Character::default(); w_us * h_us];
        let r = DrawBuffer { width: p_width, height: p_height, characters, text_changed: true };
        proof {
            assert forall|x: int, y: int|
                0 <= x < p_width && 0 <= y < p_height implies r.char_at(x, y)
                == Character::spec_default() by {
                lemma_row_major_bound(x, y, p_width as int, p_height as int);
            }
        }
        r
    }

    /// The buffer's size as a `(width, height)` pair of `usize`.
    pub fn get_size_usize(&mut self) -> (r: (usize, usize))
        ensures
            *final(self) == *old(self),
            r == (old(self).width as usize, old(self).height as usize),
    {
        (self.width as usize, self.height as usize)
    }

    /// Grow or shrink the cell store to the new size, keeping the linear
    /// prefix of the old contents and filling new cells with the blank
    /// character.
    pub fn resize(&mut self, p_width: u32, p_height: u32)
        requires
            p_width as int * p_height as int <= usize::MAX as int,
        ensures
            final(self).width == p_width,
            final(self).height == p_height,
            final(self).well_formed(),
            final(self).text_changed == old(self).text_changed,
            forall|i: int|
                0 <= i < p_width as int * p_height as int ==> final(self).characters@[i] == (
                if i < old(self).characters@.len() {
                    old(self).characters@[i]
                } else {
                    Character::spec_default()
                }),
    {
        let w_us = p_width as usize;
        let h_us = p_height as usize;
        self.characters.resize(w_us * h_us, Character::default());
        self.width = p_width;
        self.height = p_height;
    }

    /// Write one character at column `col`, row `row`, recording a change
    /// only when the cell's contents actually differ.
    pub fn set_char(&mut self, col: u32, row: u32, character: Character)
        requires
            old(self).well_formed(),
            col < old(self).width,
            row < old(self).height,
        ensures
            final(self).width == old(self).width,
            final(self).height == old(self).height,
            final(self).well_formed(),
            final(self).characters@ =~= old(self).characters@.update(
                row_major(col as int, row as int, old(self).width as int),
                character,
            ),
            final(self).text_changed == (old(self).text_changed || old(self).char_at(
                col as int,
                row as int,
            ) != character),
            final(self).char_at(col as int, row as int) == character,
            forall|a: int, b: int|
                0 <= a < old(self).width && 0 <= b < old(self).height && (a, b) != (
                col as int,
                row as int,
            ) ==> final(self).char_at(a, b) == old(self).char_at(a, b),
    {
        let n = self.characters.len();
        proof {
            lemma_row_major_bound(col as int, row as int, self.width as int, self.height as int);
            assert((row as int) * (self.width as int) + (col as int) < (n as int));
        }
        let idx = row as usize * self.width as usize + col as usize;
        if self.characters[idx] != character {
            self.characters.set(idx, character);
            self.text_changed = true;
        }
        proof {
            assert forall|a: int, b: int|
                0 <= a < old(self).width && 0 <= b < old(self).height && (a, b) != (
                col as int,
                row as int,
            ) implies final(self).char_at(a, b) == old(self).char_at(a, b) by {
                lemma_row_major_bound(a, b, self.width as int, self.height as int);
                lemma_row_major_distinct(a, b, col as int, row as int, self.width as int);
            }
        }
    }

    /// Reset every cell to the blank character, recording a change only if
    /// some cell was not blank already.
    pub fn clear(&mut self)
        requires
            old(self).well_formed(),
        ensures
            final(self).width == old(self).width,
            final(self).height == old(self).height,
            final(self).well_formed(),
            forall|x: int, y: int|
                0 <= x < old(self).width && 0 <= y < old(self).height ==> final(self).char_at(x, y)
                    == Character::spec_default(),
            final(self).text_changed == (old(self).text_changed || exists|x: int, y: int|
                0 <= x < old(self).width && 0 <= y < old(self).height && old(self).char_at(x, y)
                    != Character::spec_default()),
    {
        self.fill_char(Character::default());
    }

    /// Set every cell to the given character, recording a change only if
    /// some cell held a different character.
    pub fn fill_char(&mut self, character: Character)
        requires
            old(self).well_formed(),
        ensures
            final(self).width == old(self).width,
            final(self).height == old(self).height,
            final(self).well_formed(),
            forall|x: int, y: int|
                0 <= x < old(self).width && 0 <= y < old(self).height ==> final(self).char_at(x, y)
                    == character,
            final(self).text_changed == (old(self).text_changed || exists|x: int, y: int|
                0 <= x < old(self).width && 0 <= y < old(self).height && old(self).char_at(x, y)
                    != character),
    {
        let n = self.characters.len();
        let mut k: usize = 0;
        while k < n
            invariant
                k <= n,
                n == self.characters@.len(),
                self.width == old(self).width,
                self.height == old(self).height,
                self.characters@.len() == old(self).characters@.len(),
                forall|i: int| 0 <= i < k ==> self.characters@[i] == character,
                forall|i: int| k <= i < n ==> self.characters@[i] == old(self).characters@[i],
                self.text_changed == (old(self).text_changed || exists|i: int|
                    0 <= i < k && old(self).characters@[i] != character),
            decreases n - k,
        {
            if self.characters[k] != character {
                self.characters.set(k, character);
                self.text_changed = true;
            }
            k += 1;
        }
        proof {
            let w = self.width as int;
            let h = self.height as int;
            assert forall|x: int, y: int| 0 <= x < w && 0 <= y < h implies self.char_at(x, y)
                == character by {
                lemma_row_major_bound(x, y, w, h);
            }
            if self.text_changed && !old(self).text_changed {
                let i = choose|i: int| 0 <= i < n && old(self).characters@[i] != character;
                assert(w > 0) by (nonlinear_arith)
                    requires
                        0 <= w,
                        w * h > 0,
                ;
                lemma_row_major_inverse(i, w, h);
                assert(old(self).char_at(i % w, i / w) != character);
            }
            if !self.text_changed {
                assert forall|x: int, y: int| 0 <= x < w && 0 <= y < h implies old(self).char_at(
                    x,
                    y,
                ) == character by {
                    lemma_row_major_bound(x, y, w, h);
                }
            }
        }
    }
}

} // verus!
