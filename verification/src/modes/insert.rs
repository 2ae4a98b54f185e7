use crate::file_buffer::FileBuffer;
use crate::modes::mode_utils;
use crate::modes::mode_utils::{display_pos, move_allowed, moved_pos, on_text};
use crate::modes::{Dir2, ModeInit, V2};
use vstd::prelude::*;

verus! {

/// The insert mode: a cursor in the file buffer.
pub struct Insert {
    cursor: V2,
}

impl View for Insert {
    type V = (usize, usize);

    /// The cursor's column and row.
    closed spec fn view(&self) -> (usize, usize) {
        self.cursor@
    }
}

impl Insert {
    /// The mode with its cursor where `init` puts it.
    pub fn new(init: ModeInit) -> (r: Insert)
        ensures
            r@ == init.cursor_pos@,
    {
        Insert { cursor: init.cursor_pos }
    }
    /// The cursor, where it is held (not where it is shown).
    pub fn cursor(&self) -> (r: &V2)
        ensures
            r@ == self@,
    {
        &self.cursor
    }

    /// Moves the cursor one step in direction `dir`, as `mode_utils::move_cursor` does.
    pub fn move_cursor(&mut self, buf: &FileBuffer, dir: Dir2)
        requires
            move_allowed(old(self)@, buf@, dir),
        ensures
            final(self)@ == moved_pos(old(self)@, buf@, dir),
    {
        self.cursor = mode_utils::move_cursor(&self.cursor, buf, dir);
    }

    /// Where the cursor is shown, as `mode_utils::display_cursor` gives it.
    pub fn display_cursor(&self, buf: &FileBuffer) -> (r: V2)
        requires
            on_text(self@, buf@),
        ensures
            r@ == display_pos(self@, buf@),
    {
        mode_utils::display_cursor(&self.cursor, buf)
    }
}

} // verus!
