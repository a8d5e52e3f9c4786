//! Cursor-based editing of the on-screen keyboard's text line.
//!
//! The text is a sequence of characters with a character cursor; a selection
//! is a pair of cursors in either order.

use vstd::prelude::*;

verus! {

/// A character cursor: an index into the text, in characters.
#[derive(Clone, Copy, PartialEq, Eq, Structural, Debug)]
pub struct CCursor {
    pub index: usize,
    pub prefer_next_row: bool,
}

/// A selection: two cursors, in either order.
#[derive(Clone, Copy, PartialEq, Eq, Structural, Debug)]
pub struct CCursorRange {
    pub primary: CCursor,
    pub secondary: CCursor,
}

impl CCursorRange {
    /// The selection's two ends, lower index first.
    pub fn sorted(&self) -> (r: (CCursor, CCursor))
        ensures
            r.0.index <= r.1.index,
            (r.0 == self.primary && r.1 == self.secondary) || (r.0 == self.secondary && r.1
                == self.primary),
    {
        if self.primary.index <= self.secondary.index {
            (self.primary, self.secondary)
        } else {
            (self.secondary, self.primary)
        }
    }
}

/// Insert one character at the cursor and move the cursor past it.
pub fn insert_char(ccursor: &mut CCursor, text: &mut Vec<char>, ch: char)
    requires
        old(ccursor).index <= old(text)@.len(),
        old(text)@.len() < usize::MAX,
    ensures
        final(text)@ == old(text)@.insert(old(ccursor).index as int, ch),
        final(ccursor).index == old(ccursor).index + 1,
        final(ccursor).prefer_next_row == old(ccursor).prefer_next_row,
{
    text.insert(ccursor.index, ch);
    ccursor.index = ccursor.index + 1;
}

/// Delete the characters between two ordered cursors and leave the cursor at
/// the lower end.
pub fn delete_selected_ccursor_range(text: &mut Vec<char>, min: CCursor, max: CCursor) -> (r:
    CCursor)
    requires
        min.index <= max.index,
        max.index <= old(text)@.len(),
    ensures
        final(text)@ == old(text)@.take(min.index as int) + old(text)@.skip(max.index as int),
        r == (CCursor { index: min.index, prefer_next_row: true }),
{
    let mut removed: usize = 0;
    let count = max.index - min.index;
    while removed < count
        invariant
            min.index + count == max.index,
            max.index <= old(text)@.len(),
            removed <= count,
            text@ == old(text)@.take(min.index as int) + old(text)@.skip(
                min.index + removed as int,
            ),
        decreases count - removed,
    {
        proof {
            assert(text@.len() == old(text)@.len() - removed);
            assert(min.index < text@.len());
        }
        let _ = text.remove(min.index);
        proof {
            assert(text@ =~= old(text)@.take(min.index as int) + old(text)@.skip(
                min.index + removed as int + 1,
            ));
        }
        removed += 1;
    }
    proof {
        assert(text@ =~= old(text)@.take(min.index as int) + old(text)@.skip(max.index as int));
    }
    CCursor { index: min.index, prefer_next_row: true }
}

/// Delete the current selection and leave the cursor at its lower end.
pub fn delete_selected(text: &mut Vec<char>, cursor_range: &CCursorRange) -> (r: CCursor)
    requires
        cursor_range.primary.index <= old(text)@.len(),
        cursor_range.secondary.index <= old(text)@.len(),
    ensures
        ({
            let lo = if cursor_range.primary.index <= cursor_range.secondary.index {
                cursor_range.primary.index
            } else {
                cursor_range.secondary.index
            };
            let hi = if cursor_range.primary.index <= cursor_range.secondary.index {
                cursor_range.secondary.index
            } else {
                cursor_range.primary.index
            };
            final(text)@ == old(text)@.take(lo as int) + old(text)@.skip(hi as int) && r == (
            CCursor { index: lo, prefer_next_row: true })
        }),
{
    let (min, max) = cursor_range.sorted();
    delete_selected_ccursor_range(text, min, max)
}

/// Delete the character before the cursor, if any.
pub fn delete_previous_char(text: &mut Vec<char>, ccursor: CCursor) -> (r: CCursor)
    requires
        ccursor.index <= old(text)@.len(),
    ensures
        ccursor.index > 0 ==> final(text)@ == old(text)@.remove(ccursor.index - 1) && r == (
        CCursor { index: (ccursor.index - 1) as usize, prefer_next_row: true }),
        ccursor.index == 0 ==> final(text)@ == old(text)@ && r == ccursor,
{
    if ccursor.index > 0 {
        let max_ccursor = ccursor;
        let min_ccursor = CCursor {
            index: max_ccursor.index - 1,
            prefer_next_row: max_ccursor.prefer_next_row,
        };
        let r = delete_selected_ccursor_range(text, min_ccursor, max_ccursor);
        proof {
            assert(text@ =~= old(text)@.remove(ccursor.index - 1));
        }
        r
    } else {
        ccursor
    }
}

} // verus!
