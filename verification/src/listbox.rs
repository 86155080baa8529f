//! Scrolling and pagination of a list pane: the cursor, the current page,
//! and the chunked view of the entries.
//!
//! Painting the entries into a screen buffer and reading the keyboard are
//! terminal work and happen outside this crate; this type carries the
//! state those collaborators read and the rules by which it moves.

use crate::layout::Layout;
use vstd::prelude::*;

verus! {

/// How many chunks of `size` entries a list of `len` entries fills: the
/// rounded-up quotient, and none at all for an empty list.
pub open spec fn chunk_count(len: int, size: int) -> int
    recommends
        size > 0,
{
    if len <= 0 {
        0
    } else {
        (len - 1) / size + 1
    }
}

/// The scroll keys held during one frame.
#[derive(Clone, Copy, PartialEq, Eq, Structural, Debug)]
pub struct ScrollEvent {
    pub down: bool,
    pub up: bool,
}

/// Which scroll moves one frame's held keys apply to a pane: a held Down
/// scrolls down and a held Up scrolls up, in that order, and only while the
/// pane is focused.
pub fn plan_scroll(focused: bool, event: ScrollEvent) -> (plan: (bool, bool))
    ensures
        plan.0 == (focused && event.down),
        plan.1 == (focused && event.up),
{
    (focused && event.down, focused && event.up)
}

/// Two pane states with the same rectangle: position and size untouched.
pub open spec fn same_frame(a: ListBox, b: ListBox) -> bool {
    a.x == b.x && a.y == b.y && a.width == b.width && a.height == b.height
}

/// A list pane: its entries, cursor and page, focus flag, and the position
/// and size of the rectangle it was given.  One page holds two rows fewer
/// than the pane is tall.
pub struct ListBox {
    /// The displayed entries.
    pub display: Vec<String>,
    /// Current page of the chunked entries.
    pub page: usize,
    /// Cursor position inside the current page.
    pub position: usize,
    /// Whether keyboard input is currently directed at this pane.
    pub focused: bool,
    /// Screen column of the pane's top-left corner.
    pub x: i32,
    /// Screen row of the pane's top-left corner.
    pub y: i32,
    /// Width of the pane in cells.
    pub width: u32,
    /// Height of the pane in cells.
    pub height: u32,
}

impl ListBox {
    /// An empty pane filling the given rectangle.
    pub fn new(layout: &Layout, focused: bool) -> (lb: ListBox)
        requires
            0 <= layout.w,
            0 <= layout.h,
        ensures
            lb.display@.len() == 0,
            lb.page == 0,
            lb.position == 0,
            lb.focused == focused,
            lb.x == layout.x,
            lb.y == layout.y,
            lb.width == layout.w,
            lb.height == layout.h,
    {
        ListBox {
            display: Vec::new(),
            x: layout.x,
            y: layout.y,
            page: 0,
            position: 0,
            width: layout.w as u32,
            height: layout.h as u32,
            focused,
        }
    }

    /// Rows of entries one page holds.
    pub open spec fn page_rows(&self) -> int {
        self.height as int - 2
    }

    /// Number of pages the entries currently fill.
    pub fn get_page_count(&mut self) -> (count: usize)
        requires
            old(self).height >= 3,
        ensures
            *final(self) == *old(self),
            count == chunk_count(old(self).display@.len() as int, old(self).page_rows()),
    {
        let rows = (self.height - 2) as usize;
        if self.display.len() == 0 {
            0
        } else {
            proof {
                vstd::arithmetic::div_mod::lemma_div_is_ordered(
                    self.display@.len() - 1,
                    self.display@.len() as int,
                    rows as int,
                );
                vstd::arithmetic::div_mod::lemma_div_is_ordered_by_denominator(
                    self.display@.len() as int,
                    1,
                    rows as int,
                );
            }
            (self.display.len() - 1) / rows + 1
        }
    }

    /// Moves the cursor one entry down, or turns one page forward once the
    /// cursor rests on the page's last row.
    pub fn scroll_down(&mut self)
        requires
            old(self).height >= 3,
            old(self).position >= old(self).height - 2 ==> old(self).display@.len() > 0,
        ensures
            final(self).display == old(self).display,
            final(self).focused == old(self).focused,
            same_frame(*old(self), *final(self)),
            old(self).position < old(self).height - 2
                ==> final(self).position == old(self).position + 1
                    && final(self).page == old(self).page,
            old(self).position >= old(self).height - 2 ==> (if ((old(self).page as int)
                < chunk_count(old(self).display@.len() as int, old(self).page_rows()) - 1) {
                final(self).page == old(self).page + 1 && final(self).position == 0
            } else {
                final(self).page == old(self).page && final(self).position == old(self).position
            }),
    {
        if self.position < self.height as usize - 2 {
            self.position = self.position + 1;
        } else {
            self.switch_page_up();
        }
    }

    /// Moves the cursor one entry up, or turns one page back once the
    /// cursor rests on the first row, landing on the new page's last row.
    pub fn scroll_up(&mut self)
        requires
            old(self).height >= 2,
        ensures
            final(self).display == old(self).display,
            final(self).focused == old(self).focused,
            same_frame(*old(self), *final(self)),
            old(self).position > 0
                ==> final(self).position == old(self).position - 1
                    && final(self).page == old(self).page,
            old(self).position == 0
                ==> final(self).position == old(self).height - 2
                    && final(self).page == (if old(self).page > 0 {
                old(self).page - 1
            } else {
                0
            }),
    {
        if self.position > 0 {
            self.position = self.position - 1;
        } else {
            self.switch_page_down();
            self.position = self.height as usize - 2;
        }
    }

    /// Turns one page forward, resetting the cursor, unless the entries
    /// already end on the current page.
    pub fn switch_page_up(&mut self)
        requires
            old(self).height >= 3,
            old(self).display@.len() > 0,
        ensures
            final(self).display == old(self).display,
            final(self).focused == old(self).focused,
            same_frame(*old(self), *final(self)),
            if ((old(self).page as int) < chunk_count(
                old(self).display@.len() as int,
                old(self).page_rows(),
            ) - 1) {
                final(self).page == old(self).page + 1 && final(self).position == 0
            } else {
                final(self).page == old(self).page && final(self).position == old(self).position
            },
    {
        let count = self.get_page_count();
        if self.page < count - 1 {
            self.page = self.page + 1;
            self.position = 0;
        }
    }

    /// Turns one page back, unless already on the first.
    pub fn switch_page_down(&mut self)
        ensures
            final(self).display == old(self).display,
            final(self).focused == old(self).focused,
            same_frame(*old(self), *final(self)),
            final(self).position == old(self).position,
            final(self).page == (if old(self).page > 0 {
                old(self).page - 1
            } else {
                0
            }),
    {
        if self.page > 0 {
            self.page = self.page - 1;
        }
    }

    /// Replaces the entries and rewinds cursor and page to the start.
    pub fn set_content(&mut self, content: Vec<String>)
        ensures
            final(self).display == content,
            same_frame(*old(self), *final(self)),
            final(self).page == 0,
            final(self).position == 0,
            final(self).focused == old(self).focused,
    {
        self.display = content;
        self.page = 0;
        self.position = 0;
    }

    /// The cursor's index among all entries, counted over the pane's full
    /// height and shifted down by the two non-entry rows.
    pub fn get_selected_idx(&mut self) -> (idx: usize)
        requires
            old(self).position + old(self).page * old(self).height <= usize::MAX,
        ensures
            *final(self) == *old(self),
            idx == (if old(self).position + old(self).page * old(self).height >= 2 {
                old(self).position + old(self).page * old(self).height - 2
            } else {
                0
            }),
    {
        let pos = self.position + self.page * (self.height as usize);
        if pos >= 2 {
            pos - 2
        } else {
            0
        }
    }

    /// Keeps exactly the entries equal to `value`.
    pub fn remove(&mut self, value: String)
        ensures
            final(self).display@ == old(self).display@.filter(|x: String| x@ == value@),
            same_frame(*old(self), *final(self)),
            final(self).page == old(self).page,
            final(self).position == old(self).position,
            final(self).focused == old(self).focused,
    {
        let mut kept: Vec<String> = Vec::new();
        let mut i: usize = 0;
        proof {
            reveal(Seq::filter);
        }
        while i < self.display.len()
            invariant
                i <= self.display@.len(),
                self == old(self),
                kept@ == self.display@.subrange(0, i as int).filter(|x: String| x@ == value@),
            decreases self.display@.len() - i,
        {
            proof {
                reveal(Seq::filter);
                let prefix = self.display@.subrange(0, i as int + 1);
                assert(prefix.drop_last() =~= self.display@.subrange(0, i as int));
                assert(prefix.last() == self.display@[i as int]);
            }
            if self.display[i] == value {
                let entry = self.display[i].clone();
                kept.push(entry);
            }
            i += 1;
        }
        proof {
            reveal(Seq::filter);
            assert(self.display@.subrange(0, self.display@.len() as int) =~= self.display@);
        }
        self.display = kept;
    }

    /// The entry under the cursor's in-page position.
    pub fn get_selected_str(&mut self) -> (entry: String)
        requires
            old(self).position < old(self).display@.len(),
        ensures
            *final(self) == *old(self),
            entry == old(self).display@[old(self).position as int],
    {
        self.display[self.position].clone()
    }

    /// The in-page position `pos` as an index among all entries.
    pub fn sel_idx_glob(&mut self, pos: usize) -> (idx: usize)
        requires
            pos + old(self).page * old(self).height <= usize::MAX,
        ensures
            *final(self) == *old(self),
            idx == pos + old(self).page * old(self).height,
    {
        pos + self.page * (self.height as usize)
    }

    /// Gives the pane a new rectangle, rewinding the cursor.
    pub fn resize(&mut self, layout: &Layout)
        requires
            0 <= layout.w,
            0 <= layout.h,
        ensures
            final(self).display == old(self).display,
            final(self).page == old(self).page,
            final(self).focused == old(self).focused,
            final(self).position == 0,
            final(self).x == layout.x,
            final(self).y == layout.y,
            final(self).width == layout.w,
            final(self).height == layout.h,
    {
        self.position = 0;
        self.width = layout.w as u32;
        self.height = layout.h as u32;
        self.x = layout.x;
        self.y = layout.y;
    }

    /// Where the pane's rectangle starts on the screen.
    pub fn get_position(&self) -> (pos: (i32, i32))
        ensures
            pos.0 == self.x,
            pos.1 == self.y,
    {
        (self.x, self.y)
    }
}

} // verus!
