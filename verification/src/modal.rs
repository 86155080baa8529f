//! Geometry and selection rules of the modal dialog: where the dialog and
//! its buttons sit on the screen and how the keyboard moves the selection.
//! Painting the dialog and polling the keyboard happen outside this crate.

use vstd::prelude::*;

verus! {

/// `v` forced into `lo ..= hi`.
pub open spec fn clamped(v: int, lo: int, hi: int) -> int
    recommends
        lo <= hi,
{
    if v < lo {
        lo
    } else if v > hi {
        hi
    } else {
        v
    }
}

/// The modal dialog's rectangle for a terminal of `ew` by `eh` cells and a
/// message of `count` characters: `(x, y, width, height)`.  The dialog is
/// two cells wider than the message, at least ten cells wide, never wider
/// than the terminal; a quarter of the terminal tall, at least five cells;
/// placed a quarter of the way down, and centred on the message when it is
/// narrower than the terminal.
pub fn recompute_sizes(ew: u32, eh: u32, count: u32) -> (r: (i32, i32, u32, u32))
    requires
        10 <= ew <= i32::MAX,
        5 <= eh <= i32::MAX,
        count <= i32::MAX,
    ensures
        r.0 == (if clamped(count as int + 2, 10, ew as int) < ew {
            (ew - count) / 2
        } else {
            0
        }),
        r.1 == eh as int / 4,
        r.2 == clamped(count as int + 2, 10, ew as int),
        r.3 == clamped(eh as int / 4, 5, eh as int),
    {
    let grown = count + 2;
    let w: u32 = if grown < 10 {
        10
    } else if grown > ew {
        ew
    } else {
        grown
    };
    let quarter = eh / 4;
    let h: u32 = if quarter < 5 {
        5
    } else if quarter > eh {
        eh
    } else {
        quarter
    };
    let mut x: i32 = 0;
    let y: i32 = (eh as i32) / 4;

    if w < ew {
        x = (ew as i32 - count as i32) / 2;
    }

    (x, y, w, h)
}

/// Screen column where button `idx` starts: buttons advance by their own
/// label width plus one, after a two-cell margin.
pub fn button_x(idx: usize, label_chars: usize) -> (x: i32)
    requires
        idx <= i32::MAX,
        label_chars + 1 <= i32::MAX,
        idx * (label_chars + 1) + 2 <= i32::MAX,
    ensures
        x == idx * (label_chars + 1) + 2,
{
    proof {
        vstd::arithmetic::mul::lemma_mul_nonnegative(idx as int, label_chars as int + 1);
    }
    (idx as i32) * ((label_chars + 1) as i32) + 2
}

/// Selection after the left arrow: one button back, stopping at the first.
pub fn select_left(selected: usize) -> (r: usize)
    ensures
        r == (if selected > 0 {
            selected - 1
        } else {
            0
        }),
{
    if selected > 0 {
        selected - 1
    } else {
        0
    }
}

/// Selection after the right arrow: one button forward, stopping at the
/// last of the `buttons` buttons.
pub fn select_right(selected: usize, buttons: usize) -> (r: usize)
    requires
        buttons >= 1,
        selected < usize::MAX,
    ensures
        r == (if selected + 1 < buttons {
            selected + 1
        } else {
            buttons - 1
        }),
{
    let next = selected + 1;
    if next > buttons - 1 {
        buttons - 1
    } else {
        next
    }
}

} // verus!
