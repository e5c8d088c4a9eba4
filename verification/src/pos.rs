//! Screen positions and 2D displacements.
//!
//! A [`Position`] is a (column, row) pair on the screen; `row` is relative
//! to the first prompt line (the prompt starts at row 0).  A [`Shift`] is a
//! displacement with an independent signed magnitude per axis, because an
//! edit can move columns one way while carrying a row change the other way.

use vstd::prelude::*;

verus! {

/// Specification-level screen location: a column and a row as unbounded
/// integers.  Row 0 is the first prompt row.
pub struct Loc {
    pub col: int,
    pub row: int,
}

/// The screen origin: column 0 of the first prompt row.
pub open spec fn origin() -> Loc {
    Loc { col: 0, row: 0 }
}

/// Row-major order on screen locations: `a` comes before (or at) `b`.
pub open spec fn loc_le(a: Loc, b: Loc) -> bool {
    a.row < b.row || (a.row == b.row && a.col <= b.col)
}

/// Position on the screen.  `row` is relative to the first prompt line.
#[derive(Copy, Clone, Debug, Default, PartialEq, Eq, Structural)]
pub struct Position {
    pub col: usize,
    pub row: usize,
}

impl View for Position {
    type V = Loc;

    open spec fn view(&self) -> Loc {
        Loc { col: self.col as int, row: self.row as int }
    }
}

/// A 2D displacement: a magnitude and a direction per axis.
#[derive(Copy, Clone, Debug, PartialEq, Eq, Structural)]
pub struct Shift {
    /// Horizontal magnitude, in columns.
    pub width: usize,
    /// Horizontal direction: `true` moves right.
    pub right: bool,
    /// Vertical magnitude, in rows.
    pub height: usize,
    /// Vertical direction: `true` moves down.
    pub down: bool,
}

/// Adds or subtracts `amount` from `u`.  Overflow and underflow signal a
/// corrupted cache or an edit descriptor inconsistent with stored state,
/// never a valid runtime condition, so they are excluded up front.
pub fn shift(u: usize, amount: usize, plus: bool) -> (r: usize)
    requires
        plus ==> u + amount <= usize::MAX,
        !plus ==> amount <= u,
    ensures
        plus ==> r == u + amount,
        !plus ==> r == u - amount,
{
    if amount == 0 {
        u
    } else if plus {
        u + amount
    } else {
        u - amount
    }
}

/// Returns `(magnitude, direction)` such that applying [`shift`] with that
/// pair to `o` yields `n`; magnitude 0 (with direction "plus") when equal.
pub fn delta(o: usize, n: usize) -> (r: (usize, bool))
    ensures
        n >= o ==> r == (((n - o) as usize, true)),
        n < o ==> r == (((o - n) as usize, false)),
{
    if n > o {
        (n - o, true)
    } else if n < o {
        (o - n, false)
    } else {
        (0, true)
    }
}

impl Shift {
    /// The zero displacement.
    pub open spec fn zero_spec() -> Shift {
        Shift { width: 0, right: true, height: 0, down: true }
    }

    /// True iff both axes have zero magnitude; such a shift moves nothing.
    pub open spec fn is_empty_spec(self) -> bool {
        self.width == 0 && self.height == 0
    }

    /// The zero displacement, as a value.
    pub fn zero() -> (r: Shift)
        ensures
            r == Shift::zero_spec(),
    {
        Shift { width: 0, right: true, height: 0, down: true }
    }

    /// Decomposes a horizontal displacement of `width` columns into a
    /// column delta plus a carried row delta (line wrap), by integer
    /// division and modulo by `columns`.
    pub fn right(width: usize, columns: usize) -> (r: Shift)
        requires
            width > 0 ==> columns > 0,
        ensures
            width == 0 ==> r == Shift::zero_spec(),
            0 < width < columns ==> r == (Shift { width, right: true, height: 0, down: true }),
            width >= columns && width > 0 ==> r == (Shift {
                width: (width % columns) as usize,
                right: true,
                height: (width / columns) as usize,
                down: true,
            }),
    {
        if width == 0 {
            Shift::zero()
        } else if width < columns {
            Shift { width, right: true, height: 0, down: true }
        } else {
            // line wrapping
            Shift { width: width % columns, right: true, height: width / columns, down: true }
        }
    }

    /// The net 2D displacement that moves `from` to `to`; the zero shift
    /// when the positions are equal.
    pub fn delta(from: Position, to: Position) -> (r: Shift)
        ensures
            to.col >= from.col ==> r.width == to.col - from.col && r.right,
            to.col < from.col ==> r.width == from.col - to.col && !r.right,
            to.row >= from.row ==> r.height == to.row - from.row && r.down,
            to.row < from.row ==> r.height == from.row - to.row && !r.down,
    {
        if from == to {
            return Shift::zero();
        }
        let (width, right) = delta(from.col, to.col);
        let (height, down) = delta(from.row, to.row);
        Shift { width, right, height, down }
    }

    /// True iff both axes are zero magnitude — used to short-circuit
    /// propagation and to signal "no repaint needed".
    pub fn is_empty(&self) -> (r: bool)
        ensures
            r == self.is_empty_spec(),
    {
        self.width == 0 && self.height == 0
    }
}

impl Position {
    /// Applies `s` to `self` in place.
    pub fn shift_mut(&mut self, s: &Shift)
        requires
            s.right ==> old(self).col + s.width <= usize::MAX,
            !s.right ==> s.width <= old(self).col,
            s.down ==> old(self).row + s.height <= usize::MAX,
            !s.down ==> s.height <= old(self).row,
        ensures
            s.right ==> final(self).col == old(self).col + s.width,
            !s.right ==> final(self).col == old(self).col - s.width,
            s.down ==> final(self).row == old(self).row + s.height,
            !s.down ==> final(self).row == old(self).row - s.height,
    {
        if s.width != 0 {
            self.col = shift(self.col, s.width, s.right);
        }
        if s.height != 0 {
            self.row = shift(self.row, s.height, s.down);
        }
    }

    /// Returns `self` displaced by `s`.
    pub fn shift(&self, s: &Shift) -> (r: Position)
        requires
            s.right ==> self.col + s.width <= usize::MAX,
            !s.right ==> s.width <= self.col,
            s.down ==> self.row + s.height <= usize::MAX,
            !s.down ==> s.height <= self.row,
        ensures
            s.right ==> r.col == self.col + s.width,
            !s.right ==> r.col == self.col - s.width,
            s.down ==> r.row == self.row + s.height,
            !s.down ==> r.row == self.row - s.height,
    {
        let mut new = *self;
        new.shift_mut(s);
        new
    }
}

} // verus!
