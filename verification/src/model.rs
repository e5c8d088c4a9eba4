//! Specification model of the layout walk.
//!
//! A cache entry is modelled as a [`Rec`]: a byte offset, a rendered width
//! and a screen location, all as unbounded integers.  [`laid_out`] is the
//! mathematical "fresh relayout" of a sequence of records: it walks the
//! records in order, accumulating column width with a row carry at each
//! line wrap.  The cache's central invariant is that its stored entries are
//! exactly `laid_out` of their own offsets and widths, which is what makes
//! the incremental update paths provably equivalent to a full relayout.
//!
//! Wrap policy: a grapheme that would not fit entirely before the right
//! edge wraps wholly to the start of the next row.  Consequently a stored
//! entry always satisfies `loc.col + width <= cols`, and the pen (the
//! location where the next grapheme would start) satisfies `col <= cols`.

use vstd::prelude::*;

use crate::pos::{loc_le, origin, Loc};

verus! {

/// Specification-level cache entry.
pub struct Rec {
    /// Byte offset of the grapheme cluster's start.
    pub idx: int,
    /// Rendered column width of the grapheme cluster.
    pub width: int,
    /// Screen location of the grapheme's first cell.
    pub loc: Loc,
}

/// Where a grapheme of width `w` is placed when the pen is at `p`, on a
/// terminal `cols` columns wide: at `p` if it fits before the right edge,
/// else at the start of the next row (wrap-wholly policy).
pub open spec fn placed_at(p: Loc, w: int, cols: int) -> Loc {
    if p.col + w > cols {
        Loc { col: 0, row: p.row + 1 }
    } else {
        p
    }
}

/// The pen location after drawing a grapheme of width `w` from pen `p`.
pub open spec fn loc_after(p: Loc, w: int, cols: int) -> Loc {
    let q = placed_at(p, w, cols);
    Loc { col: q.col + w, row: q.row }
}

/// A fresh layout of `rs` starting with the pen at `p`: the same offsets
/// and widths, with every location reassigned by the wrap-aware walk.
pub open spec fn laid_out(rs: Seq<Rec>, p: Loc, cols: int) -> Seq<Rec>
    decreases rs.len(),
{
    if rs.len() == 0 {
        Seq::empty()
    } else {
        let q = placed_at(p, rs[0].width, cols);
        seq![Rec { idx: rs[0].idx, width: rs[0].width, loc: q }] + laid_out(
            rs.drop_first(),
            Loc { col: q.col + rs[0].width, row: q.row },
            cols,
        )
    }
}

/// The pen location after laying out all of `rs` from `p`.
pub open spec fn end_loc(rs: Seq<Rec>, p: Loc, cols: int) -> Loc
    decreases rs.len(),
{
    if rs.len() == 0 {
        p
    } else {
        end_loc(rs.drop_first(), loc_after(p, rs[0].width, cols), cols)
    }
}

/// Every width is positive and fits on one terminal row.
pub open spec fn widths_ok(rs: Seq<Rec>, cols: int) -> bool {
    forall|i: int| 0 <= i < rs.len() ==> 0 < #[trigger] rs[i].width <= cols
}

/// A legal pen location: on screen, at or left of the right edge.
pub open spec fn pen_ok(p: Loc, cols: int) -> bool {
    0 <= p.col <= cols && 0 <= p.row
}

/// Offsets are strictly ascending.
pub open spec fn idx_sorted(rs: Seq<Rec>) -> bool {
    forall|i: int, j: int| 0 <= i < j < rs.len() ==> rs[i].idx < rs[j].idx
}

/// The records of `ps` (offset, width) pairs, offsets rebased by `base`;
/// locations are placeholders that a layout walk will assign.
pub open spec fn pair_recs(ps: Seq<(usize, usize)>, base: int) -> Seq<Rec> {
    ps.map_values(|p: (usize, usize)| Rec { idx: base + p.0, width: p.1 as int, loc: origin() })
}

/// `rs` with every offset moved by `d`.
pub open spec fn shift_idx(rs: Seq<Rec>, d: int) -> Seq<Rec> {
    rs.map_values(|r: Rec| Rec { idx: r.idx + d, width: r.width, loc: r.loc })
}

/// Number of records whose offset is below `x`; for a sorted sequence this
/// is the insertion point of `x`.
pub open spec fn lb(rs: Seq<Rec>, x: int) -> int
    decreases rs.len(),
{
    if rs.len() == 0 {
        0
    } else if rs[0].idx < x {
        1 + lb(rs.drop_first(), x)
    } else {
        0
    }
}

/// The layout walk keeps offsets and widths and only reassigns locations.
pub proof fn lemma_laid_out_shape(rs: Seq<Rec>, p: Loc, cols: int)
    ensures
        laid_out(rs, p, cols).len() == rs.len(),
        forall|i: int| 0 <= i < rs.len() ==> #[trigger] laid_out(rs, p, cols)[i].idx == rs[i].idx
            && laid_out(rs, p, cols)[i].width == rs[i].width,
    decreases rs.len(),
{
    if rs.len() > 0 {
        let q = placed_at(p, rs[0].width, cols);
        let p1 = Loc { col: q.col + rs[0].width, row: q.row };
        lemma_laid_out_shape(rs.drop_first(), p1, cols);
        assert forall|i: int| 0 <= i < rs.len() implies #[trigger] laid_out(rs, p, cols)[i].idx
            == rs[i].idx && laid_out(rs, p, cols)[i].width == rs[i].width by {
            if i > 0 {
                assert(laid_out(rs, p, cols)[i] == laid_out(rs.drop_first(), p1, cols)[i - 1]);
                assert(rs.drop_first()[i - 1] == rs[i]);
            }
        }
    }
}

/// The end of a walk depends only on the widths walked over.
pub proof fn lemma_end_loc_widths(a: Seq<Rec>, b: Seq<Rec>, p: Loc, cols: int)
    requires
        a.len() == b.len(),
        forall|i: int| 0 <= i < a.len() ==> #[trigger] a[i].width == b[i].width,
    ensures
        end_loc(a, p, cols) == end_loc(b, p, cols),
    decreases a.len(),
{
    if a.len() > 0 {
        assert(forall|i: int| 0 <= i < a.drop_first().len() ==> #[trigger] a.drop_first()[i].width
            == b.drop_first()[i].width);
        lemma_end_loc_widths(a.drop_first(), b.drop_first(), loc_after(p, a[0].width, cols), cols);
    }
}

/// The walk depends only on offsets and widths, not on the stored
/// locations it overwrites.
pub proof fn lemma_laid_out_congruence(a: Seq<Rec>, b: Seq<Rec>, p: Loc, cols: int)
    requires
        a.len() == b.len(),
        forall|i: int| 0 <= i < a.len() ==> #[trigger] a[i].idx == b[i].idx && a[i].width
            == b[i].width,
    ensures
        laid_out(a, p, cols) == laid_out(b, p, cols),
    decreases a.len(),
{
    if a.len() > 0 {
        let q = placed_at(p, a[0].width, cols);
        let p1 = Loc { col: q.col + a[0].width, row: q.row };
        assert(forall|i: int| 0 <= i < a.drop_first().len() ==> #[trigger] a.drop_first()[i].idx
            == b.drop_first()[i].idx && a.drop_first()[i].width == b.drop_first()[i].width);
        lemma_laid_out_congruence(a.drop_first(), b.drop_first(), p1, cols);
    }
}

/// Laying out an already laid-out sequence from the same pen changes
/// nothing: the walk is a projection.
pub proof fn lemma_laid_out_fixpoint(rs: Seq<Rec>, p: Loc, cols: int)
    ensures
        laid_out(laid_out(rs, p, cols), p, cols) == laid_out(rs, p, cols),
{
    lemma_laid_out_shape(rs, p, cols);
    lemma_laid_out_congruence(laid_out(rs, p, cols), rs, p, cols);
}

/// The walk is compositional: laying out a concatenation is laying out the
/// first part, then the second from where the first ended.
pub proof fn lemma_laid_out_append(a: Seq<Rec>, b: Seq<Rec>, p: Loc, cols: int)
    ensures
        laid_out(a + b, p, cols) == laid_out(a, p, cols) + laid_out(b, end_loc(a, p, cols), cols),
        end_loc(a + b, p, cols) == end_loc(b, end_loc(a, p, cols), cols),
    decreases a.len(),
{
    if a.len() == 0 {
        assert(a + b =~= b);
        assert(Seq::<Rec>::empty() + laid_out(b, p, cols) =~= laid_out(b, p, cols));
    } else {
        let q = placed_at(p, a[0].width, cols);
        let p1 = Loc { col: q.col + a[0].width, row: q.row };
        assert((a + b)[0] == a[0]);
        assert((a + b).drop_first() =~= a.drop_first() + b);
        assert(p1 == loc_after(p, a[0].width, cols));
        lemma_laid_out_append(a.drop_first(), b, p1, cols);
        let head = seq![Rec { idx: a[0].idx, width: a[0].width, loc: q }];
        assert(laid_out(a + b, p, cols) == head + laid_out(a.drop_first() + b, p1, cols));
        assert(head + (laid_out(a.drop_first(), p1, cols) + laid_out(
            b,
            end_loc(a.drop_first(), p1, cols),
            cols,
        )) =~= (head + laid_out(a.drop_first(), p1, cols)) + laid_out(
            b,
            end_loc(a.drop_first(), p1, cols),
            cols,
        ));
        assert(end_loc(a, p, cols) == end_loc(a.drop_first(), p1, cols));
    }
}

/// One step of the walk at the end of a sequence: the new record is
/// placed where the pen ended, and the pen advances past it.
pub proof fn lemma_laid_out_push(rs: Seq<Rec>, x: Rec, p: Loc, cols: int)
    ensures
        laid_out(rs.push(x), p, cols) == laid_out(rs, p, cols).push(
            Rec { idx: x.idx, width: x.width, loc: placed_at(end_loc(rs, p, cols), x.width, cols) },
        ),
        end_loc(rs.push(x), p, cols) == loc_after(end_loc(rs, p, cols), x.width, cols),
{
    let pen = end_loc(rs, p, cols);
    let single = seq![x];
    assert(rs.push(x) =~= rs + single);
    lemma_laid_out_append(rs, single, p, cols);
    assert(single.drop_first() =~= Seq::<Rec>::empty());
    assert(laid_out(single.drop_first(), loc_after(pen, x.width, cols), cols) == Seq::<
        Rec,
    >::empty());
    let placed = Rec { idx: x.idx, width: x.width, loc: placed_at(pen, x.width, cols) };
    assert(laid_out(single, pen, cols) =~= seq![placed]);
    assert(laid_out(rs, p, cols) + seq![placed] =~= laid_out(rs, p, cols).push(placed));
    assert(end_loc(single, pen, cols) == end_loc(
        single.drop_first(),
        loc_after(pen, x.width, cols),
        cols,
    ));
}

/// Bounds and monotonicity of the walk: the pen stays legal, rows grow by
/// at most one per record, every assigned location is on screen with its
/// grapheme fitting before the right edge, and locations are row-major
/// nondecreasing along the sequence.
pub proof fn lemma_walk_bounds(rs: Seq<Rec>, p: Loc, cols: int)
    requires
        widths_ok(rs, cols),
        pen_ok(p, cols),
    ensures
        pen_ok(end_loc(rs, p, cols), cols),
        p.row <= end_loc(rs, p, cols).row <= p.row + rs.len(),
        loc_le(p, end_loc(rs, p, cols)),
        forall|i: int| 0 <= i < rs.len() ==> {
            let r = #[trigger] laid_out(rs, p, cols)[i];
            0 <= r.loc.col && r.loc.col + r.width <= cols && p.row <= r.loc.row <= p.row + i + 1
                && loc_le(p, r.loc) && loc_le(r.loc, end_loc(rs, p, cols))
        },
        forall|i: int, j: int| 0 <= i < j < rs.len() ==> loc_le(
            #[trigger] laid_out(rs, p, cols)[i].loc,
            #[trigger] laid_out(rs, p, cols)[j].loc,
        ),
    decreases rs.len(),
{
    if rs.len() > 0 {
        let w = rs[0].width;
        let q = placed_at(p, w, cols);
        let p1 = Loc { col: q.col + w, row: q.row };
        assert(0 < w <= cols);
        assert(pen_ok(p1, cols));
        assert(forall|i: int| 0 <= i < rs.drop_first().len() ==> 0
            < #[trigger] rs.drop_first()[i].width <= cols);
        lemma_walk_bounds(rs.drop_first(), p1, cols);
        let l = laid_out(rs, p, cols);
        let lt = laid_out(rs.drop_first(), p1, cols);
        lemma_laid_out_shape(rs.drop_first(), p1, cols);
        assert(l == seq![Rec { idx: rs[0].idx, width: w, loc: q }] + lt);
        assert(l[0].loc == q);
        assert(forall|i: int| 1 <= i < rs.len() ==> #[trigger] l[i] == lt[i - 1]);
        assert(end_loc(rs, p, cols) == end_loc(rs.drop_first(), p1, cols));
        assert(loc_le(p, q));
        assert(loc_le(q, p1));
    }
}

/// After a nonempty walk the pen sits just right of the last record.
pub proof fn lemma_end_after_last(rs: Seq<Rec>, p: Loc, cols: int)
    requires
        rs.len() > 0,
    ensures
        end_loc(rs, p, cols) == ({
            let r = laid_out(rs, p, cols).last();
            Loc { col: r.loc.col + r.width, row: r.loc.row }
        }),
    decreases rs.len(),
{
    let q = placed_at(p, rs[0].width, cols);
    let p1 = Loc { col: q.col + rs[0].width, row: q.row };
    let l = laid_out(rs, p, cols);
    if rs.len() == 1 {
        assert(l == seq![Rec { idx: rs[0].idx, width: rs[0].width, loc: q }] + laid_out(
            rs.drop_first(),
            p1,
            cols,
        ));
        assert(rs.drop_first().len() == 0);
        assert(l.last() == Rec { idx: rs[0].idx, width: rs[0].width, loc: q });
        assert(end_loc(rs, p, cols) == end_loc(rs.drop_first(), loc_after(p, rs[0].width, cols), cols));
    } else {
        lemma_end_after_last(rs.drop_first(), p1, cols);
        let lt = laid_out(rs.drop_first(), p1, cols);
        assert(l == seq![Rec { idx: rs[0].idx, width: rs[0].width, loc: q }] + lt);
        assert(lt.len() == rs.drop_first().len()) by {
            lemma_laid_out_shape(rs.drop_first(), p1, cols);
        }
        assert(l.last() == lt.last());
        assert(p1 == loc_after(p, rs[0].width, cols));
    }
}

/// For a sorted sequence, [`lb`] is the unique split point: everything
/// before it is below `x`, everything from it on is at or above `x`.
pub proof fn lemma_lb_props(rs: Seq<Rec>, x: int)
    requires
        idx_sorted(rs),
    ensures
        0 <= lb(rs, x) <= rs.len(),
        forall|k: int| 0 <= k < lb(rs, x) ==> #[trigger] rs[k].idx < x,
        forall|k: int| lb(rs, x) <= k < rs.len() ==> #[trigger] rs[k].idx >= x,
    decreases rs.len(),
{
    if rs.len() > 0 {
        assert(forall|i: int, j: int| 0 <= i < j < rs.drop_first().len() ==> rs.drop_first()[i].idx
            < rs.drop_first()[j].idx);
        lemma_lb_props(rs.drop_first(), x);
        if rs[0].idx < x {
            assert(forall|k: int| 1 <= k < lb(rs, x) ==> rs[k].idx == rs.drop_first()[k - 1].idx);
            assert(forall|k: int| lb(rs, x) <= k < rs.len() ==> rs[k].idx == rs.drop_first()[k
                - 1].idx);
        } else {
            assert(forall|k: int| 0 <= k < rs.len() ==> #[trigger] rs[k].idx >= rs[0].idx);
        }
    }
}

/// Any index that splits a sorted sequence at `x` equals [`lb`].
pub proof fn lemma_lb_unique(rs: Seq<Rec>, x: int, h: int)
    requires
        idx_sorted(rs),
        0 <= h <= rs.len(),
        forall|k: int| 0 <= k < h ==> #[trigger] rs[k].idx < x,
        forall|k: int| h <= k < rs.len() ==> #[trigger] rs[k].idx >= x,
    ensures
        h == lb(rs, x),
{
    lemma_lb_props(rs, x);
    if h < lb(rs, x) {
        assert(rs[h].idx < x);
        assert(rs[h].idx >= x);
    }
    if h > lb(rs, x) {
        assert(rs[lb(rs, x)].idx < x);
        assert(rs[lb(rs, x)].idx >= x);
    }
}


/// A walk started one or more rows lower, at the same column, is a pure
/// row translation: wrap boundaries depend on the column alone, so every
/// assigned location keeps its column and moves down by the same amount.
/// This is why a prompt change that leaves the prompt end's column
/// unchanged amounts to a constant shift of the whole text cache; when
/// the column changes, a wrap boundary can move to a different grapheme
/// and only a re-walk is valid.
pub proof fn lemma_row_translation(rs: Seq<Rec>, p: Loc, d: int, cols: int)
    ensures
        laid_out(rs, Loc { col: p.col, row: p.row + d }, cols).len() == rs.len(),
        forall|i: int| 0 <= i < rs.len() ==> {
            let a = #[trigger] laid_out(rs, p, cols)[i];
            let b = laid_out(rs, Loc { col: p.col, row: p.row + d }, cols)[i];
            b.idx == a.idx && b.width == a.width && b.loc.col == a.loc.col && b.loc.row == a.loc.row
                + d
        },
        end_loc(rs, Loc { col: p.col, row: p.row + d }, cols).col == end_loc(rs, p, cols).col,
        end_loc(rs, Loc { col: p.col, row: p.row + d }, cols).row == end_loc(rs, p, cols).row + d,
    decreases rs.len(),
{
    let p2 = Loc { col: p.col, row: p.row + d };
    if rs.len() > 0 {
        let w = rs[0].width;
        let q1 = placed_at(p, w, cols);
        let q2 = placed_at(p2, w, cols);
        assert(q2.col == q1.col && q2.row == q1.row + d);
        let n1 = Loc { col: q1.col + w, row: q1.row };
        let n2 = Loc { col: q2.col + w, row: q2.row };
        assert(n2 == Loc { col: n1.col, row: n1.row + d });
        lemma_row_translation(rs.drop_first(), n1, d, cols);
        lemma_laid_out_shape(rs.drop_first(), n1, cols);
        let la = laid_out(rs, p, cols);
        let lb2 = laid_out(rs, p2, cols);
        assert(la == seq![Rec { idx: rs[0].idx, width: w, loc: q1 }] + laid_out(
            rs.drop_first(),
            n1,
            cols,
        ));
        assert(lb2 == seq![Rec { idx: rs[0].idx, width: w, loc: q2 }] + laid_out(
            rs.drop_first(),
            n2,
            cols,
        ));
        assert forall|i: int| 0 <= i < rs.len() implies {
            let a = #[trigger] la[i];
            let b = lb2[i];
            b.idx == a.idx && b.width == a.width && b.loc.col == a.loc.col && b.loc.row == a.loc.row
                + d
        } by {
            if i > 0 {
                assert(la[i] == laid_out(rs.drop_first(), n1, cols)[i - 1]);
                assert(lb2[i] == laid_out(rs.drop_first(), n2, cols)[i - 1]);
            }
        }
        assert(end_loc(rs, p, cols) == end_loc(rs.drop_first(), loc_after(p, w, cols), cols));
        assert(end_loc(rs, p2, cols) == end_loc(rs.drop_first(), loc_after(p2, w, cols), cols));
        assert(loc_after(p, w, cols) == n1);
        assert(loc_after(p2, w, cols) == n2);
    }
}

} // verus!

