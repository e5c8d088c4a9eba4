//! The layout cache: ordered entries mapping byte offsets to screen
//! positions, with incremental update, resize and prompt-change paths and
//! the cursor query API.
//!
//! The central invariant ([`LayoutCache::wf`]) is that both entry
//! sequences are exactly the fresh layout ([`laid_out`]) of their own
//! offsets and widths from their start pen.  Every mutation re-establishes
//! it, which makes each incremental path provably equal to a full relayout
//! of the resulting content.

use vstd::prelude::*;
use vstd::string::StringSliceAdditionalSpecFns;

use crate::model::{
    end_loc, idx_sorted, laid_out, lb, lemma_end_after_last, lemma_end_loc_widths,
    lemma_laid_out_append, lemma_laid_out_congruence, lemma_laid_out_fixpoint, lemma_laid_out_push,
    lemma_laid_out_shape, lemma_lb_props, lemma_lb_unique, lemma_walk_bounds, loc_after,
    pair_recs, pen_ok, placed_at, shift_idx, widths_ok, Rec,
};
use crate::pos::{loc_le, origin, Loc, Position};
use crate::seg::{segment, visible_of};

verus! {

/// Layout cache entry: a cached (offset, width, screen position) record
/// for one positive-width grapheme cluster.
#[derive(Copy, Clone, Debug, PartialEq, Eq, Structural)]
pub struct Entry {
    /// Byte offset of the grapheme cluster's start.
    pub idx: usize,
    /// Rendered column width of the grapheme cluster; never zero, since
    /// zero-width clusters do not affect layout and are not stored.
    pub width: usize,
    /// Screen position of the grapheme's first cell.
    pub pos: Position,
}

impl View for Entry {
    type V = Rec;

    open spec fn view(&self) -> Rec {
        Rec { idx: self.idx as int, width: self.width as int, loc: self.pos@ }
    }
}

impl Entry {
    /// A new entry with a placeholder screen position; a layout walk
    /// assigns the real one.  Zero-width graphemes do not impact layout
    /// and are never stored, so the width must be positive.
    pub fn new(idx: usize, width: usize) -> (r: Entry)
        requires
            width > 0,
        ensures
            r.idx == idx,
            r.width == width,
            r.pos == (Position { col: 0, row: 0 }),
    {
        Entry { idx, width, pos: Position { col: 0, row: 0 } }
    }
}

/// The specification records of a sequence of entries.
pub open spec fn recs(v: Seq<Entry>) -> Seq<Rec> {
    v.map_values(|e: Entry| e@)
}

/// The later of two screen locations in row-major order.
pub open spec fn loc_max(a: Loc, b: Loc) -> Loc {
    if loc_le(a, b) {
        b
    } else {
        a
    }
}

/// The earlier of two screen locations in row-major order.
pub open spec fn loc_min(a: Loc, b: Loc) -> Loc {
    if loc_le(a, b) {
        a
    } else {
        b
    }
}

/// The screen rectangle impacted by an edit: every position that changed
/// lies between `begin` and `end` in row-major order.
#[derive(Copy, Clone, Debug, PartialEq, Eq, Structural)]
pub struct Span {
    /// Row-major lower bound of the impacted region.
    pub begin: Position,
    /// Row-major upper bound of the impacted region.
    pub end: Position,
}

/// Layout cache.
pub struct LayoutCache {
    /// Current prompt, sorted ascending by `idx`.
    pub prompt: Vec<Entry>,
    /// Edited text, sorted ascending by `idx`.
    pub text: Vec<Entry>,
    /// Number of columns in the terminal screen; 0 means unknown, and
    /// nothing can be laid out or painted.
    pub columns: usize,
    /// Width used when expanding tabs, consumed by the width capability.
    pub tab_stop: usize,
    /// `true` when `text` lags behind the true buffer and must be rebuilt
    /// (via [`LayoutCache::rebuild_text`]) before its next use.
    pub dirty: bool,
}

impl LayoutCache {
    /// The specification records of the prompt entries.
    pub open spec fn prompt_recs(self) -> Seq<Rec> {
        recs(self.prompt@)
    }

    /// The specification records of the text entries.
    pub open spec fn text_recs(self) -> Seq<Rec> {
        recs(self.text@)
    }

    /// The terminal width as an integer.
    pub open spec fn cols(self) -> int {
        self.columns as int
    }

    /// The pen location immediately after the prompt: where text layout
    /// starts.
    pub open spec fn prompt_end(self) -> Loc {
        end_loc(self.prompt_recs(), origin(), self.cols())
    }

    /// Well-formedness: both sequences are sorted by offset, hold only
    /// positive widths that fit on a row, and are exactly the fresh layout
    /// of their own content — the prompt from the origin, the text from
    /// the prompt's end.  With no known width nothing is stored, and the
    /// total entry count leaves room for row arithmetic.
    pub open spec fn wf(self) -> bool {
        &&& idx_sorted(self.prompt_recs())
        &&& widths_ok(self.prompt_recs(), self.cols())
        &&& self.prompt_recs() == laid_out(self.prompt_recs(), origin(), self.cols())
        &&& idx_sorted(self.text_recs())
        &&& widths_ok(self.text_recs(), self.cols())
        &&& self.text_recs() == laid_out(self.text_recs(), self.prompt_end(), self.cols())
        &&& (self.columns == 0 ==> self.prompt@.len() == 0 && self.text@.len() == 0)
        &&& self.prompt@.len() + self.text@.len() < usize::MAX
    }

    /// Creates an empty cache with an unknown terminal width.
    pub fn new(tab_stop: usize) -> (r: LayoutCache)
        ensures
            r.wf(),
            r.prompt@.len() == 0,
            r.text@.len() == 0,
            r.columns == 0,
            r.tab_stop == tab_stop,
            !r.dirty,
    {
        let r = LayoutCache {
            prompt: Vec::new(),
            text: Vec::new(),
            columns: 0,
            tab_stop,
            dirty: false,
        };
        proof {
            assert(r.prompt_recs() =~= Seq::<Rec>::empty());
            assert(r.text_recs() =~= Seq::<Rec>::empty());
        }
        r
    }
}

/// One step of the wrap-aware walk: where a grapheme of width `w` is
/// placed when the pen is at `p`, wrapping wholly to the next row when it
/// would not fit before the right edge.
fn place(p: Position, w: usize, columns: usize) -> (q: Position)
    requires
        0 < w <= columns,
        p.col <= columns,
        p.row < usize::MAX,
    ensures
        q@ == placed_at(p@, w as int, columns as int),
        q.col + w <= columns,
        q.row <= p.row + 1,
{
    if w > columns - p.col {
        Position { col: 0, row: p.row + 1 }
    } else {
        p
    }
}

/// Lays out the (offset, width) pairs of `pairs`, offsets rebased by
/// `base`, walking from `start`, and appends the resulting entries to
/// `dst`.  Returns the pen location after the last new entry.
#[verifier::loop_isolation(false)]
fn extend_pairs(
    dst: &mut Vec<Entry>,
    pairs: &Vec<(usize, usize)>,
    base: usize,
    start: Position,
    columns: usize,
) -> (end: Position)
    requires
        columns > 0,
        forall|k: int| 0 <= k < pairs@.len() ==> 0 < (#[trigger] pairs@[k]).1 <= columns,
        forall|k: int| 0 <= k < pairs@.len() ==> base + (#[trigger] pairs@[k]).0 <= usize::MAX,
        pen_ok(start@, columns as int),
        start@.row + pairs@.len() <= usize::MAX,
    ensures
        recs(final(dst)@) == recs(old(dst)@) + laid_out(
            pair_recs(pairs@, base as int),
            start@,
            columns as int,
        ),
        end@ == end_loc(pair_recs(pairs@, base as int), start@, columns as int),
        final(dst)@.len() == old(dst)@.len() + pairs@.len(),
        pen_ok(end@, columns as int),
        end@.row <= start@.row + pairs@.len(),
{
    let ghost prs = pair_recs(pairs@, base as int);
    let ghost cols = columns as int;
    let mut p = start;
    let mut i: usize = 0;
    proof {
        assert(prs.take(0) =~= Seq::<Rec>::empty());
        assert(recs(dst@) =~= recs(dst@) + laid_out(prs.take(0), start@, cols));
    }
    while i < pairs.len()
        invariant
            0 <= i <= pairs@.len(),
            recs(dst@) == recs(old(dst)@) + laid_out(prs.take(i as int), start@, cols),
            p@ == end_loc(prs.take(i as int), start@, cols),
            dst@.len() == old(dst)@.len() + i,
            pen_ok(p@, cols),
            p@.row <= start@.row + i,
        decreases pairs@.len() - i,
    {
        let off = pairs[i].0;
        let w = pairs[i].1;
        let q = place(p, w, columns);
        let new_idx = base + off;
        let ghost pre = dst@;
        let e = Entry { idx: new_idx, width: w, pos: q };
        dst.push(e);
        let p_next = Position { col: q.col + w, row: q.row };
        proof {
            let pen = end_loc(prs.take(i as int), start@, cols);
            assert(prs[i as int] == Rec {
                idx: base + pairs@[i as int].0,
                width: pairs@[i as int].1 as int,
                loc: origin(),
            });
            assert(prs.take(i + 1) =~= prs.take(i as int).push(prs[i as int]));
            lemma_laid_out_push(prs.take(i as int), prs[i as int], start@, cols);
            let placed = Rec {
                idx: prs[i as int].idx,
                width: prs[i as int].width,
                loc: placed_at(pen, prs[i as int].width, cols),
            };
            assert(q@ == placed_at(pen, prs[i as int].width, cols));
            assert(e@ == placed);
            assert(p_next@ == loc_after(pen, prs[i as int].width, cols));
            assert(dst@ == pre.push(e));
            assert(recs(pre.push(e)) =~= recs(pre).push(placed));
            assert(recs(old(dst)@) + laid_out(prs.take(i as int), start@, cols).push(placed)
                =~= (recs(old(dst)@) + laid_out(prs.take(i as int), start@, cols)).push(placed));
            assert(laid_out(prs.take(i + 1), start@, cols) == laid_out(
                prs.take(i as int),
                start@,
                cols,
            ).push(placed));
            assert(recs(dst@) == recs(old(dst)@) + laid_out(prs.take(i + 1), start@, cols));
        }
        p = p_next;
        i = i + 1;
    }
    proof {
        assert(prs.take(pairs@.len() as int) =~= prs);
    }
    p
}

/// Re-lays the entries of `src`, each offset moved by `amount` (to the
/// right when `plus`, else to the left), walking from `start`, and appends
/// the resulting entries to `dst`.  Returns the pen location after the
/// last entry.
#[verifier::loop_isolation(false)]
fn extend_shifted(
    dst: &mut Vec<Entry>,
    src: &Vec<Entry>,
    amount: usize,
    plus: bool,
    start: Position,
    columns: usize,
) -> (end: Position)
    requires
        columns > 0,
        forall|k: int| 0 <= k < src@.len() ==> 0 < (#[trigger] src@[k]).width <= columns,
        plus ==> forall|k: int| 0 <= k < src@.len() ==> (#[trigger] src@[k]).idx + amount
            <= usize::MAX,
        !plus ==> forall|k: int| 0 <= k < src@.len() ==> amount <= (#[trigger] src@[k]).idx,
        pen_ok(start@, columns as int),
        start@.row + src@.len() <= usize::MAX,
    ensures
        recs(final(dst)@) == recs(old(dst)@) + laid_out(
            shift_idx(recs(src@), if plus { amount as int } else { -(amount as int) }),
            start@,
            columns as int,
        ),
        end@ == end_loc(
            shift_idx(recs(src@), if plus { amount as int } else { -(amount as int) }),
            start@,
            columns as int,
        ),
        final(dst)@.len() == old(dst)@.len() + src@.len(),
        pen_ok(end@, columns as int),
        end@.row <= start@.row + src@.len(),
{
    let ghost d: int = if plus { amount as int } else { -(amount as int) };
    let ghost srs = shift_idx(recs(src@), d);
    let ghost cols = columns as int;
    let mut p = start;
    let mut i: usize = 0;
    proof {
        assert(srs.take(0) =~= Seq::<Rec>::empty());
        assert(recs(dst@) =~= recs(dst@) + laid_out(srs.take(0), start@, cols));
    }
    while i < src.len()
        invariant
            0 <= i <= src@.len(),
            recs(dst@) == recs(old(dst)@) + laid_out(srs.take(i as int), start@, cols),
            p@ == end_loc(srs.take(i as int), start@, cols),
            dst@.len() == old(dst)@.len() + i,
            pen_ok(p@, cols),
            p@.row <= start@.row + i,
        decreases src@.len() - i,
    {
        let e = src[i];
        let w = e.width;
        let q = place(p, w, columns);
        let new_idx = if plus {
            e.idx + amount
        } else {
            e.idx - amount
        };
        let ghost pre = dst@;
        let ne = Entry { idx: new_idx, width: w, pos: q };
        dst.push(ne);
        let p_next = Position { col: q.col + w, row: q.row };
        proof {
            let pen = end_loc(srs.take(i as int), start@, cols);
            assert(srs[i as int] == Rec {
                idx: src@[i as int]@.idx + d,
                width: src@[i as int]@.width,
                loc: src@[i as int]@.loc,
            });
            assert(new_idx as int == srs[i as int].idx);
            assert(srs.take(i + 1) =~= srs.take(i as int).push(srs[i as int]));
            lemma_laid_out_push(srs.take(i as int), srs[i as int], start@, cols);
            let placed = Rec {
                idx: srs[i as int].idx,
                width: srs[i as int].width,
                loc: placed_at(pen, srs[i as int].width, cols),
            };
            assert(q@ == placed_at(pen, srs[i as int].width, cols));
            assert(ne@ == placed);
            assert(p_next@ == loc_after(pen, srs[i as int].width, cols));
            assert(dst@ == pre.push(ne));
            assert(recs(pre.push(ne)) =~= recs(pre).push(placed));
            assert(recs(old(dst)@) + laid_out(srs.take(i as int), start@, cols).push(placed)
                =~= (recs(old(dst)@) + laid_out(srs.take(i as int), start@, cols)).push(placed));
            assert(laid_out(srs.take(i + 1), start@, cols) == laid_out(
                srs.take(i as int),
                start@,
                cols,
            ).push(placed));
            assert(recs(dst@) == recs(old(dst)@) + laid_out(srs.take(i + 1), start@, cols));
        }
        p = p_next;
        i = i + 1;
    }
    proof {
        assert(srs.take(src@.len() as int) =~= srs);
    }
    p
}

/// True iff every entry width is positive and fits on one row of
/// `columns`.
#[verifier::loop_isolation(false)]
fn widths_fit(v: &Vec<Entry>, columns: usize) -> (r: bool)
    ensures
        r == widths_ok(recs(v@), columns as int),
{
    let mut i: usize = 0;
    while i < v.len()
        invariant
            0 <= i <= v@.len(),
            forall|k: int| 0 <= k < i ==> 0 < (#[trigger] recs(v@)[k]).width <= columns,
        decreases v@.len() - i,
    {
        let w = v[i].width;
        if w == 0 || w > columns {
            proof {
                assert(!(0 < recs(v@)[i as int].width <= columns));
            }
            return false;
        }
        i = i + 1;
    }
    true
}

/// True iff the two entry sequences are identical.
#[verifier::loop_isolation(false)]
fn vec_eq(a: &Vec<Entry>, b: &Vec<Entry>) -> (r: bool)
    ensures
        r == (a@ =~= b@),
{
    if a.len() != b.len() {
        return false;
    }
    let mut i: usize = 0;
    while i < a.len()
        invariant
            0 <= i <= a@.len(),
            a@.len() == b@.len(),
            forall|k: int| 0 <= k < i ==> a@[k] == b@[k],
        decreases a@.len() - i,
    {
        let ea = a[i];
        let eb = b[i];
        if !(ea.idx == eb.idx && ea.width == eb.width && ea.pos.col == eb.pos.col && ea.pos.row
            == eb.pos.row) {
            return false;
        }
        i = i + 1;
    }
    true
}

/// True iff every width in the (offset, width) pairs fits on one row.
#[verifier::loop_isolation(false)]
fn pairs_fit(pairs: &Vec<(usize, usize)>, columns: usize) -> (r: bool)
    ensures
        r == (forall|k: int| 0 <= k < pairs@.len() ==> (#[trigger] pairs@[k]).1 <= columns),
{
    let mut i: usize = 0;
    while i < pairs.len()
        invariant
            0 <= i <= pairs@.len(),
            forall|k: int| 0 <= k < i ==> (#[trigger] pairs@[k]).1 <= columns,
        decreases pairs@.len() - i,
    {
        if pairs[i].1 > columns {
            return false;
        }
        i = i + 1;
    }
    true
}

/// Finds the insertion point of `key` among the entry offsets: the first
/// index whose entry offset is at or above `key`.
#[verifier::loop_isolation(false)]
fn lower_bound(v: &Vec<Entry>, key: usize) -> (h: usize)
    requires
        idx_sorted(recs(v@)),
    ensures
        h == lb(recs(v@), key as int),
        h <= v@.len(),
{
    let ghost rs = recs(v@);
    let mut lo: usize = 0;
    let mut hi: usize = v.len();
    while lo < hi
        invariant
            0 <= lo <= hi <= v@.len(),
            forall|k: int| 0 <= k < lo ==> (#[trigger] rs[k]).idx < key,
            forall|k: int| hi <= k < v@.len() ==> (#[trigger] rs[k]).idx >= key,
        decreases hi - lo,
    {
        let mid = lo + (hi - lo) / 2;
        if v[mid].idx < key {
            proof {
                assert forall|k: int| 0 <= k < mid + 1 implies (#[trigger] rs[k]).idx < key by {
                    if k < mid {
                        assert(rs[k].idx < rs[mid as int].idx);
                    }
                }
            }
            lo = mid + 1;
        } else {
            proof {
                assert forall|k: int| mid <= k < v@.len() implies (#[trigger] rs[k]).idx
                    >= key by {
                    if k > mid {
                        assert(rs[mid as int].idx < rs[k].idx);
                    }
                }
            }
            hi = mid;
        }
    }
    proof {
        lemma_lb_unique(rs, key as int, lo as int);
    }
    lo
}

impl LayoutCache {
    /// The position immediately after `e` on screen: one past the
    /// grapheme's last cell, on the same row.  A well-laid-out entry never
    /// crosses the right edge, so the result column stays within the
    /// terminal width.
    fn shift_entry(&self, e: &Entry) -> (r: Position)
        requires
            e.width > 0 ==> e.pos.col + e.width <= self.columns,
        ensures
            e.width > 0 ==> r@ == (Loc { col: e@.loc.col + e@.width, row: e@.loc.row }),
            e.width == 0 ==> r == e.pos,
    {
        if e.width == 0 {
            return e.pos;
        }
        Position { col: e.pos.col + e.width, row: e.pos.row }
    }

    /// The position immediately following the prompt's last entry, or the
    /// screen origin if the prompt is empty: where the text begins.
    pub fn prompt_size(&self) -> (r: Position)
        requires
            self.wf(),
        ensures
            r@ == self.prompt_end(),
    {
        if self.prompt.len() == 0 {
            proof {
                assert(self.prompt_recs() =~= Seq::<Rec>::empty());
            }
            Position { col: 0, row: 0 }
        } else {
            let e = self.prompt[self.prompt.len() - 1];
            proof {
                lemma_walk_bounds(self.prompt_recs(), origin(), self.cols());
                lemma_end_after_last(self.prompt_recs(), origin(), self.cols());
                assert(self.prompt_recs().last() == recs(self.prompt@)[self.prompt@.len() - 1]);
            }
            self.shift_entry(&e)
        }
    }

    /// The screen location the cursor at text byte offset `cursor` maps
    /// to, per the stored entries.
    pub open spec fn cursor_loc(self, cursor: int) -> Loc {
        let ts = self.text_recs();
        if ts.len() == 0 || cursor == 0 {
            self.prompt_end()
        } else {
            let i = lb(ts, cursor);
            if i < ts.len() && ts[i].idx == cursor {
                ts[i].loc
            } else if i == 0 {
                origin()
            } else if i == ts.len() {
                Loc { col: ts.last().loc.col + ts.last().width, row: ts.last().loc.row }
            } else {
                ts[i].loc
            }
        }
    }

    /// Computes the cursor position for text byte offset `cursor`.
    ///
    /// With no text, or at offset 0, the cursor sits at the prompt's end.
    /// At a stored offset it sits just before that grapheme's rendering;
    /// past the last entry it sits just after the last grapheme; at an
    /// unstored offset (inside or just before a zero-width run) it sits at
    /// the next stored entry, or at the origin before the first one.
    pub fn cursor_position(&self, cursor: usize) -> (r: Position)
        requires
            self.wf(),
        ensures
            r@ == self.cursor_loc(cursor as int),
    {
        if self.text.len() == 0 || cursor == 0 {
            self.prompt_size()
        } else {
            let i = lower_bound(&self.text, cursor);
            proof {
                lemma_walk_bounds(self.prompt_recs(), origin(), self.cols());
                lemma_walk_bounds(self.text_recs(), self.prompt_end(), self.cols());
            }
            if i < self.text.len() && self.text[i].idx == cursor {
                self.text[i].pos
            } else if i == 0 {
                Position { col: 0, row: 0 }
            } else if i == self.text.len() {
                let e = self.text[self.text.len() - 1];
                proof {
                    lemma_end_after_last(self.text_recs(), self.prompt_end(), self.cols());
                    assert(self.text_recs().last() == recs(self.text@)[self.text@.len() - 1]);
                }
                self.shift_entry(&e)
            } else {
                self.text[i].pos
            }
        }
    }
}


impl LayoutCache {
    /// True iff every stored entry still fits on one row of a terminal
    /// `c2` columns wide, and `c2` is a paintable width.
    pub open spec fn resize_fits(self, c2: int) -> bool {
        &&& c2 > 0
        &&& widths_ok(self.prompt_recs(), c2)
        &&& widths_ok(self.text_recs(), c2)
    }

    /// Handles a terminal resize.  A call with an unchanged width performs
    /// no work and reports no repaint; with a new width every stored entry
    /// — prompt, then text, in offset order — is relaid out from scratch,
    /// because wrap boundaries are a modulo function of the width and
    /// cannot be derived by constant-shift propagation.  Returns whether
    /// any resulting position differs from before, which obligates the
    /// caller to repaint fully.  If some stored grapheme is wider than the
    /// new terminal (or the width is 0), nothing can be laid out: the
    /// cache empties itself and marks the text stale.
    #[verifier::rlimit(50)]
    pub fn window_resized(&mut self, columns: usize, _rows: usize) -> (r: bool)
        requires
            old(self).wf(),
        ensures
            final(self).wf(),
            final(self).tab_stop == old(self).tab_stop,
            old(self).columns == columns ==> final(self).prompt@ == old(self).prompt@ && final(self).text@ == old(self).text@ && final(self).columns == old(self).columns && final(self).dirty == old(self).dirty && r == false,
            old(self).columns != columns ==> final(self).columns == columns,
            old(self).columns != columns && old(self).resize_fits(columns as int) ==> {
                &&& final(self).prompt_recs() == laid_out(
                    old(self).prompt_recs(),
                    origin(),
                    columns as int,
                )
                &&& final(self).text_recs() == laid_out(
                    old(self).text_recs(),
                    end_loc(old(self).prompt_recs(), origin(), columns as int),
                    columns as int,
                )
                &&& final(self).dirty == old(self).dirty
                &&& r == !(final(self).prompt@ == old(self).prompt@ && final(self).text@ == old(self).text@)
            },
            old(self).columns != columns && !old(self).resize_fits(columns as int) ==> {
                &&& final(self).prompt@.len() == 0
                &&& final(self).text@.len() == 0
                &&& final(self).dirty
                &&& r == (old(self).prompt@.len() > 0 || old(self).text@.len() > 0)
            },
    {
        if self.columns == columns {
            return false;
        }
        if columns == 0 || !widths_fit(&self.prompt, columns) || !widths_fit(
            &self.text,
            columns,
        ) {
            let had = self.prompt.len() > 0 || self.text.len() > 0;
            self.prompt = Vec::new();
            self.text = Vec::new();
            self.columns = columns;
            self.dirty = true;
            proof {
                assert(self.prompt_recs() =~= Seq::<Rec>::empty());
                assert(self.text_recs() =~= Seq::<Rec>::empty());
            }
            return had;
        }
        let ghost c2 = columns as int;
        let ghost rs_p = recs(self.prompt@);
        let ghost rs_t = recs(self.text@);
        proof {
            assert forall|k: int| 0 <= k < self.prompt@.len() implies 0 < (
            #[trigger] self.prompt@[k]).width <= columns by {
                assert(rs_p[k].width == self.prompt@[k].width as int);
            }
            assert forall|k: int| 0 <= k < self.text@.len() implies 0 < (
            #[trigger] self.text@[k]).width <= columns by {
                assert(rs_t[k].width == self.text@[k].width as int);
            }
        }
        let mut new_prompt: Vec<Entry> = Vec::new();
        let pend = extend_shifted(
            &mut new_prompt,
            &self.prompt,
            0,
            true,
            Position { col: 0, row: 0 },
            columns,
        );
        proof {
            assert(shift_idx(rs_p, 0) =~= rs_p);
            assert(recs(new_prompt@) =~= laid_out(rs_p, origin(), c2));
            lemma_walk_bounds(rs_p, origin(), c2);
        }
        let ghost np = recs(new_prompt@);
        let mut new_text: Vec<Entry> = Vec::new();
        let _tend = extend_shifted(&mut new_text, &self.text, 0, true, pend, columns);
        proof {
            assert(shift_idx(rs_t, 0) =~= rs_t);
            assert(recs(new_text@) =~= laid_out(rs_t, pend@, c2));
        }
        let ghost nt = recs(new_text@);
        let changed = !(vec_eq(&new_prompt, &self.prompt) && vec_eq(&new_text, &self.text));
        self.prompt = new_prompt;
        self.text = new_text;
        self.columns = columns;
        proof {
            assert(self.prompt_recs() == np);
            assert(self.text_recs() == nt);
            assert(np == laid_out(rs_p, origin(), c2));
            assert(nt == laid_out(rs_t, pend@, c2));
            lemma_laid_out_shape(rs_p, origin(), c2);
            lemma_laid_out_shape(rs_t, pend@, c2);
            lemma_laid_out_fixpoint(rs_p, origin(), c2);
            lemma_laid_out_fixpoint(rs_t, pend@, c2);
            assert forall|i: int| 0 <= i < self.prompt_recs().len() implies
                #[trigger] self.prompt_recs()[i].width == rs_p[i].width by {
                assert(self.prompt_recs()[i] == laid_out(rs_p, origin(), c2)[i]);
                assert(laid_out(rs_p, origin(), c2)[i].idx == rs_p[i].idx);
            }
            lemma_end_loc_widths(self.prompt_recs(), rs_p, origin(), c2);
            assert(self.prompt_end() == pend@);
        }
        changed
    }

    /// True iff the visible graphemes of a new prompt `s` can be stored:
    /// every width fits on a row and the entry counts stay in range.
    pub open spec fn prompt_fits(self, s: Seq<char>) -> bool {
        &&& (forall|k: int| 0 <= k < visible_of(s).len() ==> (#[trigger] visible_of(s)[k]).1
            <= self.cols())
        &&& visible_of(s).len() + self.text@.len() < usize::MAX
    }

    /// Rebuilds the prompt from the new prompt string and re-lays the text
    /// from the prompt's new end.  Since the text begins immediately after
    /// the prompt, the result equals discarding and rebuilding the text
    /// cache from the new origin, which is what the contract states.
    /// Returns whether anything on screen changed, obligating a repaint.
    #[verifier::rlimit(50)]
    pub fn prompt_updated(&mut self, prompt: String) -> (r: bool)
        requires
            old(self).wf(),
        ensures
            final(self).wf(),
            final(self).columns == old(self).columns,
            final(self).tab_stop == old(self).tab_stop,
            old(self).columns == 0 ==> final(self).prompt@ == old(self).prompt@ && final(self).text@ == old(self).text@ && final(self).dirty == old(self).dirty && r == false,
            old(self).columns > 0 && old(self).prompt_fits(prompt@) ==> {
                &&& final(self).prompt_recs() == laid_out(
                    pair_recs(visible_of(prompt@), 0),
                    origin(),
                    old(self).cols(),
                )
                &&& final(self).text_recs() == laid_out(
                    old(self).text_recs(),
                    final(self).prompt_end(),
                    old(self).cols(),
                )
                &&& final(self).dirty == old(self).dirty
                &&& r == !(final(self).prompt@ == old(self).prompt@ && final(self).text@ == old(self).text@)
            },
            old(self).columns > 0 && !old(self).prompt_fits(prompt@) ==> {
                &&& final(self).prompt@.len() == 0
                &&& final(self).text@.len() == 0
                &&& final(self).dirty
                &&& r == true
            },
    {
        if self.columns == 0 {
            return false;
        }
        let pairs = segment(prompt.as_str());
        let fits = pairs_fit(&pairs, self.columns) && pairs.len() < usize::MAX - self.text.len();
        if !fits {
            self.prompt = Vec::new();
            self.text = Vec::new();
            self.dirty = true;
            proof {
                assert(self.prompt_recs() =~= Seq::<Rec>::empty());
                assert(self.text_recs() =~= Seq::<Rec>::empty());
            }
            return true;
        }
        let ghost c = self.cols();
        let ghost prs = pair_recs(visible_of(prompt@), 0);
        let ghost rs_t = recs(self.text@);
        proof {
            assert forall|k: int| 0 <= k < self.text@.len() implies 0 < (
            #[trigger] self.text@[k]).width <= self.columns by {
                assert(rs_t[k].width == self.text@[k].width as int);
            }
        }
        let mut new_prompt: Vec<Entry> = Vec::new();
        let pend = extend_pairs(&mut new_prompt, &pairs, 0, Position { col: 0, row: 0 }, self.columns);
        proof {
            assert(recs(new_prompt@) =~= laid_out(prs, origin(), c));
            lemma_laid_out_shape(prs, origin(), c);
        }
        let mut new_text: Vec<Entry> = Vec::new();
        let _tend = extend_shifted(&mut new_text, &self.text, 0, true, pend, self.columns);
        proof {
            assert(shift_idx(rs_t, 0) =~= rs_t);
            assert(recs(new_text@) =~= laid_out(rs_t, pend@, c));
        }
        let changed = !(vec_eq(&new_prompt, &self.prompt) && vec_eq(&new_text, &self.text));
        self.prompt = new_prompt;
        self.text = new_text;
        proof {
            lemma_laid_out_shape(rs_t, pend@, c);
            lemma_laid_out_fixpoint(prs, origin(), c);
            lemma_laid_out_fixpoint(rs_t, pend@, c);
            assert forall|i: int| 0 <= i < self.prompt_recs().len() implies
                #[trigger] self.prompt_recs()[i].width == prs[i].width by {
                assert(self.prompt_recs()[i] == laid_out(prs, origin(), c)[i]);
                assert(laid_out(prs, origin(), c)[i].idx == prs[i].idx);
            }
            lemma_end_loc_widths(self.prompt_recs(), prs, origin(), c);
            assert(self.prompt_end() == pend@);
            assert forall|i: int, j: int| 0 <= i < j < self.prompt_recs().len() implies self
                .prompt_recs()[i].idx < self.prompt_recs()[j].idx by {
                assert(self.prompt_recs()[i].idx == prs[i].idx);
                assert(self.prompt_recs()[j].idx == prs[j].idx);
                assert(visible_of(prompt@)[i].0 < visible_of(prompt@)[j].0);
            }
        }
        changed
    }

    /// True iff the visible graphemes of a text buffer `s` can be stored.
    pub open spec fn text_fits(self, s: Seq<char>) -> bool {
        &&& (forall|k: int| 0 <= k < visible_of(s).len() ==> (#[trigger] visible_of(s)[k]).1
            <= self.cols())
        &&& self.prompt@.len() + visible_of(s).len() < usize::MAX
    }

    /// Rebuilds the text cache from scratch out of the full buffer
    /// contents, laying its visible graphemes out from the prompt's end,
    /// and clears the dirty flag.  This is the full-recompute path that a
    /// stale cache takes before its next use, and the oracle the
    /// incremental edit paths are measured against.
    pub fn rebuild_text(&mut self, text: &str)
        requires
            old(self).wf(),
        ensures
            final(self).wf(),
            final(self).prompt@ == old(self).prompt@,
            final(self).columns == old(self).columns,
            final(self).tab_stop == old(self).tab_stop,
            old(self).columns == 0 ==> final(self).text@.len() == 0 && !final(self).dirty,
            old(self).columns > 0 && old(self).text_fits(text@) ==> final(self).text_recs()
                == laid_out(
                pair_recs(visible_of(text@), 0),
                old(self).prompt_end(),
                old(self).cols(),
            ) && !final(self).dirty,
            old(self).columns > 0 && !old(self).text_fits(text@) ==> final(self).text@.len() == 0
                && final(self).dirty,
    {
        if self.columns == 0 {
            self.dirty = false;
            return ;
        }
        let pairs = segment(text);
        let fits = pairs_fit(&pairs, self.columns) && pairs.len() < usize::MAX - self.prompt.len();
        if !fits {
            self.text = Vec::new();
            self.dirty = true;
            proof {
                assert(self.text_recs() =~= Seq::<Rec>::empty());
            }
            return ;
        }
        let ghost c = self.cols();
        let ghost prs = pair_recs(visible_of(text@), 0);
        let start = self.prompt_size();
        proof {
            lemma_walk_bounds(self.prompt_recs(), origin(), c);
        }
        let mut new_text: Vec<Entry> = Vec::new();
        let _tend = extend_pairs(&mut new_text, &pairs, 0, start, self.columns);
        proof {
            assert(recs(new_text@) =~= laid_out(prs, start@, c));
        }
        self.text = new_text;
        self.dirty = false;
        proof {
            lemma_laid_out_shape(prs, start@, c);
            lemma_laid_out_fixpoint(prs, start@, c);
            assert forall|i: int, j: int| 0 <= i < j < self.text_recs().len() implies self
                .text_recs()[i].idx < self.text_recs()[j].idx by {
                assert(self.text_recs()[i].idx == prs[i].idx);
                assert(self.text_recs()[j].idx == prs[j].idx);
                assert(visible_of(text@)[i].0 < visible_of(text@)[j].0);
            }
        }
    }

    /// Marks the text cache stale without paying relayout cost; the next
    /// [`LayoutCache::rebuild_text`] call brings it up to date.
    pub fn invalidate_text(&mut self)
        requires
            old(self).wf(),
        ensures
            final(self).wf(),
            final(self).prompt@ == old(self).prompt@,
            final(self).text@ == old(self).text@,
            final(self).columns == old(self).columns,
            final(self).tab_stop == old(self).tab_stop,
            final(self).dirty,
    {
        self.dirty = true;
    }

    /// True iff the text cache lags behind the true buffer.
    pub fn is_dirty(&self) -> (r: bool)
        ensures
            r == self.dirty,
    {
        self.dirty
    }
}


/// The later of two positions in row-major order.
fn pos_max(a: Position, b: Position) -> (r: Position)
    ensures
        r@ == loc_max(a@, b@),
{
    if a.row < b.row || (a.row == b.row && a.col <= b.col) {
        b
    } else {
        a
    }
}

/// The earlier of two positions in row-major order.
fn pos_min(a: Position, b: Position) -> (r: Position)
    ensures
        r@ == loc_min(a@, b@),
{
    if a.row < b.row || (a.row == b.row && a.col <= b.col) {
        a
    } else {
        b
    }
}

/// The record content of the text after inserting the visible graphemes
/// `ps` of a string at byte offset `idx`, the tail moved right by the
/// string's byte length `n`: entries below `idx` are untouched, the new
/// entries sit at `idx` plus their offset within the string, and every
/// later entry's offset grows by `n`.
pub open spec fn ins_model(ts: Seq<Rec>, idx: int, ps: Seq<(usize, usize)>, n: int) -> Seq<Rec> {
    ts.take(lb(ts, idx)) + pair_recs(ps, idx) + shift_idx(ts.skip(lb(ts, idx)), n)
}

/// The record content of the text after deleting `n` bytes at byte offset
/// `idx`: entries in `idx..idx + n` disappear and every later entry's
/// offset shrinks by `n`.
pub open spec fn del_model(ts: Seq<Rec>, idx: int, n: int) -> Seq<Rec> {
    ts.take(lb(ts, idx)) + shift_idx(ts.skip(lb(ts, idx + n)), -n)
}

/// When an insert at `idx` of a string with byte length `n` and visible
/// graphemes of `s` can be performed on a text cache: the terminal is
/// paintable, every new grapheme fits on a row, and the offset and entry
/// counts stay within machine range.
pub open spec fn can_insert(
    ts: Seq<Rec>,
    plen: int,
    cols: int,
    idx: int,
    s: Seq<char>,
    n: int,
) -> bool {
    &&& cols > 0
    &&& (forall|k: int| 0 <= k < visible_of(s).len() ==> (#[trigger] visible_of(s)[k]).1 <= cols)
    &&& idx + n <= usize::MAX
    &&& (ts.len() > 0 ==> ts.last().idx + n <= usize::MAX)
    &&& plen + ts.len() + visible_of(s).len() < usize::MAX
}

/// When a delete of `n` bytes at `idx` can be performed: the terminal is
/// paintable and the range end stays within machine range.
pub open spec fn can_delete(cols: int, idx: int, n: int) -> bool {
    cols > 0 && idx + n <= usize::MAX
}

/// An already-laid-out sequence walks onto itself prefix by prefix: the
/// layout of a prefix is that prefix, and the pen after it sits just
/// right of its last record.
proof fn lemma_prefix_laid(ts: Seq<Rec>, pen: Loc, c: int, h: int)
    requires
        0 <= h <= ts.len(),
        ts == laid_out(ts, pen, c),
    ensures
        laid_out(ts.take(h), pen, c) == ts.take(h),
        end_loc(ts.take(h), pen, c) == (if h == 0 {
            pen
        } else {
            Loc { col: ts[h - 1].loc.col + ts[h - 1].width, row: ts[h - 1].loc.row }
        }),
{
    assert(ts =~= ts.take(h) + ts.skip(h));
    lemma_laid_out_append(ts.take(h), ts.skip(h), pen, c);
    lemma_laid_out_shape(ts.take(h), pen, c);
    let la = laid_out(ts.take(h), pen, c);
    let lbt = laid_out(ts.skip(h), end_loc(ts.take(h), pen, c), c);
    assert(ts == la + lbt);
    assert forall|i: int| 0 <= i < h implies la[i] == ts.take(h)[i] by {
        assert(ts[i] == (la + lbt)[i]);
        assert((la + lbt)[i] == la[i]);
        assert(ts.take(h)[i] == ts[i]);
    }
    assert(la =~= ts.take(h));
    if h > 0 {
        lemma_end_after_last(ts.take(h), pen, c);
        assert(la.last() == ts.take(h)[h - 1]);
        assert(ts.take(h)[h - 1] == ts[h - 1]);
    } else {
        assert(ts.take(0) =~= Seq::<Rec>::empty());
    }
}

/// Splicing new records at the insertion point of a sorted sequence keeps
/// it sorted, provided the new offsets start at `idx`, stay below
/// `idx + n`, and the tail moves right by `n`.
proof fn lemma_splice_sorted(ts: Seq<Rec>, ps: Seq<(usize, usize)>, idx: int, n: int)
    requires
        idx_sorted(ts),
        forall|k: int, l: int| 0 <= k < l < ps.len() ==> ps[k].0 < ps[l].0,
        forall|k: int| 0 <= k < ps.len() ==> (#[trigger] ps[k]).0 < n,
        0 <= idx,
        0 <= n,
    ensures
        idx_sorted(ins_model(ts, idx, ps, n)),
{
    lemma_lb_props(ts, idx);
    let h = lb(ts, idx);
    let sp = ins_model(ts, idx, ps, n);
    let m = ps.len() as int;
    assert forall|i: int, j: int| 0 <= i < j < sp.len() implies sp[i].idx < sp[j].idx by {
        assert(sp.len() == ts.len() + m);
        if i < h {
            assert(sp[i] == ts.take(h)[i]);
            assert(sp[i].idx < idx);
        } else if i < h + m {
            assert(sp[i] == pair_recs(ps, idx)[i - h]);
            assert(sp[i].idx == idx + ps[i - h].0);
        } else {
            assert(sp[i] == shift_idx(ts.skip(h), n)[i - h - m]);
            assert(sp[i].idx == ts[i - m].idx + n);
            assert(ts[i - m].idx >= idx);
        }
        if j < h {
            assert(sp[j] == ts.take(h)[j]);
            assert(sp[j].idx < idx);
        } else if j < h + m {
            assert(sp[j] == pair_recs(ps, idx)[j - h]);
            assert(sp[j].idx == idx + ps[j - h].0);
        } else {
            assert(sp[j] == shift_idx(ts.skip(h), n)[j - h - m]);
            assert(sp[j].idx == ts[j - m].idx + n);
            assert(ts[j - m].idx >= idx);
        }
    }
}

/// Removing the records between two insertion points of a sorted sequence
/// and moving the tail left by `n` keeps it sorted.
proof fn lemma_cut_sorted(ts: Seq<Rec>, idx: int, n: int)
    requires
        idx_sorted(ts),
        0 <= idx,
        0 <= n,
    ensures
        idx_sorted(del_model(ts, idx, n)),
{
    lemma_lb_props(ts, idx);
    lemma_lb_props(ts, idx + n);
    let h = lb(ts, idx);
    let k = lb(ts, idx + n);
    assert(h <= k) by {
        if h > k {
            assert(ts[k].idx >= idx + n);
            assert(ts[k].idx < idx);
        }
    }
    let dm = del_model(ts, idx, n);
    assert forall|i: int, j: int| 0 <= i < j < dm.len() implies dm[i].idx < dm[j].idx by {
        if i < h {
            assert(dm[i] == ts.take(h)[i]);
            assert(dm[i].idx < idx);
        } else {
            assert(dm[i] == shift_idx(ts.skip(k), -n)[i - h]);
            assert(dm[i].idx == ts[k + (i - h)].idx - n);
            assert(ts[k + (i - h)].idx >= idx + n);
        }
        if j < h {
            assert(dm[j] == ts.take(h)[j]);
            assert(dm[j].idx < idx);
        } else {
            assert(dm[j] == shift_idx(ts.skip(k), -n)[j - h]);
            assert(dm[j].idx == ts[k + (j - h)].idx - n);
            assert(ts[k + (j - h)].idx >= idx + n);
        }
        if i >= h && j >= h {
            assert(ts[k + (i - h)].idx < ts[k + (j - h)].idx);
        }
    }
}


impl LayoutCache {
    /// Incremental insert of `text` at byte offset `idx`.  Entries below
    /// `idx` are untouched; the string's visible graphemes become new
    /// entries laid out from the position following the entry immediately
    /// preceding `idx`; every later entry's offset grows by the string's
    /// byte length and its position is re-walked from the end of the
    /// inserted span (a re-walk, not a constant shift, because a wrap
    /// boundary can move to a different grapheme).  The result provably
    /// equals a full relayout of the spliced content.  Returns the
    /// impacted screen span; `None` — with the text marked stale — when
    /// the edit cannot be laid out.
    #[verifier::loop_isolation(false)]
    #[verifier::rlimit(100)]
    pub fn insert(&mut self, idx: usize, text: &str) -> (r: Option<Span>)
        requires
            old(self).wf(),
        ensures
            final(self).wf(),
            final(self).prompt@ == old(self).prompt@,
            final(self).columns == old(self).columns,
            final(self).tab_stop == old(self).tab_stop,
            (r is Some) <==> can_insert(
                old(self).text_recs(),
                old(self).prompt@.len() as int,
                old(self).cols(),
                idx as int,
                text@,
                text.spec_bytes().len() as usize as int,
            ),
            (r is None) ==> final(self).text@ == old(self).text@ && final(self).dirty,
            (r is Some) ==> ({
                let ts = old(self).text_recs();
                let n = text.spec_bytes().len() as usize as int;
                let pen = old(self).prompt_end();
                let c = old(self).cols();
                let sp = ins_model(ts, idx as int, visible_of(text@), n);
                &&& final(self).text_recs() == laid_out(sp, pen, c)
                &&& final(self).dirty == old(self).dirty
                &&& r->Some_0.begin@ == end_loc(ts.take(lb(ts, idx as int)), pen, c)
                &&& r->Some_0.end@ == loc_max(end_loc(ts, pen, c), end_loc(sp, pen, c))
            }),
    {
        let ghost ts = recs(self.text@);
        let ghost c = self.cols();
        let ghost pen = self.prompt_end();
        let n = text.len();
        if self.columns == 0 {
            self.dirty = true;
            return None;
        }
        let pairs = segment(text);
        let ghost m = pairs@.len() as int;
        let mut can: bool = pairs_fit(&pairs, self.columns);
        if idx > usize::MAX - n {
            can = false;
        }
        if self.text.len() > 0 {
            let last = self.text[self.text.len() - 1];
            proof {
                assert(ts.last() == self.text@[self.text@.len() - 1]@);
            }
            if last.idx > usize::MAX - n {
                can = false;
            }
        }
        if pairs.len() >= usize::MAX - self.prompt.len() - self.text.len() {
            can = false;
        }
        if !can {
            self.dirty = true;
            return None;
        }
        let h = lower_bound(&self.text, idx);
        proof {
            lemma_lb_props(ts, idx as int);
            lemma_walk_bounds(recs(self.prompt@), origin(), c);
            lemma_walk_bounds(ts, pen, c);
            lemma_prefix_laid(ts, pen, c, h as int);
            assert forall|k2: int| 0 <= k2 < ts.len() implies ts[k2] == laid_out(ts, pen, c)[k2] by {}
        }
        let begin = if h == 0 {
            self.prompt_size()
        } else {
            let e = self.text[h - 1];
            proof {
                assert(e@ == ts[h - 1]);
                assert(0 < ts[h - 1].width && ts[h - 1].loc.col + ts[h - 1].width <= c);
            }
            self.shift_entry(&e)
        };
        proof {
            assert(begin@ == end_loc(ts.take(h as int), pen, c));
        }
        let old_end = if self.text.len() == 0 {
            self.prompt_size()
        } else {
            let e = self.text[self.text.len() - 1];
            proof {
                lemma_end_after_last(ts, pen, c);
                assert(e@ == ts[ts.len() - 1]);
                assert(0 < e@.width && e@.loc.col + e@.width <= c);
            }
            self.shift_entry(&e)
        };
        proof {
            if self.text@.len() == 0 {
                assert(ts =~= Seq::<Rec>::empty());
            }
            assert(old_end@ == end_loc(ts, pen, c));
        }
        let mut tail_entries: Vec<Entry> = Vec::new();
        proof {
            assert(tail_entries@ =~= self.text@.subrange(h as int, h as int));
        }
        let mut j: usize = h;
        while j < self.text.len()
            invariant
                h <= j <= self.text@.len(),
                tail_entries@ == self.text@.subrange(h as int, j as int),
            decreases self.text@.len() - j,
        {
            let e = self.text[j];
            tail_entries.push(e);
            proof {
                assert(tail_entries@ =~= self.text@.subrange(h as int, j + 1));
            }
            j = j + 1;
        }
        self.text.truncate(h);
        proof {
            assert(recs(self.text@) =~= ts.take(h as int));
            assert(recs(tail_entries@) =~= ts.skip(h as int));
        }
        let ghost prs_ins = pair_recs(pairs@, idx as int);
        proof {
            assert forall|k2: int| 0 <= k2 < pairs@.len() implies idx + (
            #[trigger] pairs@[k2]).0 <= usize::MAX by {
                assert(pairs@[k2].0 < text.spec_bytes().len());
            }
            assert forall|k2: int| 0 <= k2 < ts.take(h as int).len() implies 0 < (
            #[trigger] ts.take(h as int)[k2]).width <= c by {
                assert(ts.take(h as int)[k2] == ts[k2]);
            }
            lemma_walk_bounds(ts.take(h as int), pen, c);
            assert(begin@.row <= pen.row + h);
            assert(pen.row <= recs(self.prompt@).len() as int);
        }
        let p1 = extend_pairs(&mut self.text, &pairs, idx, begin, self.columns);
        proof {
            assert forall|k2: int| 0 <= k2 < tail_entries@.len() implies (
            #[trigger] tail_entries@[k2]).idx + n <= usize::MAX by {
                assert(recs(tail_entries@)[k2] == ts[h + k2]);
                if h + k2 < ts.len() - 1 {
                    assert(ts[h + k2].idx < ts[ts.len() - 1].idx);
                }
            }
            assert forall|k2: int| 0 <= k2 < tail_entries@.len() implies 0 < (
            #[trigger] tail_entries@[k2]).width <= self.columns by {
                assert(recs(tail_entries@)[k2] == ts[h + k2]);
            }
        }
        let p2 = extend_shifted(&mut self.text, &tail_entries, n, true, p1, self.columns);
        let end_span = pos_max(old_end, p2);
        proof {
            let tl = shift_idx(ts.skip(h as int), n as int);
            let sp = ins_model(ts, idx as int, pairs@, n as int);
            assert(shift_idx(recs(tail_entries@), n as int) =~= tl);
            assert(sp =~= ts.take(h as int) + (prs_ins + tl));
            lemma_laid_out_append(ts.take(h as int), prs_ins + tl, pen, c);
            lemma_laid_out_append(prs_ins, tl, begin@, c);
            assert(end_loc(prs_ins, begin@, c) == p1@);
            assert(laid_out(sp, pen, c) =~= ts.take(h as int) + laid_out(prs_ins, begin@, c)
                + laid_out(tl, p1@, c));
            assert(recs(self.text@) =~= laid_out(sp, pen, c));
            assert(end_loc(sp, pen, c) == end_loc(tl, p1@, c));
            assert(p2@ == end_loc(tl, p1@, c));
            lemma_splice_sorted(ts, pairs@, idx as int, n as int);
            lemma_laid_out_shape(sp, pen, c);
            assert forall|i2: int, j2: int| 0 <= i2 < j2 < self.text_recs().len() implies self
                .text_recs()[i2].idx < self.text_recs()[j2].idx by {
                assert(self.text_recs()[i2] == laid_out(sp, pen, c)[i2]);
                assert(self.text_recs()[j2] == laid_out(sp, pen, c)[j2]);
                assert(laid_out(sp, pen, c)[i2].idx == sp[i2].idx);
                assert(laid_out(sp, pen, c)[j2].idx == sp[j2].idx);
            }
            assert forall|i2: int| 0 <= i2 < self.text_recs().len() implies 0 < (
            #[trigger] self.text_recs()[i2]).width <= c by {
                assert(self.text_recs()[i2] == laid_out(sp, pen, c)[i2]);
                assert(laid_out(sp, pen, c)[i2].idx == sp[i2].idx);
                assert(sp.len() == h + m + (ts.len() - h));
                if i2 < h {
                    assert(sp[i2] == ts.take(h as int)[i2]);
                } else if i2 < h + m {
                    assert(sp[i2] == (prs_ins + tl)[i2 - h]);
                    assert(sp[i2] == prs_ins[i2 - h]);
                    assert(sp[i2].width == pairs@[i2 - h].1 as int);
                } else {
                    assert(sp[i2] == (prs_ins + tl)[i2 - h]);
                    assert(sp[i2] == tl[i2 - h - m]);
                    assert(sp[i2].width == ts[i2 - m].width);
                }
            }
            lemma_laid_out_fixpoint(sp, pen, c);
            assert(self.prompt_end() == pen);
        }
        Some(Span { begin, end: end_span })
    }
}


impl LayoutCache {
    /// Incremental delete of `text` (the removed bytes) at byte offset
    /// `idx`.  Every entry with an offset in `idx..idx + len` disappears;
    /// entries below `idx` are untouched; every later entry's offset
    /// shrinks by the removed byte length and its position is re-walked
    /// from the position where the removed span began.  The result
    /// provably equals a full relayout of the remaining content.  Returns
    /// the impacted screen span; `None` — with the text marked stale —
    /// when the edit cannot be applied.
    #[verifier::loop_isolation(false)]
    #[verifier::rlimit(100)]
    pub fn delete(&mut self, idx: usize, text: &str) -> (r: Option<Span>)
        requires
            old(self).wf(),
        ensures
            final(self).wf(),
            final(self).prompt@ == old(self).prompt@,
            final(self).columns == old(self).columns,
            final(self).tab_stop == old(self).tab_stop,
            (r is Some) <==> can_delete(
                old(self).cols(),
                idx as int,
                text.spec_bytes().len() as usize as int,
            ),
            (r is None) ==> final(self).text@ == old(self).text@ && final(self).dirty,
            (r is Some) ==> ({
                let ts = old(self).text_recs();
                let n = text.spec_bytes().len() as usize as int;
                let pen = old(self).prompt_end();
                let c = old(self).cols();
                let dm = del_model(ts, idx as int, n);
                &&& final(self).text_recs() == laid_out(dm, pen, c)
                &&& final(self).dirty == old(self).dirty
                &&& r->Some_0.begin@ == end_loc(ts.take(lb(ts, idx as int)), pen, c)
                &&& r->Some_0.end@ == loc_max(end_loc(ts, pen, c), end_loc(dm, pen, c))
            }),
    {
        let ghost ts = recs(self.text@);
        let ghost c = self.cols();
        let ghost pen = self.prompt_end();
        let n = text.len();
        proof {
            if text@.len() == 0 {
                assert(text@ =~= Seq::<char>::empty());
                assert(text.spec_bytes().len() == 0);
            }
        }
        if self.columns == 0 || idx > usize::MAX - n {
            self.dirty = true;
            return None;
        }
        let h = lower_bound(&self.text, idx);
        let k = lower_bound(&self.text, idx + n);
        proof {
            lemma_lb_props(ts, idx as int);
            lemma_lb_props(ts, idx + n);
            assert(h <= k) by {
                if h > k {
                    assert(ts[k as int].idx >= idx + n);
                    assert(ts[k as int].idx < idx);
                }
            }
            lemma_walk_bounds(recs(self.prompt@), origin(), c);
            lemma_walk_bounds(ts, pen, c);
            assert forall|k2: int| 0 <= k2 < ts.len() implies ts[k2] == laid_out(ts, pen, c)[k2] by {}
            lemma_prefix_laid(ts, pen, c, h as int);
        }
        let begin = if h == 0 {
            self.prompt_size()
        } else {
            let e = self.text[h - 1];
            proof {
                assert(e@ == ts[h - 1]);
                assert(0 < ts[h - 1].width && ts[h - 1].loc.col + ts[h - 1].width <= c);
            }
            self.shift_entry(&e)
        };
        proof {
            assert(begin@ == end_loc(ts.take(h as int), pen, c));
        }
        let old_end = if self.text.len() == 0 {
            self.prompt_size()
        } else {
            let e = self.text[self.text.len() - 1];
            proof {
                lemma_end_after_last(ts, pen, c);
                assert(e@ == ts[ts.len() - 1]);
                assert(0 < e@.width && e@.loc.col + e@.width <= c);
            }
            self.shift_entry(&e)
        };
        proof {
            if self.text@.len() == 0 {
                assert(ts =~= Seq::<Rec>::empty());
            }
            assert(old_end@ == end_loc(ts, pen, c));
        }
        let mut tail_entries: Vec<Entry> = Vec::new();
        proof {
            assert(tail_entries@ =~= self.text@.subrange(k as int, k as int));
        }
        let mut j: usize = k;
        while j < self.text.len()
            invariant
                k <= j <= self.text@.len(),
                tail_entries@ == self.text@.subrange(k as int, j as int),
            decreases self.text@.len() - j,
        {
            let e = self.text[j];
            tail_entries.push(e);
            proof {
                assert(tail_entries@ =~= self.text@.subrange(k as int, j + 1));
            }
            j = j + 1;
        }
        self.text.truncate(h);
        proof {
            assert(recs(self.text@) =~= ts.take(h as int));
            assert(recs(tail_entries@) =~= ts.skip(k as int));
            assert forall|k2: int| 0 <= k2 < tail_entries@.len() implies n <= (
            #[trigger] tail_entries@[k2]).idx by {
                assert(recs(tail_entries@)[k2] == ts[k + k2]);
                assert(ts[k + k2].idx >= idx + n);
            }
            assert forall|k2: int| 0 <= k2 < tail_entries@.len() implies 0 < (
            #[trigger] tail_entries@[k2]).width <= self.columns by {
                assert(recs(tail_entries@)[k2] == ts[k + k2]);
            }
            assert forall|k2: int| 0 <= k2 < ts.take(h as int).len() implies 0 < (
            #[trigger] ts.take(h as int)[k2]).width <= c by {
                assert(ts.take(h as int)[k2] == ts[k2]);
            }
            lemma_walk_bounds(ts.take(h as int), pen, c);
            assert(begin@.row <= pen.row + h);
            assert(pen.row <= recs(self.prompt@).len() as int);
        }
        let p2 = extend_shifted(&mut self.text, &tail_entries, n, false, begin, self.columns);
        let end_span = pos_max(old_end, p2);
        proof {
            let tl = shift_idx(ts.skip(k as int), -(n as int));
            let dm = del_model(ts, idx as int, n as int);
            assert(shift_idx(recs(tail_entries@), -(n as int)) =~= tl);
            assert(dm =~= ts.take(h as int) + tl);
            lemma_laid_out_append(ts.take(h as int), tl, pen, c);
            assert(laid_out(dm, pen, c) =~= ts.take(h as int) + laid_out(tl, begin@, c));
            assert(recs(self.text@) =~= laid_out(dm, pen, c));
            assert(end_loc(dm, pen, c) == end_loc(tl, begin@, c));
            assert(p2@ == end_loc(tl, begin@, c));
            lemma_cut_sorted(ts, idx as int, n as int);
            lemma_laid_out_shape(dm, pen, c);
            assert forall|i2: int, j2: int| 0 <= i2 < j2 < self.text_recs().len() implies self
                .text_recs()[i2].idx < self.text_recs()[j2].idx by {
                assert(self.text_recs()[i2] == laid_out(dm, pen, c)[i2]);
                assert(self.text_recs()[j2] == laid_out(dm, pen, c)[j2]);
                assert(laid_out(dm, pen, c)[i2].idx == dm[i2].idx);
                assert(laid_out(dm, pen, c)[j2].idx == dm[j2].idx);
            }
            assert forall|i2: int| 0 <= i2 < self.text_recs().len() implies 0 < (
            #[trigger] self.text_recs()[i2]).width <= c by {
                assert(self.text_recs()[i2] == laid_out(dm, pen, c)[i2]);
                assert(laid_out(dm, pen, c)[i2].idx == dm[i2].idx);
                if i2 < h {
                    assert(dm[i2] == ts.take(h as int)[i2]);
                } else {
                    assert(dm[i2] == tl[i2 - h]);
                    assert(dm[i2].width == ts[k + (i2 - h)].width);
                }
            }
            lemma_laid_out_fixpoint(dm, pen, c);
            assert(self.prompt_end() == pen);
        }
        Some(Span { begin, end: end_span })
    }
}


impl LayoutCache {
    /// Replace: delete `old_text` at `idx`, then insert `new_text` at
    /// `idx` — exactly the unshortcut two-step sequence, which the
    /// contract states.  Returns the union of the two steps' impacted
    /// spans, or `None` — with the text marked stale — when either step
    /// cannot be applied.
    pub fn replace(&mut self, idx: usize, old_text: &str, new_text: &str) -> (r: Option<Span>)
        requires
            old(self).wf(),
        ensures
            final(self).wf(),
            final(self).prompt@ == old(self).prompt@,
            final(self).columns == old(self).columns,
            final(self).tab_stop == old(self).tab_stop,
            ({
                let ts0 = old(self).text_recs();
                let n1 = old_text.spec_bytes().len() as usize as int;
                let n2 = new_text.spec_bytes().len() as usize as int;
                let pen = old(self).prompt_end();
                let c = old(self).cols();
                let plen = old(self).prompt@.len() as int;
                let ok1 = can_delete(c, idx as int, n1);
                let ts1 = if ok1 {
                    laid_out(del_model(ts0, idx as int, n1), pen, c)
                } else {
                    ts0
                };
                let ok2 = can_insert(ts1, plen, c, idx as int, new_text@, n2);
                let sp = ins_model(ts1, idx as int, visible_of(new_text@), n2);
                &&& ((r is Some) <==> ok1 && ok2)
                &&& (ok2 ==> final(self).text_recs() == laid_out(sp, pen, c))
                &&& (!ok2 ==> final(self).text_recs() == ts1)
                &&& (ok1 && ok2 ==> final(self).dirty == old(self).dirty)
                &&& (!(ok1 && ok2) ==> final(self).dirty)
                &&& ((r is Some) ==> r->Some_0.begin@ == loc_min(
                    end_loc(ts0.take(lb(ts0, idx as int)), pen, c),
                    end_loc(ts1.take(lb(ts1, idx as int)), pen, c),
                ))
                &&& ((r is Some) ==> r->Some_0.end@ == loc_max(
                    loc_max(
                        end_loc(ts0, pen, c),
                        end_loc(del_model(ts0, idx as int, n1), pen, c),
                    ),
                    loc_max(end_loc(ts1, pen, c), end_loc(sp, pen, c)),
                ))
            }),
    {
        let d = self.delete(idx, old_text);
        let i = self.insert(idx, new_text);
        match (d, i) {
            (Some(a), Some(b)) => Some(
                Span { begin: pos_min(a.begin, b.begin), end: pos_max(a.end, b.end) },
            ),
            _ => None,
        }
    }
}


/// Law: the cache is oblivious to how it was produced.  Two well-formed
/// caches over the same terminal width whose prompt and text hold the same
/// offsets and widths — one filled incrementally, one rebuilt from scratch
/// — carry identical screen positions and answer every cursor query
/// identically.
pub proof fn lemma_oracle_equivalence(a: LayoutCache, b: LayoutCache, cursor: int)
    requires
        a.wf(),
        b.wf(),
        a.cols() == b.cols(),
        a.prompt_recs().len() == b.prompt_recs().len(),
        forall|i: int| 0 <= i < a.prompt_recs().len() ==> (#[trigger] a.prompt_recs()[i]).idx
            == b.prompt_recs()[i].idx && a.prompt_recs()[i].width == b.prompt_recs()[i].width,
        a.text_recs().len() == b.text_recs().len(),
        forall|i: int| 0 <= i < a.text_recs().len() ==> (#[trigger] a.text_recs()[i]).idx
            == b.text_recs()[i].idx && a.text_recs()[i].width == b.text_recs()[i].width,
    ensures
        a.prompt_recs() == b.prompt_recs(),
        a.text_recs() == b.text_recs(),
        a.cursor_loc(cursor) == b.cursor_loc(cursor),
{
    lemma_laid_out_congruence(a.prompt_recs(), b.prompt_recs(), origin(), a.cols());
    assert(a.prompt_recs() == b.prompt_recs());
    assert(a.prompt_end() == b.prompt_end());
    lemma_laid_out_congruence(a.text_recs(), b.text_recs(), a.prompt_end(), a.cols());
    assert(a.text_recs() == b.text_recs());
}

/// Law: inserting a string at `idx` and immediately deleting the same
/// string at `idx` restores the text cache to an identical entry set with
/// identical positions.  `ts` is the well-laid-out text, `ps` the visible
/// (offset, width) pairs of the string, `n` its byte length.
pub proof fn lemma_insert_then_delete_restores(
    ts: Seq<Rec>,
    pen: Loc,
    c: int,
    idx: int,
    ps: Seq<(usize, usize)>,
    n: int,
)
    requires
        idx_sorted(ts),
        ts == laid_out(ts, pen, c),
        0 <= idx,
        0 <= n,
        forall|k: int, l: int| 0 <= k < l < ps.len() ==> ps[k].0 < ps[l].0,
        forall|k: int| 0 <= k < ps.len() ==> (#[trigger] ps[k]).0 < n,
    ensures
        laid_out(del_model(laid_out(ins_model(ts, idx, ps, n), pen, c), idx, n), pen, c) == ts,
{
    lemma_lb_props(ts, idx);
    let h = lb(ts, idx);
    let m = ps.len() as int;
    let ins = ins_model(ts, idx, ps, n);
    let t1 = laid_out(ins, pen, c);
    lemma_laid_out_shape(ins, pen, c);
    lemma_splice_sorted(ts, ps, idx, n);
    assert(ins.len() == ts.len() + m);
    assert forall|i: int, j: int| 0 <= i < j < t1.len() implies t1[i].idx < t1[j].idx by {
        assert(t1[i].idx == ins[i].idx);
        assert(t1[j].idx == ins[j].idx);
    }
    assert forall|k: int| 0 <= k < h implies (#[trigger] t1[k]).idx < idx by {
        assert(t1[k].idx == ins[k].idx);
        assert(ins[k] == ts.take(h)[k]);
    }
    assert forall|k: int| h <= k < t1.len() implies (#[trigger] t1[k]).idx >= idx by {
        assert(t1[k].idx == ins[k].idx);
        if k < h + m {
            assert(ins[k] == (ts.take(h) + pair_recs(ps, idx))[k]);
            assert(ins[k] == pair_recs(ps, idx)[k - h]);
        } else {
            assert(ins[k] == shift_idx(ts.skip(h), n)[k - h - m]);
            assert(ins[k].idx == ts[k - m].idx + n);
            assert(ts[k - m].idx >= idx);
        }
    }
    lemma_lb_unique(t1, idx, h);
    assert forall|k: int| 0 <= k < h + m implies (#[trigger] t1[k]).idx < idx + n by {
        assert(t1[k].idx == ins[k].idx);
        if k < h {
            assert(ins[k] == ts.take(h)[k]);
        } else {
            assert(ins[k] == pair_recs(ps, idx)[k - h]);
        }
    }
    assert forall|k: int| h + m <= k < t1.len() implies (#[trigger] t1[k]).idx >= idx + n by {
        assert(t1[k].idx == ins[k].idx);
        assert(ins[k] == shift_idx(ts.skip(h), n)[k - h - m]);
        assert(ins[k].idx == ts[k - m].idx + n);
        assert(ts[k - m].idx >= idx);
    }
    lemma_lb_unique(t1, idx + n, h + m);
    let dm = del_model(t1, idx, n);
    assert(dm.len() == ts.len());
    assert forall|i: int| 0 <= i < dm.len() implies (#[trigger] dm[i]).idx == ts[i].idx
        && dm[i].width == ts[i].width by {
        if i < h {
            assert(dm[i] == t1.take(h)[i]);
            assert(t1[i].idx == ins[i].idx && t1[i].width == ins[i].width);
            assert(ins[i] == ts.take(h)[i]);
        } else {
            assert(dm[i] == shift_idx(t1.skip(h + m), -n)[i - h]);
            assert(dm[i].idx == t1[m + i].idx - n && dm[i].width == t1[m + i].width);
            assert(t1[m + i].idx == ins[m + i].idx && t1[m + i].width == ins[m + i].width);
            assert(ins[m + i] == shift_idx(ts.skip(h), n)[m + i - h - m]);
            assert(ins[m + i].idx == ts[i].idx + n && ins[m + i].width == ts[i].width);
        }
    }
    lemma_laid_out_congruence(dm, ts, pen, c);
}

/// Law: sorting by offset also sorts by screen position.  In a
/// well-formed cache the stored locations are row-major nondecreasing
/// along each sequence, so a binary search by offset is also a search by
/// position.
pub proof fn lemma_offset_order_implies_screen_order(cache: LayoutCache)
    requires
        cache.wf(),
    ensures
        forall|i: int, j: int| 0 <= i < j < cache.prompt_recs().len() ==> loc_le(
            (#[trigger] cache.prompt_recs()[i]).loc,
            (#[trigger] cache.prompt_recs()[j]).loc,
        ),
        forall|i: int, j: int| 0 <= i < j < cache.text_recs().len() ==> loc_le(
            (#[trigger] cache.text_recs()[i]).loc,
            (#[trigger] cache.text_recs()[j]).loc,
        ),
{
    let c = cache.cols();
    lemma_walk_bounds(cache.prompt_recs(), origin(), c);
    lemma_walk_bounds(cache.text_recs(), cache.prompt_end(), c);
    assert forall|i: int, j: int| 0 <= i < j < cache.prompt_recs().len() implies loc_le(
        (#[trigger] cache.prompt_recs()[i]).loc,
        (#[trigger] cache.prompt_recs()[j]).loc,
    ) by {
        assert(cache.prompt_recs()[i] == laid_out(cache.prompt_recs(), origin(), c)[i]);
        assert(cache.prompt_recs()[j] == laid_out(cache.prompt_recs(), origin(), c)[j]);
    }
    assert forall|i: int, j: int| 0 <= i < j < cache.text_recs().len() implies loc_le(
        (#[trigger] cache.text_recs()[i]).loc,
        (#[trigger] cache.text_recs()[j]).loc,
    ) by {
        assert(cache.text_recs()[i] == laid_out(cache.text_recs(), cache.prompt_end(), c)[i]);
        assert(cache.text_recs()[j] == laid_out(cache.text_recs(), cache.prompt_end(), c)[j]);
    }
}


/// Law: an impacted span never undercounts.  In a well-laid-out sequence,
/// every location from the `h`-th record onward lies at or after the walk
/// position of the prefix `rs.take(h)` — which the edit operations return
/// as the span's `begin` — and at or before the walk's end, which bounds
/// the span's `end`.  Records before `h` are untouched by an edit at that
/// splice point, so every changed position falls inside the span.
pub proof fn lemma_span_covers_suffix(rs: Seq<Rec>, pen: Loc, c: int, h: int)
    requires
        widths_ok(rs, c),
        pen_ok(pen, c),
        0 <= h <= rs.len(),
        rs == laid_out(rs, pen, c),
    ensures
        forall|i: int| h <= i < rs.len() ==> loc_le(
            end_loc(rs.take(h), pen, c),
            (#[trigger] rs[i]).loc,
        ) && loc_le(rs[i].loc, end_loc(rs, pen, c)),
{
    assert(rs =~= rs.take(h) + rs.skip(h));
    lemma_laid_out_append(rs.take(h), rs.skip(h), pen, c);
    lemma_laid_out_shape(rs.take(h), pen, c);
    let begin = end_loc(rs.take(h), pen, c);
    let la = laid_out(rs.take(h), pen, c);
    let suffix = laid_out(rs.skip(h), begin, c);
    assert(rs == la + suffix);
    assert forall|k: int| 0 <= k < rs.take(h).len() implies 0 < (
    #[trigger] rs.take(h)[k]).width <= c by {
        assert(rs.take(h)[k] == rs[k]);
    }
    assert forall|k: int| 0 <= k < rs.skip(h).len() implies 0 < (
    #[trigger] rs.skip(h)[k]).width <= c by {
        assert(rs.skip(h)[k] == rs[k + h]);
    }
    lemma_walk_bounds(rs.take(h), pen, c);
    lemma_walk_bounds(rs.skip(h), begin, c);
    assert forall|i: int| h <= i < rs.len() implies loc_le(begin, (#[trigger] rs[i]).loc)
        && loc_le(rs[i].loc, end_loc(rs, pen, c)) by {
        assert(rs[i] == (la + suffix)[i]);
        assert(la.len() == h);
        assert(rs[i] == suffix[i - h]);
        assert(loc_le(begin, suffix[i - h].loc));
        assert(loc_le(suffix[i - h].loc, end_loc(rs.skip(h), begin, c)));
        assert(end_loc(rs, pen, c) == end_loc(rs.skip(h), begin, c));
    }
}

} // verus!







