//! Grapheme segmentation and display width, consumed as a capability.
//!
//! The cache never inspects characters itself: it asks for the grapheme
//! clusters of a string with their byte offsets, and for the rendered
//! column width of each cluster.  Both results are pure functions of the
//! string, named here by uninterpreted spec functions; [`segment`] combines
//! them into the (byte offset, width) pairs of the positive-width clusters,
//! which is all the layout walk needs.

use unicode_segmentation::UnicodeSegmentation;
use unicode_width::UnicodeWidthStr;
use vstd::prelude::*;
use vstd::string::StringSliceAdditionalSpecFns;

verus! {

/// The extended grapheme clusters of `s`, each with the byte offset of its
/// start: what `grapheme_indices` yields, named.
pub uninterp spec fn graphemes_of(s: Seq<char>) -> Seq<(usize, Seq<char>)>;

/// The displayed column width of `s`: what `width` returns, named.
pub uninterp spec fn width_of(s: Seq<char>) -> usize;

/// The (byte offset, width) pairs of the positive-width clusters of `gs`;
/// zero-width clusters (combining marks and the like) do not affect layout
/// and are dropped.
pub open spec fn keep_visible(gs: Seq<(usize, Seq<char>)>) -> Seq<(usize, usize)>
    decreases gs.len(),
{
    if gs.len() == 0 {
        Seq::empty()
    } else {
        let rest = keep_visible(gs.drop_first());
        if width_of(gs[0].1) > 0 {
            seq![(gs[0].0, width_of(gs[0].1))] + rest
        } else {
            rest
        }
    }
}

/// The (byte offset, width) pairs of the positive-width grapheme clusters
/// of `s`, in order of offset.
pub open spec fn visible_of(s: Seq<char>) -> Seq<(usize, usize)> {
    keep_visible(graphemes_of(s))
}

/// Relies on `unicode_segmentation::UnicodeSegmentation::grapheme_indices`:
/// it yields the extended grapheme clusters of the string with the byte
/// offset of each cluster's start, in ascending order, the first at offset
/// 0, every offset within the string's byte length — which, being the
/// length of an existing slice, fits in `usize`.
#[verifier::external_body]
fn grapheme_split(s: &str) -> (r: Vec<(usize, String)>)
    ensures
        r@.len() == graphemes_of(s@).len(),
        forall|i: int| 0 <= i < r@.len() ==> (#[trigger] r@[i]).0 == graphemes_of(s@)[i].0
            && r@[i].1@ == graphemes_of(s@)[i].1,
        forall|i: int, j: int| 0 <= i < j < r@.len() ==> r@[i].0 < r@[j].0,
        forall|i: int| 0 <= i < r@.len() ==> (#[trigger] r@[i]).0 < s.spec_bytes().len()
            <= usize::MAX,
        r@.len() > 0 ==> r@[0].0 == 0,
        r@.len() == 0 <==> s@.len() == 0,
{
    s.grapheme_indices(true).map(|(i, g)| (i, g.to_string())).collect()
}

/// Relies on `unicode_width::UnicodeWidthStr::width`: the displayed width
/// of the string in columns, a function of its characters alone
/// (ambiguous-width characters counted as one column).
#[verifier::external_body]
fn display_width(s: &str) -> (r: usize)
    ensures
        r == width_of(s@),
{
    UnicodeWidthStr::width(s)
}

/// Dropping zero-width clusters distributes over concatenation.
proof fn lemma_keep_visible_append(a: Seq<(usize, Seq<char>)>, b: Seq<(usize, Seq<char>)>)
    ensures
        keep_visible(a + b) == keep_visible(a) + keep_visible(b),
    decreases a.len(),
{
    if a.len() == 0 {
        assert(a + b =~= b);
        assert(Seq::<(usize, usize)>::empty() + keep_visible(b) =~= keep_visible(b));
    } else {
        assert((a + b)[0] == a[0]);
        assert((a + b).drop_first() =~= a.drop_first() + b);
        lemma_keep_visible_append(a.drop_first(), b);
        if width_of(a[0].1) > 0 {
            let h = seq![(a[0].0, width_of(a[0].1))];
            assert(h + (keep_visible(a.drop_first()) + keep_visible(b)) =~= (h + keep_visible(
                a.drop_first(),
            )) + keep_visible(b));
        }
    }
}

/// The kept pairs inherit the offsets' order and bounds, and carry only
/// positive widths.
proof fn lemma_keep_visible_facts(gs: Seq<(usize, Seq<char>)>, bound: int)
    requires
        forall|i: int, j: int| 0 <= i < j < gs.len() ==> gs[i].0 < gs[j].0,
        forall|i: int| 0 <= i < gs.len() ==> (#[trigger] gs[i]).0 < bound,
    ensures
        forall|k: int| 0 <= k < keep_visible(gs).len() ==> (#[trigger] keep_visible(gs)[k]).1 > 0,
        forall|k: int, l: int| 0 <= k < l < keep_visible(gs).len() ==> keep_visible(gs)[k].0
            < keep_visible(gs)[l].0,
        forall|k: int| 0 <= k < keep_visible(gs).len() ==> (#[trigger] keep_visible(gs)[k]).0
            < bound,
        gs.len() > 0 ==> forall|k: int| 0 <= k < keep_visible(gs).len() ==> (
        #[trigger] keep_visible(gs)[k]).0 >= gs[0].0,
    decreases gs.len(),
{
    if gs.len() > 0 {
        let rest = gs.drop_first();
        assert(forall|i: int, j: int| 0 <= i < j < rest.len() ==> rest[i].0 < rest[j].0);
        assert(forall|i: int| 0 <= i < rest.len() ==> (#[trigger] rest[i]).0 < bound);
        lemma_keep_visible_facts(rest, bound);
        assert(rest.len() > 0 ==> rest[0].0 > gs[0].0);
        let kv = keep_visible(gs);
        let kr = keep_visible(rest);
        if width_of(gs[0].1) > 0 {
            assert(kv == seq![(gs[0].0, width_of(gs[0].1))] + kr);
            assert(forall|k: int| 1 <= k < kv.len() ==> #[trigger] kv[k] == kr[k - 1]);
            assert(rest.len() > 0 ==> forall|k: int| 0 <= k < kr.len() ==> (#[trigger] kr[k]).0
                >= rest[0].0);
        } else {
            assert(kv == kr);
        }
    }
}

/// Segments `s` into the (byte offset, width) pairs of its positive-width
/// grapheme clusters, in ascending offset order, offsets within the byte
/// length of `s`.
#[verifier::loop_isolation(false)]
pub fn segment(s: &str) -> (r: Vec<(usize, usize)>)
    ensures
        r@ == visible_of(s@),
        forall|k: int| 0 <= k < r@.len() ==> (#[trigger] r@[k]).1 > 0,
        forall|k: int, l: int| 0 <= k < l < r@.len() ==> r@[k].0 < r@[l].0,
        forall|k: int| 0 <= k < r@.len() ==> (#[trigger] r@[k]).0 < s.spec_bytes().len(),
        s.spec_bytes().len() <= usize::MAX,
{
    let g = grapheme_split(s);
    let mut r: Vec<(usize, usize)> = Vec::new();
    let mut i: usize = 0;
    while i < g.len()
        invariant
            0 <= i <= g@.len(),
            r@ == keep_visible(graphemes_of(s@).take(i as int)),
        decreases g@.len() - i,
    {
        let off = g[i].0;
        let w = display_width(g[i].1.as_str());
        proof {
            let gsq = graphemes_of(s@);
            assert(gsq.take(i + 1) =~= gsq.take(i as int) + seq![gsq[i as int]]);
            lemma_keep_visible_append(gsq.take(i as int), seq![gsq[i as int]]);
            let single = seq![gsq[i as int]];
            assert(single.drop_first() =~= Seq::<(usize, Seq<char>)>::empty());
            assert(keep_visible(single.drop_first()) == Seq::<(usize, usize)>::empty());
            if width_of(gsq[i as int].1) > 0 {
                assert(keep_visible(single) == seq![(gsq[i as int].0, width_of(gsq[i as int].1))]
                    + keep_visible(single.drop_first()));
                assert(keep_visible(single) =~= seq![(gsq[i as int].0, width_of(gsq[i as int].1))]);
            } else {
                assert(keep_visible(single) =~= Seq::<(usize, usize)>::empty());
            }
            assert(gsq[i as int].0 == off);
            assert(gsq[i as int].1 == g@[i as int].1@);
        }
        if w > 0 {
            r.push((off, w));
            proof {
                assert(r@ =~= keep_visible(graphemes_of(s@).take(i + 1)));
            }
        } else {
            proof {
                assert(r@ =~= keep_visible(graphemes_of(s@).take(i + 1)));
            }
        }
        i = i + 1;
    }
    proof {
        let gsq = graphemes_of(s@);
        assert(gsq.take(g@.len() as int) =~= gsq);
        if g@.len() == 0 {
            assert(s@ =~= Seq::<char>::empty());
            assert(s.spec_bytes().len() == 0);
        } else {
            assert(g@[0].0 < s.spec_bytes().len() <= usize::MAX);
        }
        assert forall|k: int, l: int| 0 <= k < l < gsq.len() implies gsq[k].0 < gsq[l].0 by {
            assert(g@[k].0 == gsq[k].0);
            assert(g@[l].0 == gsq[l].0);
        }
        assert forall|k: int| 0 <= k < gsq.len() implies (#[trigger] gsq[k]).0
            < s.spec_bytes().len() by {
            assert(g@[k].0 == gsq[k].0);
        }
        lemma_keep_visible_facts(gsq, s.spec_bytes().len() as int);
    }
    r
}

} // verus!
