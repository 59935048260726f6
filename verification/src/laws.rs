//! Stated laws of the notator.
//!
//! These theorems state, over the specification functions of the
//! notator, properties that hold of every conversion: the subdivision
//! bookkeeping never drifts within a tempo segment, and the emitted
//! tempo markers correspond one to one to the tempo changes that the
//! timeline's span reaches.

use vstd::prelude::*;
use crate::rat::{Rat, millibpm_s, raw_ticks_s};
use crate::tempo::Timing;
use crate::notes::HitObj;
use crate::notate::{
    Token,
    needs_boundary,
    sub_next,
    sub_tokens,
    sub_count,
    frac_n,
    frac_d,
    absorb_n,
    hits_n,
    tempo_tokens,
    bpm_after,
    any_red,
    hit_tokens,
    next_instant,
    notate_from,
    notate_s,
    sorted_tm,
    sorted_hs,
    well_ordered,
    has_tempo,
    lemma_absorb_n_bounds,
    lemma_hits_n_bounds,
};

verus! {


/// Within one tempo segment the declared subdivision never drifts: an
/// instant whose reduced denominator divides the declared one with a
/// ratio under eight keeps it unchanged and emits no boundary, and any
/// other instant re-declares exactly its own denominator, with one
/// boundary marker.
pub proof fn lemma_subdivision_monotone(div: int, d: int)
    requires
        div != 0,
    ensures
        !needs_boundary(div, d) ==> sub_next(div, d) == div && sub_tokens(div, d)
            == Seq::<Token>::empty(),
        needs_boundary(div, d) ==> sub_next(div, d) == d && sub_tokens(div, d) == seq![
            Token::Boundary { denom: d as i128 },
        ],
{
}

/// How many tempo markers a token stream holds.
pub open spec fn count_marks(ts: Seq<Token>) -> int
    decreases ts.len(),
{
    if ts.len() == 0 {
        0
    } else {
        count_marks(ts.drop_last()) + (if ts.last() is TempoMark {
            1int
        } else {
            0int
        })
    }
}

/// How many tempo changes from `it` on start at or before `tmax`.
pub open spec fn count_reds_from(tm: Seq<Timing>, it: int, tmax: int) -> int
    decreases tm.len() - it,
{
    if 0 <= it < tm.len() {
        (if tm[it] is Red && tm[it].start_s() <= tmax {
            1int
        } else {
            0int
        }) + count_reds_from(tm, it + 1, tmax)
    } else {
        0
    }
}

/// Marker counts add over concatenation.
pub proof fn lemma_count_concat(a: Seq<Token>, b: Seq<Token>)
    ensures
        count_marks(a + b) == count_marks(a) + count_marks(b),
    decreases b.len(),
{
    if b.len() == 0 {
        assert(a + b =~= a);
    } else {
        assert((a + b).drop_last() =~= a + b.drop_last());
        lemma_count_concat(a, b.drop_last());
    }
}

/// Note tokens hold no tempo marker.
pub proof fn lemma_count_hit_tokens(hs: Seq<HitObj>, ih: int, k: int, b: Rat, lay: Seq<char>)
    ensures
        count_marks(hit_tokens(hs, ih, k, b, lay)) == 0,
    decreases k,
{
    if k > 0 {
        lemma_count_hit_tokens(hs, ih, k - 1, b, lay);
        assert(hit_tokens(hs, ih, k, b, lay).drop_last() =~= hit_tokens(hs, ih, k - 1, b, lay));
    }
}

/// A boundary decision holds no tempo marker.
pub proof fn lemma_count_sub_tokens(div: int, d: int)
    ensures
        count_marks(sub_tokens(div, d)) == 0,
{
    assert(count_marks(Seq::<Token>::empty()) == 0);
    if needs_boundary(div, d) {
        assert(sub_tokens(div, d).drop_last() =~= Seq::<Token>::empty());
    }
}

/// Absorbing `k` events at or before `tmax` emits exactly the tempo
/// changes among them.
pub proof fn lemma_count_tempo_tokens(tm: Seq<Timing>, it: int, k: int, tmax: int)
    requires
        0 <= it,
        it + k <= tm.len(),
        0 <= k,
        forall|j: int| it <= j < it + k ==> tm[j].start_s() <= tmax,
    ensures
        count_marks(tempo_tokens(tm, it, k)) == count_reds_from(tm, it, tmax)
            - count_reds_from(tm, it + k, tmax),
    decreases k,
{
    assert(count_marks(Seq::<Token>::empty()) == 0);
    if k > 0 {
        lemma_count_tempo_tokens(tm, it + 1, k - 1, tmax);
        let head: Seq<Token> = if tm[it] is Red {
            seq![Token::TempoMark { millibpm: millibpm_s(tm[it].bpm_rat()) as i128 }]
        } else {
            Seq::empty()
        };
        lemma_count_concat(head, tempo_tokens(tm, it + 1, k - 1));
        if tm[it] is Red {
            assert(head.drop_last() =~= Seq::<Token>::empty());
            assert(count_marks(head) == 1);
        } else {
            assert(count_marks(head) == 0);
        }
    }
}

/// No tempo change strictly beyond `tmax` is counted.
pub proof fn lemma_reds_after(tm: Seq<Timing>, it: int, tmax: int)
    requires
        0 <= it <= tm.len(),
        forall|j: int| it <= j < tm.len() ==> tm[j].start_s() > tmax,
    ensures
        count_reds_from(tm, it, tmax) == 0,
    decreases tm.len() - it,
{
    if it < tm.len() {
        lemma_reds_after(tm, it + 1, tmax);
    }
}

/// From any reachable walk state, the emitted tempo markers are exactly
/// the tempo changes not yet absorbed whose start falls at or before the
/// last note's start.
#[verifier::rlimit(100)]
pub proof fn lemma_marks_from(
    tm: Seq<Timing>,
    hs: Seq<HitObj>,
    lay: Seq<char>,
    it: int,
    ih: int,
    t: int,
    b: Rat,
    div: int,
)
    requires
        0 <= it <= tm.len(),
        0 <= ih < hs.len(),
        sorted_tm(tm),
        sorted_hs(hs),
        forall|j: int| it <= j < tm.len() ==> tm[j].start_s() >= t,
        forall|j: int| ih <= j < hs.len() ==> hs[j].start_s() >= t,
    ensures
        count_marks(notate_from(tm, hs, lay, it, ih, t, b, div)) == count_reds_from(
            tm,
            it,
            hs[hs.len() - 1].start_s(),
        ),
    decreases
            (tm.len() - it) + (hs.len() - ih),
            (if absorb_n(tm, it, t) + hits_n(hs, ih, t) == 0 {
                1int
            } else {
                0int
            }),
{
    assert(count_marks(Seq::<Token>::empty()) == 0);
    let tmax = hs[hs.len() - 1].start_s();
    let a = absorb_n(tm, it, t);
    lemma_absorb_n_bounds(tm, it, t);
    let h = hits_n(hs, ih, t);
    lemma_hits_n_bounds(hs, ih, t);
    let it1 = it + a;
    let ih1 = ih + h;
    let b1 = bpm_after(tm, it, a, b);
    let div1: int = if any_red(tm, it, a) {
        0
    } else {
        div
    };
    let ttoks = tempo_tokens(tm, it, a);
    assert(hs[hs.len() - 1].start_s() >= t);
    lemma_count_tempo_tokens(tm, it, a, tmax);
    lemma_count_hit_tokens(hs, ih, h, b1, lay);
    match next_instant(tm, hs, it1, ih1) {
        None => {
            assert(it1 == tm.len());
            let htoks = hit_tokens(hs, ih, h, b1, lay);
            let stoks = seq![Token::Seps { count: 0i128 }];
            lemma_count_concat(ttoks, htoks);
            lemma_count_concat(ttoks + htoks, stoks);
            assert(stoks.drop_last() =~= Seq::<Token>::empty());
        },
        Some(tn) => {
            let raw = raw_ticks_s(tn - t, b1);
            let n0 = frac_n(raw);
            let d0 = frac_d(raw);
            let btoks = sub_tokens(div1, d0);
            let htoks = hit_tokens(hs, ih, h, b1, lay);
            let stoks = seq![Token::Seps { count: sub_count(div1, n0, d0) as i128 }];
            lemma_count_sub_tokens(div1, d0);
            assert(stoks.drop_last() =~= Seq::<Token>::empty());
            if ih1 < hs.len() {
                assert forall|j: int| it1 <= j < tm.len() implies tm[j].start_s() >= tn by {
                    assert(tm[it1].start_s() >= tn);
                }
                assert forall|j: int| ih1 <= j < hs.len() implies hs[j].start_s() >= tn by {
                    assert(hs[ih1].start_s() >= tn);
                }
                if a + h == 0 {
                    lemma_absorb_n_bounds(tm, it1, tn);
                    lemma_hits_n_bounds(hs, ih1, tn);
                    if it1 < tm.len() && tm[it1].start_s() == tn {
                        assert(absorb_n(tm, it1, tn) >= 1);
                    } else {
                        assert(ih1 < hs.len() && hs[ih1].start_s() == tn);
                        assert(hits_n(hs, ih1, tn) >= 1);
                    }
                }
                lemma_marks_from(tm, hs, lay, it1, ih1, tn, b1, sub_next(div1, d0));
                let tail = notate_from(tm, hs, lay, it1, ih1, tn, b1, sub_next(div1, d0));
                lemma_count_concat(ttoks, btoks);
                lemma_count_concat(ttoks + btoks, htoks);
                lemma_count_concat(ttoks + btoks + htoks, stoks);
                lemma_count_concat(ttoks + btoks + htoks + stoks, tail);
            } else {
                assert(hs[hs.len() - 1].start_s() == t);
                assert forall|j: int| it1 <= j < tm.len() implies tm[j].start_s() > tmax by {
                    assert(tm[j].start_s() >= tm[it1].start_s());
                    assert(tm[it1].start_s() != t);
                    assert(tm[it1].start_s() >= t);
                }
                lemma_reds_after(tm, it1, tmax);
                let tail = notate_from(tm, hs, lay, it1, ih1, tn, b1, sub_next(div1, d0));
                assert(tail =~= Seq::<Token>::empty());
                lemma_count_concat(ttoks, btoks);
                lemma_count_concat(ttoks + btoks, htoks);
                lemma_count_concat(ttoks + btoks + htoks, stoks);
                lemma_count_concat(ttoks + btoks + htoks + stoks, tail);
            }
        },
    }
}

/// The number of emitted tempo-marker line breaks equals the number of
/// tempo changes after the opening one whose timestamp falls within the
/// timeline's span — at or before the last note's start.  Scroll changes
/// never produce one.
pub proof fn lemma_tempo_segment_count(tm: Seq<Timing>, hs: Seq<HitObj>, lay: Seq<char>)
    requires
        has_tempo(tm),
        hs.len() > 0,
        well_ordered(tm, hs),
    ensures
        count_marks(notate_s(tm, hs, lay)) == count_reds_from(
            tm,
            1,
            hs[hs.len() - 1].start_s(),
        ),
{
    assert(count_marks(Seq::<Token>::empty()) == 0);
    let t0 = hs[0].start_s();
    let b0 = tm[0].bpm_rat();
    let prefix = seq![
        Token::Header { ms: t0 as i32 },
        Token::TempoFirst { millibpm: millibpm_s(b0) as i128 },
    ];
    assert forall|j: int| 0 <= j < hs.len() implies hs[j].start_s() >= t0 by {}
    lemma_marks_from(tm, hs, lay, 1, 0, t0, b0, 0);
    lemma_count_concat(prefix, notate_from(tm, hs, lay, 1, 0, t0, b0, 0));
    assert(prefix.drop_last() =~= seq![Token::Header { ms: t0 as i32 }]);
    assert(seq![Token::Header { ms: t0 as i32 }].drop_last() =~= Seq::<Token>::empty());
    assert(count_marks(seq![Token::Header { ms: t0 as i32 }]) == 0);
    assert(count_marks(prefix) == 0);
    assert(notate_s(tm, hs, lay) == prefix + notate_from(tm, hs, lay, 1, 0, t0, b0, 0));
}

} // verus!
