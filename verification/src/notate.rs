//! The quantizing notator: the algorithmic core.
//!
//! The notator walks the tempo map and the note timeline in lock-step by
//! timestamp.  At each instant it absorbs the tempo events that fall on
//! the cursor, collects the notes that fall on it, converts the span to
//! the next instant into an exact fraction of a measure in 1/384ths,
//! reduces it, keeps a declared subdivision per tempo segment, and emits a
//! stream of tokens that the renderer turns into the final text.
//!
//! The emitted stream is specified exactly by the recursive function
//! [`notate_from`]; the executable notator is proved to produce it.

use vstd::prelude::*;
use crate::gcd_s;
use crate::reduce_fraction;
use crate::rat::{Rat, millibpm_s, millibpm, raw_ticks_s, raw_ticks};
use crate::tempo::Timing;
use crate::notes::HitObj;
use crate::layout::LaneLayout;
use crate::errors::ChartError;

verus! {

/// One piece of the output stream.
#[derive(Clone, Copy, Debug)]
pub enum Token {
    /// The header line with the start time in milliseconds.
    Header { ms: i32 },
    /// The opening tempo marker, on the same line.
    TempoFirst { millibpm: i128 },
    /// A tempo marker after a tempo change: breaks the line.
    TempoMark { millibpm: i128 },
    /// A declared subdivision boundary: breaks the line.
    Boundary { denom: i128 },
    /// One note at the current instant; `dur` is `(denominator,
    /// numerator)` of a hold's length, if it is a hold.
    Hit { slash: bool, sym: char, dur: Option<(i128, i128)> },
    /// `count` measure separators after an instant.
    Seps { count: i128 },
}

/// The reduced form of `raw / 384`: numerator and denominator.
pub open spec fn frac_n(raw: int) -> int {
    raw / gcd_s(raw as nat, 384) as int
}

/// The reduced denominator of `raw / 384`.
pub open spec fn frac_d(raw: int) -> int {
    384int / gcd_s(raw as nat, 384) as int
}

/// A boundary must be declared: nothing is declared yet in this tempo
/// segment, the new denominator does not divide the declared one, or the
/// ratio has grown to eight or more.  `0` stands for "nothing declared".
pub open spec fn needs_boundary(div: int, d: int) -> bool {
    div == 0 || div % d != 0 || div / d >= 8
}

/// The declared subdivision after an instant with reduced denominator `d`.
pub open spec fn sub_next(div: int, d: int) -> int {
    if needs_boundary(div, d) {
        d
    } else {
        div
    }
}

/// The separator count after an instant: the reduced numerator, rescaled
/// into the declared subdivision's units when no boundary is declared.
pub open spec fn sub_count(div: int, n: int, d: int) -> int {
    if needs_boundary(div, d) {
        n
    } else {
        n * (div / d)
    }
}

/// The boundary tokens of an instant: one, or none.
pub open spec fn sub_tokens(div: int, d: int) -> Seq<Token> {
    if needs_boundary(div, d) {
        seq![Token::Boundary { denom: d as i128 }]
    } else {
        Seq::empty()
    }
}

/// How many tempo events starting exactly at `t` stand at `it`.
pub open spec fn absorb_n(tm: Seq<Timing>, it: int, t: int) -> int
    decreases tm.len() - it,
{
    if 0 <= it < tm.len() && tm[it].start_s() == t {
        1 + absorb_n(tm, it + 1, t)
    } else {
        0
    }
}

/// The tempo-marker tokens of `k` absorbed tempo events.
pub open spec fn tempo_tokens(tm: Seq<Timing>, it: int, k: int) -> Seq<Token>
    decreases k,
{
    if k <= 0 {
        Seq::empty()
    } else {
        (if tm[it] is Red {
            seq![Token::TempoMark { millibpm: millibpm_s(tm[it].bpm_rat()) as i128 }]
        } else {
            Seq::empty()
        }) + tempo_tokens(tm, it + 1, k - 1)
    }
}

/// The tempo in force after absorbing `k` events.
pub open spec fn bpm_after(tm: Seq<Timing>, it: int, k: int, b: Rat) -> Rat
    decreases k,
{
    if k <= 0 {
        b
    } else {
        bpm_after(
            tm,
            it + 1,
            k - 1,
            if tm[it] is Red {
                tm[it].bpm_rat()
            } else {
                b
            },
        )
    }
}

/// Whether any of `k` absorbed events is a tempo change.
pub open spec fn any_red(tm: Seq<Timing>, it: int, k: int) -> bool
    decreases k,
{
    if k <= 0 {
        false
    } else {
        (tm[it] is Red) || any_red(tm, it + 1, k - 1)
    }
}

/// How many notes starting exactly at `t` stand at `ih`.
pub open spec fn hits_n(hs: Seq<HitObj>, ih: int, t: int) -> int
    decreases hs.len() - ih,
{
    if 0 <= ih < hs.len() && hs[ih].start_s() == t {
        1 + hits_n(hs, ih + 1, t)
    } else {
        0
    }
}

/// The token of one note: its lane symbol, a slash before every note but
/// the first of an instant, and a hold's reduced duration fraction.
pub open spec fn hit_token(h: HitObj, slash: bool, b: Rat, lay: Seq<char>) -> Token {
    let dur = match h {
        HitObj::Tap { .. } => None,
        HitObj::Long { start, end, .. } => {
            let raw = raw_ticks_s(end - start, b);
            Some((frac_d(raw) as i128, frac_n(raw) as i128))
        },
    };
    Token::Hit { slash, sym: lay[h.pos_s()], dur }
}

/// The tokens of the `k` notes collected at one instant.
pub open spec fn hit_tokens(hs: Seq<HitObj>, ih: int, k: int, b: Rat, lay: Seq<char>) -> Seq<
    Token,
>
    decreases k,
{
    if k <= 0 {
        Seq::empty()
    } else {
        hit_tokens(hs, ih, k - 1, b, lay).push(hit_token(hs[ih + k - 1], k - 1 > 0, b, lay))
    }
}

/// The smaller of two optional timestamps.
pub open spec fn min_opt(a: Option<int>, b: Option<int>) -> Option<int> {
    match (a, b) {
        (None, None) => None,
        (Some(x), None) => Some(x),
        (None, Some(y)) => Some(y),
        (Some(x), Some(y)) => Some(
            if x <= y {
                x
            } else {
                y
            },
        ),
    }
}

/// The next instant: the smallest start among the first unconsumed tempo
/// event and the first unconsumed note, if either exists.
pub open spec fn next_instant(tm: Seq<Timing>, hs: Seq<HitObj>, it: int, ih: int) -> Option<
    int,
> {
    min_opt(
        if it < tm.len() {
            Some(tm[it].start_s())
        } else {
            None
        },
        if ih < hs.len() {
            Some(hs[ih].start_s())
        } else {
            None
        },
    )
}

/// The token stream from the state `(it, ih, t, b, div)` on: tempo events
/// at the cursor are absorbed (tempo markers; a tempo change resets the
/// declared subdivision), the notes at the cursor are collected, the span
/// to the next instant is reduced and drives the subdivision bookkeeping,
/// and the walk continues at the next instant while notes remain.
pub open spec fn notate_from(
    tm: Seq<Timing>,
    hs: Seq<HitObj>,
    lay: Seq<char>,
    it: int,
    ih: int,
    t: int,
    b: Rat,
    div: int,
) -> Seq<Token>
    decreases
            (if 0 <= it <= tm.len() {
                tm.len() - it
            } else {
                0
            }) + (if 0 <= ih <= hs.len() {
                hs.len() - ih
            } else {
                0
            }),
            (if absorb_n(tm, it, t) + hits_n(hs, ih, t) == 0 {
                1int
            } else {
                0int
            }),
    via notate_from_decreases
{
    if !(0 <= it <= tm.len() && 0 <= ih < hs.len()) {
        Seq::empty()
    } else {
        let a = absorb_n(tm, it, t);
        let ttoks = tempo_tokens(tm, it, a);
        let b1 = bpm_after(tm, it, a, b);
        let div1 = if any_red(tm, it, a) {
            0
        } else {
            div
        };
        let it1 = it + a;
        let h = hits_n(hs, ih, t);
        let ih1 = ih + h;
        match next_instant(tm, hs, it1, ih1) {
            None => ttoks + hit_tokens(hs, ih, h, b1, lay) + seq![Token::Seps { count: 0 }],
            Some(tn) => {
                let raw = raw_ticks_s(tn - t, b1);
                let n0 = frac_n(raw);
                let d0 = frac_d(raw);
                ttoks + sub_tokens(div1, d0) + hit_tokens(hs, ih, h, b1, lay) + seq![
                    Token::Seps { count: sub_count(div1, n0, d0) as i128 },
                ] + notate_from(tm, hs, lay, it1, ih1, tn, b1, sub_next(div1, d0))
            },
        }
    }
}

#[via_fn]
proof fn notate_from_decreases(
    tm: Seq<Timing>,
    hs: Seq<HitObj>,
    lay: Seq<char>,
    it: int,
    ih: int,
    t: int,
    b: Rat,
    div: int,
) {
    if 0 <= it <= tm.len() && 0 <= ih < hs.len() {
        let a = absorb_n(tm, it, t);
        let h = hits_n(hs, ih, t);
        lemma_absorb_n_bounds(tm, it, t);
        lemma_hits_n_bounds(hs, ih, t);
        let it1 = it + a;
        let ih1 = ih + h;
        match next_instant(tm, hs, it1, ih1) {
            None => {},
            Some(tn) => {
                if a + h == 0 {
                    lemma_absorb_n_bounds(tm, it1, tn);
                    lemma_hits_n_bounds(hs, ih1, tn);
                    if it1 < tm.len() && tm[it1].start_s() == tn {
                        lemma_absorb_n_bounds(tm, it1 + 1, tn);
                        assert(absorb_n(tm, it1, tn) >= 1);
                    } else {
                        assert(ih1 < hs.len() && hs[ih1].start_s() == tn);
                        lemma_hits_n_bounds(hs, ih1 + 1, tn);
                        assert(hits_n(hs, ih1, tn) >= 1);
                    }
                }
            },
        }
    }
}

/// The absorb count stays within the remaining events.
pub proof fn lemma_absorb_n_bounds(tm: Seq<Timing>, it: int, t: int)
    requires
        0 <= it <= tm.len(),
    ensures
        0 <= absorb_n(tm, it, t) <= tm.len() - it,
        forall|j: int| it <= j < it + absorb_n(tm, it, t) ==> tm[j].start_s() == t,
        it + absorb_n(tm, it, t) < tm.len() ==> tm[it + absorb_n(tm, it, t)].start_s() != t,
    decreases tm.len() - it,
{
    if it < tm.len() && tm[it].start_s() == t {
        lemma_absorb_n_bounds(tm, it + 1, t);
    }
}

/// The hit count stays within the remaining notes.
pub proof fn lemma_hits_n_bounds(hs: Seq<HitObj>, ih: int, t: int)
    requires
        0 <= ih <= hs.len(),
    ensures
        0 <= hits_n(hs, ih, t) <= hs.len() - ih,
        forall|j: int| ih <= j < ih + hits_n(hs, ih, t) ==> hs[j].start_s() == t,
        ih + hits_n(hs, ih, t) < hs.len() ==> hs[ih + hits_n(hs, ih, t)].start_s() != t,
    decreases hs.len() - ih,
{
    if ih < hs.len() && hs[ih].start_s() == t {
        lemma_hits_n_bounds(hs, ih + 1, t);
    }
}

/// Starts never decrease along the sequence.
pub open spec fn sorted_tm(tm: Seq<Timing>) -> bool {
    forall|i: int, j: int| 0 <= i < j < tm.len() ==> tm[i].start_s() <= tm[j].start_s()
}

/// Starts never decrease along the sequence.
pub open spec fn sorted_hs(hs: Seq<HitObj>) -> bool {
    forall|i: int, j: int| 0 <= i < j < hs.len() ==> hs[i].start_s() <= hs[j].start_s()
}

/// Both inputs are in time order, and no tempo event after the opening
/// one lies before the first note, where the walk starts.
pub open spec fn well_ordered(tm: Seq<Timing>, hs: Seq<HitObj>) -> bool {
    &&& sorted_tm(tm)
    &&& sorted_hs(hs)
    &&& forall|i: int| 1 <= i < tm.len() ==> tm[i].start_s() >= hs[0].start_s()
}

/// Every timing event is well formed.
pub open spec fn all_tm_wf(tm: Seq<Timing>) -> bool {
    forall|i: int| 0 <= i < tm.len() ==> (#[trigger] tm[i]).wf()
}

/// Every note event is well formed.
pub open spec fn all_hs_wf(hs: Seq<HitObj>) -> bool {
    forall|i: int| 0 <= i < hs.len() ==> (#[trigger] hs[i]).wf()
}

/// The tempo map opens with a tempo change.
pub open spec fn has_tempo(tm: Seq<Timing>) -> bool {
    tm.len() > 0 && tm[0] is Red
}

/// The whole token stream of a conversion: the header with the first
/// note's time, the opening tempo marker, then the walk from the first
/// instant.
pub open spec fn notate_s(tm: Seq<Timing>, hs: Seq<HitObj>, lay: Seq<char>) -> Seq<Token> {
    let b0 = tm[0].bpm_rat();
    seq![
        Token::Header { ms: hs[0].start_s() as i32 },
        Token::TempoFirst { millibpm: millibpm_s(b0) as i128 },
    ] + notate_from(tm, hs, lay, 1, 0, hs[0].start_s(), b0, 0)
}

/// When exactly `k` notes at `ih` start at `t`, the hit count is `k`.
pub proof fn lemma_hits_n_exact(hs: Seq<HitObj>, ih: int, k: int, t: int)
    requires
        0 <= ih,
        ih + k <= hs.len(),
        0 <= k,
        forall|j: int| ih <= j < ih + k ==> hs[j].start_s() == t,
        ih + k == hs.len() || hs[ih + k].start_s() != t,
    ensures
        hits_n(hs, ih, t) == k,
    decreases k,
{
    if k > 0 {
        lemma_hits_n_exact(hs, ih + 1, k - 1, t);
    }
}

/// Absorbing one tempo event at the cursor peels its marker token, if it
/// is a tempo change, off the front of the stream and advances the state:
/// a tempo change installs its tempo and resets the declared subdivision.
pub proof fn lemma_notate_absorb_step(
    tm: Seq<Timing>,
    hs: Seq<HitObj>,
    lay: Seq<char>,
    it: int,
    ih: int,
    t: int,
    b: Rat,
    div: int,
)
    requires
        0 <= it < tm.len(),
        0 <= ih < hs.len(),
        tm[it].start_s() == t,
    ensures
        notate_from(tm, hs, lay, it, ih, t, b, div) == (if tm[it] is Red {
            seq![Token::TempoMark { millibpm: millibpm_s(tm[it].bpm_rat()) as i128 }]
        } else {
            Seq::<Token>::empty()
        }) + notate_from(
            tm,
            hs,
            lay,
            it + 1,
            ih,
            t,
            if tm[it] is Red {
                tm[it].bpm_rat()
            } else {
                b
            },
            if tm[it] is Red {
                0int
            } else {
                div
            },
        ),
{
    let a = absorb_n(tm, it, t);
    lemma_absorb_n_bounds(tm, it, t);
    let b2 = if tm[it] is Red {
        tm[it].bpm_rat()
    } else {
        b
    };
    let div2 = if tm[it] is Red {
        0int
    } else {
        div
    };
    let head = if tm[it] is Red {
        seq![Token::TempoMark { millibpm: millibpm_s(tm[it].bpm_rat()) as i128 }]
    } else {
        Seq::<Token>::empty()
    };
    assert(a >= 1);
    assert(absorb_n(tm, it + 1, t) == a - 1);
    assert(tempo_tokens(tm, it, a) == head + tempo_tokens(tm, it + 1, a - 1));
    assert(bpm_after(tm, it, a, b) == bpm_after(tm, it + 1, a - 1, b2));
    assert((if any_red(tm, it, a) {
        0int
    } else {
        div
    }) == (if any_red(tm, it + 1, a - 1) {
        0int
    } else {
        div2
    }));
    let lhs = notate_from(tm, hs, lay, it, ih, t, b, div);
    let rhs = notate_from(tm, hs, lay, it + 1, ih, t, b2, div2);
    assert(lhs =~= head + rhs);
}

/// Are both inputs in time order, with no tempo event after the first
/// one lying before the first note?
#[verifier::rlimit(100)]
#[verifier::loop_isolation(false)]
pub fn order_ok(timings: &Vec<Timing>, hitobjs: &Vec<HitObj>) -> (r: bool)
    requires
        hitobjs@.len() > 0,
    ensures
        r == well_ordered(timings@, hitobjs@),
{
    let ghost tmv = timings@;
    let ghost hsv = hitobjs@;
    let n_t = timings.len();
    let n_h = hitobjs.len();
    let mut i: usize = 1;
    while i < n_t
        invariant
            1 <= i,
            i <= n_t || n_t == 0,
            forall|k: int| 1 <= k < i ==> (#[trigger] tmv[k]).start_s() >= tmv[k - 1].start_s(),
        decreases n_t - i,
    {
        if timings[i].start() < timings[i - 1].start() {
            proof {
                let w = i as int;
                assert(tmv[w].start_s() < tmv[w - 1].start_s());
                assert(!sorted_tm(tmv));
            }
            return false;
        }
        i = i + 1;
    }
    let mut i2: usize = 1;
    while i2 < n_h
        invariant
            1 <= i2 <= n_h,
            forall|k: int| 1 <= k < i2 ==> (#[trigger] hsv[k]).start_s() >= hsv[k - 1].start_s(),
        decreases n_h - i2,
    {
        if hitobjs[i2].start() < hitobjs[i2 - 1].start() {
            proof {
                let w = i2 as int;
                assert(hsv[w].start_s() < hsv[w - 1].start_s());
                assert(!sorted_hs(hsv));
            }
            return false;
        }
        i2 = i2 + 1;
    }
    proof {
        lemma_adjacent_sorted(tmv, hsv);
    }
    let first_start = hitobjs[0].start();
    let mut i3: usize = 1;
    while i3 < n_t
        invariant
            1 <= i3,
            i3 <= n_t || n_t == 0,
            forall|k: int| 1 <= k < i3 ==> (#[trigger] tmv[k]).start_s() >= hsv[0].start_s(),
        decreases n_t - i3,
    {
        if timings[i3].start() < first_start {
            proof {
                let w = i3 as int;
                assert(tmv[w].start_s() < hsv[0].start_s());
                assert(!well_ordered(tmv, hsv));
            }
            return false;
        }
        i3 = i3 + 1;
    }
    true
}

/// Decide the subdivision for one span: reduce it, declare a boundary
/// when the rule asks for one, and hand back the separator count in the
/// declared subdivision's units.
fn emit_sub(toks: &mut Vec<Token>, div: &mut i128, dt: i64, b: &Rat) -> (sn: i128)
    requires
        0 <= dt <= 0x1_0000_0000,
        b.wf_pos(),
        *old(div) == 0 || 1 <= *old(div) <= 384,
    ensures
        ({
            let raw = raw_ticks_s(dt as int, *b);
            &&& final(toks)@ == old(toks)@ + sub_tokens(*old(div) as int, frac_d(raw))
            &&& *final(div) == sub_next(*old(div) as int, frac_d(raw))
            &&& sn == sub_count(*old(div) as int, frac_n(raw), frac_d(raw))
            &&& 1 <= *final(div) <= 384
            &&& sn >= 0
        }),
{
    let raw = raw_ticks(dt, b);
    let nd = reduce_fraction(raw);
    let n0 = nd.0;
    let d0 = nd.1;
    if *div == 0 || *div % d0 != 0 || *div / d0 >= 8 {
        toks.push(Token::Boundary { denom: d0 });
        *div = d0;
        n0
    } else {
        let x = *div / d0;
        proof {
            assert(n0 * x <= crate::rat::RAW_TICKS_MAX * 384 && n0 * x >= 0) by (nonlinear_arith)
                requires
                    0 <= n0 <= crate::rat::RAW_TICKS_MAX,
                    0 <= x <= 384,
            ;
            assert(old(toks)@ + sub_tokens(*old(div) as int, frac_d(raw as int)) =~= old(
                toks,
            )@);
        }
        n0 * x
    }
}

/// Emit the notes collected at one instant, a slash before every one but
/// the first, holds with their reduced duration fractions.
#[verifier::loop_isolation(false)]
fn emit_hits(
    toks: &mut Vec<Token>,
    hits: &Vec<HitObj>,
    b: &Rat,
    lay: &LaneLayout,
    Ghost(hsv): Ghost<Seq<HitObj>>,
    Ghost(ih0): Ghost<int>,
)
    requires
        b.wf_pos(),
        lay.wf(),
        all_hs_wf(hsv),
        0 <= ih0,
        ih0 + hits@.len() <= hsv.len(),
        forall|k: int| 0 <= k < hits@.len() ==> hits@[k] == hsv[ih0 + k],
    ensures
        final(toks)@ == old(toks)@ + hit_tokens(hsv, ih0, hits@.len() as int, *b, lay.syms@),
{
    let h = hits.len();
    let mut k: usize = 0;
    while k < h
        invariant
            0 <= k <= h,
            toks@ == old(toks)@ + hit_tokens(hsv, ih0, k as int, *b, lay.syms@),
        decreases h - k,
    {
        let ho = hits[k];
        proof {
            assert(hsv[ih0 + k].wf());
        }
        let sym = lay.sym(ho.pos());
        let tok = match ho {
            HitObj::Tap { .. } => Token::Hit { slash: k > 0, sym, dur: None },
            HitObj::Long { start, end, .. } => {
                let dt2: i64 = (end as i64) - (start as i64);
                let raw2 = raw_ticks(dt2, b);
                let nd2 = reduce_fraction(raw2);
                Token::Hit { slash: k > 0, sym, dur: Some((nd2.1, nd2.0)) }
            },
        };
        toks.push(tok);
        proof {
            assert(tok == hit_token(hsv[ih0 + k], k > 0, *b, lay.syms@));
            assert(toks@ =~= old(toks)@ + hit_tokens(hsv, ih0, k + 1, *b, lay.syms@));
        }
        k = k + 1;
    }
}

/// Walk the tempo map and the note timeline and emit the token stream.
///
/// Fails when the tempo map does not open with a tempo change, when the
/// timeline is empty, or when the inputs are not in time order; otherwise
/// the returned stream is exactly [`notate_s`] of the inputs.
#[verifier::rlimit(100)]
#[verifier::loop_isolation(false)]
pub fn notate(timings: &Vec<Timing>, hitobjs: &Vec<HitObj>, lay: &LaneLayout) -> (r: Result<
    Vec<Token>,
    ChartError,
>)
    requires
        all_tm_wf(timings@),
        all_hs_wf(hitobjs@),
        lay.wf(),
    ensures
        match r {
            Ok(toks) => has_tempo(timings@) && hitobjs@.len() > 0 && well_ordered(
                timings@,
                hitobjs@,
            ) && toks@ == notate_s(timings@, hitobjs@, lay.syms@),
            Err(e) => {
                &&& (e == ChartError::NoInitialTempo <==> !has_tempo(timings@))
                &&& (e == ChartError::EmptyTimeline <==> has_tempo(timings@) && hitobjs@.len()
                    == 0)
                &&& (e == ChartError::UnorderedInput <==> has_tempo(timings@)
                    && hitobjs@.len() > 0 && !well_ordered(timings@, hitobjs@))
                &&& (e is NoInitialTempo || e is EmptyTimeline || e is UnorderedInput)
            },
        },
{
    let ghost tmv = timings@;
    let ghost hsv = hitobjs@;
    let ghost layv = lay.syms@;
    let n_t = timings.len();
    let n_h = hitobjs.len();
    if n_t == 0 {
        return Err(ChartError::NoInitialTempo);
    }
    let first_red = match timings[0] {
        Timing::Red { .. } => true,
        Timing::Green { .. } => false,
    };
    if !first_red {
        return Err(ChartError::NoInitialTempo);
    }
    proof {
        assert(has_tempo(tmv));
    }
    if n_h == 0 {
        return Err(ChartError::EmptyTimeline);
    }
    if !order_ok(timings, hitobjs) {
        return Err(ChartError::UnorderedInput);
    }
    // the walk
    let mut toks: Vec<Token> = Vec::new();
    let b0 = timings[0].bpm();
    proof {
        assert(tmv[0].wf());
    }
    let t0 = hitobjs[0].start();
    toks.push(Token::Header { ms: t0 });
    let mb0 = millibpm(&b0);
    toks.push(Token::TempoFirst { millibpm: mb0 });
    let ghost prefix = seq![
        Token::Header { ms: t0 },
        Token::TempoFirst { millibpm: millibpm_s(b0) as i128 },
    ];
    proof {
        assert(toks@ =~= prefix);
    }
    let mut it: usize = 1;
    let mut ih: usize = 0;
    let mut t: i32 = t0;
    let mut b: Rat = b0;
    let mut div: i128 = 0;
    while ih < n_h
        invariant
            1 <= it <= n_t,
            0 <= ih <= n_h,
            n_t == tmv.len(),
            n_h == hsv.len(),
            timings@ == tmv,
            hitobjs@ == hsv,
            layv == lay.syms@,
            all_tm_wf(tmv),
            all_hs_wf(hsv),
            lay.wf(),
            sorted_tm(tmv),
            sorted_hs(hsv),
            b.wf_pos(),
            div == 0 || 1 <= div <= 384,
            forall|j: int| it <= j < n_t ==> tmv[j].start_s() >= t,
            forall|j: int| ih <= j < n_h ==> hsv[j].start_s() >= t,
            ih < n_h ==> ((it < n_t && tmv[it as int].start_s() == t) || hsv[ih as int].start_s()
                == t),
            notate_s(tmv, hsv, layv) == toks@ + notate_from(
                tmv,
                hsv,
                layv,
                it as int,
                ih as int,
                t as int,
                b,
                div as int,
            ),
        decreases (n_t - it) + (n_h - ih),
    {
        let ghost it_in = it as int;
        let ghost ih_in = ih as int;
        let ghost t_in = t as int;
        // absorb tempo events at the cursor
        while it < n_t && timings[it].start() == t
            invariant
                it_in <= it <= n_t,
                ih < n_h,
                n_t == tmv.len(),
                n_h == hsv.len(),
                timings@ == tmv,
                hitobjs@ == hsv,
                layv == lay.syms@,
                all_tm_wf(tmv),
                sorted_tm(tmv),
                b.wf_pos(),
                div == 0 || 1 <= div <= 384,
                forall|j: int| it <= j < n_t ==> tmv[j].start_s() >= t,
                notate_s(tmv, hsv, layv) == toks@ + notate_from(
                    tmv,
                    hsv,
                    layv,
                    it as int,
                    ih as int,
                    t as int,
                    b,
                    div as int,
                ),
            decreases n_t - it,
        {
            proof {
                lemma_notate_absorb_step(
                    tmv,
                    hsv,
                    layv,
                    it as int,
                    ih as int,
                    t as int,
                    b,
                    div as int,
                );
                assert(tmv[it as int].wf());
            }
            let ghost pre = toks@;
            let ghost tail2 = notate_from(
                tmv,
                hsv,
                layv,
                it as int + 1,
                ih as int,
                t as int,
                if tmv[it as int] is Red {
                    tmv[it as int].bpm_rat()
                } else {
                    b
                },
                if tmv[it as int] is Red {
                    0int
                } else {
                    div as int
                },
            );
            match timings[it] {
                Timing::Red { bpm, .. } => {
                    b = bpm;
                    let mb = millibpm(&b);
                    toks.push(Token::TempoMark { millibpm: mb });
                    div = 0;
                    proof {
                        assert(toks@ =~= pre + seq![
                            Token::TempoMark { millibpm: millibpm_s(b) as i128 },
                        ]);
                        assert((pre + seq![
                            Token::TempoMark { millibpm: millibpm_s(b) as i128 },
                        ]) + tail2 =~= pre + (seq![
                            Token::TempoMark { millibpm: millibpm_s(b) as i128 },
                        ] + tail2));
                    }
                },
                Timing::Green { .. } => {
                    proof {
                        assert(Seq::<Token>::empty() + tail2 =~= tail2);
                    }
                },
            }
            it = it + 1;
        }
        // collect the notes at the cursor
        let ghost ih0 = ih as int;
        let mut hits: Vec<HitObj> = Vec::new();
        while ih < n_h && hitobjs[ih].start() == t
            invariant
                ih0 <= ih <= n_h,
                n_h == hsv.len(),
                hitobjs@ == hsv,
                hits@.len() == ih - ih0,
                forall|k: int| 0 <= k < hits@.len() ==> hits@[k] == hsv[ih0 + k],
                forall|j: int| ih0 <= j < ih ==> hsv[j].start_s() == t,
            decreases n_h - ih,
        {
            hits.push(hitobjs[ih]);
            ih = ih + 1;
        }
        proof {
            lemma_hits_n_exact(hsv, ih0, ih - ih0, t as int);
            assert(it == n_t || tmv[it as int].start_s() != t_in);
            assert(ih == n_h || hsv[ih as int].start_s() != t_in);
        }
        let h = hits.len();
        // the next instant, if any
        let mut has_next = false;
        let mut tn: i32 = 0;
        if it < n_t {
            has_next = true;
            tn = timings[it].start();
        }
        if ih < n_h {
            let s2 = hitobjs[ih].start();
            if !has_next || s2 < tn {
                tn = s2;
            }
            has_next = true;
        }
        let ghost div_pre = div as int;
        let ghost toks_pre = toks@;
        // subdivision bookkeeping for the span to the next instant
        let mut sn: i128 = 0;
        let ghost mut raw_g: int = 0;
        if has_next {
            proof {
                assert(tn >= t);
            }
            let dt: i64 = (tn as i64) - (t as i64);
            proof {
                raw_g = raw_ticks_s(dt as int, b);
            }
            sn = emit_sub(&mut toks, &mut div, dt, &b);
        }
        // emit the collected notes
        let ghost boundary_toks = if has_next {
            sub_tokens(div_pre, frac_d(raw_g))
        } else {
            Seq::<Token>::empty()
        };
        proof {
            assert(toks@ =~= toks_pre + boundary_toks);
        }
        emit_hits(&mut toks, &hits, &b, lay, Ghost(hsv), Ghost(ih0));
        proof {
            assert(hits@.len() == h);
        }
        toks.push(Token::Seps { count: sn });
        // restore the walk invariant at the next instant
        proof {
            let itv = it as int;
            let ihv = ih as int;
            let tv = t as int;
            assert(absorb_n(tmv, itv, tv) == 0);
            assert(hits_n(hsv, ih0, tv) == h);
            let nx = next_instant(tmv, hsv, itv, ihv);
            if has_next {
                assert(nx == Some(tn as int));
            } else {
                assert(nx is None);
            }
            let inner = notate_from(tmv, hsv, layv, itv, ih0, tv, b, div_pre);
            if has_next {
                let raw = raw_ticks_s(tn - t, b);
                assert(raw == raw_g);
                let tail3 = notate_from(
                    tmv,
                    hsv,
                    layv,
                    itv,
                    ihv,
                    tn as int,
                    b,
                    sub_next(div_pre, frac_d(raw)),
                );
                assert(inner =~= tempo_tokens(tmv, itv, 0) + sub_tokens(div_pre, frac_d(raw))
                    + hit_tokens(hsv, ih0, h as int, b, layv) + seq![
                    Token::Seps { count: sub_count(div_pre, frac_n(raw), frac_d(raw)) as i128 },
                ] + tail3);
                assert(sn == sub_count(div_pre, frac_n(raw), frac_d(raw)));
                assert(div as int == sub_next(div_pre, frac_d(raw)));
                assert(toks@ =~= toks_pre + boundary_toks + hit_tokens(
                    hsv,
                    ih0,
                    h as int,
                    b,
                    layv,
                ) + seq![Token::Seps { count: sn }]);
                assert(toks@ + tail3 =~= toks_pre + inner);
            } else {
                assert(inner =~= tempo_tokens(tmv, itv, 0) + hit_tokens(
                    hsv,
                    ih0,
                    h as int,
                    b,
                    layv,
                ) + seq![Token::Seps { count: 0 }]);
                assert(toks@ =~= toks_pre + inner);
                assert(ihv == n_h);
                assert(toks@ + notate_from(tmv, hsv, layv, itv, ihv, tv, b, div as int)
                    =~= toks@);
            }
        }
        if has_next {
            proof {
                // the new cursor keeps every unconsumed event at or after it
                assert forall|j: int| it <= j < n_t implies tmv[j].start_s() >= tn as int by {
                    if it < n_t {
                        assert(tmv[it as int].start_s() >= tn as int);
                    }
                }
                assert forall|j: int| ih <= j < n_h implies hsv[j].start_s() >= tn as int by {
                    if ih < n_h {
                        assert(hsv[ih as int].start_s() >= tn as int);
                    }
                }
            }
            t = tn;
        }
        proof {
            if it == it_in && ih == ih_in {
                assert(hsv[ih_in].start_s() == t_in || (it_in < n_t && tmv[it_in].start_s()
                    == t_in));
                assert(false);
            }
        }
    }
    proof {
        assert(notate_from(tmv, hsv, layv, it as int, ih as int, t as int, b, div as int)
            =~= Seq::<Token>::empty());
        assert(toks@ =~= notate_s(tmv, hsv, layv));
    }
    Ok(toks)
}

/// Adjacent order gives full order.
proof fn lemma_adjacent_sorted(tm: Seq<Timing>, hs: Seq<HitObj>)
    requires
        forall|k: int| 1 <= k < tm.len() ==> (#[trigger] tm[k]).start_s() >= tm[k - 1].start_s(),
        forall|k: int| 1 <= k < hs.len() ==> (#[trigger] hs[k]).start_s() >= hs[k - 1].start_s(),
    ensures
        sorted_tm(tm),
        sorted_hs(hs),
{
    assert forall|i: int, j: int|
        0 <= i < j < tm.len() implies tm[i].start_s() <= tm[j].start_s() by {
        lemma_chain_tm(tm, i, j);
    }
    assert forall|i: int, j: int|
        0 <= i < j < hs.len() implies hs[i].start_s() <= hs[j].start_s() by {
        lemma_chain_hs(hs, i, j);
    }
}

proof fn lemma_chain_tm(tm: Seq<Timing>, i: int, j: int)
    requires
        forall|k: int| 1 <= k < tm.len() ==> (#[trigger] tm[k]).start_s() >= tm[k - 1].start_s(),
        0 <= i <= j < tm.len(),
    ensures
        tm[i].start_s() <= tm[j].start_s(),
    decreases j - i,
{
    if i < j {
        lemma_chain_tm(tm, i, j - 1);
    }
}

proof fn lemma_chain_hs(hs: Seq<HitObj>, i: int, j: int)
    requires
        forall|k: int| 1 <= k < hs.len() ==> (#[trigger] hs[k]).start_s() >= hs[k - 1].start_s(),
        0 <= i <= j < hs.len(),
    ensures
        hs[i].start_s() <= hs[j].start_s(),
    decreases j - i,
{
    if i < j {
        lemma_chain_hs(hs, i, j - 1);
    }
}


} // verus!
