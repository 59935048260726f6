//! Reading a chart container and converting it.
//!
//! The container is line oriented: a line containing the timing-section
//! tag opens the tempo list, one containing the note-section tag opens
//! the note list, any other bracketed line closes both, blank lines are
//! skipped, and every other line is parsed in the open section.

use vstd::prelude::*;
use crate::errors::ChartError;
use crate::tempo::{Timing, tempo_rec_wf, tempo_value_s};
use crate::notes::{HitObj, hit_rec_wf, hit_value_s};
use crate::scan::{has_sub, trim_s, str_to_chars, trim_chars, contains_sub};
use crate::layout::{LaneLayout, valid_key};
use crate::notate::{notate, notate_s, has_tempo, well_ordered, all_tm_wf, all_hs_wf};
use crate::render::{render, render_s};

verus! {

/// The tag that opens the tempo section.
pub open spec fn tm_tag_s() -> Seq<char> {
    seq!['[', 'T', 'i', 'm', 'i', 'n', 'g', 'P', 'o', 'i', 'n', 't', 's', ']']
}

/// The tag that opens the note section.
pub open spec fn ho_tag_s() -> Seq<char> {
    seq!['[', 'H', 'i', 't', 'O', 'b', 'j', 'e', 'c', 't', 's', ']']
}

/// The events parsed from `lines[i..]`, with the tempo section open when
/// `is_tm` and the note section open when `is_ho`.  A line holding a tag
/// switches sections, any other bracketed line closes both, a blank line
/// is skipped, and a line in an open section must parse.
pub open spec fn scan_rec(
    lines: Seq<Seq<char>>,
    i: int,
    tmt: Seq<char>,
    hot: Seq<char>,
    is_tm: bool,
    is_ho: bool,
) -> Result<(Seq<Timing>, Seq<HitObj>), ChartError>
    decreases lines.len() - i,
{
    if i < 0 || i >= lines.len() {
        Ok((Seq::empty(), Seq::empty()))
    } else {
        let l = lines[i];
        if has_sub(l, tmt) {
            scan_rec(lines, i + 1, tmt, hot, true, false)
        } else if has_sub(l, hot) {
            scan_rec(lines, i + 1, tmt, hot, false, true)
        } else if l.len() > 0 && l[0] == '[' {
            scan_rec(lines, i + 1, tmt, hot, false, false)
        } else if trim_s(l).len() == 0 {
            scan_rec(lines, i + 1, tmt, hot, is_tm, is_ho)
        } else if is_tm {
            if tempo_rec_wf(l) {
                match scan_rec(lines, i + 1, tmt, hot, is_tm, is_ho) {
                    Ok(r) => Ok((seq![tempo_value_s(l)] + r.0, r.1)),
                    Err(e) => Err(e),
                }
            } else {
                Err(ChartError::MalformedInput)
            }
        } else if is_ho {
            if hit_rec_wf(l) {
                match scan_rec(lines, i + 1, tmt, hot, is_tm, is_ho) {
                    Ok(r) => Ok((r.0, seq![hit_value_s(l)] + r.1)),
                    Err(e) => Err(e),
                }
            } else {
                Err(ChartError::MalformedInput)
            }
        } else {
            scan_rec(lines, i + 1, tmt, hot, is_tm, is_ho)
        }
    }
}

/// The views of a list of lines.
pub open spec fn line_views(lines: Seq<String>) -> Seq<Seq<char>> {
    lines.map_values(|x: String| x@)
}

/// Split the container's lines into the tempo map and the note timeline.
#[verifier::loop_isolation(false)]
pub fn parse_chart(lines: &Vec<String>, tm_tag: &str, ho_tag: &str) -> (r: Result<
    (Vec<Timing>, Vec<HitObj>),
    ChartError,
>)
    ensures
        match r {
            Ok(p) => scan_rec(line_views(lines@), 0, tm_tag@, ho_tag@, false, false) == Ok::<
                _,
                ChartError,
            >((p.0@, p.1@)) && all_tm_wf(p.0@) && all_hs_wf(p.1@),
            Err(e) => scan_rec(line_views(lines@), 0, tm_tag@, ho_tag@, false, false)
                == Err::<(Seq<Timing>, Seq<HitObj>), _>(e),
        },
{
    let ghost lv = line_views(lines@);
    let ghost tmt = tm_tag@;
    let ghost hot = ho_tag@;
    let tmt_chars = str_to_chars(tm_tag);
    let hot_chars = str_to_chars(ho_tag);
    let n = lines.len();
    let mut timings: Vec<Timing> = Vec::new();
    let mut hitobjs: Vec<HitObj> = Vec::new();
    let mut is_tm = false;
    let mut is_ho = false;
    let mut i: usize = 0;
    while i < n
        invariant
            i <= n,
            n == lines@.len(),
            lv == line_views(lines@),
            tmt == tmt_chars@,
            hot == hot_chars@,
            all_tm_wf(timings@),
            all_hs_wf(hitobjs@),
            scan_rec(lv, 0, tmt, hot, false, false) == (match scan_rec(
                lv,
                i as int,
                tmt,
                hot,
                is_tm,
                is_ho,
            ) {
                Ok(r) => Ok::<_, ChartError>((timings@ + r.0, hitobjs@ + r.1)),
                Err(e) => Err(e),
            }),
        decreases n - i,
    {
        let line = &lines[i];
        let chars = str_to_chars(line.as_str());
        proof {
            assert(lv[i as int] == chars@);
        }
        if contains_sub(&chars, &tmt_chars) {
            is_tm = true;
            is_ho = false;
        } else if contains_sub(&chars, &hot_chars) {
            is_ho = true;
            is_tm = false;
        } else if chars.len() > 0 && chars[0] == '[' {
            is_ho = false;
            is_tm = false;
        } else {
            let trimmed = trim_chars(&chars);
            if trimmed.len() == 0 {
            } else if is_tm {
                match Timing::parse(line.as_str()) {
                    Ok(tv) => {
                        let ghost pre = timings@;
                        timings.push(tv);
                        proof {
                            assert(timings@ =~= pre + seq![tempo_value_s(chars@)]);
                            let rec = scan_rec(lv, i + 1, tmt, hot, is_tm, is_ho);
                            if rec is Ok {
                                let rr = rec->Ok_0;
                                assert((pre + seq![tempo_value_s(chars@)]) + rr.0 =~= pre + (
                                seq![tempo_value_s(chars@)] + rr.0));
                            }
                        }
                    },
                    Err(e) => {
                        return Err(e);
                    },
                }
            } else if is_ho {
                match HitObj::parse(line.as_str()) {
                    Ok(hv) => {
                        let ghost pre = hitobjs@;
                        hitobjs.push(hv);
                        proof {
                            assert(hitobjs@ =~= pre + seq![hit_value_s(chars@)]);
                            let rec = scan_rec(lv, i + 1, tmt, hot, is_tm, is_ho);
                            if rec is Ok {
                                let rr = rec->Ok_0;
                                assert((pre + seq![hit_value_s(chars@)]) + rr.1 =~= pre + (
                                seq![hit_value_s(chars@)] + rr.1));
                            }
                        }
                    },
                    Err(e) => {
                        return Err(e);
                    },
                }
            }
        }
        i = i + 1;
    }
    proof {
        assert(timings@ + Seq::<Timing>::empty() =~= timings@);
        assert(hitobjs@ + Seq::<HitObj>::empty() =~= hitobjs@);
    }
    Ok((timings, hitobjs))
}

/// What a whole conversion produces: the rendered stream, or the first
/// failure — an invalid key layout before any parsing, a malformed
/// record, a tempo map without an opening tempo change, an empty
/// timeline, or events out of time order.
pub open spec fn convert_s(lines: Seq<Seq<char>>, key: Option<Seq<char>>) -> Result<
    Seq<char>,
    ChartError,
> {
    let lay = match key {
        None => seq!['1', '2', '3', '4', '5', '6', '7', '8'],
        Some(k) => k,
    };
    if key is Some && !valid_key(lay) {
        Err(ChartError::InvalidKeyLayout)
    } else {
        match scan_rec(lines, 0, tm_tag_s(), ho_tag_s(), false, false) {
            Err(e) => Err(e),
            Ok(p) => if !has_tempo(p.0) {
                Err(ChartError::NoInitialTempo)
            } else if p.1.len() == 0 {
                Err(ChartError::EmptyTimeline)
            } else if !well_ordered(p.0, p.1) {
                Err(ChartError::UnorderedInput)
            } else {
                Ok(render_s(notate_s(p.0, p.1, lay)))
            },
        }
    }
}

/// Convert a chart: validate the key layout, split the lines into the
/// tempo map and the note timeline, quantize, and render.
pub fn convert(lines: &Vec<String>, key: Option<&str>) -> (r: Result<String, ChartError>)
    ensures
        match r {
            Ok(s) => convert_s(
                line_views(lines@),
                match key {
                    None => None,
                    Some(k) => Some(k@),
                },
            ) == Ok::<_, ChartError>(s@),
            Err(e) => convert_s(
                line_views(lines@),
                match key {
                    None => None,
                    Some(k) => Some(k@),
                },
            ) == Err::<Seq<char>, _>(e),
        },
{
    let lay = match key {
        None => LaneLayout::default_layout(),
        Some(k) => match LaneLayout::from_key(k) {
            Ok(l) => l,
            Err(e) => {
                return Err(e);
            },
        },
    };
    let tm_tag = "[TimingPoints]";
    let ho_tag = "[HitObjects]";
    proof {
        reveal_strlit("[TimingPoints]");
        reveal_strlit("[HitObjects]");
        assert(tm_tag@ =~= tm_tag_s());
        assert(ho_tag@ =~= ho_tag_s());
    }
    let parsed = match parse_chart(lines, tm_tag, ho_tag) {
        Ok(p) => p,
        Err(e) => {
            return Err(e);
        },
    };
    let timings = parsed.0;
    let hitobjs = parsed.1;
    let toks = match notate(&timings, &hitobjs, &lay) {
        Ok(t) => t,
        Err(e) => {
            return Err(e);
        },
    };
    Ok(render(&toks))
}

} // verus!
