//! The event timeline: instantaneous taps and held notes.
//!
//! A raw note record is read up to its first colon and split at commas.
//! The first field is a horizontal coordinate remapped onto eight lanes;
//! the third field is the start time; an odd fourth field makes a tap, an
//! even one a hold whose end time is the sixth field.

use vstd::prelude::*;
use crate::errors::ChartError;
use crate::scan::{
    split_s,
    find_c,
    int_grammar,
    int_val,
    str_to_chars,
    split_on,
    parse_i32,
    find_char,
    sub_chars,
};

verus! {

/// One note event on one of the eight lanes.
#[derive(Clone, Copy, Debug)]
pub enum HitObj {
    /// An instantaneous hit.
    Tap { pos: i32, start: i32 },
    /// A held note, ending strictly after it starts.
    Long { pos: i32, start: i32, end: i32 },
}

/// The comma fields of the part of a note record before its first colon.
pub open spec fn hit_fields(s: Seq<char>) -> Seq<Seq<char>> {
    split_s(s.take(find_c(s, ':')), ',')
}

/// Field `i` is a signed digit run whose value fits 32 bits.
pub open spec fn field_i32_ok(fs: Seq<Seq<char>>, i: int) -> bool {
    int_grammar(fs[i]) && -0x8000_0000 <= int_val(fs[i]) <= 0x7FFF_FFFF
}

/// A coordinate remapped onto the eight lanes: `x * 4 / 512`, truncated
/// toward zero.
pub open spec fn lane_of(x: int) -> int {
    if x >= 0 {
        (x * 4) / 512
    } else {
        -((-(x * 4)) / 512)
    }
}

/// The fourth field is odd: the record is a tap.
pub open spec fn hit_is_tap(s: Seq<char>) -> bool {
    int_val(hit_fields(s)[3]) % 2 != 0
}

/// A note record parses: it has a colon, at least four integer fields
/// before it, a coordinate that lands on a lane, and, for a hold, a sixth
/// field giving an end strictly after the start.
pub open spec fn hit_rec_wf(s: Seq<char>) -> bool {
    let fs = hit_fields(s);
    &&& find_c(s, ':') >= 0
    &&& fs.len() >= 4
    &&& field_i32_ok(fs, 0)
    &&& field_i32_ok(fs, 2)
    &&& field_i32_ok(fs, 3)
    &&& 0 <= lane_of(int_val(fs[0])) <= 7
    &&& (hit_is_tap(s) || (fs.len() >= 6 && field_i32_ok(fs, 5) && int_val(fs[5]) > int_val(
        fs[2],
    )))
}

/// The event a well-formed record denotes.
pub open spec fn hit_value_s(s: Seq<char>) -> HitObj {
    let fs = hit_fields(s);
    let pos = lane_of(int_val(fs[0])) as i32;
    let start = int_val(fs[2]) as i32;
    if hit_is_tap(s) {
        HitObj::Tap { pos, start }
    } else {
        HitObj::Long { pos, start, end: int_val(fs[5]) as i32 }
    }
}

impl HitObj {
    /// The lane is one of the eight; a hold ends after it starts.
    pub open spec fn wf(self) -> bool {
        match self {
            HitObj::Tap { pos, .. } => 0 <= pos <= 7,
            HitObj::Long { pos, start, end } => 0 <= pos <= 7 && end > start,
        }
    }

    /// The lane index of the event.
    pub open spec fn pos_s(self) -> int {
        match self {
            HitObj::Tap { pos, .. } => pos as int,
            HitObj::Long { pos, .. } => pos as int,
        }
    }

    /// The start timestamp of the event.
    pub open spec fn start_s(self) -> int {
        match self {
            HitObj::Tap { start, .. } => start as int,
            HitObj::Long { start, .. } => start as int,
        }
    }

    /// The end timestamp of a hold.
    pub open spec fn end_s(self) -> int {
        match self {
            HitObj::Tap { .. } => arbitrary(),
            HitObj::Long { end, .. } => end as int,
        }
    }

    /// Read one note record: the part before the first colon, split at
    /// commas into integer fields.  An odd fourth field is a tap; an even
    /// one a hold ending at the sixth field.  A record without a colon,
    /// with too few fields, with a field that is not an integer, with a
    /// coordinate off the lanes, or with a hold that does not end after
    /// its start is malformed.
    pub fn parse(str_obj: &str) -> (r: Result<HitObj, ChartError>)
        ensures
            match r {
                Ok(h) => hit_rec_wf(str_obj@) && h == hit_value_s(str_obj@) && h.wf(),
                Err(e) => !hit_rec_wf(str_obj@) && e == ChartError::MalformedInput,
            },
    {
        let chars = str_to_chars(str_obj);
        let colon = match find_char(&chars, ':') {
            Some(k) => k,
            None => {
                return Err(ChartError::MalformedInput);
            },
        };
        proof {
            crate::scan::lemma_find_range(chars@, ':');
        }
        let head = sub_chars(&chars, 0, colon);
        proof {
            assert(head@ =~= str_obj@.take(find_c(str_obj@, ':')));
        }
        let fs = split_on(&head, ',');
        if fs.len() < 4 {
            return Err(ChartError::MalformedInput);
        }
        let f0 = parse_i32(&fs[0]);
        let f2 = parse_i32(&fs[2]);
        let f3 = parse_i32(&fs[3]);
        match (f0, f2, f3) {
            (Some(x), Some(start), Some(t)) => {
                let e: i64 = (x as i64) * 4;
                let lane64: i64 = if e >= 0 {
                    e / 512
                } else {
                    -((-e) / 512)
                };
                if lane64 < 0 || lane64 > 7 {
                    return Err(ChartError::MalformedInput);
                }
                let pos = lane64 as i32;
                let odd: bool = if t >= 0 {
                    t % 2 == 1
                } else {
                    (-(t as i64)) % 2 == 1
                };
                if odd {
                    Ok(HitObj::Tap { pos, start })
                } else {
                    if fs.len() < 6 {
                        return Err(ChartError::MalformedInput);
                    }
                    match parse_i32(&fs[5]) {
                        Some(end) => {
                            if end <= start {
                                return Err(ChartError::MalformedInput);
                            }
                            Ok(HitObj::Long { pos, start, end })
                        },
                        None => Err(ChartError::MalformedInput),
                    }
                }
            },
            _ => Err(ChartError::MalformedInput),
        }
    }

    /// The lane index of the event.
    pub fn pos(&self) -> (r: i32)
        ensures
            r == self.pos_s(),
    {
        match self {
            HitObj::Tap { pos, .. } => *pos,
            HitObj::Long { pos, .. } => *pos,
        }
    }

    /// The start timestamp of the event.
    pub fn start(&self) -> (r: i32)
        ensures
            r == self.start_s(),
    {
        match self {
            HitObj::Tap { start, .. } => *start,
            HitObj::Long { start, .. } => *start,
        }
    }
}

} // verus!
