//! The tempo map: tempo-defining and scroll-only timing events.
//!
//! A raw timing record is a comma-separated list of at least seven decimal
//! fields.  A record whose seventh field is zero only changes the visual
//! scroll speed; any other record sets a new tempo.  The tempo is kept as
//! the exact rational `60000 * 10^k / mantissa` of the second field, so the
//! later measure-fraction arithmetic is exact.

use vstd::prelude::*;
use crate::rat::Rat;
use crate::errors::ChartError;
use crate::scan::{
    split_s,
    trim_s,
    dec_grammar,
    dec_digits_of,
    dec_mantissa,
    dec_scale,
    pow10,
    trunc_scaled,
    clamp_i32,
    str_to_chars,
    trim_chars,
    split_on,
    parse_decimal,
    scaled_to_i32,
    pow10_i64,
};

verus! {

/// One timing event: a tempo change or a scroll-speed change.
#[derive(Clone, Copy, Debug)]
pub enum Timing {
    /// Sets a new tempo of `bpm` beats per minute from `start` on.
    Red { start: i32, bpm: Rat, pat_num: i32 },
    /// Only changes the visual scroll speed; never affects quantization.
    Green { start: i32, speed: Rat },
}

/// The comma fields of a trimmed timing record.
pub open spec fn tempo_fields(s: Seq<char>) -> Seq<Seq<char>> {
    split_s(trim_s(s), ',')
}

/// Field `i` is a plain decimal of at most 18 digits.
pub open spec fn field_dec_ok(fs: Seq<Seq<char>>, i: int) -> bool {
    dec_grammar(fs[i]) && dec_digits_of(fs[i]).len() <= 18
}

/// The record is a scroll change: its seventh field is zero.
pub open spec fn tempo_is_scroll(s: Seq<char>) -> bool {
    dec_mantissa(tempo_fields(s)[6]) == 0
}

/// A timing record parses: at least seven fields, the needed fields are
/// decimals, and the second field is non-zero (and positive for a tempo
/// change, so the tempo is a positive number).
pub open spec fn tempo_rec_wf(s: Seq<char>) -> bool {
    let fs = tempo_fields(s);
    &&& fs.len() >= 7
    &&& field_dec_ok(fs, 6)
    &&& field_dec_ok(fs, 0)
    &&& field_dec_ok(fs, 1)
    &&& if tempo_is_scroll(s) {
        dec_mantissa(fs[1]) != 0
    } else {
        field_dec_ok(fs, 3) && dec_mantissa(fs[1]) > 0
    }
}

/// The start timestamp: the first field truncated to whole milliseconds.
pub open spec fn tempo_start_s(s: Seq<char>) -> int {
    let fs = tempo_fields(s);
    clamp_i32(trunc_scaled(dec_mantissa(fs[0]), dec_scale(fs[0]) as nat))
}

/// The tempo of a tempo change: `60000 / field2`, as an exact rational.
pub open spec fn tempo_bpm_s(s: Seq<char>) -> Rat {
    let fs = tempo_fields(s);
    Rat {
        num: (60000 * pow10(dec_scale(fs[1]) as nat)) as i128,
        den: dec_mantissa(fs[1]) as i128,
    }
}

/// The scroll multiplier of a scroll change: `100 / (-field2)`, as an
/// exact rational with positive denominator.
pub open spec fn tempo_speed_s(s: Seq<char>) -> Rat {
    let fs = tempo_fields(s);
    let m = dec_mantissa(fs[1]);
    let p = pow10(dec_scale(fs[1]) as nat);
    if m > 0 {
        Rat { num: (-100 * p) as i128, den: m as i128 }
    } else {
        Rat { num: (100 * p) as i128, den: (-m) as i128 }
    }
}

/// The grouping count of a tempo change: the fourth field truncated.
pub open spec fn tempo_patnum_s(s: Seq<char>) -> int {
    let fs = tempo_fields(s);
    clamp_i32(trunc_scaled(dec_mantissa(fs[3]), dec_scale(fs[3]) as nat))
}

/// The event a well-formed record denotes.
pub open spec fn tempo_value_s(s: Seq<char>) -> Timing {
    if tempo_is_scroll(s) {
        Timing::Green { start: tempo_start_s(s) as i32, speed: tempo_speed_s(s) }
    } else {
        Timing::Red {
            start: tempo_start_s(s) as i32,
            bpm: tempo_bpm_s(s),
            pat_num: tempo_patnum_s(s) as i32,
        }
    }
}

impl Timing {
    /// A well-formed event carries a well-formed rational; a tempo change
    /// carries a positive one.
    pub open spec fn wf(self) -> bool {
        match self {
            Timing::Red { bpm, .. } => bpm.wf_pos(),
            Timing::Green { speed, .. } => speed.wf(),
        }
    }

    /// The millisecond timestamp of the event.
    pub open spec fn start_s(self) -> int {
        match self {
            Timing::Red { start, .. } => start as int,
            Timing::Green { start, .. } => start as int,
        }
    }

    /// The tempo of a tempo change.
    pub open spec fn bpm_rat(self) -> Rat {
        match self {
            Timing::Red { bpm, .. } => bpm,
            Timing::Green { .. } => arbitrary(),
        }
    }

    /// Classify and read one timing record.  A record whose seventh field
    /// is zero is a scroll change; any other is a tempo change.  A record
    /// with fewer than seven fields, a needed field that is not a plain
    /// decimal, or a second field without the right sign is malformed.
    pub fn parse(str_tm: &str) -> (r: Result<Timing, ChartError>)
        ensures
            match r {
                Ok(t) => tempo_rec_wf(str_tm@) && t == tempo_value_s(str_tm@) && t.wf(),
                Err(e) => !tempo_rec_wf(str_tm@) && e == ChartError::MalformedInput,
            },
    {
        let chars = str_to_chars(str_tm);
        let trimmed = trim_chars(&chars);
        let fs = split_on(&trimmed, ',');
        if fs.len() < 7 {
            return Err(ChartError::MalformedInput);
        }
        let f6 = parse_decimal(&fs[6]);
        let f0 = parse_decimal(&fs[0]);
        let f1 = parse_decimal(&fs[1]);
        match (f6, f0, f1) {
            (Some(p6), Some(p0), Some(p1)) => {
                let start = scaled_to_i32(p0.0, p0.1);
                if p6.0 == 0 {
                    if p1.0 == 0 {
                        return Err(ChartError::MalformedInput);
                    }
                    proof {
                        crate::scan::lemma_pow10_mono(p1.1 as nat, 18);
                        crate::scan::lemma_pow10_vals();
                    }
                    let pw = pow10_i64(p1.1) as i128;
                    let speed = if p1.0 > 0 {
                        Rat { num: -100 * pw, den: p1.0 as i128 }
                    } else {
                        Rat { num: 100 * pw, den: -(p1.0 as i128) }
                    };
                    Ok(Timing::Green { start, speed })
                } else {
                    let f3 = parse_decimal(&fs[3]);
                    match f3 {
                        Some(p3) => {
                            if p1.0 <= 0 {
                                return Err(ChartError::MalformedInput);
                            }
                            proof {
                                crate::scan::lemma_pow10_mono(p1.1 as nat, 18);
                                crate::scan::lemma_pow10_vals();
                            }
                            let pw = pow10_i64(p1.1) as i128;
                            let bpm = Rat { num: 60000 * pw, den: p1.0 as i128 };
                            let pat_num = scaled_to_i32(p3.0, p3.1);
                            Ok(Timing::Red { start, bpm, pat_num })
                        },
                        None => Err(ChartError::MalformedInput),
                    }
                }
            },
            _ => Err(ChartError::MalformedInput),
        }
    }

    /// The millisecond timestamp of the event.
    pub fn start(&self) -> (r: i32)
        ensures
            r == self.start_s(),
    {
        match self {
            Timing::Red { start, .. } => *start,
            Timing::Green { start, .. } => *start,
        }
    }

    /// The tempo of a tempo change.  Asking a scroll change for a tempo is
    /// a caller error, ruled out by the precondition.
    pub fn bpm(&self) -> (r: Rat)
        requires
            *self is Red,
        ensures
            r == self.bpm_rat(),
    {
        match self {
            Timing::Red { bpm, .. } => *bpm,
            Timing::Green { .. } => unreached(),
        }
    }
}

} // verus!
