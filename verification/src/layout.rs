//! The lane layout: which output symbol each of the eight lanes gets.
//!
//! The default layout writes lane `i` as the digit `i + 1`.  A user key
//! string of exactly eight characters drawn from '1'..'8' (repeats
//! allowed) replaces it.

use vstd::prelude::*;
use vstd::set_lib::lemma_subset_equality;
use crate::errors::ChartError;
use crate::scan::str_to_chars;

verus! {

/// A valid key string: exactly eight characters, each a digit '1'..'8'.
pub open spec fn valid_key(s: Seq<char>) -> bool {
    s.len() == 8 && forall|i: int| 0 <= i < s.len() ==> 49 <= #[trigger] s[i] as u32 <= 56
}

/// The eight digit symbols a lane may be written as.
pub open spec fn digit_syms() -> Set<char> {
    set!['1', '2', '3', '4', '5', '6', '7', '8']
}

/// The mapping from internal lane indices to output symbols.
pub struct LaneLayout {
    pub syms: Vec<char>,
}

impl LaneLayout {
    /// Exactly eight symbols, each a digit '1'..'8'.
    pub open spec fn wf(self) -> bool {
        valid_key(self.syms@)
    }

    /// The symbol of a lane.
    pub open spec fn sym_s(self, lane: int) -> char {
        self.syms@[lane]
    }

    /// The identity layout: lane `i` is written as the digit `i + 1`.
    pub fn default_layout() -> (r: LaneLayout)
        ensures
            r.wf(),
            r.syms@ == seq!['1', '2', '3', '4', '5', '6', '7', '8'],
    {
        let mut syms: Vec<char> = Vec::new();
        syms.push('1');
        syms.push('2');
        syms.push('3');
        syms.push('4');
        syms.push('5');
        syms.push('6');
        syms.push('7');
        syms.push('8');
        proof {
            assert(syms@ =~= seq!['1', '2', '3', '4', '5', '6', '7', '8']);
        }
        LaneLayout { syms }
    }

    /// A layout from a user key string.  Accepted exactly when the string
    /// has eight characters, each one of the digits '1'..'8'; repeats are
    /// allowed.
    pub fn from_key(key: &str) -> (r: Result<LaneLayout, ChartError>)
        ensures
            match r {
                Ok(l) => valid_key(key@) && l.syms@ == key@ && l.wf(),
                Err(e) => !valid_key(key@) && e == ChartError::InvalidKeyLayout,
            },
    {
        let chars = str_to_chars(key);
        if chars.len() != 8 {
            return Err(ChartError::InvalidKeyLayout);
        }
        let mut i: usize = 0;
        while i < 8
            invariant
                i <= 8,
                chars@.len() == 8,
                chars@ == key@,
                forall|t: int| 0 <= t < i ==> 49 <= #[trigger] key@[t] as u32 <= 56,
            decreases 8 - i,
        {
            let u = chars[i] as u32;
            if u < 49 || u > 56 {
                return Err(ChartError::InvalidKeyLayout);
            }
            i = i + 1;
        }
        Ok(LaneLayout { syms: chars })
    }

    /// The output symbol of a lane.
    pub fn sym(&self, lane: i32) -> (c: char)
        requires
            self.wf(),
            0 <= lane <= 7,
        ensures
            c == self.sym_s(lane as int),
    {
        self.syms[lane as usize]
    }
}

/// For a valid key without repeated symbols, the lane mapping is a
/// bijection: distinct lanes get distinct symbols, and every one of the
/// eight digit symbols — the symbols of the default layout — is the image
/// of some lane.
pub proof fn lemma_layout_bijective(s: Seq<char>)
    requires
        valid_key(s),
        s.no_duplicates(),
    ensures
        forall|i: int, j: int|
            0 <= i < s.len() && 0 <= j < s.len() && i != j ==> s[i] != s[j],
        forall|c: char|
            digit_syms().contains(c) ==> exists|i: int| 0 <= i < s.len() && s[i] == c,
{
    s.unique_seq_to_set();
    assert forall|c: char| s.to_set().contains(c) implies digit_syms().contains(c) by {
        let i = choose|i: int| 0 <= i < s.len() && s[i] == c;
        assert(49 <= c as u32 <= 56);
        assert('1' as u32 == 49 && '2' as u32 == 50 && '3' as u32 == 51 && '4' as u32 == 52
            && '5' as u32 == 53 && '6' as u32 == 54 && '7' as u32 == 55 && '8' as u32 == 56);
        vstd::utf8::char_u32_cast(c, c as u32);
        vstd::utf8::char_u32_cast('1', 49);
        vstd::utf8::char_u32_cast('2', 50);
        vstd::utf8::char_u32_cast('3', 51);
        vstd::utf8::char_u32_cast('4', 52);
        vstd::utf8::char_u32_cast('5', 53);
        vstd::utf8::char_u32_cast('6', 54);
        vstd::utf8::char_u32_cast('7', 55);
        vstd::utf8::char_u32_cast('8', 56);
        assert(c == '1' || c == '2' || c == '3' || c == '4' || c == '5' || c == '6' || c == '7'
            || c == '8');
    }
    assert(digit_syms().len() == 8);
    lemma_subset_equality(s.to_set(), digit_syms());
    assert forall|c: char|
        digit_syms().contains(c) implies exists|i: int| 0 <= i < s.len() && s[i] == c by {
        assert(s.to_set().contains(c));
        assert(s.contains(c));
        let i = choose|i: int| 0 <= i < s.len() && s[i] == c;
    }
}

} // verus!
