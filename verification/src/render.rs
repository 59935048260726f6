//! Rendering: from the token stream to the final text.
//!
//! Each token has an exact textual form, given by [`token_str`]; the
//! renderer is proved to produce their concatenation, character for
//! character.

use vstd::prelude::*;
use crate::notate::Token;
use crate::numfmt::{
    secs_str,
    bpm3_str,
    dec_digits,
    char_rep,
    push_secs,
    push_bpm3,
    push_dec,
    push_rep,
};

verus! {

/// A negative number never reaches the renderer; it is written as zero.
pub open spec fn max0(x: int) -> int {
    if x >= 0 {
        x
    } else {
        0
    }
}

/// The exact text of one token.
pub open spec fn token_str(t: Token) -> Seq<char> {
    match t {
        Token::Header { ms } => seq!['&', 'f', 'i', 'r', 's', 't', '='] + secs_str(ms as int)
            + seq!['\n'],
        Token::TempoFirst { millibpm } => seq!['('] + bpm3_str(max0(millibpm as int))
            + seq![')'],
        Token::TempoMark { millibpm } => seq!['\n', '('] + bpm3_str(max0(millibpm as int))
            + seq![')'],
        Token::Boundary { denom } => seq!['\n', '{'] + dec_digits(max0(denom as int) as nat)
            + seq!['}'],
        Token::Hit { slash, sym, dur } => (if slash {
            seq!['/']
        } else {
            Seq::<char>::empty()
        }) + seq![sym] + (match dur {
            None => Seq::<char>::empty(),
            Some(p) => seq!['h', '['] + dec_digits(max0(p.0 as int) as nat) + seq![':']
                + dec_digits(max0(p.1 as int) as nat) + seq![']'],
        }),
        Token::Seps { count } => char_rep(',', max0(count as int) as nat),
    }
}

/// The text of a token stream: the tokens' texts in order.
pub open spec fn render_s(ts: Seq<Token>) -> Seq<char>
    decreases ts.len(),
{
    if ts.len() == 0 {
        Seq::empty()
    } else {
        render_s(ts.drop_last()) + token_str(ts.last())
    }
}

/// Append one token's text.
fn push_token(out: &mut Vec<char>, t: &Token)
    ensures
        final(out)@ == old(out)@ + token_str(*t),
{
    match t {
        Token::Header { ms } => {
            out.push('&');
            out.push('f');
            out.push('i');
            out.push('r');
            out.push('s');
            out.push('t');
            out.push('=');
            push_secs(out, *ms);
            out.push('\n');
        },
        Token::TempoFirst { millibpm } => {
            out.push('(');
            push_bpm3(
                out,
                if *millibpm < 0 {
                    0
                } else {
                    *millibpm
                },
            );
            out.push(')');
        },
        Token::TempoMark { millibpm } => {
            out.push('\n');
            out.push('(');
            push_bpm3(
                out,
                if *millibpm < 0 {
                    0
                } else {
                    *millibpm
                },
            );
            out.push(')');
        },
        Token::Boundary { denom } => {
            out.push('\n');
            out.push('{');
            push_dec(
                out,
                if *denom < 0 {
                    0
                } else {
                    *denom
                },
            );
            out.push('}');
        },
        Token::Hit { slash, sym, dur } => {
            if *slash {
                out.push('/');
            }
            out.push(*sym);
            match dur {
                None => {},
                Some(p) => {
                    out.push('h');
                    out.push('[');
                    push_dec(
                        out,
                        if p.0 < 0 {
                            0
                        } else {
                            p.0
                        },
                    );
                    out.push(':');
                    push_dec(
                        out,
                        if p.1 < 0 {
                            0
                        } else {
                            p.1
                        },
                    );
                    out.push(']');
                },
            }
        },
        Token::Seps { count } => {
            push_rep(
                out,
                ',',
                if *count < 0 {
                    0
                } else {
                    *count
                },
            );
        },
    }
    proof {
        assert(out@ =~= old(out)@ + token_str(*t));
    }
}

/// Relies on `String`'s `FromIterator` over `char`: collecting an
/// iterator of characters yields a string of exactly those characters in
/// order.
#[verifier::external_body]
fn chars_to_string(v: &Vec<char>) -> (r: String)
    ensures
        r@ == v@,
{
    v.iter().collect()
}

/// The text of a token stream, character for character.
pub fn render(toks: &Vec<Token>) -> (r: String)
    ensures
        r@ == render_s(toks@),
{
    let mut out: Vec<char> = Vec::new();
    let n = toks.len();
    let mut i: usize = 0;
    while i < n
        invariant
            i <= n,
            n == toks@.len(),
            out@ == render_s(toks@.take(i as int)),
        decreases n - i,
    {
        proof {
            assert(toks@.take(i + 1).drop_last() =~= toks@.take(i as int));
            assert(toks@.take(i + 1).last() == toks@[i as int]);
        }
        push_token(&mut out, &toks[i]);
        i = i + 1;
    }
    proof {
        assert(toks@.take(n as int) =~= toks@);
    }
    chars_to_string(&out)
}

} // verus!
