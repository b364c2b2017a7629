//! Textual form of literal tokens.
//!
//! Each supported literal kind has one canonical text: a string keeps its
//! content, a character becomes a one-character text, an integer its decimal
//! digits, a float its given text, and a boolean `true` or `false`. Byte and
//! byte-string literals have none. An optional leading minus prefixes one
//! `-` character.

use vstd::prelude::*;
use crate::tokens::{Lit, SpecLit};

verus! {

/// The character for one decimal digit.
pub open spec fn digit_char(d: nat) -> char {
    if d == 0 {
        '0'
    } else if d == 1 {
        '1'
    } else if d == 2 {
        '2'
    } else if d == 3 {
        '3'
    } else if d == 4 {
        '4'
    } else if d == 5 {
        '5'
    } else if d == 6 {
        '6'
    } else if d == 7 {
        '7'
    } else if d == 8 {
        '8'
    } else {
        '9'
    }
}

/// The decimal digits of a natural number, most significant first.
pub open spec fn dec_str(n: nat) -> Seq<char>
    decreases n,
{
    if n < 10 {
        seq![digit_char(n)]
    } else {
        dec_str(n / 10).push(digit_char(n % 10))
    }
}

/// The canonical text of a literal without a minus sign, if it has one.
pub open spec fn lit_body(l: SpecLit) -> Option<Seq<char>> {
    match l {
        SpecLit::Str(s) => Option::Some(s),
        SpecLit::Char(c) => Option::Some(seq![c]),
        SpecLit::Int(x) => Option::Some(dec_str(x as nat)),
        SpecLit::Float(s) => Option::Some(s),
        SpecLit::Bool(b) => Option::Some(
            if b {
                "true"@
            } else {
                "false"@
            },
        ),
        SpecLit::ByteStr => Option::None,
        SpecLit::Byte => Option::None,
    }
}

/// The canonical text of a literal, with a leading `-` when `minus` holds.
pub open spec fn lit_text(l: SpecLit, minus: bool) -> Option<Seq<char>> {
    match lit_body(l) {
        Option::Some(s) => Option::Some(
            if minus {
                seq!['-'] + s
            } else {
                s
            },
        ),
        Option::None => Option::None,
    }
}

/// A leading unary minus prefixes exactly one `-` character to the
/// literal's text, independent of the literal's kind; a literal with no
/// text has none with a minus either.
pub proof fn lemma_minus_prefixes_one_char(l: SpecLit)
    ensures
        lit_text(l, true) is Some <==> lit_text(l, false) is Some,
        lit_text(l, true) is Some ==> {
            let with = lit_text(l, true).unwrap();
            let without = lit_text(l, false).unwrap();
            &&& with.len() == without.len() + 1
            &&& with[0] == '-'
            &&& with.skip(1) == without
        },
{
    if lit_text(l, true) is Some {
        let without = lit_text(l, false).unwrap();
        assert((seq!['-'] + without).skip(1) =~= without);
    }
}

/// Append the characters of `s` to `out`.
pub fn push_chars(out: &mut Vec<char>, s: &Vec<char>)
    ensures
        final(out)@ == old(out)@ + s@,
{
    let mut i: usize = 0;
    while i < s.len()
        invariant
            i <= s.len(),
            out@ == old(out)@ + s@.subrange(0, i as int),
        decreases s.len() - i,
    {
        out.push(s[i]);
        proof {
            assert(out@ =~= old(out)@ + s@.subrange(0, i + 1 as int));
        }
        i += 1;
    }
    proof {
        assert(old(out)@ + s@.subrange(0, s@.len() as int) =~= old(out)@ + s@);
    }
}

/// Append the decimal digits of `x` to `out`.
pub fn push_dec(out: &mut Vec<char>, x: u64)
    ensures
        final(out)@ == old(out)@ + dec_str(x as nat),
    decreases x,
{
    if x >= 10 {
        push_dec(out, x / 10);
    }
    let d = x % 10;
    let c = if d == 0 {
        '0'
    } else if d == 1 {
        '1'
    } else if d == 2 {
        '2'
    } else if d == 3 {
        '3'
    } else if d == 4 {
        '4'
    } else if d == 5 {
        '5'
    } else if d == 6 {
        '6'
    } else if d == 7 {
        '7'
    } else if d == 8 {
        '8'
    } else {
        '9'
    };
    out.push(c);
    proof {
        if x >= 10 {
            assert(out@ =~= old(out)@ + dec_str((x / 10) as nat).push(digit_char((x % 10) as nat)));
            assert(dec_str(x as nat) == dec_str((x / 10) as nat).push(digit_char((x % 10) as nat)));
            assert(out@ =~= old(out)@ + dec_str(x as nat));
        } else {
            assert(out@ =~= old(out)@ + seq![digit_char(x as nat)]);
        }
    }
}

/// Convert a literal to its canonical text, or report that it has none.
///
/// A byte or byte-string literal yields `None`: binary data cannot be
/// spliced into the output.
pub fn lit_to_string(lit: &Lit, minus: bool) -> (r: Option<Vec<char>>)
    ensures
        r is None <==> lit_text(lit@, minus) is None,
        r matches Some(v) ==> lit_text(lit@, minus) == Some(v@),
{
    let mut out: Vec<char> = Vec::new();
    if minus {
        out.push('-');
    }
    proof {
        if minus {
            assert(out@ =~= seq!['-']);
        } else {
            assert(out@ =~= Seq::<char>::empty());
        }
    }
    let ghost pre = out@;
    match lit {
        Lit::Str(s) => {
            push_chars(&mut out, s);
            Option::Some(out)
        },
        Lit::Char(c) => {
            out.push(*c);
            proof {
                assert(out@ =~= pre + seq![*c]);
            }
            Option::Some(out)
        },
        Lit::Int(x) => {
            push_dec(&mut out, *x);
            Option::Some(out)
        },
        Lit::Float(s) => {
            push_chars(&mut out, s);
            Option::Some(out)
        },
        Lit::Bool(b) => {
            if *b {
                out.push('t');
                out.push('r');
                out.push('u');
                out.push('e');
                proof {
                    reveal_strlit("true");
                    assert(out@ =~= pre + "true"@);
                }
            } else {
                out.push('f');
                out.push('a');
                out.push('l');
                out.push('s');
                out.push('e');
                proof {
                    reveal_strlit("false");
                    assert(out@ =~= pre + "false"@);
                }
            }
            Option::Some(out)
        },
        Lit::ByteStr => Option::None,
        Lit::Byte => Option::None,
    }
}

} // verus!
