use vstd::prelude::*;

verus! {

use crate::chunks::ChunkRange;

/// The decimal digit character for a value below ten.
pub open spec fn digit_char(d: int) -> char {
    if d == 0 {
        '0'
    } else if d == 1 {
        '1'
    } else if d == 2 {
        '2'
    } else if d == 3 {
        '3'
    } else if d == 4 {
        '4'
    } else if d == 5 {
        '5'
    } else if d == 6 {
        '6'
    } else if d == 7 {
        '7'
    } else if d == 8 {
        '8'
    } else {
        '9'
    }
}

/// The shortest decimal rendering of `n`: no sign, no leading zero except
/// for zero itself.
pub open spec fn dec_rep(n: int) -> Seq<char>
    decreases n,
{
    if n < 10 {
        seq![digit_char(n)]
    } else {
        dec_rep(n / 10).push(digit_char(n % 10))
    }
}

/// The exact text of the `Range` header value for an inclusive byte
/// interval, as the wire protocol wants it: `bytes=<start>-<end>`.
pub open spec fn spec_range_header(start: int, end: int) -> Seq<char> {
    "bytes="@ + dec_rep(start) + "-"@ + dec_rep(end)
}

/// Appends the decimal rendering of `n` to `s`.
fn push_dec(s: &mut String, n: usize)
    ensures
        final(s)@ == old(s)@ + dec_rep(n as int),
    decreases n,
{
    let digits = "0123456789";
    proof {
        reveal_strlit("0123456789");
    }
    let d = n % 10;
    let last = digits.substring_ascii(d, d + 1);
    proof {
        assert(last@ =~= seq![digit_char(d as int)]);
    }
    if n < 10 {
        s.append(last);
        proof {
            assert(s@ =~= old(s)@ + dec_rep(n as int));
        }
    } else {
        proof {
            vstd::arithmetic::div_mod::lemma_div_is_strictly_smaller(n as int, 10);
        }
        push_dec(s, n / 10);
        s.append(last);
        proof {
            assert(s@ =~= old(s)@ + dec_rep(n as int));
        }
    }
}

/// Renders the `Range` header value that asks for exactly the bytes of one
/// chunk: `bytes=<start>-<end>`, both offsets inclusive.
pub fn range_header(range: &ChunkRange) -> (r: String)
    ensures
        r@ == spec_range_header(range.start as int, range.end as int),
{
    let mut r = String::from_str("bytes=");
    push_dec(&mut r, range.start);
    r.append("-");
    push_dec(&mut r, range.end);
    proof {
        assert(r@ =~= spec_range_header(range.start as int, range.end as int));
    }
    r
}

} // verus!
