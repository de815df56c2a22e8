//! Numbers as decimal text.

use vstd::prelude::*;

verus! {

/// `String::push` of the standard library appends one character.
pub assume_specification[ String::push ](s: &mut String, c: char)
    ensures
        final(s)@ == old(s)@.push(c),
;

/// The character for a digit.
pub open spec fn digit(d: nat) -> char {
    (48 + d % 10) as u8 as char
}

/// Decimal digits of a number, without leading zeros.
pub open spec fn digits(n: nat) -> Seq<char>
    decreases n,
{
    if n < 10 {
        seq![digit(n)]
    } else {
        digits(n / 10).push(digit(n % 10))
    }
}

/// Decimal digits of a number, filled up with zeros on the left to at least
/// `width` characters.
pub open spec fn padded(n: nat, width: nat) -> Seq<char> {
    let d = digits(n);
    if d.len() < width {
        Seq::new((width - d.len()) as nat, |i: int| '0') + d
    } else {
        d
    }
}

/// Digits of `n`, least significant last, as a vector.
fn digit_chars(n: u128) -> (r: Vec<char>)
    ensures
        r@ == digits(n as nat),
    decreases n,
{
    let d: u8 = 48 + (n % 10) as u8;
    if n < 10 {
        let mut r: Vec<char> = Vec::new();
        r.push(d as char);
        proof {
            assert(r@ =~= digits(n as nat));
        }
        r
    } else {
        let mut r: Vec<char> = digit_chars(n / 10);
        r.push(d as char);
        r
    }
}

fn push_chars(out: &mut String, chars: &Vec<char>)
    ensures
        final(out)@ == old(out)@ + chars@,
{
    let mut i: usize = 0;
    let ghost before = out@;
    while i < chars.len()
        invariant
            i <= chars.len(),
            out@ == before + chars@.take(i as int),
        decreases chars.len() - i,
    {
        out.push(chars[i]);
        proof {
            assert(out@ =~= before + chars@.take(i + 1));
        }
        i += 1;
    }
    proof {
        assert(chars@.take(chars.len() as int) =~= chars@);
    }
}

/// Append a number in decimal.
pub fn push_wide(out: &mut String, n: u128)
    ensures
        final(out)@ == old(out)@ + digits(n as nat),
{
    let chars: Vec<char> = digit_chars(n);
    push_chars(out, &chars);
}

/// Append a number in decimal.
pub fn push_number(out: &mut String, n: u64)
    ensures
        final(out)@ == old(out)@ + digits(n as nat),
{
    push_wide(out, n as u128);
}

/// Append a number in decimal, with leading zeros up to `width`.
pub fn push_padded(out: &mut String, n: u64, width: usize)
    ensures
        final(out)@ == old(out)@ + padded(n as nat, width as nat),
{
    let chars: Vec<char> = digit_chars(n as u128);
    let ghost before = out@;
    let mut have: usize = chars.len();
    while have < width
        invariant
            chars.len() <= have,
            chars.len() >= width ==> have == chars.len(),
            chars.len() < width ==> have <= width,
            out@ == before + Seq::new((have - chars.len()) as nat, |i: int| '0'),
        decreases width - have,
    {
        out.push('0');
        have += 1;
        proof {
            assert(out@ =~= before + Seq::new((have - chars.len()) as nat, |i: int| '0'));
        }
    }
    push_chars(out, &chars);
    proof {
        assert(out@ =~= before + padded(n as nat, width as nat));
    }
}

/// Append a piece of text.
pub fn push_str(out: &mut String, piece: &str)
    ensures
        final(out)@ == old(out)@ + piece@,
{
    out.append(piece);
}

} // verus!
