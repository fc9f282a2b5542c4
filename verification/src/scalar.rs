//! How single values read in the output: integers in decimal, booleans as
//! words, characters and text as their UTF-8 bytes.

use vstd::prelude::*;
use vstd::utf8::*;

verus! {

/// The decimal digits of `n` in ASCII, most significant first, without
/// leading zeros; `0` reads `0`.
pub open spec fn digits(n: nat) -> Seq<u8>
    decreases n,
{
    if n < 10 {
        seq![(48 + n) as u8]
    } else {
        digits(n / 10).push((48 + n % 10) as u8)
    }
}

/// An integer in decimal, with a minus sign in front of a negative one.
pub open spec fn int_text(v: int) -> Seq<u8> {
    if v < 0 {
        seq![45u8] + digits((-v) as nat)
    } else {
        digits(v as nat)
    }
}

/// The word `true` or `false` in ASCII.
pub open spec fn bool_text(v: bool) -> Seq<u8> {
    if v {
        seq![116u8, 114u8, 117u8, 101u8]
    } else {
        seq![102u8, 97u8, 108u8, 115u8, 101u8]
    }
}

/// The UTF-8 bytes of one character.
pub open spec fn char_text(c: char) -> Seq<u8> {
    encode_scalar(c as u32)
}

/// The UTF-8 bytes of a text, nothing escaped.
pub open spec fn str_text(s: Seq<char>) -> Seq<u8> {
    encode_utf8(s)
}

/// A sequence that ends in `d` reads backwards as `d` followed by the rest
/// backwards.
proof fn lemma_reverse_push(s: Seq<u8>, d: u8)
    ensures
        s.push(d).reverse() == seq![d] + s.reverse(),
{
    assert(s.push(d).reverse() =~= seq![d] + s.reverse());
}

/// The decimal digits of `v`.
pub fn unsigned(v: u64) -> (out: Vec<u8>)
    ensures
        out@ == digits(v as nat),
{
    let mut rev: Vec<u8> = Vec::new();
    let mut rest: u64 = v;
    while rest >= 10
        invariant
            digits(v as nat) == digits(rest as nat) + rev@.reverse(),
        decreases rest,
    {
        let d: u8 = 48u8 + (rest % 10) as u8;
        proof {
            lemma_reverse_push(rev@, d);
            assert(digits(rest as nat) == digits((rest / 10) as nat).push(d));
            assert(digits((rest / 10) as nat).push(d) + rev@.reverse() =~= digits(
                (rest / 10) as nat,
            ) + (seq![d] + rev@.reverse()));
        }
        rev.push(d);
        rest = rest / 10;
    }
    let last: u8 = 48u8 + rest as u8;
    proof {
        lemma_reverse_push(rev@, last);
        assert(digits(rest as nat) =~= seq![last]);
    }
    rev.push(last);
    let mut out: Vec<u8> = Vec::new();
    let mut i: usize = rev.len();
    while i > 0
        invariant
            i <= rev@.len(),
            out@ == rev@.reverse().take(rev@.len() - i),
        decreases i,
    {
        i -= 1;
        out.push(rev[i]);
        assert(out@ =~= rev@.reverse().take(rev@.len() - i));
    }
    assert(out@ =~= rev@.reverse());
    out
}

/// The decimal digits of `v`, after a minus sign if it is negative.
pub fn signed(v: i64) -> (out: Vec<u8>)
    ensures
        out@ == int_text(v as int),
{
    if v < 0 {
        let size: u64 = (-(v + 1)) as u64 + 1;
        let tail = unsigned(size);
        let mut out: Vec<u8> = Vec::new();
        out.push(45u8);
        let mut i: usize = 0;
        while i < tail.len()
            invariant
                i <= tail@.len(),
                out@ == seq![45u8] + tail@.take(i as int),
            decreases tail@.len() - i,
        {
            out.push(tail[i]);
            i += 1;
            assert(out@ =~= seq![45u8] + tail@.take(i as int));
        }
        assert(tail@.take(i as int) =~= tail@);
        out
    } else {
        unsigned(v as u64)
    }
}

/// The word for `v`.
pub fn boolean(v: bool) -> (out: Vec<u8>)
    ensures
        out@ == bool_text(v),
{
    let mut out: Vec<u8> = Vec::new();
    if v {
        out.push(116u8);
        out.push(114u8);
        out.push(117u8);
        out.push(101u8);
    } else {
        out.push(102u8);
        out.push(97u8);
        out.push(108u8);
        out.push(115u8);
        out.push(101u8);
    }
    assert(out@ =~= bool_text(v));
    out
}

/// The UTF-8 bytes of `c`: one to four of them, by the size of its code point.
pub fn character(c: char) -> (out: Vec<u8>)
    ensures
        out@ == char_text(c),
{
    let s: u32 = c as u32;
    let mut out: Vec<u8> = Vec::new();
    if s <= 0x7F {
        assert((s & 0x7F) < 256) by (bit_vector);
        out.push((s & 0x7F) as u8);
    } else if s <= 0x7FF {
        assert(((s >> 6) & 0x1F) < 256 && (s & 0x3F) < 256) by (bit_vector);
        out.push(0xC0u8 | ((s >> 6) & 0x1F) as u8);
        out.push(0x80u8 | (s & 0x3F) as u8);
    } else if s <= 0xFFFF {
        assert(((s >> 12) & 0x0F) < 256 && ((s >> 6) & 0x3F) < 256 && (s & 0x3F) < 256)
            by (bit_vector);
        out.push(0xE0u8 | ((s >> 12) & 0x0F) as u8);
        out.push(0x80u8 | ((s >> 6) & 0x3F) as u8);
        out.push(0x80u8 | (s & 0x3F) as u8);
    } else {
        assert(((s >> 18) & 0x7) < 256 && ((s >> 12) & 0x3F) < 256 && ((s >> 6) & 0x3F) < 256
            && (s & 0x3F) < 256) by (bit_vector);
        out.push(0xF0u8 | ((s >> 18) & 0x7) as u8);
        out.push(0x80u8 | ((s >> 12) & 0x3F) as u8);
        out.push(0x80u8 | ((s >> 6) & 0x3F) as u8);
        out.push(0x80u8 | (s & 0x3F) as u8);
    }
    proof {
        char_is_scalar(c);
        assert(out@ =~= encode_scalar(s));
    }
    out
}

} // verus!
