//! Recognising UTF-8 text: a datagram is read as a frame only when it is UTF-8.

use vstd::prelude::*;
use vstd::utf8::{
    codepoint_width_1, codepoint_width_2, codepoint_width_3, codepoint_width_4,
    length_of_first_scalar, pop_first_scalar, valid_first_scalar, valid_utf8,
};

verus! {

proof fn lemma_codepoint_width_1(b0: u8)
    by (bit_vector)
    requires
        b0 <= 0x7f,
    ensures
        codepoint_width_1(b0) <= 0x7f,
{
}

proof fn lemma_codepoint_width_2(b0: u8, b1: u8)
    by (bit_vector)
    requires
        0xc0 <= b0 <= 0xdf,
        0x80 <= b1 <= 0xbf,
    ensures
        codepoint_width_2(b0, b1) >= 0x80 <==> b0 >= 0xc2,
        codepoint_width_2(b0, b1) < 0x800,
{
}

proof fn lemma_codepoint_width_3(b0: u8, b1: u8, b2: u8)
    by (bit_vector)
    requires
        0xe0 <= b0 <= 0xef,
        0x80 <= b1 <= 0xbf,
        0x80 <= b2 <= 0xbf,
    ensures
        codepoint_width_3(b0, b1, b2) >= 0x800 <==> !(b0 == 0xe0 && b1 < 0xa0),
        (0xd800 <= codepoint_width_3(b0, b1, b2) <= 0xdfff) <==> (b0 == 0xed && b1 >= 0xa0),
{
}

proof fn lemma_codepoint_width_4(b0: u8, b1: u8, b2: u8, b3: u8)
    by (bit_vector)
    requires
        0xf0 <= b0 <= 0xf7,
        0x80 <= b1 <= 0xbf,
        0x80 <= b2 <= 0xbf,
        0x80 <= b3 <= 0xbf,
    ensures
        codepoint_width_4(b0, b1, b2, b3) >= 0x10000 <==> !(b0 == 0xf0 && b1 < 0x90),
        codepoint_width_4(b0, b1, b2, b3) <= 0x10ffff <==> (b0 < 0xf4 || (b0 == 0xf4 && b1
            < 0x90)),
{
}

fn is_continuation(b: u8) -> (r: bool)
    ensures
        r == (0x80 <= b <= 0xbf),
{
    0x80 <= b && b <= 0xbf
}

/// The length of the well-formed UTF-8 scalar encoding that starts at `i`, or 0
/// where none starts there.
fn first_scalar_width(s: &[u8], i: usize) -> (w: usize)
    requires
        i < s@.len(),
    ensures
        w == 0 <==> !valid_first_scalar(s@.skip(i as int)),
        w != 0 ==> w == length_of_first_scalar(s@.skip(i as int)) && i + w <= s@.len(),
{
    let ghost t = s@.skip(i as int);
    let rem = s.len() - i;
    let b0 = s[i];
    assert(t[0] == b0);
    if b0 <= 0x7f {
        proof {
            lemma_codepoint_width_1(b0);
        }
        return 1;
    }
    if b0 < 0xc0 {
        return 0;
    }
    if rem < 2 {
        return 0;
    }
    let b1 = s[i + 1];
    assert(t[1] == b1);
    if !is_continuation(b1) {
        return 0;
    }
    if b0 <= 0xdf {
        proof {
            lemma_codepoint_width_2(b0, b1);
        }
        if b0 >= 0xc2 {
            return 2;
        } else {
            return 0;
        }
    }
    if b0 > 0xf7 {
        return 0;
    }
    if rem < 3 {
        return 0;
    }
    let b2 = s[i + 2];
    assert(t[2] == b2);
    if !is_continuation(b2) {
        return 0;
    }
    if b0 <= 0xef {
        proof {
            lemma_codepoint_width_3(b0, b1, b2);
        }
        if (b0 == 0xe0 && b1 < 0xa0) || (b0 == 0xed && b1 >= 0xa0) {
            return 0;
        } else {
            return 3;
        }
    }
    if rem < 4 {
        return 0;
    }
    let b3 = s[i + 3];
    assert(t[3] == b3);
    if !is_continuation(b3) {
        return 0;
    }
    proof {
        lemma_codepoint_width_4(b0, b1, b2, b3);
    }
    if (b0 == 0xf0 && b1 < 0x90) || b0 > 0xf4 || (b0 == 0xf4 && b1 >= 0x90) {
        0
    } else {
        4
    }
}

/// Whether `s` is well-formed UTF-8, which is when `std::str::from_utf8` accepts it.
pub fn is_utf8(s: &[u8]) -> (r: bool)
    ensures
        r == valid_utf8(s@),
{
    let n = s.len();
    let mut i: usize = 0;
    assert(s@.skip(0) =~= s@);
    while i < n
        invariant
            i <= n,
            n == s@.len(),
            valid_utf8(s@) == valid_utf8(s@.skip(i as int)),
        decreases n - i,
    {
        let w = first_scalar_width(s, i);
        if w == 0 {
            return false;
        }
        assert(pop_first_scalar(s@.skip(i as int)) =~= s@.skip((i + w) as int));
        i = i + w;
    }
    assert(s@.skip(n as int).len() == 0);
    true
}

} // verus!
