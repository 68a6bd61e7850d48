//! A UTF-8 validity checker, proved against vstd's model of UTF-8, and the
//! "safe text" test the byte-content heuristic of the generic decoder uses.

use vstd::prelude::*;
use vstd::utf8::{
    codepoint_width_2, codepoint_width_3, codepoint_width_4, is_continuation_byte,
    length_of_first_scalar, pop_first_scalar, valid_first_scalar, valid_utf8,
};

verus! {

/// A two-byte sequence with a lead byte of `0xc2` or above encodes at least
/// `0x80`, so it is never an overlong encoding, and stays below the
/// surrogate range.
proof fn lemma_width_2_in_range(b0: u8, b1: u8)
    by (bit_vector)
    requires
        0xc2 <= b0 <= 0xdf,
        0x80 <= b1 <= 0xbf,
    ensures
        0x80 <= codepoint_width_2(b0, b1) <= 0x7ff,
{
}

/// A two-byte sequence with a lead byte of `0xc0` or `0xc1` encodes a value
/// below `0x80`: always an overlong encoding.
proof fn lemma_width_2_overlong(b0: u8, b1: u8)
    by (bit_vector)
    requires
        0xc0 <= b0 <= 0xc1,
        0x80 <= b1 <= 0xbf,
    ensures
        codepoint_width_2(b0, b1) < 0x80,
{
}

/// For a three-byte sequence, the overlong and surrogate conditions are
/// exactly the documented constraints on the first two bytes.
proof fn lemma_width_3_ranges(b0: u8, b1: u8, b2: u8)
    by (bit_vector)
    requires
        0xe0 <= b0 <= 0xef,
        0x80 <= b1 <= 0xbf,
        0x80 <= b2 <= 0xbf,
    ensures
        codepoint_width_3(b0, b1, b2) >= 0x800 <==> !(b0 == 0xe0 && b1 < 0xa0),
        (0xd800 <= codepoint_width_3(b0, b1, b2) <= 0xdfff) <==> (b0 == 0xed && b1 >= 0xa0),
{
}

/// For a four-byte sequence, the overlong and out-of-range conditions are
/// exactly the documented constraints on the first two bytes.
proof fn lemma_width_4_ranges(b0: u8, b1: u8, b2: u8, b3: u8)
    by (bit_vector)
    requires
        0xf0 <= b0 <= 0xf7,
        0x80 <= b1 <= 0xbf,
        0x80 <= b2 <= 0xbf,
        0x80 <= b3 <= 0xbf,
    ensures
        codepoint_width_4(b0, b1, b2, b3) >= 0x10000 <==> !(b0 == 0xf0 && b1 < 0x90),
        codepoint_width_4(b0, b1, b2, b3) <= 0x10ffff <==> (b0 < 0xf4 || (b0 == 0xf4 && b1
            < 0x90)),
{
}

/// True when every byte of the slice belongs to a well-formed UTF-8 scalar
/// encoding.
pub fn is_valid_utf8(s: &[u8]) -> (r: bool)
    ensures
        r == valid_utf8(s@),
{
    let n: usize = s.len();
    let mut i: usize = 0;
    proof {
        assert(s@.skip(0) =~= s@);
    }
    while i < n
        invariant
            i <= n,
            n == s@.len(),
            valid_utf8(s@) <==> valid_utf8(s@.skip(i as int)),
        decreases n - i,
    {
        let ghost rem = s@.skip(i as int);
        let b0 = s[i];
        if b0 < 0x80 {
            proof {
                assert(valid_first_scalar(rem));
                assert(length_of_first_scalar(rem) == 1);
                assert(pop_first_scalar(rem) =~= s@.skip(i + 1));
            }
            i = i + 1;
        } else if b0 < 0xc2 {
            // A stray continuation byte, or the two overlong lead bytes.
            proof {
                if 0xc0 <= b0 && rem.len() >= 2 && is_continuation_byte(rem[1]) {
                    lemma_width_2_overlong(b0, rem[1]);
                }
                assert(!valid_first_scalar(rem));
            }
            return false;
        } else if b0 <= 0xdf {
            if i + 1 < n && 0x80 <= s[i + 1] && s[i + 1] <= 0xbf {
                proof {
                    lemma_width_2_in_range(b0, s@[i + 1]);
                    assert(valid_first_scalar(rem));
                    assert(length_of_first_scalar(rem) == 2);
                    assert(pop_first_scalar(rem) =~= s@.skip(i + 2));
                }
                i = i + 2;
            } else {
                proof {
                    assert(!valid_first_scalar(rem));
                }
                return false;
            }
        } else if b0 <= 0xef {
            let long_enough = n - i > 2;
            if long_enough && 0x80 <= s[i + 1] && s[i + 1] <= 0xbf && 0x80 <= s[i + 2] && s[i
                + 2] <= 0xbf {
                let b1 = s[i + 1];
                proof {
                    lemma_width_3_ranges(b0, s@[i + 1], s@[i + 2]);
                }
                if (b0 == 0xe0 && b1 < 0xa0) || (b0 == 0xed && b1 >= 0xa0) {
                    proof {
                        assert(!valid_first_scalar(rem));
                    }
                    return false;
                }
                proof {
                    assert(valid_first_scalar(rem));
                    assert(length_of_first_scalar(rem) == 3);
                    assert(pop_first_scalar(rem) =~= s@.skip(i + 3));
                }
                i = i + 3;
            } else {
                proof {
                    assert(!valid_first_scalar(rem));
                }
                return false;
            }
        } else if b0 <= 0xf4 {
            let long_enough = n - i > 3;
            if long_enough && 0x80 <= s[i + 1] && s[i + 1] <= 0xbf && 0x80 <= s[i + 2] && s[i
                + 2] <= 0xbf && 0x80 <= s[i + 3] && s[i + 3] <= 0xbf {
                let b1 = s[i + 1];
                proof {
                    lemma_width_4_ranges(b0, s@[i + 1], s@[i + 2], s@[i + 3]);
                }
                if (b0 == 0xf0 && b1 < 0x90) || (b0 == 0xf4 && b1 >= 0x90) {
                    proof {
                        assert(!valid_first_scalar(rem));
                    }
                    return false;
                }
                proof {
                    assert(valid_first_scalar(rem));
                    assert(length_of_first_scalar(rem) == 4);
                    assert(pop_first_scalar(rem) =~= s@.skip(i + 4));
                }
                i = i + 4;
            } else {
                proof {
                    assert(!valid_first_scalar(rem));
                }
                return false;
            }
        } else {
            // Lead bytes 0xf5 through 0xf7 encode past the last scalar;
            // 0xf8 and above head no encoding at all.
            proof {
                if b0 <= 0xf7 && rem.len() >= 4 && is_continuation_byte(rem[1])
                    && is_continuation_byte(rem[2]) && is_continuation_byte(rem[3]) {
                    lemma_width_4_ranges(b0, rem[1], rem[2], rem[3]);
                }
                assert(!valid_first_scalar(rem));
            }
            return false;
        }
    }
    proof {
        assert(s@.skip(n as int) =~= Seq::<u8>::empty());
    }
    true
}

/// True when the bytes read as safe text: no control byte other than tab,
/// newline and carriage return, no delete byte, and the whole sequence valid
/// UTF-8.
pub open spec fn safe_text(s: Seq<u8>) -> bool {
    &&& forall|i: int| 0 <= i < s.len() ==> (s[i] >= 32 || s[i] == 9 || s[i] == 10 || s[i] == 13)
    &&& forall|i: int| 0 <= i < s.len() ==> s[i] != 127
    &&& valid_utf8(s)
}

/// Decides whether a byte sequence is safe to hand back as text.
pub fn check_safe_text(data: &[u8]) -> (r: bool)
    ensures
        r == safe_text(data@),
{
    let n: usize = data.len();
    let mut i: usize = 0;
    while i < n
        invariant
            i <= n,
            n == data@.len(),
            forall|j: int|
                0 <= j < i ==> (data@[j] >= 32 || data@[j] == 9 || data@[j] == 10 || data@[j]
                    == 13),
            forall|j: int| 0 <= j < i ==> data@[j] != 127,
        decreases n - i,
    {
        let b = data[i];
        if b < 32 {
            if b != 9 && b != 10 && b != 13 {
                return false;
            }
        } else if b == 127 {
            return false;
        }
        i = i + 1;
    }
    is_valid_utf8(data)
}

} // verus!
