//! Validity of names and symlink targets as text.
//!
//! A name or target is representable as text exactly when its bytes are
//! well-formed UTF-8; anything else is reported as an encoding failure.

use vstd::prelude::*;

verus! {

/// A UTF-8 continuation byte.
pub open spec fn utf8_cont(b: u8) -> bool {
    0x80 <= b < 0xC0
}

/// Well-formed UTF-8: the shortest-form encodings of the Unicode scalar
/// values, one to four bytes each, surrogates excluded.
pub open spec fn is_valid_utf8(s: Seq<u8>) -> bool
    decreases s.len(),
{
    if s.len() == 0 {
        true
    } else {
        let b0 = s[0];
        if b0 < 0x80 {
            is_valid_utf8(s.drop_first())
        } else if 0xC2 <= b0 && b0 <= 0xDF {
            s.len() >= 2 && utf8_cont(s[1]) && is_valid_utf8(s.skip(2))
        } else if b0 == 0xE0 {
            s.len() >= 3 && 0xA0 <= s[1] && s[1] < 0xC0 && utf8_cont(s[2]) && is_valid_utf8(
                s.skip(3),
            )
        } else if b0 == 0xED {
            s.len() >= 3 && 0x80 <= s[1] && s[1] < 0xA0 && utf8_cont(s[2]) && is_valid_utf8(
                s.skip(3),
            )
        } else if (0xE1 <= b0 && b0 <= 0xEF) && b0 != 0xED {
            s.len() >= 3 && utf8_cont(s[1]) && utf8_cont(s[2]) && is_valid_utf8(s.skip(3))
        } else if b0 == 0xF0 {
            s.len() >= 4 && 0x90 <= s[1] && s[1] < 0xC0 && utf8_cont(s[2]) && utf8_cont(s[3])
                && is_valid_utf8(s.skip(4))
        } else if 0xF1 <= b0 && b0 <= 0xF3 {
            s.len() >= 4 && utf8_cont(s[1]) && utf8_cont(s[2]) && utf8_cont(s[3])
                && is_valid_utf8(s.skip(4))
        } else if b0 == 0xF4 {
            s.len() >= 4 && 0x80 <= s[1] && s[1] < 0x90 && utf8_cont(s[2]) && utf8_cont(s[3])
                && is_valid_utf8(s.skip(4))
        } else {
            false
        }
    }
}

/// Checks that a byte vector is well-formed UTF-8, the executable form of
/// `is_valid_utf8`.
pub fn is_valid_utf8_exec(s: &Vec<u8>) -> (r: bool)
    ensures
        r == is_valid_utf8(s@),
{
    let n = s.len();
    let mut i: usize = 0;
    proof {
        assert(s@.skip(0) =~= s@);
    }
    while i < n
        invariant
            n == s.len(),
            i <= n,
            is_valid_utf8(s@) == is_valid_utf8(s@.skip(i as int)),
        decreases n - i,
    {
        let ghost t = s@.skip(i as int);
        proof {
            assert(t.len() == n - i);
            assert(t[0] == s@[i as int]);
            assert(forall|k: int| 0 <= k < t.len() ==> t[k] == s@[i + k]);
        }
        let b0 = s[i];
        if b0 < 0x80 {
            proof {
                assert(t.drop_first() =~= s@.skip(i + 1));
            }
            i = i + 1;
        } else if b0 < 0xC2 {
            return false;
        } else if b0 <= 0xDF {
            if n - i < 2 {
                return false;
            }
            let b1 = s[i + 1];
            if !(0x80 <= b1 && b1 < 0xC0) {
                return false;
            }
            proof {
                assert(t.skip(2) =~= s@.skip(i + 2));
            }
            i = i + 2;
        } else if b0 <= 0xEF {
            if n - i < 3 {
                return false;
            }
            let b1 = s[i + 1];
            let b2 = s[i + 2];
            let lo: u8 = if b0 == 0xE0 {
                0xA0
            } else {
                0x80
            };
            let hi: u8 = if b0 == 0xED {
                0xA0
            } else {
                0xC0
            };
            if !(lo <= b1 && b1 < hi) {
                return false;
            }
            if !(0x80 <= b2 && b2 < 0xC0) {
                return false;
            }
            proof {
                assert(t.skip(3) =~= s@.skip(i + 3));
            }
            i = i + 3;
        } else if b0 <= 0xF4 {
            if n - i < 4 {
                return false;
            }
            let b1 = s[i + 1];
            let b2 = s[i + 2];
            let b3 = s[i + 3];
            let lo: u8 = if b0 == 0xF0 {
                0x90
            } else {
                0x80
            };
            let hi: u8 = if b0 == 0xF4 {
                0x90
            } else {
                0xC0
            };
            if !(lo <= b1 && b1 < hi) {
                return false;
            }
            if !(0x80 <= b2 && b2 < 0xC0) {
                return false;
            }
            if !(0x80 <= b3 && b3 < 0xC0) {
                return false;
            }
            proof {
                assert(t.skip(4) =~= s@.skip(i + 4));
            }
            i = i + 4;
        } else {
            return false;
        }
    }
    proof {
        assert(s@.skip(n as int) =~= Seq::<u8>::empty());
    }
    true
}

} // verus!
