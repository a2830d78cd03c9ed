//! Rendering fingerprints as uppercase hexadecimal text.

use vstd::prelude::*;

verus! {

/// Relies on String::push: it appends the given character to the end of the
/// string.
pub assume_specification[ String::push ](s: &mut String, c: char)
    ensures
        final(s)@ == old(s)@.push(c),
;

/// The uppercase hexadecimal digit for a value below sixteen.
pub open spec fn hex_digit(n: u8) -> char
    recommends
        n < 16,
{
    if n < 10 {
        ((0x30 + n) as char)
    } else {
        ((0x37 + n) as char)
    }
}

/// The uppercase hexadecimal rendering of a byte sequence: two digits for
/// each byte, high nibble first.
pub open spec fn hex_of(s: Seq<u8>) -> Seq<char>
    decreases s.len(),
{
    if s.len() == 0 {
        Seq::empty()
    } else {
        seq![hex_digit(s[0] / 16), hex_digit(s[0] % 16)] + hex_of(s.drop_first())
    }
}

pub proof fn lemma_hex_of_snoc(s: Seq<u8>, i: int)
    requires
        0 <= i < s.len(),
    ensures
        hex_of(s.take(i + 1)) == hex_of(s.take(i)) + seq![
            hex_digit(s[i] / 16),
            hex_digit(s[i] % 16),
        ],
    decreases i,
{
    let a = s.take(i + 1);
    let b = s.take(i);
    if i == 0 {
        assert(b =~= Seq::<u8>::empty());
        assert(a =~= seq![s[0]]);
        assert(a.drop_first() =~= Seq::<u8>::empty());
        assert(hex_of(a) =~= hex_of(b) + seq![hex_digit(s[0] / 16), hex_digit(s[0] % 16)]);
    } else {
        let d = s.drop_first();
        assert(a[0] == s[0] && b[0] == s[0]);
        assert(a.drop_first() =~= d.take(i));
        assert(b.drop_first() =~= d.take(i - 1));
        lemma_hex_of_snoc(d, i - 1);
        assert(d[i - 1] == s[i]);
        assert(hex_of(a) =~= hex_of(b) + seq![hex_digit(s[i] / 16), hex_digit(s[i] % 16)]);
    }
}

/// Renders bytes as uppercase hexadecimal, two digits per byte.
pub fn bytes_to_hex(bytes: &Vec<u8>) -> (s: String)
    ensures
        s@ == hex_of(bytes@),
{
    let mut out = String::new();
    let mut i: usize = 0;
    proof {
        assert(bytes@.take(0) =~= Seq::<u8>::empty());
    }
    while i < bytes.len()
        invariant
            i <= bytes.len(),
            out@ == hex_of(bytes@.take(i as int)),
        decreases bytes.len() - i,
    {
        let b = bytes[i];
        let hi = b / 16;
        let lo = b % 16;
        let c1: char = if hi < 10 {
            ((0x30 + hi) as char)
        } else {
            ((0x37 + hi) as char)
        };
        let c2: char = if lo < 10 {
            ((0x30 + lo) as char)
        } else {
            ((0x37 + lo) as char)
        };
        out.push(c1);
        out.push(c2);
        proof {
            lemma_hex_of_snoc(bytes@, i as int);
            assert(out@ =~= hex_of(bytes@.take(i + 1)));
        }
        i = i + 1;
    }
    proof {
        assert(bytes@.take(bytes@.len() as int) =~= bytes@);
    }
    out
}

} // verus!
