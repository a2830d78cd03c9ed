//! The digest primitive and the domain-separation salts.
//!
//! `sha256_of` names the SHA-256 digest of a byte sequence; the one trusted
//! wrapper below computes it. Everything else in the crate speaks of digests
//! only through that name.

use vstd::prelude::*;

verus! {

/// The SHA-256 digest of a byte sequence. The result is a function of the
/// bytes alone; its content is stated nowhere, only computed by `sha256`.
pub uninterp spec fn sha256_of(data: Seq<u8>) -> Seq<u8>;

/// Relies on sha2::Sha256::digest (the RustCrypto SHA-256): the digest is a
/// function of the input bytes alone and is 32 bytes long.
#[verifier::external_body]
pub fn sha256(data: &Vec<u8>) -> (r: Vec<u8>)
    ensures
        r@ == sha256_of(data@),
        r@.len() == 32,
{
    <sha2::Sha256 as sha2::Digest>::digest(data.as_slice()).to_vec()
}

/// The salt prefixed to every directory digest: the bytes of `"6aIecn4M7VoB"`.
pub open spec fn salt_dir() -> Seq<u8> {
    seq![0x36u8, 0x61u8, 0x49u8, 0x65u8, 0x63u8, 0x6eu8, 0x34u8, 0x4du8, 0x37u8, 0x56u8, 0x6fu8, 0x42u8]
}

/// The salt prefixed to every symlink digest: the bytes of `"RXqENRdyGIpE"`.
pub open spec fn salt_symlink() -> Seq<u8> {
    seq![0x52u8, 0x58u8, 0x71u8, 0x45u8, 0x4eu8, 0x52u8, 0x64u8, 0x79u8, 0x47u8, 0x49u8, 0x70u8, 0x45u8]
}

/// The directory salt, as a buffer ready for hashing.
pub fn salt_dir_vec() -> (v: Vec<u8>)
    ensures
        v@ == salt_dir(),
{
    let mut v: Vec<u8> = Vec::new();
    v.push(0x36u8);
    v.push(0x61u8);
    v.push(0x49u8);
    v.push(0x65u8);
    v.push(0x63u8);
    v.push(0x6eu8);
    v.push(0x34u8);
    v.push(0x4du8);
    v.push(0x37u8);
    v.push(0x56u8);
    v.push(0x6fu8);
    v.push(0x42u8);
    proof {
        assert(v@ =~= salt_dir());
    }
    v
}

/// The symlink salt, as a buffer ready for hashing.
pub fn salt_symlink_vec() -> (v: Vec<u8>)
    ensures
        v@ == salt_symlink(),
{
    let mut v: Vec<u8> = Vec::new();
    v.push(0x52u8);
    v.push(0x58u8);
    v.push(0x71u8);
    v.push(0x45u8);
    v.push(0x4eu8);
    v.push(0x52u8);
    v.push(0x64u8);
    v.push(0x79u8);
    v.push(0x47u8);
    v.push(0x49u8);
    v.push(0x70u8);
    v.push(0x45u8);
    proof {
        assert(v@ =~= salt_symlink());
    }
    v
}

/// The two salts differ, so directory and symlink digest inputs never collide.
pub proof fn lemma_salts_distinct()
    ensures
        salt_dir() != salt_symlink(),
{
    assert(salt_dir()[0] == 0x36u8);
    assert(salt_symlink()[0] == 0x52u8);
}

/// Directory and symlink digest inputs can never coincide: the two salts
/// part ways at their first byte.
pub proof fn lemma_symlink_dir_inputs_differ(target: Seq<u8>, body: Seq<u8>)
    ensures
        salt_symlink() + target != salt_dir() + body,
{
    assert((salt_symlink() + target)[0] == 0x52u8);
    assert((salt_dir() + body)[0] == 0x36u8);
}

/// A file's digest input is its bare content, so it parts ways with every
/// symlink's digest input as long as the content does not itself begin with
/// the symlink salt. A file whose content is exactly the salt followed by a
/// target shares the symlink's digest input — the salt separates the kinds
/// only up to that deliberate collision.
pub proof fn lemma_unsalted_file_input_differs(content: Seq<u8>, target: Seq<u8>)
    requires
        content.len() < 12 || content.subrange(0, 12) != salt_symlink(),
    ensures
        content != salt_symlink() + target,
{
    if content == salt_symlink() + target {
        assert(content.len() >= 12);
        assert(content.subrange(0, 12) =~= salt_symlink());
    }
}

/// Appends `src` to `dst`, byte for byte.
pub fn append_bytes(dst: &mut Vec<u8>, src: &Vec<u8>)
    ensures
        final(dst)@ == old(dst)@ + src@,
{
    let ghost start = dst@;
    let mut i: usize = 0;
    while i < src.len()
        invariant
            i <= src.len(),
            dst@ == start + src@.subrange(0, i as int),
        decreases src.len() - i,
    {
        dst.push(src[i]);
        i = i + 1;
        proof {
            assert(start + src@.subrange(0, i - 1 as int) + seq![src@[i - 1]] =~= start
                + src@.subrange(0, i as int));
        }
    }
    proof {
        assert(start + src@.subrange(0, src@.len() as int) =~= start + src@);
    }
}

/// Copies a byte vector.
pub fn clone_bytes(src: &Vec<u8>) -> (r: Vec<u8>)
    ensures
        r@ == src@,
{
    let mut r: Vec<u8> = Vec::new();
    append_bytes(&mut r, src);
    proof {
        assert(Seq::<u8>::empty() + src@ =~= src@);
    }
    r
}

} // verus!
