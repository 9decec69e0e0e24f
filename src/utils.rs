use std::collections::hash_map::DefaultHasher;
use std::hash::Hasher;
use vstd::prelude::*;
use vstd::std_specs::hash::DefaultHasherAdditionalSpecFns;
use vstd::utf8::encode_utf8;
use crate::record::le64;

verus! {

/// The hash of a token: what `DefaultHasher` yields for the bytes that a
/// `str` feeds it (its UTF-8 bytes, then the terminator byte `0xff`).
pub open spec fn token_hash(w: Seq<char>) -> u64 {
    DefaultHasher::spec_finish(seq![encode_utf8(w), seq![0xffu8]])
}

/// The hash of a token under a salt, used to split a bucket again: the
/// token's bytes as above, then the salt's eight little-endian bytes.
pub open spec fn salted_token_hash(w: Seq<char>, salt: u64) -> u64 {
    DefaultHasher::spec_finish(seq![encode_utf8(w), seq![0xffu8], le64(salt)])
}

/// The bucket that a token goes to at a partition level: the plain hash at
/// level zero, the hash salted with the level below it.
pub open spec fn route(w: Seq<char>, level: u64, count: u64) -> int {
    if level == 0 {
        (token_hash(w) % count) as int
    } else {
        (salted_token_hash(w, level) % count) as int
    }
}

/// Hashes a token with the standard library's default hasher, feeding the
/// same bytes as `Hash for str` does.
pub fn hash(t: &String) -> (r: u64)
    ensures
        r == token_hash(t@),
{
    let mut hasher = DefaultHasher::new();
    hasher.write(t.as_str().as_bytes());
    let end: [u8; 1] = [0xffu8];
    hasher.write(end.as_slice());
    proof {
        assert(end@ =~= seq![0xffu8]);
        assert(hasher@ =~= seq![encode_utf8(t@), seq![0xffu8]]);
    }
    hasher.finish()
}

/// Hashes a token under a salt.
pub fn salted_hash(t: &String, salt: u64) -> (r: u64)
    ensures
        r == salted_token_hash(t@, salt),
{
    let mut hasher = DefaultHasher::new();
    hasher.write(t.as_str().as_bytes());
    let end: [u8; 1] = [0xffu8];
    hasher.write(end.as_slice());
    let s: [u8; 8] = [
        salt as u8,
        (salt >> 8) as u8,
        (salt >> 16) as u8,
        (salt >> 24) as u8,
        (salt >> 32) as u8,
        (salt >> 40) as u8,
        (salt >> 48) as u8,
        (salt >> 56) as u8,
    ];
    hasher.write(s.as_slice());
    proof {
        assert(end@ =~= seq![0xffu8]);
        assert(s@ =~= le64(salt));
        assert(hasher@ =~= seq![encode_utf8(t@), seq![0xffu8], le64(salt)]);
    }
    hasher.finish()
}

/// The bucket of `word` among `count` at partition level `level`.
pub fn bucket_index(word: &String, level: u64, count: u64) -> (r: usize)
    requires
        0 < count <= usize::MAX,
    ensures
        r as int == route(word@, level, count),
        r < count,
{
    let h = if level == 0 {
        hash(word)
    } else {
        salted_hash(word, level)
    };
    (h % count) as usize
}

} // verus!
