//! The query cache's text key.
use vstd::prelude::*;
use std::collections::hash_map::DefaultHasher;
use std::hash::Hasher;
use vstd::std_specs::hash::DefaultHasherAdditionalSpecFns;
use vstd::string::StringSliceAdditionalSpecFns;

verus! {

/// What hashing a string feeds the hasher: its UTF-8 bytes, then the `0xFF`
/// terminator `str` hashing appends so that keys stay prefix-free.
pub open spec fn text_hash_writes(text: &str) -> Seq<Seq<u8>> {
    seq![text.spec_bytes(), seq![0xFFu8]]
}

/// The std `DefaultHasher` digest of `text`, as `text.hash(&mut h)` computes
/// it.
pub fn hash_text(text: &str) -> (h: u64)
    ensures
        h == DefaultHasher::spec_finish(text_hash_writes(text)),
{
    let mut hasher = DefaultHasher::new();
    hasher.write(text.as_bytes());
    let term: Vec<u8> = vec![0xFFu8];
    assert(term@ =~= seq![0xFFu8]);
    hasher.write(term.as_slice());
    assert(hasher@ =~= text_hash_writes(text));
    hasher.finish()
}

} // verus!
