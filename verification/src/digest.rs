use vstd::prelude::*;
use std::collections::hash_map::DefaultHasher;
use std::hash::Hasher;
use vstd::std_specs::hash::DefaultHasherAdditionalSpecFns;

verus! {

/// The digest of an author label: the 64-bit value that a fresh
/// `DefaultHasher` yields after one write of the label's UTF-8 bytes.
/// Same label, same digest, in every call.
pub open spec fn digest_of(label: Seq<char>) -> u64 {
    DefaultHasher::spec_finish(Seq::<Seq<u8>>::empty().push(vstd::utf8::encode_utf8(label)))
}

/// Digest one author label.
pub fn digest(label: &str) -> (r: u64)
    ensures
        r == digest_of(label@),
{
    let mut hasher = DefaultHasher::new();
    hasher.write(label.as_bytes());
    hasher.finish()
}

/// Hashing is deterministic: the same label always yields the same digest.
pub proof fn lemma_digest_deterministic(a: Seq<char>, b: Seq<char>)
    requires
        a == b,
    ensures
        digest_of(a) == digest_of(b),
{
}

} // verus!
