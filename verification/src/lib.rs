mod decode;
mod digest;
mod index;
mod names;
mod parse;
mod record;
mod text;

pub use decode::{decode, gunzip_of};
pub use digest::{digest, digest_of, lemma_digest_deterministic};
pub use index::{
    build_index, lemma_fold_dom, lemma_fold_frame, lemma_fold_hit, lemma_merge_commutes,
    lemma_merge_disjoint, merge_all, UserIndex,
};
pub use names::{cache_file_name, lemma_cache_name_injective, shard_url};
pub use parse::{decode_lines, parse_color, parse_fill, parse_line, parse_timestamp, parse_u32};
pub use record::{days_in_month, is_leap_year, Fill, Pixel, Timestamp};
pub use text::string_of_chars;

use vstd::prelude::*;

verus! {

/// Total number of dataset shards; valid shard indices are `0 .. NUM_FILES`.
pub const NUM_FILES: usize = 78;

/// Everything that can go wrong while loading and decoding one shard.
#[derive(Clone, Copy, Debug, PartialEq, Eq, Structural)]
pub enum Error {
    /// The requested shard index is outside `0 .. NUM_FILES`.
    NonexistentFile,
    /// A local filesystem or decompression failure.
    Io,
    /// A network fetch failure.
    Web,
    /// Some line of the decompressed CSV did not match the record grammar.
    Deserialize,
}

/// True exactly for the shard indices this dataset has.
pub fn shard_exists(num: usize) -> (r: bool)
    ensures
        r == (num < NUM_FILES),
{
    num < NUM_FILES
}

} // verus!
