use vstd::prelude::*;

use crate::text::push_char;
use crate::NUM_FILES;
use vstd::string::StringExecFns;

verus! {

pub open spec fn spec_digit_char(d: int) -> char {
    ((48 + d) as u8) as char
}

fn digit_char(d: usize) -> (c: char)
    requires
        d < 10,
    ensures
        c == spec_digit_char(d as int),
{
    (48 + d as u8) as char
}

/// The remote resource for a shard: a fixed path with the shard index as a
/// zero-padded twelve-digit decimal field.
pub open spec fn spec_shard_url(num: int) -> Seq<char> {
    "https://placedata.reddit.com/data/canvas-history/2022_place_canvas_history-0000000000"@
        + seq![spec_digit_char(num / 10), spec_digit_char(num % 10)] + ".csv.gzip"@
}

/// The cache file for a shard: a fixed name with the shard index as a
/// zero-padded two-digit decimal field.
pub open spec fn spec_cache_file_name(num: int) -> Seq<char> {
    "canvas_"@ + seq![spec_digit_char(num / 10), spec_digit_char(num % 10)] + ".csv.gzip"@
}

/// URL of shard `num`, templated exactly as `spec_shard_url` says.
pub fn shard_url(num: usize) -> (r: String)
    requires
        num < NUM_FILES,
    ensures
        r@ == spec_shard_url(num as int),
{
    let mut s: String =
        "https://placedata.reddit.com/data/canvas-history/2022_place_canvas_history-0000000000".to_owned();
    push_char(&mut s, digit_char(num / 10));
    push_char(&mut s, digit_char(num % 10));
    let r = s.concat(".csv.gzip");
    proof {
        assert(r@ =~= spec_shard_url(num as int));
    }
    r
}

/// Cache file name of shard `num`, templated exactly as
/// `spec_cache_file_name` says. The name is injective in the shard index,
/// so concurrent shard tasks never touch each other's cache files.
pub fn cache_file_name(num: usize) -> (r: String)
    requires
        num < NUM_FILES,
    ensures
        r@ == spec_cache_file_name(num as int),
{
    let mut s: String = "canvas_".to_owned();
    push_char(&mut s, digit_char(num / 10));
    push_char(&mut s, digit_char(num % 10));
    let r = s.concat(".csv.gzip");
    proof {
        assert(r@ =~= spec_cache_file_name(num as int));
    }
    r
}

/// Distinct shards have distinct cache file names: the two digit
/// characters decide, and they decode the shard index uniquely.
pub proof fn lemma_cache_name_injective(a: int, b: int)
    requires
        0 <= a < NUM_FILES,
        0 <= b < NUM_FILES,
        a != b,
    ensures
        spec_cache_file_name(a) != spec_cache_file_name(b),
{
    let sa = spec_cache_file_name(a);
    let sb = spec_cache_file_name(b);
    reveal_strlit("canvas_");
    reveal_strlit(".csv.gzip");
    if a / 10 == b / 10 {
        assert(a % 10 != b % 10);
        assert(sa[8] != sb[8]);
    } else {
        assert(sa[7] != sb[7]);
    }
}

} // verus!
