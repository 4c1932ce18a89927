use vstd::prelude::*;

use crate::parse::{body_parses, decode_lines, is_parse_of, spec_lines};
use crate::record::Pixel;
use crate::Error;

verus! {

/// What gzip decompression plus UTF-8 decoding yields for the given bytes:
/// the decompressed text, or nothing when the bytes are not a valid gzip
/// stream or do not decompress to UTF-8 text. A function of the bytes alone.
pub uninterp spec fn gunzip_of(bytes: Seq<u8>) -> Option<Seq<char>>;

/// Relies on flate2's `read::GzDecoder` (driven by std's
/// `Read::read_to_string`): decompresses the gzip stream `data` into text,
/// failing exactly when the stream is corrupt or the output is not UTF-8;
/// the result depends on the input bytes alone.
#[verifier::external_body]
fn gunzip(data: &Vec<u8>) -> (r: Option<Vec<char>>)
    ensures
        match r {
            Some(v) => gunzip_of(data@) == Some(v@),
            None => gunzip_of(data@) is None,
        },
{
    let mut decoder = flate2::read::GzDecoder::new(data.as_slice());
    let mut text = String::new();
    match std::io::Read::read_to_string(&mut decoder, &mut text) {
        Ok(_) => Some(text.chars().collect()),
        Err(_) => None,
    }
}

/// Decode one shard's raw gzip bytes into its event records: decompress,
/// skip the CSV header line, and parse every remaining line. Fails with
/// `Io` when decompression fails and with `Deserialize` when any line is
/// malformed; otherwise returns exactly one record per line.
pub fn decode(data: &Vec<u8>) -> (r: Result<Vec<Pixel>, Error>)
    ensures
        ({
            match gunzip_of(data@) {
                None => r == Result::<Vec<Pixel>, Error>::Err(Error::Io),
                Some(text) => {
                    let ls = spec_lines(text);
                    match r {
                        Ok(ps) => {
                            &&& body_parses(ls)
                            &&& ps@.len() == (if ls.len() == 0 {
                                0int
                            } else {
                                ls.len() - 1
                            })
                            &&& forall|i: int|
                                0 <= i < ps@.len() ==> is_parse_of(#[trigger] ps@[i], ls[i + 1])
                        },
                        Err(e) => e == Error::Deserialize && !body_parses(ls),
                    }
                },
            }
        }),
{
    match gunzip(data) {
        None => Err(Error::Io),
        Some(text) => decode_lines(&text),
    }
}

} // verus!
