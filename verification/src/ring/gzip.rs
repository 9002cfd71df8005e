//! Decompression of the stored stream.

use vstd::prelude::*;

verus! {

#[verifier::external_type_specification]
#[verifier::external_body]
pub struct ExIoError(std::io::Error);

/// What the first gzip member of `compressed` inflates to, or `None` where
/// `compressed` is not a complete, intact gzip member.
pub uninterp spec fn gunzip_output(compressed: Seq<u8>) -> Option<Seq<u8>>;

/// Inflates `compressed` with `flate2::read::GzDecoder`, read to its end.
///
/// Nothing is claimed of the bytes that come out but that they are a
/// function of the bytes that went in: the result is `gunzip_output`, and an
/// error stands for its `None`.
#[verifier::external_body]
pub(crate) fn gunzip(compressed: &[u8]) -> (r: Result<Vec<u8>, std::io::Error>)
    ensures
        match r {
            Ok(payload) => gunzip_output(compressed@) == Some(payload@),
            Err(_) => gunzip_output(compressed@) is None,
        },
{
    let mut payload = Vec::new();
    let mut decoder = flate2::read::GzDecoder::new(compressed);
    match std::io::Read::read_to_end(&mut decoder, &mut payload) {
        Ok(_) => Ok(payload),
        Err(e) => Err(e),
    }
}

} // verus!
