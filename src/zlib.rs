//! zlib streams, through libflate.
use vstd::prelude::*;

verus! {

/// What a zlib stream inflates to, or `None` when it is not one.
pub uninterp spec fn zlib_inflated(b: Seq<u8>) -> Option<Seq<u8>>;

/// The zlib stream that libflate's encoder, with default options, makes of `b`.
pub uninterp spec fn zlib_deflated(b: Seq<u8>) -> Seq<u8>;

/// The zlib stream that libflate's encoder makes of `b` with compression switched off.
pub uninterp spec fn zlib_stored(b: Seq<u8>) -> Seq<u8>;

/// Relies on `libflate::zlib::Decoder` read to the end: the outcome depends on the bytes
/// alone.
#[verifier::external_body]
pub(crate) fn inflate(b: &[u8]) -> (r: Option<Vec<u8>>)
    ensures
        r matches Some(v) ==> zlib_inflated(b@) == Some(v@),
        r is None ==> zlib_inflated(b@) is None,
{
    let mut out = Vec::new();
    match libflate::zlib::Decoder::new(b) {
        Ok(mut d) => match std::io::Read::read_to_end(&mut d, &mut out) {
            Ok(_) => Some(out),
            Err(_) => None,
        },
        Err(_) => None,
    }
}

/// Relies on `libflate::zlib::Encoder::new`, `write_all` and `finish`: they fail only when
/// the inner writer fails, which a `Vec` never does; the stream depends on the bytes alone,
/// and libflate's decoder inflates it back to them.
#[verifier::external_body]
pub(crate) fn deflate(b: &[u8]) -> (r: Result<Vec<u8>, std::io::Error>)
    ensures
        r is Ok,
        r matches Ok(v) ==> v@ == zlib_deflated(b@) && zlib_inflated(v@) == Some(b@),
{
    let mut enc = libflate::zlib::Encoder::new(Vec::new())?;
    std::io::Write::write_all(&mut enc, b)?;
    enc.finish().into_result()
}

/// Relies on `libflate::zlib::Encoder::with_options` with `EncodeOptions::no_compression`,
/// then `write_all` and `finish`: they fail only when the inner writer fails, which a `Vec`
/// never does; the stream depends on the bytes alone, and libflate's decoder inflates it back
/// to them.
#[verifier::external_body]
pub(crate) fn deflate_stored(b: &[u8]) -> (r: Result<Vec<u8>, std::io::Error>)
    ensures
        r is Ok,
        r matches Ok(v) ==> v@ == zlib_stored(b@) && zlib_inflated(v@) == Some(b@),
{
    let options = libflate::zlib::EncodeOptions::new().no_compression();
    let mut enc = libflate::zlib::Encoder::with_options(Vec::new(), options)?;
    std::io::Write::write_all(&mut enc, b)?;
    enc.finish().into_result()
}

} // verus!
