use vstd::prelude::*;

verus! {

/// What a gzip decoder makes of `b`: the decompressed bytes, or `None` when
/// `b` is not a gzip stream.
pub uninterp spec fn gunzip_of(b: Seq<u8>) -> Option<Seq<u8>>;

/// The gzip stream that the default compression level makes of `b`.
pub uninterp spec fn gzip_of(b: Seq<u8>) -> Seq<u8>;

/// Relies on `flate2::read::GzDecoder` read to its end: the decompressed
/// bytes, or `None` when flate2 reports an error.
#[verifier::external_body]
pub(crate) fn gunzip(b: &[u8]) -> (r: Option<Vec<u8>>)
    ensures
        match r {
            Some(v) => gunzip_of(b@) == Some(v@),
            None => gunzip_of(b@) is None,
        },
{
    let mut out = Vec::new();
    match std::io::Read::read_to_end(&mut flate2::read::GzDecoder::new(b), &mut out) {
        Ok(_) => Some(out),
        Err(_) => None,
    }
}

/// Relies on `flate2::write::GzEncoder` at `Compression::default()`, whose
/// header carries no time stamp, so that equal input gives equal output.
#[verifier::external_body]
pub(crate) fn gzip(b: &[u8]) -> (r: Option<Vec<u8>>)
    ensures
        r matches Some(v) ==> v@ == gzip_of(b@),
{
    let mut gz = flate2::write::GzEncoder::new(Vec::new(), flate2::Compression::default());
    match std::io::Write::write_all(&mut gz, b) {
        Ok(_) => {},
        Err(_) => return None,
    }
    match gz.finish() {
        Ok(v) => Some(v),
        Err(_) => None,
    }
}

} // verus!
