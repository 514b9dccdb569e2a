use vstd::prelude::*;
use vstd::utf8::encode_utf8;
use crate::decode::{DecodeError, dec_named, decode_named};
use crate::encode::{enc_named, encode_named};
use crate::gzip::{gunzip, gunzip_of, gzip, gzip_of};
use crate::roundtrip::lemma_round_trip;
use crate::tag::{Tag, Value, wf};

verus! {

/// A root tag with the name that the wire envelope gives it.
#[derive(Debug)]
pub struct Nbt {
    pub name: String,
    pub tag: Tag,
}

/// Why a tag could not be encoded.
#[derive(Debug, Clone, Copy, PartialEq, Eq, Structural)]
pub enum EncodeError {
    /// `End` is only a terminator and cannot stand as a root value.
    EndRoot,
    /// The tree or its name is not well-formed: see `Tag::is_well_formed`.
    Malformed,
    /// The compressor reported an error.
    Compression,
}

/// The bytes that decoding reads: the decompressed stream when `b` is gzip,
/// else `b` itself.
pub open spec fn unwrapped(b: Seq<u8>) -> Seq<u8> {
    match gunzip_of(b) {
        Some(d) => d,
        None => b,
    }
}

/// The named root at the start of `b`, without its end position.
pub open spec fn decoded(b: Seq<u8>) -> Result<(Seq<char>, Value), DecodeError> {
    match dec_named(b, 0) {
        Ok((nv, _)) => Ok(nv),
        Err(e) => Err(e),
    }
}

impl Nbt {
    pub fn new(name: String, tag: Tag) -> (r: Nbt)
        ensures
            r.name == name,
            r.tag == tag,
    {
        Nbt { name, tag }
    }

    /// Decodes an uncompressed buffer.
    pub fn decode_raw(b: &[u8]) -> (r: Result<Nbt, DecodeError>)
        ensures
            match r {
                Ok(n) => decoded(b@) == Ok::<(Seq<char>, Value), DecodeError>((n.name@, n.tag@))
                    && wf(n.tag@) && encode_utf8(n.name@).len() <= 65535,
                Err(e) => decoded(b@) == Err::<(Seq<char>, Value), DecodeError>(e),
            },
    {
        match decode_named(b) {
            Ok((name, tag)) => Ok(Nbt { name, tag }),
            Err(e) => Err(e),
        }
    }

    /// Decodes a buffer that is either a gzip stream or raw wire bytes: when
    /// decompression fails the bytes are read as they are.
    pub fn decode(src: &[u8]) -> (r: Result<Nbt, DecodeError>)
        ensures
            match r {
                Ok(n) => decoded(unwrapped(src@)) == Ok::<(Seq<char>, Value), DecodeError>(
                    (n.name@, n.tag@),
                ) && wf(n.tag@) && encode_utf8(n.name@).len() <= 65535,
                Err(e) => decoded(unwrapped(src@)) == Err::<(Seq<char>, Value), DecodeError>(e),
            },
    {
        match gunzip(src) {
            Some(d) => Nbt::decode_raw(d.as_slice()),
            None => Nbt::decode_raw(src),
        }
    }

    /// Encodes this root, gzip-compressed when `compress` holds.
    pub fn encode(&self, compress: bool) -> (r: Result<Vec<u8>, EncodeError>)
        ensures
            self.tag is End ==> r == Err::<Vec<u8>, EncodeError>(EncodeError::EndRoot),
            !(self.tag is End) && !(wf(self.tag@) && encode_utf8(self.name@).len() <= 65535)
                ==> r == Err::<Vec<u8>, EncodeError>(EncodeError::Malformed),
            r matches Err(EncodeError::Compression) ==> compress,
            r matches Ok(v) ==> v@ == if compress {
                gzip_of(enc_named(self.name@, self.tag@))
            } else {
                enc_named(self.name@, self.tag@)
            },
            !compress && !(self.tag is End) && wf(self.tag@) && encode_utf8(self.name@).len()
                <= 65535 ==> r is Ok,
    {
        if let Tag::End = self.tag {
            return Err(EncodeError::EndRoot);
        }
        if self.name.as_str().as_bytes().len() > 65535 || !self.tag.is_well_formed() {
            return Err(EncodeError::Malformed);
        }
        let mut out: Vec<u8> = Vec::new();
        encode_named(&mut out, self.name.as_str(), &self.tag);
        assert(out@ =~= enc_named(self.name@, self.tag@));
        if compress {
            match gzip(out.as_slice()) {
                Some(z) => Ok(z),
                None => Err(EncodeError::Compression),
            }
        } else {
            Ok(out)
        }
    }
}

/// Decoding the bytes that `encode(false)` gives for a well-formed root
/// yields that root again, so that encoding the decoded root gives the same
/// bytes.
pub proof fn lemma_binary_round_trip(name: Seq<char>, v: Value)
    requires
        wf(v),
        !(v is End),
        encode_utf8(name).len() <= 65535,
    ensures
        decoded(enc_named(name, v)) == Ok::<(Seq<char>, Value), DecodeError>((name, v)),
        decoded(enc_named(name, v)) matches Ok((n, w)) && enc_named(n, w) == enc_named(name, v),
{
    lemma_round_trip(name, v);
}

/// A gzip stream and the bytes it decompresses to decode to the same root,
/// provided those bytes are not themselves a gzip stream.
pub proof fn lemma_compression_transparent(c: Seq<u8>, d: Seq<u8>)
    requires
        gunzip_of(c) == Some(d),
        gunzip_of(d) is None,
    ensures
        decoded(unwrapped(c)) == decoded(unwrapped(d)),
{
}

} // verus!
